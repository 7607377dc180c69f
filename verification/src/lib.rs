//! Heterogeneous key-value stores with runtime-checked recovery of the
//! stored type.
//!
//! The central type is [`TraitTypeMap`], a keyed table whose every entry is a
//! *dual-view entry*: one logical value materialized as two independent
//! type-erased cells, one recoverable under the exact concrete type it was
//! stored with and one recoverable under the capability interface it was
//! registered against. Type identity is carried by an explicit, process-stable
//! [`TypeTag`] assigned per type by the application; every recovery is gated on
//! tag equality, so a request under the wrong tag is refused outright rather
//! than answered with a reinterpreted value.
//!
//! [`TypeMapV`] is the plain homogeneous companion: a keyed table whose values
//! all share one declared type, with the same closure-based access style and
//! the same error taxonomy.
//!
//! Both stores are verified sequential cores. Their contracts speak of a
//! [`Map`](vstd::map::Map) view from deep key views to stored entries, and the
//! laws in [`laws`] state the store-wide guarantees (round trip, type
//! isolation, overwrite, removal) over that same view. A shell that shares one
//! store between threads behind an exclusive lock can surface lock failure as
//! [`MapError::LockError`]; the sequential core itself never reports it.

pub mod cell;
pub mod entry;
pub mod error;
pub mod key;
pub mod laws;
pub mod tag;
pub mod traits;
pub mod typed;

mod table;

pub use cell::AnyValue;
pub use cell::CellView;
pub use entry::EntryView;
pub use entry::TypeMapValue;
pub use error::MapError;
pub use tag::TypeTag;
pub use traits::TraitTypeMap;
pub use typed::TypeMapV;
