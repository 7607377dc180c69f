use vstd::prelude::*;

use crate::cell::CellView;
use crate::entry::EntryView;
use crate::tag::TypeTag;
use crate::traits::capability_recovery;
use crate::traits::concrete_recovery;
use crate::traits::Recovery;

verus! {

/// Round trip: inserting an entry and recovering its concrete view under
/// the very tag it was stored with yields exactly the stored payload,
/// whatever the store held before.
pub proof fn lemma_round_trip<KV, P>(m: Map<KV, EntryView<P>>, kv: KV, e: EntryView<P>)
    ensures
        concrete_recovery(m.insert(kv, e), kv, e.concrete.tag) == Recovery::Value(
            e.concrete.payload,
        ),
{
}

/// Type isolation: after storing an entry, a concrete-view request under
/// any tag other than the recorded concrete identity is refused with a
/// mismatch — never answered with a reinterpreted or coerced value.
pub proof fn lemma_type_isolation<KV, P>(
    m: Map<KV, EntryView<P>>,
    kv: KV,
    e: EntryView<P>,
    tag: TypeTag,
)
    requires
        tag != e.concrete.tag,
    ensures
        concrete_recovery(m.insert(kv, e), kv, tag) == Recovery::<P>::Mismatch,
{
}

/// Capability isolation: a capability-view request under any tag other
/// than the capability identity recorded at insertion is refused with a
/// mismatch. The statement holds for every recorded concrete identity,
/// so it holds in particular when the concrete value happens to provide
/// the requested capability too: only the recorded identity is honored.
pub proof fn lemma_capability_isolation<KV, P>(
    m: Map<KV, EntryView<P>>,
    kv: KV,
    e: EntryView<P>,
    tag: TypeTag,
)
    requires
        tag != e.capability.tag,
    ensures
        capability_recovery(m.insert(kv, e), kv, tag) == Recovery::<P>::Mismatch,
{
}

/// Absence: under a key that is not in the store, every recovery — under
/// any tag, through either view — reports a missing key, never a default
/// value.
pub proof fn lemma_absence<KV, P>(m: Map<KV, EntryView<P>>, kv: KV, tag: TypeTag)
    requires
        !m.contains_key(kv),
    ensures
        concrete_recovery(m, kv, tag) == Recovery::<P>::Missing,
        capability_recovery(m, kv, tag) == Recovery::<P>::Missing,
{
}

/// Overwrite: inserting twice under one key leaves exactly the state of
/// the second insertion — the first entry, both of its views included,
/// is discarded entirely — and the count is unchanged by an overwrite,
/// grown only by a genuinely new key.
pub proof fn lemma_overwrite<KV, P>(m: Map<KV, EntryView<P>>, kv: KV, e1: EntryView<P>, e2: EntryView<P>)
    requires
        m.dom().finite(),
    ensures
        m.insert(kv, e1).insert(kv, e2) == m.insert(kv, e2),
        m.contains_key(kv) ==> m.insert(kv, e2).dom().len() == m.dom().len(),
        !m.contains_key(kv) ==> m.insert(kv, e2).dom().len() == m.dom().len() + 1,
{
    broadcast use vstd::set::group_set_axioms;

    assert(m.insert(kv, e1).insert(kv, e2) =~= m.insert(kv, e2));
    assert(m.insert(kv, e2).dom() =~= m.dom().insert(kv));
}

/// Removal idempotence: after a removal the key is gone — every further
/// recovery under it reports a missing key — and removing it again
/// changes nothing, so a second removal reports absence.
pub proof fn lemma_removal_idempotence<KV, P>(m: Map<KV, EntryView<P>>, kv: KV, tag: TypeTag)
    ensures
        !m.remove(kv).contains_key(kv),
        m.remove(kv).remove(kv) == m.remove(kv),
        concrete_recovery(m.remove(kv), kv, tag) == Recovery::<P>::Missing,
        capability_recovery(m.remove(kv), kv, tag) == Recovery::<P>::Missing,
{
    assert(m.remove(kv).remove(kv) =~= m.remove(kv));
}

/// The store after `n` increments of the numeric concrete payload at
/// `kv`, each one the exact map rewrite that a mutation through the
/// concrete view performs.
pub open spec fn after_increments<KV>(m: Map<KV, EntryView<int>>, kv: KV, n: nat) -> Map<
    KV,
    EntryView<int>,
>
    decreases n,
{
    if n == 0 {
        m
    } else {
        let prior = after_increments(m, kv, (n - 1) as nat);
        prior.insert(
            kv,
            (EntryView {
                concrete: CellView {
                    tag: prior[kv].concrete.tag,
                    payload: prior[kv].concrete.payload + 1,
                },
                capability: prior[kv].capability,
            }),
        )
    }
}

/// No lost updates: `n` increments through the concrete view — in
/// whatever serial order an exclusive lock admits them — add exactly
/// `n` to the stored number, keep the recorded tags and the capability
/// view as they were, and touch no other entry.
pub proof fn lemma_increments_accumulate<KV>(m: Map<KV, EntryView<int>>, kv: KV, n: nat)
    requires
        m.contains_key(kv),
    ensures
        after_increments(m, kv, n).contains_key(kv),
        after_increments(m, kv, n)[kv].concrete.payload == m[kv].concrete.payload + n,
        after_increments(m, kv, n)[kv].concrete.tag == m[kv].concrete.tag,
        after_increments(m, kv, n)[kv].capability == m[kv].capability,
        forall|other: KV|
            other != kv ==> #[trigger] after_increments(m, kv, n).contains_key(other)
                == m.contains_key(other),
        forall|other: KV|
            other != kv && m.contains_key(other) ==> #[trigger] after_increments(m, kv, n)[other]
                == m[other],
    decreases n,
{
    if n > 0 {
        lemma_increments_accumulate(m, kv, (n - 1) as nat);
    }
}

/// Concrete/capability divergence: replacing the concrete payload of an
/// entry — which is exactly what a mutation through the concrete view
/// does — changes no capability recovery anywhere in the store, under
/// any key or tag. The two views are independent copies; and since the
/// capability view offers no mutating access at all, the converse holds
/// vacuously.
pub proof fn lemma_view_divergence<KV, P>(
    m: Map<KV, EntryView<P>>,
    kv: KV,
    new_payload: P,
    other: KV,
    tag: TypeTag,
)
    requires
        m.contains_key(kv),
    ensures
        ({
            let updated = m.insert(
                kv,
                (EntryView {
                    concrete: CellView { tag: m[kv].concrete.tag, payload: new_payload },
                    capability: m[kv].capability,
                }),
            );
            capability_recovery(updated, other, tag) == capability_recovery(m, other, tag)
        }),
{
}

} // verus!
