use sovran_typemap::{AnyValue, MapError, TraitTypeMap, TypeMapV, TypeMapValue, TypeTag};

// Two capability interfaces; the concrete type implements both, but only
// the one named at insertion is honored.
trait Speak: Send + Sync {
    fn speak(&self) -> String;
}

trait Fetch: Send + Sync {
    fn fetch(&self) -> String;
}

#[derive(Debug, Clone, PartialEq)]
struct Robot {
    name: String,
    charge: u32,
}

impl Speak for Robot {
    fn speak(&self) -> String {
        format!("{} beeps", self.name)
    }
}

impl Fetch for Robot {
    fn fetch(&self) -> String {
        format!("{} fetches", self.name)
    }
}

enum Gadget {
    Robot(Robot),
    Speaker(Box<dyn Speak>),
    Fetcher(Box<dyn Fetch>),
}

fn robot_tag() -> TypeTag {
    TypeTag::new(10)
}

fn speak_tag() -> TypeTag {
    TypeTag::new(20)
}

fn fetch_tag() -> TypeTag {
    TypeTag::new(21)
}

fn store_robot(store: &mut TraitTypeMap<String, Gadget>, key: &str, robot: Robot) {
    store
        .set_trait(
            key.to_string(),
            robot_tag(),
            Gadget::Robot(robot.clone()),
            speak_tag(),
            Gadget::Speaker(Box::new(robot)),
        )
        .unwrap();
}

#[test]
fn test_round_trip_returns_stored_value() {
    let mut store = TraitTypeMap::<String, Gadget>::new();
    let robot = Robot {
        name: "R2".to_string(),
        charge: 77,
    };
    store_robot(&mut store, "r2", robot.clone());

    let got = store
        .with(&"r2".to_string(), robot_tag(), |value| match value {
            Gadget::Robot(r) => r.clone(),
            _ => panic!("concrete view should hold a robot"),
        })
        .unwrap();
    assert_eq!(got, robot);
}

#[test]
fn test_capability_isolation_unrelated_capability() {
    let mut store = TraitTypeMap::<String, Gadget>::new();
    let robot = Robot {
        name: "R2".to_string(),
        charge: 77,
    };
    // Registered under Speak only, although Robot also implements Fetch.
    store_robot(&mut store, "r2", robot);

    // The recorded capability works.
    let line = store
        .with_trait(&"r2".to_string(), speak_tag(), |value| match value {
            Gadget::Speaker(s) => s.speak(),
            _ => panic!("capability view should hold a speaker"),
        })
        .unwrap();
    assert_eq!(line, "R2 beeps");

    // An unrelated capability is refused, incidental impl or not.
    match store.with_trait(&"r2".to_string(), fetch_tag(), |_| ()) {
        Err(MapError::TypeMismatch) => (),
        _ => panic!("unrelated capability should be a type mismatch"),
    }
}

#[test]
fn test_absence_on_every_operation() {
    let mut store = TraitTypeMap::<String, Gadget>::new();
    let key = "ghost".to_string();

    assert!(matches!(
        store.with(&key, robot_tag(), |_| ()),
        Err(MapError::KeyNotFound(_))
    ));
    assert!(matches!(
        store.with_mut(&key, robot_tag(), |v| (v, ())),
        Err(MapError::KeyNotFound(_))
    ));
    assert!(matches!(
        store.with_trait(&key, speak_tag(), |_| ()),
        Err(MapError::KeyNotFound(_))
    ));
    assert!(!store.contains_key(&key).unwrap());
    assert!(!store.remove(&key).unwrap());
}

#[test]
fn test_overwrite_discards_old_entry() {
    let mut store = TraitTypeMap::<String, Gadget>::new();
    store_robot(
        &mut store,
        "slot",
        Robot {
            name: "Old".to_string(),
            charge: 1,
        },
    );
    assert_eq!(store.len().unwrap(), 1);

    // Overwrite under the same key with a different capability.
    let robot = Robot {
        name: "New".to_string(),
        charge: 2,
    };
    store
        .set_trait(
            "slot".to_string(),
            robot_tag(),
            Gadget::Robot(robot.clone()),
            fetch_tag(),
            Gadget::Fetcher(Box::new(robot)),
        )
        .unwrap();

    // The count is unchanged by an overwrite.
    assert_eq!(store.len().unwrap(), 1);

    // The old capability view is unreachable; the new one answers.
    assert!(matches!(
        store.with_trait(&"slot".to_string(), speak_tag(), |_| ()),
        Err(MapError::TypeMismatch)
    ));
    let line = store
        .with_trait(&"slot".to_string(), fetch_tag(), |value| match value {
            Gadget::Fetcher(f) => f.fetch(),
            _ => panic!("capability view should hold a fetcher"),
        })
        .unwrap();
    assert_eq!(line, "New fetches");

    // The concrete view now holds the new value.
    let name = store
        .with(&"slot".to_string(), robot_tag(), |value| match value {
            Gadget::Robot(r) => r.name.clone(),
            _ => panic!("concrete view should hold a robot"),
        })
        .unwrap();
    assert_eq!(name, "New");

    // A genuinely new key grows the count.
    store_robot(
        &mut store,
        "other",
        Robot {
            name: "Other".to_string(),
            charge: 3,
        },
    );
    assert_eq!(store.len().unwrap(), 2);
}

#[test]
fn test_concrete_capability_divergence() {
    let mut store = TraitTypeMap::<String, Gadget>::new();
    store_robot(
        &mut store,
        "r2",
        Robot {
            name: "R2".to_string(),
            charge: 50,
        },
    );

    // Mutate the concrete view.
    store
        .with_mut(&"r2".to_string(), robot_tag(), |mut value| {
            if let Gadget::Robot(r) = &mut value {
                r.name = "D2".to_string();
            }
            (value, ())
        })
        .unwrap();

    // The concrete view shows the mutation.
    let name = store
        .with(&"r2".to_string(), robot_tag(), |value| match value {
            Gadget::Robot(r) => r.name.clone(),
            _ => panic!("concrete view should hold a robot"),
        })
        .unwrap();
    assert_eq!(name, "D2");

    // The capability view is an independent copy: it still answers with
    // the name it was built from.
    let line = store
        .with_trait(&"r2".to_string(), speak_tag(), |value| match value {
            Gadget::Speaker(s) => s.speak(),
            _ => panic!("capability view should hold a speaker"),
        })
        .unwrap();
    assert_eq!(line, "R2 beeps");
}

#[test]
fn test_with_mut_result_and_wrong_tag() {
    let mut store = TraitTypeMap::<String, Gadget>::new();
    store_robot(
        &mut store,
        "r2",
        Robot {
            name: "R2".to_string(),
            charge: 50,
        },
    );

    // The logic's result comes back through the store.
    let old_charge = store
        .with_mut(&"r2".to_string(), robot_tag(), |mut value| {
            let old = match &mut value {
                Gadget::Robot(r) => {
                    let old = r.charge;
                    r.charge += 1;
                    old
                }
                _ => panic!("concrete view should hold a robot"),
            };
            (value, old)
        })
        .unwrap();
    assert_eq!(old_charge, 50);

    // A wrong tag leaves the entry untouched and reports a mismatch.
    assert!(matches!(
        store.with_mut(&"r2".to_string(), speak_tag(), |v| (v, ())),
        Err(MapError::TypeMismatch)
    ));
    let charge = store
        .with(&"r2".to_string(), robot_tag(), |value| match value {
            Gadget::Robot(r) => r.charge,
            _ => panic!("concrete view should hold a robot"),
        })
        .unwrap();
    assert_eq!(charge, 51);
}

#[test]
fn test_many_increments_lose_nothing() {
    // The single-lock stress scenario, run serially: 10 rounds of 100
    // independent increments through `with_mut` end at exactly 1000.
    let counter_tag = TypeTag::new(1);
    let any_tag = TypeTag::new(2);
    let mut store = TraitTypeMap::<String, u64>::new();
    store
        .set_trait("counter".to_string(), counter_tag, 0, any_tag, 0)
        .unwrap();

    for _ in 0..10 {
        for _ in 0..100 {
            store
                .with_mut(&"counter".to_string(), counter_tag, |v| (v + 1, ()))
                .unwrap();
        }
    }

    let total = store
        .with(&"counter".to_string(), counter_tag, |v| *v)
        .unwrap();
    assert_eq!(total, 1000);
}

#[test]
fn test_error_messages() {
    assert_eq!(MapError::LockError.message(), "Failed to acquire lock");
    assert_eq!(
        MapError::KeyNotFound("config".to_string()).message(),
        "Key not found in store: config"
    );
    assert_eq!(
        MapError::TypeMismatch.message(),
        "Type mismatch for the requested key"
    );
    assert!(format!("{:?}", MapError::LockError).contains("LockError"));
}

#[test]
fn test_type_tag_identity() {
    assert_eq!(TypeTag::new(3), TypeTag::new(3));
    assert_ne!(TypeTag::new(3), TypeTag::new(4));
    assert_eq!(TypeTag::new(3).id, 3);
}

#[test]
fn test_any_value_cell() {
    let cell = AnyValue::new(TypeTag::new(5), 123u64);
    assert!(cell.is_type(TypeTag::new(5)));
    assert!(!cell.is_type(TypeTag::new(6)));

    assert_eq!(cell.downcast_ref(TypeTag::new(5)), Some(&123));
    assert_eq!(cell.downcast_ref(TypeTag::new(6)), None);

    let mut cell = cell;
    assert!(cell.downcast_mut(TypeTag::new(6)).is_none());
    if let Some(payload) = cell.downcast_mut(TypeTag::new(5)) {
        *payload = 200;
    } else {
        panic!("matching tag should recover the payload");
    }
    assert_eq!(cell.downcast_ref(TypeTag::new(5)), Some(&200));

    let (tag, payload) = cell.into_parts();
    assert_eq!(tag, TypeTag::new(5));
    assert_eq!(payload, 200);
}

#[test]
fn test_dual_view_entry() {
    let entry = TypeMapValue::build(TypeTag::new(1), 10u64, TypeTag::new(2), 10u64);

    assert_eq!(entry.concrete_ref(TypeTag::new(1)), Some(&10));
    assert_eq!(entry.concrete_ref(TypeTag::new(2)), None);
    assert_eq!(entry.capability_ref(TypeTag::new(2)), Some(&10));
    assert_eq!(entry.capability_ref(TypeTag::new(1)), None);

    // Mutating the concrete cell leaves the capability cell untouched.
    let mut entry = entry;
    if let Some(payload) = entry.concrete_mut(TypeTag::new(1)) {
        *payload = 99;
    } else {
        panic!("matching tag should recover the payload");
    }
    assert_eq!(entry.concrete_ref(TypeTag::new(1)), Some(&99));
    assert_eq!(entry.capability_ref(TypeTag::new(2)), Some(&10));

    // Rebuilding around the concrete payload keeps the capability cell.
    let (entry, out) = entry.update_concrete(TypeTag::new(1), |v| (v + 1, v));
    assert_eq!(out, Some(99));
    assert_eq!(entry.concrete_ref(TypeTag::new(1)), Some(&100));
    assert_eq!(entry.capability_ref(TypeTag::new(2)), Some(&10));

    // A wrong tag hands the entry back unchanged and never runs the logic.
    let (entry, out) = entry.update_concrete(TypeTag::new(7), |_| -> (u64, ()) {
        panic!("logic must not run on a tag mismatch");
    });
    assert_eq!(out, None);
    assert_eq!(entry.concrete_ref(TypeTag::new(1)), Some(&100));
}

#[test]
fn test_integer_keys() -> Result<(), MapError> {
    let mut store = TypeMapV::<u64, String>::new();
    store.set(7, "seven".to_string())?;
    store.set(8, "eight".to_string())?;
    assert_eq!(store.get(&7)?, "seven");
    assert_eq!(store.len()?, 2);
    assert!(store.remove(&7)?);
    assert!(!store.contains_key(&7)?);
    Ok(())
}

#[test]
fn test_get_returns_independent_clone() -> Result<(), MapError> {
    let mut store = TypeMapV::<String, Vec<i32>>::new();
    store.set("v".to_string(), vec![1, 2])?;
    let mut copy = store.get(&"v".to_string())?;
    copy.push(3);
    assert_eq!(store.get(&"v".to_string())?, vec![1, 2]);
    Ok(())
}

#[test]
fn test_empty_stores() {
    let trait_store = TraitTypeMap::<String, Gadget>::new();
    assert!(trait_store.is_empty().unwrap());
    assert_eq!(trait_store.len().unwrap(), 0);
    assert!(trait_store.keys().unwrap().is_empty());

    let typed_store = TypeMapV::<String, i32>::new();
    assert!(typed_store.is_empty().unwrap());
    assert_eq!(typed_store.len().unwrap(), 0);
    assert!(typed_store.keys().unwrap().is_empty());
    assert!(typed_store.values().unwrap().is_empty());
}
