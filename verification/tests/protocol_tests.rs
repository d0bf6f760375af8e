use ecs_groups::decode::deserialize_group;
use ecs_groups::encode::serialize_group;
use ecs_groups::entity::Entity;
use ecs_groups::error::{DecodeError, EncodeError};
use ecs_groups::group::{Group, GroupTree};
use ecs_groups::packed::PackedData;
use ecs_groups::value::{Kind, Value};
use ecs_groups::world::World;

fn s(x: &str) -> String {
    x.to_string()
}

/// Sub = {local: [C1, C2]}, Top = {subgroups: [Sub], local: [C3, C4]}.
fn scenario_tree() -> GroupTree {
    GroupTree {
        nodes: vec![
            Group { name: s("Top"), local: vec![s("C3"), s("C4")], subgroups: vec![1] },
            Group { name: s("Sub"), local: vec![s("C1"), s("C2")], subgroups: vec![] },
        ],
    }
}

/// A world with C1..C4 registered and two entities:
/// e0 has C1=5 and C3=0.5, e1 has C2="x" and C4=true.
fn scenario_world() -> (World, Vec<Entity>) {
    let mut w = World::new();
    w.register(s("C1"), Kind::U32);
    w.register(s("C2"), Kind::Text);
    w.register(s("C3"), Kind::F32);
    w.register(s("C4"), Kind::Bool);
    let e0 = w.create_entity();
    let e1 = w.create_entity();
    assert!(w.insert(&s("C1"), e0, Value::U32(5)));
    assert!(w.insert(&s("C3"), e0, Value::F32Bits(0.5f32.to_bits())));
    assert!(w.insert(&s("C2"), e1, Value::Text(s("x"))));
    assert!(w.insert(&s("C4"), e1, Value::Bool(true)));
    (w, vec![e0, e1])
}

/// An empty copy: same registrations, same entities, no values.
fn empty_copy() -> World {
    let mut w = World::new();
    w.register(s("C1"), Kind::U32);
    w.register(s("C2"), Kind::Text);
    w.register(s("C3"), Kind::F32);
    w.register(s("C4"), Kind::Bool);
    w.create_entity();
    w.create_entity();
    w
}

fn value_of(w: &World, name: &str, e: Entity) -> Option<Value> {
    let j = w.lookup(&s(name)).unwrap();
    match w.tables[j].storage.get(e) {
        Some(v) => Some(v.dup()),
        None => None,
    }
}

#[test]
fn concrete_scenario_serialized_map() {
    let tree = scenario_tree();
    let (mut w, _entities) = scenario_world();
    let map = serialize_group(&tree, 0, &mut w).unwrap();

    let keys: Vec<String> = map.entries.iter().map(|e| e.0.clone()).collect();
    assert_eq!(keys, vec![s("C3"), s("C4"), s("C1"), s("C2")]);

    // C3: present only at position 0 (e0)
    assert_eq!(map.entries[0].1.offsets, vec![0u32]);
    assert_eq!(map.entries[0].1.values, vec![Value::F32Bits(0.5f32.to_bits())]);
    // C4: present only at position 1 (e1)
    assert_eq!(map.entries[1].1.offsets, vec![1u32]);
    assert_eq!(map.entries[1].1.values, vec![Value::Bool(true)]);
    // C1: present only at position 0 (e0)
    assert_eq!(map.entries[2].1.offsets, vec![0u32]);
    assert_eq!(map.entries[2].1.values, vec![Value::U32(5)]);
    // C2: present only at position 1 (e1)
    assert_eq!(map.entries[3].1.offsets, vec![1u32]);
    assert_eq!(map.entries[3].1.values, vec![Value::Text(s("x"))]);
}

#[test]
fn round_trip_reproduces_values() {
    let tree = scenario_tree();
    let (mut w1, entities) = scenario_world();
    let map = serialize_group(&tree, 0, &mut w1).unwrap();

    let mut w2 = empty_copy();
    deserialize_group(&tree, 0, &mut w2, &entities, &map).unwrap();

    let e0 = entities[0];
    let e1 = entities[1];
    assert_eq!(value_of(&w2, "C1", e0), Some(Value::U32(5)));
    assert_eq!(value_of(&w2, "C3", e0), Some(Value::F32Bits(0.5f32.to_bits())));
    assert_eq!(value_of(&w2, "C2", e1), Some(Value::Text(s("x"))));
    assert_eq!(value_of(&w2, "C4", e1), Some(Value::Bool(true)));
    // absences reproduced too
    assert_eq!(value_of(&w2, "C1", e1), None);
    assert_eq!(value_of(&w2, "C2", e0), None);
    assert_eq!(value_of(&w2, "C3", e1), None);
    assert_eq!(value_of(&w2, "C4", e0), None);
}

#[test]
fn unknown_key_is_skipped_and_later_keys_apply() {
    let tree = scenario_tree();
    let (mut w, entities) = scenario_world();
    let mut map = serialize_group(&tree, 0, &mut w).unwrap();
    // put an entry no group owns in front of everything
    map.entries.insert(
        0,
        (s("NotAComponent"), PackedData { offsets: vec![0], values: vec![Value::U32(7)] }),
    );

    let mut w2 = empty_copy();
    let r = deserialize_group(&tree, 0, &mut w2, &entities, &map);
    assert!(r.is_ok());
    // the unknown key mutated nothing, the known keys all applied
    assert_eq!(w2.lookup(&s("NotAComponent")), None);
    assert_eq!(value_of(&w2, "C1", entities[0]), Some(Value::U32(5)));
    assert_eq!(value_of(&w2, "C4", entities[1]), Some(Value::Bool(true)));
}

#[test]
fn serialize_allows_concurrent_readers() {
    let tree = scenario_tree();
    let (mut w, _entities) = scenario_world();
    let j = w.lookup(&s("C1")).unwrap();
    assert!(w.acquire_shared(j));
    // a shared lock held by someone else does not block serialization
    assert!(serialize_group(&tree, 0, &mut w).is_ok());
    w.release_shared(j);
}

#[test]
fn serialize_fails_on_exclusive_lock() {
    let tree = scenario_tree();
    let (mut w, _entities) = scenario_world();
    let j = w.lookup(&s("C2")).unwrap();
    assert!(w.acquire_exclusive(j));
    assert!(matches!(serialize_group(&tree, 0, &mut w), Err(EncodeError::BorrowConflict)));
    w.release_exclusive(j);
    assert!(serialize_group(&tree, 0, &mut w).is_ok());
}

#[test]
fn deserialize_fails_on_held_lock() {
    let tree = scenario_tree();
    let (mut w1, entities) = scenario_world();
    let map = serialize_group(&tree, 0, &mut w1).unwrap();

    let mut w2 = empty_copy();
    let j = w2.lookup(&s("C3")).unwrap();
    assert!(w2.acquire_shared(j));
    // C3 is the first key; its merge needs the exclusive lock
    assert_eq!(
        deserialize_group(&tree, 0, &mut w2, &entities, &map),
        Err(DecodeError::BorrowConflict)
    );
    w2.release_shared(j);
    assert!(deserialize_group(&tree, 0, &mut w2, &entities, &map).is_ok());
}

#[test]
fn deserialize_fails_on_out_of_range_position() {
    let tree = scenario_tree();
    let (mut w2, entities) = {
        let w = empty_copy();
        let e: Vec<Entity> = w.entities.clone();
        (w, e)
    };
    let map = ecs_groups::encode::SerializedMap {
        entries: vec![(s("C1"), PackedData { offsets: vec![5], values: vec![Value::U32(1)] })],
    };
    assert_eq!(
        deserialize_group(&tree, 0, &mut w2, &entities, &map),
        Err(DecodeError::EntityCountMismatch)
    );
    // nothing was applied
    assert_eq!(value_of(&w2, "C1", entities[0]), None);
}

#[test]
fn deserialize_fails_on_misshapen_column() {
    let tree = scenario_tree();
    let mut w2 = empty_copy();
    let entities: Vec<Entity> = w2.entities.clone();
    let map = ecs_groups::encode::SerializedMap {
        entries: vec![(s("C1"), PackedData { offsets: vec![0], values: vec![] })],
    };
    assert_eq!(
        deserialize_group(&tree, 0, &mut w2, &entities, &map),
        Err(DecodeError::SchemaMismatch)
    );
}

#[test]
fn deserialize_fails_on_wrong_value_shape() {
    let tree = scenario_tree();
    let mut w2 = empty_copy();
    let entities: Vec<Entity> = w2.entities.clone();
    // C1 stores 32-bit integers; a boolean column must be refused
    let map = ecs_groups::encode::SerializedMap {
        entries: vec![
            (s("C1"), PackedData { offsets: vec![0], values: vec![Value::Bool(true)] }),
        ],
    };
    assert_eq!(
        deserialize_group(&tree, 0, &mut w2, &entities, &map),
        Err(DecodeError::SchemaMismatch)
    );
}

#[test]
fn first_error_stops_later_entries() {
    let tree = scenario_tree();
    let mut w2 = empty_copy();
    let entities: Vec<Entity> = w2.entities.clone();
    let map = ecs_groups::encode::SerializedMap {
        entries: vec![
            (s("C1"), PackedData { offsets: vec![0], values: vec![Value::U32(1)] }),
            (s("C2"), PackedData { offsets: vec![9], values: vec![Value::Text(s("y"))] }),
            (s("C4"), PackedData { offsets: vec![0], values: vec![Value::Bool(true)] }),
        ],
    };
    assert_eq!(
        deserialize_group(&tree, 0, &mut w2, &entities, &map),
        Err(DecodeError::EntityCountMismatch)
    );
    // the entry before the failure is applied, the one after is not
    assert_eq!(value_of(&w2, "C1", entities[0]), Some(Value::U32(1)));
    assert_eq!(value_of(&w2, "C4", entities[0]), None);
}

#[test]
fn keys_route_through_nested_subgroups() {
    // Top -> Mid -> Leaf; the key belongs to Leaf, two levels down
    let tree = GroupTree {
        nodes: vec![
            Group { name: s("Top"), local: vec![s("T")], subgroups: vec![1] },
            Group { name: s("Mid"), local: vec![s("M")], subgroups: vec![2] },
            Group { name: s("Leaf"), local: vec![s("L")], subgroups: vec![] },
        ],
    };
    let mut w = World::new();
    w.register(s("T"), Kind::U32);
    w.register(s("M"), Kind::U32);
    w.register(s("L"), Kind::U32);
    let e0 = w.create_entity();
    let entities = vec![e0];
    let map = ecs_groups::encode::SerializedMap {
        entries: vec![(s("L"), PackedData { offsets: vec![0], values: vec![Value::U32(42)] })],
    };
    deserialize_group(&tree, 0, &mut w, &entities, &map).unwrap();
    assert_eq!(value_of(&w, "L", e0), Some(Value::U32(42)));
    assert_eq!(value_of(&w, "T", e0), None);
    assert_eq!(value_of(&w, "M", e0), None);
}

#[test]
fn components_outside_group_are_untouched() {
    let tree = scenario_tree();
    let (mut w1, entities) = scenario_world();
    let map = serialize_group(&tree, 0, &mut w1).unwrap();

    let mut w2 = empty_copy();
    w2.register(s("Other"), Kind::U64);
    assert!(w2.insert(&s("Other"), entities[0], Value::U64(99)));
    deserialize_group(&tree, 0, &mut w2, &entities, &map).unwrap();
    assert_eq!(value_of(&w2, "Other", entities[0]), Some(Value::U64(99)));
}
