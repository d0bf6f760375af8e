use ecs_groups::entity::Entity;
use ecs_groups::error::DecodeError;
use ecs_groups::packed::PackedData;
use ecs_groups::storage::Storage;
use ecs_groups::value::{Comp4, Kind, Value};
use ecs_groups::world::{Lock, World};

fn s(x: &str) -> String {
    x.to_string()
}

#[test]
fn sparse_merge_leaves_uncovered_positions_untouched() {
    // E = [e0, e1, e2], packed data covers positions {0, 2} only
    let e0 = Entity::new(0, 0);
    let e1 = Entity::new(1, 0);
    let e2 = Entity::new(2, 0);
    let entities = vec![e0, e1, e2];

    let mut st = Storage::new();
    st.set(e0, Value::U32(100));
    st.set(e1, Value::U32(200));
    st.set(e2, Value::U32(300));

    let packed = PackedData { offsets: vec![0, 2], values: vec![Value::U32(1), Value::U32(3)] };
    st.merge(&entities, &packed, Kind::U32).unwrap();

    assert_eq!(st.get(e0), Some(&Value::U32(1)));
    assert_eq!(st.get(e1), Some(&Value::U32(200)));
    assert_eq!(st.get(e2), Some(&Value::U32(3)));
}

#[test]
fn merge_rejects_out_of_range_position() {
    let entities = vec![Entity::new(0, 0), Entity::new(1, 0)];
    let mut st = Storage::new();
    let packed = PackedData { offsets: vec![2], values: vec![Value::U32(1)] };
    assert_eq!(st.merge(&entities, &packed, Kind::U32), Err(DecodeError::EntityCountMismatch));
    assert_eq!(st.get(entities[0]), None);
}

#[test]
fn merge_rejects_misshapen_column() {
    let entities = vec![Entity::new(0, 0)];
    let mut st = Storage::new();
    let packed = PackedData { offsets: vec![0, 0], values: vec![Value::U32(1)] };
    assert_eq!(st.merge(&entities, &packed, Kind::U32), Err(DecodeError::SchemaMismatch));
}

#[test]
fn merge_rejects_wrong_value_shape() {
    let entities = vec![Entity::new(0, 0)];
    let mut st = Storage::new();
    let packed = PackedData { offsets: vec![0], values: vec![Value::Text(s("no"))] };
    assert_eq!(st.merge(&entities, &packed, Kind::U32), Err(DecodeError::SchemaMismatch));
}

#[test]
fn merge_validates_before_writing() {
    // the first pair is fine, the second is out of range: nothing is applied
    let entities = vec![Entity::new(0, 0), Entity::new(1, 0)];
    let mut st = Storage::new();
    let packed =
        PackedData { offsets: vec![0, 7], values: vec![Value::U32(1), Value::U32(2)] };
    assert_eq!(st.merge(&entities, &packed, Kind::U32), Err(DecodeError::EntityCountMismatch));
    assert_eq!(st.get(entities[0]), None);
}

#[test]
fn storage_grows_and_reads_back() {
    let mut st = Storage::new();
    let far = Entity::new(9, 0);
    assert_eq!(st.get(far), None);
    st.set(far, Value::Bool(true));
    assert_eq!(st.get(far), Some(&Value::Bool(true)));
    assert_eq!(st.get(Entity::new(3, 0)), None);
}

#[test]
fn pack_lists_present_positions_in_order() {
    let e0 = Entity::new(0, 0);
    let e1 = Entity::new(1, 0);
    let e2 = Entity::new(2, 0);
    let mut st = Storage::new();
    st.set(e0, Value::U64(10));
    st.set(e2, Value::U64(30));
    let packed = PackedData::pack(&st, &vec![e0, e1, e2]);
    assert_eq!(packed.offsets, vec![0u32, 2u32]);
    assert_eq!(packed.values, vec![Value::U64(10), Value::U64(30)]);
}

#[test]
fn value_kinds() {
    assert_eq!(Value::U32(1).kind(), Kind::U32);
    assert_eq!(Value::U64(1).kind(), Kind::U64);
    assert_eq!(Value::Bool(false).kind(), Kind::Bool);
    assert_eq!(Value::Text(s("a")).kind(), Kind::Text);
    assert_eq!(Value::F32Bits(3.5f32.to_bits()).kind(), Kind::F32);
    assert_eq!(Value::Text(s("a")).dup(), Value::Text(s("a")));
}

#[test]
fn comp4_converts_to_boolean_value() {
    assert_eq!(Comp4(true).to_value(), Value::Bool(true));
    assert_eq!(Comp4(false).to_value(), Value::Bool(false));
}

#[test]
fn registration_is_idempotent() {
    let mut w = World::new();
    w.register(s("C"), Kind::U32);
    w.register(s("C"), Kind::U32);
    assert_eq!(w.tables.len(), 1);
    assert_eq!(w.lookup(&s("C")), Some(0));
    assert_eq!(w.lookup(&s("D")), None);
}

#[test]
fn locks_allow_readers_and_exclude_writers() {
    let mut w = World::new();
    w.register(s("C"), Kind::U32);
    assert!(w.acquire_shared(0));
    assert!(w.acquire_shared(0));
    assert!(!w.acquire_exclusive(0));
    w.release_shared(0);
    assert!(!w.acquire_exclusive(0));
    w.release_shared(0);
    assert_eq!(w.tables[0].lock, Lock::Free);
    assert!(w.acquire_exclusive(0));
    assert!(!w.acquire_shared(0));
    w.release_exclusive(0);
    assert_eq!(w.tables[0].lock, Lock::Free);
}

#[test]
fn entities_are_issued_in_slot_order() {
    let mut w = World::new();
    let e0 = w.create_entity();
    let e1 = w.create_entity();
    assert_eq!(e0, Entity::new(0, 0));
    assert_eq!(e1, Entity::new(1, 0));
    assert_eq!(w.entities, vec![e0, e1]);
}

#[test]
fn insert_refuses_wrong_shape_and_unknown_component() {
    let mut w = World::new();
    w.register(s("C"), Kind::Text);
    let e = w.create_entity();
    assert!(!w.insert(&s("C"), e, Value::U32(1)));
    assert!(!w.insert(&s("X"), e, Value::Text(s("v"))));
    assert!(w.insert(&s("C"), e, Value::Text(s("v"))));
}
