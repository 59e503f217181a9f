use loro_internal::common::ContainerID;
use loro_internal::common::ContainerType;
use loro_internal::event::{EventTriggerKind, ListDeltaMeta};
use loro_internal::common::LoroValue;
use loro_internal::group::movable_list::{
    insert_in_order, MovableListOp, MovableListOpContent, MovableListOpGroup, MovableListTarget,
};
use loro_internal::group::{GroupedMapOpInfo, IdLp, MapOpGroup, SmallSet};
use loro_internal::oplog::{Op, OpContent, OpValue};
use loro_internal::version::VersionVector;

fn info(lamport: u32, peer: u64, counter: i32, v: i64) -> GroupedMapOpInfo {
    GroupedMapOpInfo { value: Some(OpValue::I64(v)), counter, lamport, peer }
}

#[test]
fn small_set_keeps_order_and_first_of_equals() {
    let mut set = SmallSet::new();
    set.insert(info(5, 1, 0, 10));
    assert_eq!(set.len(), 1);
    set.insert(info(5, 1, 3, 99));
    assert_eq!(set.len(), 1);
    assert_eq!(set.get(0).value, Some(OpValue::I64(10)));
    set.insert(info(2, 9, 0, 20));
    set.insert(info(5, 0, 0, 30));
    set.insert(info(7, 0, 0, 40));
    let mut order: Vec<(u32, u64)> = Vec::new();
    let mut it = set.iter();
    while let Some(i) = it.next() {
        order.push((i.lamport, i.peer));
    }
    assert_eq!(order, vec![(2, 9), (5, 0), (5, 1), (7, 0)]);
    let mut it = set.iter();
    assert_eq!(it.next_back().map(|i| i.lamport), Some(7));
    assert_eq!(it.next().map(|i| i.lamport), Some(2));
    assert_eq!(it.next_back().map(|i| i.peer), Some(1));
    assert_eq!(it.next().map(|i| i.peer), Some(0));
    assert!(it.next().is_none());
    assert!(it.next_back().is_none());
    set.insert(info(5, 0, 1, 50));
    assert_eq!(set.len(), 4);
}

fn map_op(peer: u64, counter: i32, lamport: u32, key: &str, v: i64) -> Op {
    Op {
        peer,
        counter,
        lamport,
        container: ContainerID::new_root("map", ContainerType::Mapping),
        content: OpContent::MapSet { key: key.to_string(), value: Some(OpValue::I64(v)) },
    }
}

#[test]
fn map_group_last_op_respects_version() {
    let mut group = MapOpGroup::new();
    group.insert(&map_op(1, 0, 0, "a", 1));
    group.insert(&map_op(2, 0, 1, "a", 2));
    group.insert(&map_op(1, 1, 2, "b", 3));
    let mut vv = VersionVector::new();
    assert!(group.last_op(&"a".to_string(), &vv).is_none());
    vv.set(1, 1);
    assert_eq!(group.last_op(&"a".to_string(), &vv).unwrap().value, Some(OpValue::I64(1)));
    vv.set(2, 1);
    let last = group.last_op(&"a".to_string(), &vv).unwrap();
    assert_eq!((last.peer, last.counter, last.value), (2, 0, Some(OpValue::I64(2))));
    assert!(group.last_op(&"b".to_string(), &vv).is_none());
    vv.set(1, 2);
    assert_eq!(group.last_op(&"b".to_string(), &vv).unwrap().value, Some(OpValue::I64(3)));
    assert!(group.last_op(&"c".to_string(), &vv).is_none());
}

#[test]
fn grouped_info_ids() {
    let i = info(4, 7, 2, 0);
    let id = i.id();
    assert_eq!((id.peer, id.counter), (7, 2));
    let idlp = i.idlp();
    assert_eq!((idlp.peer, idlp.lamport), (7, 4));
    assert!(info(4, 1, 0, 0).lt(&info(4, 2, 0, 0)));
    assert!(info(3, 9, 0, 0).lt(&info(4, 2, 0, 0)));
    assert!(info(4, 1, 0, 0).same(&info(4, 1, 8, 1)));
}

#[test]
fn trigger_kinds() {
    assert!(EventTriggerKind::Local.is_local());
    assert!(!EventTriggerKind::Local.is_import());
    assert!(EventTriggerKind::Import.is_import());
    assert!(EventTriggerKind::Checkout.is_checkout());
    assert!(!EventTriggerKind::Checkout.is_local());
    assert_eq!(EventTriggerKind::Local.name(), "local");
    assert_eq!(EventTriggerKind::Import.name(), "import");
    assert_eq!(EventTriggerKind::Checkout.name(), "checkout");
}

#[test]
fn list_delta_meta() {
    let mut m = ListDeltaMeta::default();
    assert!(m.is_empty());
    assert!(m.attr_is_empty());
    m.compose(&ListDeltaMeta { from_move: true });
    assert!(m.from_move);
    m.compose(&ListDeltaMeta { from_move: false });
    assert!(m.from_move);
    assert!(!m.is_mergeable(&ListDeltaMeta { from_move: false }));
    assert!(m.is_mergeable(&ListDeltaMeta { from_move: true }));
    let before = m;
    m.merge(&ListDeltaMeta { from_move: false });
    assert_eq!(m, before);
}

fn list_op(peer: u64, counter: i32, lamport: u32, content: MovableListOpContent) -> MovableListOp {
    MovableListOp { peer, counter, lamport, content }
}

fn vv_of(entries: &[(u64, i32)]) -> VersionVector {
    let mut vv = VersionVector::new();
    for (p, c) in entries {
        vv.set(*p, *c);
    }
    vv
}

#[test]
fn movable_list_insert_then_set_and_move() {
    let mut g = MovableListOpGroup::new();
    // Peer 1 inserts two elements at lamport 0 and 1 (counters 0 and 1).
    g.insert(&list_op(
        1,
        0,
        0,
        MovableListOpContent::Insert { values: vec![LoroValue::I64(10), LoroValue::I64(11)] },
    ));
    let e0 = IdLp { peer: 1, lamport: 0 };
    let e1 = IdLp { peer: 1, lamport: 1 };
    let all = vv_of(&[(1, 10), (2, 10)]);
    let pos = g.last_pos(&e1, &all).unwrap();
    assert_eq!((pos.counter, pos.lamport, pos.peer), (1, 1, 1));
    assert!(g.last_value(&e0, &all).unwrap().value.equals(&LoroValue::I64(10)));
    // Peer 2 sets element e0 and moves element e1.
    g.insert(&list_op(
        2,
        0,
        5,
        MovableListOpContent::SetValue { elem_id: e0, value: LoroValue::I64(99) },
    ));
    g.insert(&list_op(2, 1, 6, MovableListOpContent::Move { from_id: e1 }));
    let v = g.last_value(&e0, &all).unwrap();
    assert!(v.value.equals(&LoroValue::I64(99)));
    assert_eq!((v.lamport, v.peer), (5, 2));
    let p = g.last_pos(&e1, &all).unwrap();
    assert_eq!((p.lamport, p.peer, p.counter), (6, 2, 1));
    assert_eq!(g.get_elem_from_pos(IdLp { peer: 2, lamport: 6 }), e1);
    assert_eq!(g.get_elem_from_pos(IdLp { peer: 3, lamport: 6 }), IdLp { peer: 3, lamport: 6 });
    // At a version without peer 2's ops, the inserted value and position win.
    let only1 = vv_of(&[(1, 10)]);
    assert!(g.last_value(&e0, &only1).unwrap().value.equals(&LoroValue::I64(10)));
    assert_eq!(g.last_pos(&e1, &only1).unwrap().lamport, 1);
    // At the empty version nothing is visible.
    let none = VersionVector::new();
    assert!(g.last_pos(&e0, &none).is_none());
    assert!(g.last_value(&e0, &none).is_none());
    // Deletions are not recorded; unknown elements have nothing.
    g.insert(&list_op(3, 0, 9, MovableListOpContent::Delete));
    assert!(g.last_pos(&IdLp { peer: 9, lamport: 9 }, &all).is_none());
}

#[test]
fn movable_list_set_order_does_not_matter() {
    let e = IdLp { peer: 1, lamport: 0 };
    let insert = list_op(1, 0, 0, MovableListOpContent::Insert { values: vec![LoroValue::I64(1)] });
    let set_a = || list_op(2, 0, 3, MovableListOpContent::SetValue { elem_id: e, value: LoroValue::I64(2) });
    let set_b = || list_op(3, 0, 3, MovableListOpContent::SetValue { elem_id: e, value: LoroValue::I64(3) });
    let mut g1 = MovableListOpGroup::new();
    g1.insert(&insert);
    g1.insert(&set_a());
    g1.insert(&set_b());
    let mut g2 = MovableListOpGroup::new();
    g2.insert(&set_b());
    g2.insert(&set_a());
    g2.insert(&insert);
    let all = vv_of(&[(1, 5), (2, 5), (3, 5)]);
    // Equal lamports: the larger peer wins, whatever the order of arrival.
    assert!(g1.last_value(&e, &all).unwrap().value.equals(&LoroValue::I64(3)));
    assert!(g2.last_value(&e, &all).unwrap().value.equals(&LoroValue::I64(3)));
    let without3 = vv_of(&[(1, 5), (2, 5)]);
    assert!(g2.last_value(&e, &without3).unwrap().value.equals(&LoroValue::I64(2)));
}

#[test]
fn movable_list_target_upgrade_keeps_the_insert() {
    let mut t = MovableListTarget::One { value: LoroValue::I64(7), counter: 4 };
    t.upgrade(IdLp { peer: 5, lamport: 8 });
    match t {
        MovableListTarget::Multiple(m) => {
            assert_eq!(m.poses.len(), 1);
            assert_eq!((m.poses[0].counter, m.poses[0].lamport, m.poses[0].peer), (4, 8, 5));
            assert_eq!(m.values.len(), 1);
            assert!(m.values[0].value.equals(&LoroValue::I64(7)));
        }
        MovableListTarget::One { .. } => panic!("not upgraded"),
    }
}

#[test]
fn insert_in_order_keeps_the_first_of_equal_ids() {
    let mut v: Vec<GroupedMapOpInfo<()>> = Vec::new();
    insert_in_order(&mut v, GroupedMapOpInfo { value: (), counter: 0, lamport: 3, peer: 1 });
    insert_in_order(&mut v, GroupedMapOpInfo { value: (), counter: 0, lamport: 1, peer: 1 });
    insert_in_order(&mut v, GroupedMapOpInfo { value: (), counter: 9, lamport: 3, peer: 1 });
    insert_in_order(&mut v, GroupedMapOpInfo { value: (), counter: 0, lamport: 3, peer: 0 });
    let ids: Vec<(u32, u64, i32)> = v.iter().map(|i| (i.lamport, i.peer, i.counter)).collect();
    assert_eq!(ids, vec![(1, 1, 0), (3, 0, 0), (3, 1, 0)]);
}
