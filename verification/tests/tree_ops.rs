use loro_internal::common::{ContainerID, ContainerType, LoroError, LoroValue, ID};
use loro_internal::fuzz::tree::{peer_key, preprocess, Action, Actor, FuzzValue, TreeAction};
use loro_internal::loro::LoroDoc;
use loro_internal::version::VersionVector;

fn doc(peer: u64) -> LoroDoc {
    let mut d = LoroDoc::new();
    d.set_peer_id(peer).unwrap();
    d
}

fn tree_id() -> ContainerID {
    ContainerID::new_root("tree", ContainerType::Tree)
}

fn entry<'a>(v: &'a LoroValue, key: &str) -> &'a LoroValue {
    match v {
        LoroValue::Mapping(entries) => &entries.iter().find(|(k, _)| k == key).unwrap().1,
        _ => panic!("not a map"),
    }
}

fn string_of(v: &LoroValue) -> String {
    match v {
        LoroValue::String(s) => s.clone(),
        _ => panic!("not a string"),
    }
}

fn sync(a: &mut LoroDoc, b: &mut LoroDoc) {
    let ua = b.export_from(&a.oplog_vv());
    a.import(&ua).unwrap();
    let ub = a.export_from(&b.oplog_vv());
    b.import(&ub).unwrap();
}

#[test]
fn created_node_value_names_its_id_parent_and_meta() {
    let mut d = doc(7);
    let t = tree_id();
    let a = d.tree_create(&t).unwrap();
    assert_eq!(a, ID::new(7, 0));
    let value = d.get_deep_value();
    let nodes = match entry(&value, "tree") {
        LoroValue::List(l) => l,
        _ => panic!("tree is not a list"),
    };
    assert_eq!(nodes.len(), 1);
    assert_eq!(string_of(entry(&nodes[0], "id")), "0@7");
    assert!(matches!(entry(&nodes[0], "parent"), LoroValue::Null));
    assert!(matches!(entry(&nodes[0], "meta"), LoroValue::Mapping(m) if m.is_empty()));
}

#[test]
fn child_value_names_its_parent() {
    let mut d = doc(3);
    let t = tree_id();
    let a = d.tree_create(&t).unwrap();
    let b = d.tree_create(&t).unwrap();
    d.tree_move(&t, b, a).unwrap();
    let value = d.get_value(&t);
    let nodes = match &value {
        LoroValue::List(l) => l,
        _ => panic!("tree is not a list"),
    };
    assert_eq!(string_of(entry(&nodes[1], "id")), "1@3");
    assert_eq!(string_of(entry(&nodes[1], "parent")), "0@3");
}

#[test]
fn next_id_counts_local_ops() {
    let mut d = doc(2);
    assert_eq!(d.next_id(), Ok(ID::new(2, 0)));
    let t = tree_id();
    d.tree_create(&t).unwrap();
    assert_eq!(d.next_id(), Ok(ID::new(2, 1)));
}

#[test]
fn move_refuses_cycles() {
    let mut d = doc(1);
    let t = tree_id();
    let a = d.tree_create(&t).unwrap();
    let b = d.tree_create(&t).unwrap();
    let c = d.tree_create(&t).unwrap();
    assert_eq!(d.tree_move(&t, b, a), Ok(()));
    assert_eq!(d.tree_move(&t, c, b), Ok(()));
    assert_eq!(d.tree_move(&t, a, c), Err(LoroError::CyclicMoveError));
    assert_eq!(d.tree_move(&t, a, a), Err(LoroError::CyclicMoveError));
    assert_eq!(d.tree_nodes(&t), vec![a, b, c]);
}

#[test]
fn delete_removes_the_subtree() {
    let mut d = doc(1);
    let t = tree_id();
    let a = d.tree_create(&t).unwrap();
    let b = d.tree_create(&t).unwrap();
    let c = d.tree_create(&t).unwrap();
    d.tree_move(&t, b, a).unwrap();
    d.tree_delete(&t, a).unwrap();
    assert_eq!(d.tree_nodes(&t), vec![c]);
    assert_eq!(d.tree_delete(&t, b), Err(LoroError::TreeNodeNotExist));
    assert_eq!(d.tree_move(&t, c, a), Err(LoroError::TreeNodeNotExist));
    assert_eq!(d.tree_get_meta(&t, b).map(|_| ()), Err(LoroError::TreeNodeNotExist));
}

#[test]
fn meta_writes_show_in_the_node_value() {
    let mut d = doc(5);
    let t = tree_id();
    let a = d.tree_create(&t).unwrap();
    let meta = d.tree_get_meta(&t, a).unwrap();
    let key = peer_key(42);
    assert_eq!(key, "42");
    d.map_insert(&meta, &key, -3).unwrap();
    let value = d.get_value(&t);
    let nodes = match &value {
        LoroValue::List(l) => l,
        _ => panic!("tree is not a list"),
    };
    assert!(matches!(entry(entry(&nodes[0], "meta"), "42"), LoroValue::I64(-3)));
}

#[test]
fn tree_edits_check_kind_and_attachment() {
    let mut d = doc(1);
    let text = ContainerID::new_root("text", ContainerType::Text);
    assert_eq!(d.tree_create(&text), Err(LoroError::ContainerTypeMismatch));
    assert_eq!(d.tree_get_meta(&text, ID::new(1, 0)).map(|_| ()), Err(LoroError::ContainerTypeMismatch));
    let t = tree_id();
    d.tree_create(&t).unwrap();
    d.checkout(&VersionVector::new()).unwrap();
    assert_eq!(d.tree_create(&t), Err(LoroError::EditWhenDetached));
    assert_eq!(d.tree_delete(&t, ID::new(1, 0)), Err(LoroError::EditWhenDetached));
    assert!(d.tree_nodes(&t).is_empty());
}

#[test]
fn concurrent_moves_converge_without_cycle() {
    let mut x = doc(1);
    let mut y = doc(2);
    let t = tree_id();
    let a = x.tree_create(&t).unwrap();
    let b = x.tree_create(&t).unwrap();
    sync(&mut x, &mut y);
    x.tree_move(&t, a, b).unwrap();
    y.tree_move(&t, b, a).unwrap();
    sync(&mut x, &mut y);
    assert!(x.get_deep_value().equals(&y.get_deep_value()));
    let value = x.get_value(&t);
    let nodes = match &value {
        LoroValue::List(l) => l,
        _ => panic!("tree is not a list"),
    };
    let roots = nodes.iter().filter(|n| matches!(entry(n, "parent"), LoroValue::Null)).count();
    assert_eq!(roots, 1);
}

#[test]
fn preprocess_picks_live_nodes() {
    let mut a0 = Actor::new(0);
    let a1 = Actor::new(1);
    let t = tree_id();
    let n0 = a0.loro.tree_create(&t).unwrap();
    let n1 = a0.loro.tree_create(&t).unwrap();
    let sites = vec![a0, a1];
    let mut action = Action::Tree {
        site: 2,
        container_idx: 9,
        action: TreeAction::Move,
        target: (3, 0),
        parent: (5, 0),
    };
    preprocess(&sites, &mut action);
    assert_eq!(
        action,
        Action::Tree {
            site: 0,
            container_idx: 0,
            action: TreeAction::Move,
            target: (n1.peer, n1.counter),
            parent: (n0.peer, n0.counter),
        }
    );
    let mut create = Action::Tree {
        site: 1,
        container_idx: 0,
        action: TreeAction::Delete,
        target: (9, 9),
        parent: (0, 0),
    };
    preprocess(&sites, &mut create);
    assert_eq!(
        create,
        Action::Tree { site: 1, container_idx: 0, action: TreeAction::Create, target: (1, 0), parent: (0, 0) }
    );
    let mut sync_action = Action::Sync { from: 3, to: 1 };
    preprocess(&sites, &mut sync_action);
    assert_eq!(sync_action, Action::Sync { from: 1, to: 0 });
}

#[test]
fn fuzz_value_writes_plain_values() {
    assert!(matches!(FuzzValue::I32(-4).to_loro_value(), LoroValue::I64(-4)));
    assert!(matches!(FuzzValue::Null.to_loro_value(), LoroValue::Null));
}
