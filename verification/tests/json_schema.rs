use loro_internal::common::{ContainerID, ContainerType, ID};
use loro_internal::encoding::value_register::PeerRegister;
use loro_internal::group::IdLp;
use loro_internal::json_schema::{
    convert_container_id, convert_id, convert_idlp, decode_op, encode_changes, encode_op,
    register_container_id, register_id, register_idlp,
};
use loro_internal::oplog::{OpContent, TreeParent};
use loro_internal::loro::LoroDoc;
use loro_internal::version::VersionVector;

fn version(peer: u64, counter: i32) -> VersionVector {
    let mut vv = VersionVector::new();
    vv.set(peer, counter);
    vv
}

#[test]
fn json_range_version() {
    let mut doc = LoroDoc::new();
    doc.set_peer_id(0).unwrap();
    let list = ContainerID::new_root("list", ContainerType::List);
    // The list holds integers here; the characters stand for themselves.
    doc.list_insert(&list, 0, 'a' as i64).unwrap();
    doc.list_insert(&list, 0, 'b' as i64).unwrap();
    doc.list_insert(&list, 0, 'c' as i64).unwrap();
    let json = doc.export_json_updates(&version(0, 1), &version(0, 2));
    assert_eq!(json.changes[0].ops.len(), 1);
    let json = doc.export_json_updates(&version(0, 0), &version(0, 2));
    assert_eq!(json.changes[0].ops.len(), 2);
}

#[test]
fn json_changes_split_by_peer() {
    let mut a = LoroDoc::new();
    a.set_peer_id(1).unwrap();
    let mut b = LoroDoc::new();
    b.set_peer_id(2).unwrap();
    let list = ContainerID::new_root("list", ContainerType::List);
    a.list_insert(&list, 0, 1).unwrap();
    a.list_insert(&list, 1, 2).unwrap();
    b.list_insert(&list, 0, 3).unwrap();
    b.import(&a.export_from(&b.oplog_vv())).unwrap();
    let mut end = VersionVector::new();
    end.set(1, 2);
    end.set(2, 1);
    let json = b.export_json_updates(&VersionVector::new(), &end);
    let total: usize = json.changes.iter().map(|c| c.ops.len()).sum();
    assert_eq!(total, 3);
    for c in json.changes.iter() {
        assert!(!c.ops.is_empty());
        assert!(c.ops.iter().all(|op| op.peer == c.id.peer));
    }
    let empty = b.export_json_updates(&end, &end);
    assert!(empty.changes.is_empty());
}

#[test]
fn peer_compression_roundtrip_of_ids() {
    let mut reg = PeerRegister::new();
    let a = register_id(&ID::new(900, 4), &mut reg);
    let b = register_idlp(&IdLp { peer: 700, lamport: 9 }, &mut reg);
    let c = register_id(&ID::new(900, 5), &mut reg);
    let d = register_container_id(
        ContainerID::new_normal(ID::new(700, 2), ContainerType::Tree),
        &mut reg,
    );
    let root = register_container_id(ContainerID::new_root("r", ContainerType::Text), &mut reg);
    assert_eq!((a.peer, a.counter), (0, 4));
    assert_eq!((b.peer, b.lamport), (1, 9));
    assert_eq!(c.peer, 0);
    let peers = reg.unwrap_vec();
    assert_eq!(peers, vec![900, 700]);
    let a2 = convert_id(&a, &peers);
    assert_eq!((a2.peer, a2.counter), (900, 4));
    let b2 = convert_idlp(&b, &peers);
    assert_eq!((b2.peer, b2.lamport), (700, 9));
    match convert_container_id(d, &peers) {
        ContainerID::Normal { peer, counter, container_type } => {
            assert_eq!((peer, counter), (700, 2));
            assert_eq!(container_type, ContainerType::Tree);
        }
        ContainerID::Root { .. } => panic!("a normal container stays normal"),
    }
    match convert_container_id(root, &peers) {
        ContainerID::Root { name, .. } => assert_eq!(name, "r"),
        ContainerID::Normal { .. } => panic!("a root container stays a root"),
    }
}

#[test]
fn encoded_changes_use_peer_indices_and_decode_back() {
    let mut a = LoroDoc::new();
    a.set_peer_id(70).unwrap();
    let mut b = LoroDoc::new();
    b.set_peer_id(30).unwrap();
    let text = ContainerID::new_root("text", ContainerType::Text);
    a.text_insert(&text, 0, &vec!['x', 'y']).unwrap();
    b.import(&a.export_snapshot()).unwrap();
    b.text_insert(&text, 2, &vec!['z']).unwrap();
    let json = b.export_json_updates(&VersionVector::new(), &b.oplog_vv());
    let mut reg = PeerRegister::new();
    let encoded = encode_changes(&json.changes, &mut reg);
    assert_eq!(encoded.len(), json.changes.len());
    assert_eq!(encoded.len(), 2);
    assert_eq!(encoded[0].id, ID::new(0, 0));
    assert_eq!(encoded[1].id, ID::new(1, 0));
    assert_eq!(encoded[1].ops[0].peer, 1);
    // The insert of "z" names the element it follows, written by peer 70.
    match &encoded[1].ops[0].content {
        OpContent::SeqInsert { origin: Some(e), .. } => assert_eq!(e.peer, 0),
        _ => panic!("expected an insert after an element"),
    }
    let peers = reg.unwrap_vec();
    assert_eq!(peers, vec![70, 30]);
    let back = decode_op(&encoded[1].ops[0], &peers);
    assert_eq!(back.peer, 30);
    assert_eq!(back.counter, json.changes[1].ops[0].counter);
    match &back.content {
        OpContent::SeqInsert { origin: Some(e), .. } => assert_eq!(e.peer, 70),
        _ => panic!("expected an insert after an element"),
    }
}

#[test]
fn encoded_tree_move_registers_node_then_parent() {
    let mut doc = LoroDoc::new();
    doc.set_peer_id(9).unwrap();
    let tree = ContainerID::new_root("tree", ContainerType::Tree);
    let a = doc.tree_create(&tree).unwrap();
    let b = doc.tree_create(&tree).unwrap();
    doc.tree_move(&tree, b, a).unwrap();
    let json = doc.export_json_updates(&VersionVector::new(), &doc.oplog_vv());
    let mut reg = PeerRegister::new();
    let last = json.changes[0].ops.last().unwrap();
    let enc = encode_op(last, &mut reg);
    assert_eq!(enc.peer, 0);
    match &enc.content {
        OpContent::TreeMove { target, parent: TreeParent::Node(p) } => {
            assert_eq!(*target, ID::new(0, b.counter));
            assert_eq!(*p, ID::new(0, a.counter));
        },
        _ => panic!("expected a move under a node"),
    }
    let back = decode_op(&enc, &reg.unwrap_vec());
    match &back.content {
        OpContent::TreeMove { target, parent: TreeParent::Node(p) } => {
            assert_eq!(*target, b);
            assert_eq!(*p, a);
        },
        _ => panic!("expected a move under a node"),
    }
}
