use loro_internal::common::{ContainerID, ContainerType};
use loro_internal::encoding::encode_changes::get_value_from_range_map;
use loro_internal::encoding::encode_enhanced::{DepsEncoding, Kind};
use loro_internal::encoding::outdated_encode_reordered::get_future_op_prop;
use loro_internal::encoding::value::OwnedValue;
use loro_internal::json_schema::refine_vv;
use loro_internal::op::FutureInnerContent;
use loro_internal::loro::LoroDoc;
use loro_internal::version::VersionVector;

#[test]
fn range_map_finds_the_covering_range() {
    let v = vec![(0..5, 10u32), (5..8, 20), (10..12, 40)];
    assert_eq!(get_value_from_range_map(&v, 0), Some((10, 0)));
    assert_eq!(get_value_from_range_map(&v, 4), Some((10, 4)));
    assert_eq!(get_value_from_range_map(&v, 5), Some((20, 0)));
    assert_eq!(get_value_from_range_map(&v, 7), Some((20, 2)));
    assert_eq!(get_value_from_range_map(&v, 8), None);
    assert_eq!(get_value_from_range_map(&v, 11), Some((40, 1)));
    assert_eq!(get_value_from_range_map(&v, 12), None);
    assert_eq!(get_value_from_range_map(&v, -1), None);
    assert_eq!(get_value_from_range_map(&[], 3), None);
}

#[test]
fn kind_bytes_roundtrip() {
    for b in 0u8..4 {
        assert_eq!(Kind::from_byte(b).to_byte(), b);
    }
    assert_eq!(Kind::from_byte(2), Kind::TextAnchorStart);
    assert_eq!(Kind::Delete.to_byte(), 1);
    assert_eq!(DepsEncoding::new(3, 9), DepsEncoding { client_idx: 3, counter: 9 });
}

#[test]
fn refine_vv_caps_each_peer_at_the_log() {
    let mut doc = LoroDoc::new();
    doc.set_peer_id(4).unwrap();
    let list = ContainerID::new_root("list", ContainerType::List);
    doc.list_insert(&list, 0, 1).unwrap();
    doc.list_insert(&list, 1, 2).unwrap();
    let log = doc.export_snapshot();
    let mut vv = VersionVector::new();
    vv.set(4, 10);
    vv.set(9, 3);
    vv.set(5, 0);
    let refined = refine_vv(&vv, &log);
    assert_eq!(refined.get(4), 2);
    assert_eq!(refined.get(9), 0);
    assert_eq!(refined.get(5), 0);
    // Only the peers with a nonzero counter are listed, 9 with 0.
    assert!(refined.entries.iter().any(|e| e.0 == 9));
    assert!(!refined.entries.iter().any(|e| e.0 == 5));
    assert_eq!(refined.entries.len(), 2);
    let mut small = VersionVector::new();
    small.set(4, 1);
    assert_eq!(refine_vv(&small, &log).get(4), 1);
}

#[test]
fn future_op_prop_of_unknown_content_is_its_property() {
    let unknown = FutureInnerContent::Unknown { prop: -7, value: OwnedValue::Null };
    assert_eq!(get_future_op_prop(&unknown), -7);
    let counter = FutureInnerContent::Counter(1.5f64.to_bits());
    assert_eq!(get_future_op_prop(&counter), 0);
}
