use loro_internal::common::ContainerType as C;
use loro_internal::fuzz::recursive_refactored::test_multi_sites;
use loro_internal::fuzz::recursive_refactored::Action::{List, Mapping, Sync, SyncAll, Text};
use loro_internal::fuzz::recursive_refactored::FuzzValue::{Container, Null, I32};

#[test]
fn recursive_refactored_empty() {
    assert!(test_multi_sites(2, &mut []));
}

#[test]
fn insert_container() {
    assert!(test_multi_sites(
            2,
            &mut [List {
                site: 171,
                container_idx: 171,
                key: 171,
                value: Container(C::Text),
            }],
        ));
}

#[test]
fn insert_container_1() {
    assert!(test_multi_sites(
            3,
            &mut [Mapping {
                site: 2,
                container_idx: 1,
                key: 2,
                value: Container(C::List),
            }],
        ));
}

#[test]
fn list_insert_del() {
    assert!(test_multi_sites(
            3,
            &mut [
                List {
                    site: 1,
                    container_idx: 78,
                    key: 0,
                    value: I32(16),
                },
                SyncAll,
                List {
                    site: 1,
                    container_idx: 78,
                    key: 0,
                    value: Null,
                },
            ],
        ));
}

#[test]
fn fuzz_0() {
    assert!(test_multi_sites(
            5,
            &mut [
                List {
                    site: 63,
                    container_idx: 61,
                    key: 55,
                    value: Null,
                },
                List {
                    site: 55,
                    container_idx: 55,
                    key: 55,
                    value: Null,
                },
                List {
                    site: 98,
                    container_idx: 45,
                    key: 98,
                    value: I32(1650614882),
                },
                List {
                    site: 98,
                    container_idx: 98,
                    key: 98,
                    value: I32(761422434),
                },
                List {
                    site: 98,
                    container_idx: 98,
                    key: 98,
                    value: I32(1650614882),
                },
                List {
                    site: 98,
                    container_idx: 98,
                    key: 98,
                    value: I32(1650614882),
                },
                List {
                    site: 98,
                    container_idx: 96,
                    key: 98,
                    value: I32(1650614882),
                },
                List {
                    site: 98,
                    container_idx: 98,
                    key: 98,
                    value: I32(761422434),
                },
                List {
                    site: 98,
                    container_idx: 98,
                    key: 98,
                    value: I32(1657699061),
                },
                List {
                    site: 98,
                    container_idx: 245,
                    key: 65,
                    value: Container(C::List),
                },
            ],
        ));
}

#[test]
fn fuzz_1() {
    assert!(test_multi_sites(
            5,
            &mut [
                List {
                    site: 3,
                    container_idx: 30,
                    key: 0,
                    value: Null,
                },
                SyncAll,
                Mapping {
                    site: 0,
                    container_idx: 0,
                    key: 14,
                    value: Null,
                },
                Mapping {
                    site: 3,
                    container_idx: 248,
                    key: 255,
                    value: Null,
                },
            ],
        ));
}

#[test]
fn recursive_refactored_fuzz_2() {
    assert!(test_multi_sites(
            5,
            &mut [
                Mapping {
                    site: 0,
                    container_idx: 0,
                    key: 0,
                    value: I32(1616928864),
                },
                List {
                    site: 96,
                    container_idx: 96,
                    key: 96,
                    value: I32(1616928864),
                },
                List {
                    site: 96,
                    container_idx: 96,
                    key: 96,
                    value: I32(1616928864),
                },
                List {
                    site: 96,
                    container_idx: 96,
                    key: 96,
                    value: Container(C::Text),
                },
                List {
                    site: 55,
                    container_idx: 55,
                    key: 55,
                    value: Null,
                },
                SyncAll,
                List {
                    site: 55,
                    container_idx: 64,
                    key: 53,
                    value: Null,
                },
                List {
                    site: 56,
                    container_idx: 56,
                    key: 56,
                    value: Container(C::Text),
                },
                List {
                    site: 0,
                    container_idx: 0,
                    key: 0,
                    value: Null,
                },
                List {
                    site: 64,
                    container_idx: 64,
                    key: 64,
                    value: I32(1616928864),
                },
                List {
                    site: 96,
                    container_idx: 96,
                    key: 96,
                    value: I32(1616928864),
                },
                List {
                    site: 96,
                    container_idx: 96,
                    key: 255,
                    value: I32(7),
                },
                Text {
                    site: 97,
                    container_idx: 225,
                    pos: 97,
                    value: 24929,
                    is_del: false,
                },
            ],
        ));
}

#[test]
fn fuzz_3() {
    assert!(test_multi_sites(
            5,
            &mut [
                List {
                    site: 3,
                    container_idx: 0,
                    key: 0,
                    value: I32(0),
                },
                List {
                    site: 3,
                    container_idx: 0,
                    key: 0,
                    value: I32(1),
                },
                List {
                    site: 0,
                    container_idx: 0,
                    key: 0,
                    value: I32(2),
                },
                List {
                    site: 3,
                    container_idx: 0,
                    key: 0,
                    value: I32(3),
                },
                List {
                    site: 3,
                    container_idx: 0,
                    key: 0,
                    value: I32(4),
                },
                List {
                    site: 3,
                    container_idx: 0,
                    key: 0,
                    value: I32(5),
                },
                List {
                    site: 4,
                    container_idx: 0,
                    key: 0,
                    value: I32(6),
                },
                List {
                    site: 3,
                    container_idx: 0,
                    key: 0,
                    value: I32(7),
                },
                List {
                    site: 3,
                    container_idx: 0,
                    key: 0,
                    value: I32(8),
                },
                List {
                    site: 3,
                    container_idx: 0,
                    key: 0,
                    value: I32(9),
                },
                List {
                    site: 3,
                    container_idx: 0,
                    key: 0,
                    value: I32(10),
                },
                List {
                    site: 3,
                    container_idx: 0,
                    key: 0,
                    value: I32(11),
                },
                List {
                    site: 3,
                    container_idx: 0,
                    key: 0,
                    value: I32(12),
                },
                List {
                    site: 4,
                    container_idx: 0,
                    key: 0,
                    value: I32(13),
                },
                List {
                    site: 3,
                    container_idx: 0,
                    key: 0,
                    value: I32(14),
                },
                List {
                    site: 1,
                    container_idx: 0,
                    key: 0,
                    value: I32(15),
                },
            ],
        ));
}

#[test]
fn encoding_sub_container() {
    assert!(test_multi_sites(
            5,
            &mut [
                List {
                    site: 96,
                    container_idx: 96,
                    key: 96,
                    value: Container(C::Tree),
                },
                List {
                    site: 96,
                    container_idx: 96,
                    key: 96,
                    value: Container(C::List),
                },
                List {
                    site: 90,
                    container_idx: 96,
                    key: 96,
                    value: I32(1516265568),
                },
                List {
                    site: 96,
                    container_idx: 96,
                    key: 7,
                    value: Container(C::Mapping),
                },
                SyncAll,
                Mapping {
                    site: 4,
                    container_idx: 21,
                    key: 64,
                    value: I32(-13828256),
                },
                List {
                    site: 45,
                    container_idx: 89,
                    key: 235,
                    value: I32(2122219134),
                },
            ],
        ));
}

#[test]
fn notify_causal_order_check() {
    assert!(test_multi_sites(
            5,
            &mut [
                Text {
                    site: 1,
                    container_idx: 0,
                    pos: 0,
                    value: 38912,
                    is_del: false,
                },
                Mapping {
                    site: 0,
                    container_idx: 0,
                    key: 0,
                    value: Null,
                },
                Mapping {
                    site: 0,
                    container_idx: 0,
                    key: 0,
                    value: Null,
                },
                Mapping {
                    site: 0,
                    container_idx: 0,
                    key: 0,
                    value: Null,
                },
                Mapping {
                    site: 0,
                    container_idx: 0,
                    key: 0,
                    value: Null,
                },
                Mapping {
                    site: 0,
                    container_idx: 0,
                    key: 0,
                    value: Null,
                },
                Mapping {
                    site: 0,
                    container_idx: 0,
                    key: 0,
                    value: Null,
                },
                Mapping {
                    site: 0,
                    container_idx: 0,
                    key: 138,
                    value: Container(C::List),
                },
                List {
                    site: 4,
                    container_idx: 0,
                    key: 0,
                    value: I32(1),
                },
                List {
                    site: 0,
                    container_idx: 0,
                    key: 0,
                    value: Container(C::List),
                },
                SyncAll,
            ],
        ));
}

#[test]
fn obs() {
    assert!(test_multi_sites(
            2,
            &mut [List {
                site: 1,
                container_idx: 255,
                key: 255,
                value: Container(C::List),
            }],
        ));
}

#[test]
fn obs_text() {
    assert!(test_multi_sites(
            5,
            &mut [Text {
                site: 0,
                container_idx: 0,
                pos: 0,
                value: 13756,
                is_del: false,
            }],
        ));
}

#[test]
fn obs_map() {
    assert!(test_multi_sites(
            5,
            &mut [
                Mapping {
                    site: 225,
                    container_idx: 233,
                    key: 234,
                    value: Container(C::Mapping),
                },
                Mapping {
                    site: 0,
                    container_idx: 233,
                    key: 233,
                    value: I32(16777215),
                },
            ],
        ));
}

#[test]
fn deleted_container() {
    assert!(test_multi_sites(
            5,
            &mut [
                Mapping {
                    site: 0,
                    container_idx: 0,
                    key: 0,
                    value: Container(C::List),
                },
                SyncAll,
                List {
                    site: 4,
                    container_idx: 0,
                    key: 0,
                    value: I32(-1734829928),
                },
                Mapping {
                    site: 0,
                    container_idx: 0,
                    key: 0,
                    value: Null,
                },
            ],
        ));
}

#[test]
fn should_notify() {
    assert!(test_multi_sites(
            5,
            &mut [
                Mapping {
                    site: 0,
                    container_idx: 0,
                    key: 0,
                    value: Container(C::Text),
                },
                Mapping {
                    site: 0,
                    container_idx: 0,
                    key: 0,
                    value: Null,
                },
                SyncAll,
                Text {
                    site: 4,
                    container_idx: 0,
                    pos: 0,
                    value: 39064,
                    is_del: false,
                },
            ],
        ));
}

#[test]
fn hierarchy() {
    assert!(test_multi_sites(
            5,
            &mut [
                Mapping {
                    site: 0,
                    container_idx: 0,
                    key: 255,
                    value: Container(C::Text),
                },
                Mapping {
                    site: 3,
                    container_idx: 0,
                    key: 255,
                    value: Container(C::Text),
                },
                SyncAll,
                Text {
                    site: 2,
                    container_idx: 0,
                    pos: 0,
                    value: 39064,
                    is_del: false,
                },
                Text {
                    site: 4,
                    container_idx: 0,
                    pos: 0,
                    value: 39064,
                    is_del: false,
                },
            ],
        ));
}

#[test]
fn apply_directly() {
    assert!(test_multi_sites(
            5,
            &mut [
                Mapping {
                    site: 0,
                    container_idx: 0,
                    key: 0,
                    value: Container(C::Text),
                },
                Mapping {
                    site: 0,
                    container_idx: 0,
                    key: 0,
                    value: Null,
                },
                SyncAll,
                Text {
                    site: 4,
                    container_idx: 0,
                    pos: 0,
                    value: 39061,
                    is_del: false,
                },
                Text {
                    site: 2,
                    container_idx: 0,
                    pos: 0,
                    value: 39062,
                    is_del: false,
                },
                SyncAll,
                Text {
                    site: 2,
                    container_idx: 0,
                    pos: 5,
                    value: 39063,
                    is_del: false,
                },
            ],
        ));
}

#[test]
fn find_path_for_deleted_container() {
    assert!(test_multi_sites(
            5,
            &mut [
                Mapping {
                    site: 0,
                    container_idx: 0,
                    key: 0,
                    value: Container(C::Mapping),
                },
                SyncAll,
                Mapping {
                    site: 0,
                    container_idx: 0,
                    key: 0,
                    value: Container(C::List),
                },
                Mapping {
                    site: 1,
                    container_idx: 1,
                    key: 255,
                    value: Container(C::List),
                },
                Mapping {
                    site: 4,
                    container_idx: 1,
                    key: 9,
                    value: Null,
                },
            ],
        ));
}

#[test]
fn list_unknown() {
    assert!(test_multi_sites(
            5,
            &mut [
                List {
                    site: 139,
                    container_idx: 133,
                    key: 32,
                    value: Container(C::Text),
                },
                List {
                    site: 166,
                    container_idx: 127,
                    key: 207,
                    value: Null,
                },
                Text {
                    site: 203,
                    container_idx: 105,
                    pos: 87,
                    value: 52649,
                    is_del: false,
                },
                List {
                    site: 122,
                    container_idx: 137,
                    key: 41,
                    value: Container(C::List),
                },
            ],
        ));
}

#[test]
fn path_issue() {
    assert!(test_multi_sites(
            5,
            &mut [
                List {
                    site: 1,
                    container_idx: 0,
                    key: 0,
                    value: Container(C::List),
                },
                List {
                    site: 1,
                    container_idx: 1,
                    key: 0,
                    value: Container(C::List),
                },
                List {
                    site: 1,
                    container_idx: 0,
                    key: 0,
                    value: Container(C::List),
                },
            ],
        ));
}

#[test]
fn unknown_1() {
    assert!(test_multi_sites(
            5,
            &mut [
                SyncAll,
                Mapping {
                    site: 32,
                    container_idx: 0,
                    key: 110,
                    value: Null,
                },
                SyncAll,
                List {
                    site: 90,
                    container_idx: 90,
                    key: 90,
                    value: I32(5921392),
                },
                Text {
                    site: 92,
                    container_idx: 140,
                    pos: 0,
                    value: 0,
                    is_del: false,
                },
                SyncAll,
            ],
        ));
}

#[test]
fn cannot_skip_ops_from_deleted_container_due_to_this_case() {
    assert!(test_multi_sites(
            5,
            &mut [
                List {
                    site: 1,
                    container_idx: 0,
                    key: 0,
                    value: Container(C::List),
                },
                Mapping {
                    site: 0,
                    container_idx: 0,
                    key: 2,
                    value: Container(C::List),
                },
                SyncAll,
                Mapping {
                    site: 0,
                    container_idx: 0,
                    key: 255,
                    value: Container(C::List),
                },
                SyncAll,
                Mapping {
                    site: 0,
                    container_idx: 0,
                    key: 255,
                    value: Container(C::List),
                },
                List {
                    site: 3,
                    container_idx: 3,
                    key: 0,
                    value: Container(C::List),
                },
                List {
                    site: 1,
                    container_idx: 3,
                    key: 0,
                    value: Container(C::List),
                },
                SyncAll,
                List {
                    site: 0,
                    container_idx: 3,
                    key: 0,
                    value: Container(C::Mapping),
                },
                List {
                    site: 1,
                    container_idx: 3,
                    key: 1,
                    value: Container(C::Mapping),
                },
            ],
        ));
}

#[test]
fn map_apply() {
    assert!(test_multi_sites(
            5,
            &mut [
                Text {
                    site: 2,
                    container_idx: 0,
                    pos: 0,
                    value: 39064,
                    is_del: false,
                },
                List {
                    site: 0,
                    container_idx: 0,
                    key: 0,
                    value: Container(C::Mapping),
                },
                Mapping {
                    site: 0,
                    container_idx: 1,
                    key: 255,
                    value: Container(C::Mapping),
                },
            ],
        ));
}

#[test]
fn maybe_because_of_hierarchy() {
    assert!(test_multi_sites(
            5,
            &mut [
                List {
                    site: 1,
                    container_idx: 0,
                    key: 0,
                    value: Container(C::Text),
                },
                List {
                    site: 1,
                    container_idx: 0,
                    key: 0,
                    value: Container(C::Text),
                },
                Sync { from: 1, to: 2 },
                List {
                    site: 2,
                    container_idx: 0,
                    key: 0,
                    value: Null,
                },
                Sync { from: 1, to: 2 },
                Text {
                    site: 1,
                    container_idx: 2,
                    pos: 0,
                    value: 45232,
                    is_del: false,
                },
            ],
        ));
}

#[test]
fn checkout_error() {
    assert!(test_multi_sites(
            2,
            &mut [
                Mapping {
                    site: 0,
                    container_idx: 0,
                    key: 0,
                    value: Null,
                },
                List {
                    site: 1,
                    container_idx: 0,
                    key: 0,
                    value: I32(1),
                },
                List {
                    site: 0,
                    container_idx: 0,
                    key: 0,
                    value: Container(C::List),
                },
            ],
        ));
}

#[test]
fn unknown() {
    assert!(test_multi_sites(
            5,
            &mut [
                Text {
                    site: 2,
                    container_idx: 0,
                    pos: 0,
                    value: 39064,
                    is_del: false,
                },
                Text {
                    site: 2,
                    container_idx: 0,
                    pos: 5,
                    value: 152,
                    is_del: false,
                },
                Sync { from: 2, to: 3 },
                Text {
                    site: 3,
                    container_idx: 0,
                    pos: 10,
                    value: 2,
                    is_del: true,
                },
                Text {
                    site: 2,
                    container_idx: 0,
                    pos: 0,
                    value: 39064,
                    is_del: false,
                },
                Sync { from: 2, to: 3 },
                Text {
                    site: 2,
                    container_idx: 0,
                    pos: 16,
                    value: 39064,
                    is_del: false,
                },
                Text {
                    site: 2,
                    container_idx: 0,
                    pos: 8,
                    value: 39064,
                    is_del: false,
                },
                Text {
                    site: 2,
                    container_idx: 0,
                    pos: 28,
                    value: 39064,
                    is_del: false,
                },
                Text {
                    site: 2,
                    container_idx: 0,
                    pos: 0,
                    value: 39064,
                    is_del: false,
                },
                Text {
                    site: 2,
                    container_idx: 0,
                    pos: 41,
                    value: 45232,
                    is_del: false,
                },
                Sync { from: 1, to: 2 },
                Text {
                    site: 2,
                    container_idx: 0,
                    pos: 48,
                    value: 39064,
                    is_del: false,
                },
                List {
                    site: 1,
                    container_idx: 0,
                    key: 0,
                    value: I32(-1734829928),
                },
            ],
        ));
}

#[test]
fn list_slice_err() {
    assert!(test_multi_sites(
            5,
            &mut [
                Mapping {
                    site: 0,
                    container_idx: 0,
                    key: 0,
                    value: Container(C::List),
                },
                Mapping {
                    site: 0,
                    container_idx: 0,
                    key: 0,
                    value: Container(C::Mapping),
                },
                SyncAll,
                Mapping {
                    site: 1,
                    container_idx: 1,
                    key: 37,
                    value: Null,
                },
            ],
        ));
}

#[test]
fn utf16_err() {
    assert!(test_multi_sites(
            5,
            &mut [
                Text {
                    site: 2,
                    container_idx: 0,
                    pos: 0,
                    value: 39064,
                    is_del: false,
                },
                Text {
                    site: 2,
                    container_idx: 0,
                    pos: 1,
                    value: 2,
                    is_del: true,
                },
            ],
        ));
}

#[test]
fn fuzz_4() {
    assert!(test_multi_sites(
            5,
            &mut [
                List {
                    site: 2,
                    container_idx: 0,
                    key: 0,
                    value: I32(1),
                },
                List {
                    site: 2,
                    container_idx: 0,
                    key: 0,
                    value: I32(1),
                },
                SyncAll,
                List {
                    site: 1,
                    container_idx: 0,
                    key: 1,
                    value: Container(C::List),
                },
                List {
                    site: 2,
                    container_idx: 0,
                    key: 0,
                    value: I32(1634495596),
                },
                SyncAll,
                List {
                    site: 1,
                    container_idx: 1,
                    key: 0,
                    value: Container(C::List),
                },
                List {
                    site: 1,
                    container_idx: 0,
                    key: 0,
                    value: Null,
                },
                List {
                    site: 1,
                    container_idx: 0,
                    key: 0,
                    value: Null,
                },
            ],
        ));
}

#[test]
fn merge_err() {
    assert!(test_multi_sites(
            5,
            &mut [
                Text {
                    site: 2,
                    container_idx: 0,
                    pos: 0,
                    value: 39064,
                    is_del: false,
                },
                SyncAll,
                Text {
                    site: 1,
                    container_idx: 0,
                    pos: 5,
                    value: 2,
                    is_del: true,
                },
            ],
        ));
}

#[test]
fn unknown_fuzz_err() {
    assert!(test_multi_sites(
            5,
            &mut [
                Mapping {
                    site: 167,
                    container_idx: 163,
                    key: 255,
                    value: Container(C::List),
                },
                List {
                    site: 144,
                    container_idx: 7,
                    key: 0,
                    value: Container(C::Text),
                },
                SyncAll,
                Text {
                    site: 126,
                    container_idx: 13,
                    pos: 122,
                    value: 0,
                    is_del: false,
                },
                Text {
                    site: 6,
                    container_idx: 191,
                    pos: 249,
                    value: 255,
                    is_del: true,
                },
                Text {
                    site: 126,
                    container_idx: 126,
                    pos: 126,
                    value: 32382,
                    is_del: false,
                },
                Text {
                    site: 126,
                    container_idx: 126,
                    pos: 246,
                    value: 32382,
                    is_del: false,
                },
                Text {
                    site: 126,
                    container_idx: 92,
                    pos: 126,
                    value: 65406,
                    is_del: false,
                },
            ],
        ));
}

#[test]
fn fuzz_5() {
    assert!(test_multi_sites(
            5,
            &mut [
                Text {
                    site: 1,
                    container_idx: 0,
                    pos: 0,
                    value: 32382,
                    is_del: false,
                },
                Text {
                    site: 1,
                    container_idx: 0,
                    pos: 3,
                    value: 4,
                    is_del: true,
                },
                Text {
                    site: 1,
                    container_idx: 0,
                    pos: 0,
                    value: 32382,
                    is_del: false,
                },
                Text {
                    site: 1,
                    container_idx: 0,
                    pos: 6,
                    value: 32502,
                    is_del: false,
                },
                Text {
                    site: 1,
                    container_idx: 0,
                    pos: 7,
                    value: 32382,
                    is_del: false,
                },
                Text {
                    site: 1,
                    container_idx: 0,
                    pos: 0,
                    value: 255,
                    is_del: false,
                },
                Text {
                    site: 1,
                    container_idx: 0,
                    pos: 10,
                    value: 12414,
                    is_del: false,
                },
                Text {
                    site: 1,
                    container_idx: 0,
                    pos: 22,
                    value: 1,
                    is_del: true,
                },
                Text {
                    site: 1,
                    container_idx: 0,
                    pos: 21,
                    value: 14,
                    is_del: true,
                },
                Text {
                    site: 0,
                    container_idx: 0,
                    pos: 0,
                    value: 37265,
                    is_del: false,
                },
                Text {
                    site: 1,
                    container_idx: 0,
                    pos: 0,
                    value: 63102,
                    is_del: false,
                },
                Text {
                    site: 1,
                    container_idx: 0,
                    pos: 22,
                    value: 32382,
                    is_del: false,
                },
                Text {
                    site: 1,
                    container_idx: 0,
                    pos: 21,
                    value: 14,
                    is_del: true,
                },
                Text {
                    site: 0,
                    container_idx: 0,
                    pos: 2,
                    value: 5,
                    is_del: true,
                },
                Text {
                    site: 0,
                    container_idx: 0,
                    pos: 0,
                    value: 32382,
                    is_del: false,
                },
                Text {
                    site: 1,
                    container_idx: 0,
                    pos: 0,
                    value: 32382,
                    is_del: false,
                },
                Text {
                    site: 1,
                    container_idx: 0,
                    pos: 22,
                    value: 32382,
                    is_del: false,
                },
                Text {
                    site: 1,
                    container_idx: 0,
                    pos: 21,
                    value: 32382,
                    is_del: false,
                },
                Text {
                    site: 0,
                    container_idx: 0,
                    pos: 0,
                    value: 65503,
                    is_del: false,
                },
                Text {
                    site: 1,
                    container_idx: 0,
                    pos: 0,
                    value: 32304,
                    is_del: false,
                },
                Text {
                    site: 1,
                    container_idx: 0,
                    pos: 31,
                    value: 10113,
                    is_del: false,
                },
                Text {
                    site: 1,
                    container_idx: 0,
                    pos: 14,
                    value: 17,
                    is_del: true,
                },
                Text {
                    site: 0,
                    container_idx: 0,
                    pos: 10,
                    value: 32401,
                    is_del: false,
                },
                Text {
                    site: 1,
                    container_idx: 0,
                    pos: 9,
                    value: 32502,
                    is_del: false,
                },
                Text {
                    site: 1,
                    container_idx: 0,
                    pos: 34,
                    value: 32382,
                    is_del: false,
                },
                Text {
                    site: 1,
                    container_idx: 0,
                    pos: 20,
                    value: 31,
                    is_del: true,
                },
                Text {
                    site: 0,
                    container_idx: 0,
                    pos: 3,
                    value: 7,
                    is_del: true,
                },
                Text {
                    site: 0,
                    container_idx: 0,
                    pos: 0,
                    value: 7,
                    is_del: true,
                },
                Text {
                    site: 1,
                    container_idx: 0,
                    pos: 16,
                    value: 32382,
                    is_del: false,
                },
                Text {
                    site: 1,
                    container_idx: 0,
                    pos: 10,
                    value: 19,
                    is_del: true,
                },
                Text {
                    site: 1,
                    container_idx: 0,
                    pos: 6,
                    value: 32382,
                    is_del: false,
                },
                Text {
                    site: 1,
                    container_idx: 0,
                    pos: 7,
                    value: 32407,
                    is_del: false,
                },
                Text {
                    site: 1,
                    container_idx: 0,
                    pos: 6,
                    value: 32382,
                    is_del: false,
                },
                Text {
                    site: 1,
                    container_idx: 0,
                    pos: 2,
                    value: 32382,
                    is_del: false,
                },
                Text {
                    site: 0,
                    container_idx: 0,
                    pos: 1,
                    value: 63015,
                    is_del: false,
                },
                Text {
                    site: 1,
                    container_idx: 0,
                    pos: 31,
                    value: 7,
                    is_del: true,
                },
                Text {
                    site: 1,
                    container_idx: 0,
                    pos: 29,
                    value: 32382,
                    is_del: false,
                },
                Text {
                    site: 1,
                    container_idx: 0,
                    pos: 12,
                    value: 32382,
                    is_del: false,
                },
                Text {
                    site: 1,
                    container_idx: 0,
                    pos: 30,
                    value: 65535,
                    is_del: false,
                },
                Text {
                    site: 1,
                    container_idx: 0,
                    pos: 23,
                    value: 16,
                    is_del: true,
                },
                List {
                    site: 3,
                    container_idx: 0,
                    key: 0,
                    value: I32(8949861),
                },
                Text {
                    site: 0,
                    container_idx: 0,
                    pos: 0,
                    value: 34695,
                    is_del: false,
                },
                Text {
                    site: 1,
                    container_idx: 0,
                    pos: 18,
                    value: 32502,
                    is_del: false,
                },
                Text {
                    site: 1,
                    container_idx: 0,
                    pos: 40,
                    value: 32382,
                    is_del: false,
                },
                Text {
                    site: 1,
                    container_idx: 0,
                    pos: 26,
                    value: 32382,
                    is_del: false,
                },
                Text {
                    site: 1,
                    container_idx: 0,
                    pos: 12,
                    value: 12543,
                    is_del: false,
                },
                Text {
                    site: 1,
                    container_idx: 0,
                    pos: 48,
                    value: 32382,
                    is_del: false,
                },
                Text {
                    site: 0,
                    container_idx: 0,
                    pos: 19,
                    value: 63015,
                    is_del: false,
                },
                Text {
                    site: 1,
                    container_idx: 0,
                    pos: 3,
                    value: 17,
                    is_del: true,
                },
                Text {
                    site: 0,
                    container_idx: 0,
                    pos: 0,
                    value: 29,
                    is_del: true,
                },
                Text {
                    site: 1,
                    container_idx: 0,
                    pos: 30,
                    value: 32382,
                    is_del: false,
                },
                Text {
                    site: 1,
                    container_idx: 0,
                    pos: 11,
                    value: 31,
                    is_del: true,
                },
                Text {
                    site: 0,
                    container_idx: 0,
                    pos: 0,
                    value: 32382,
                    is_del: false,
                },
                Text {
                    site: 1,
                    container_idx: 0,
                    pos: 6,
                    value: 24,
                    is_del: true,
                },
                Text {
                    site: 0,
                    container_idx: 0,
                    pos: 2,
                    value: 5,
                    is_del: true,
                },
                Text {
                    site: 1,
                    container_idx: 0,
                    pos: 0,
                    value: 32382,
                    is_del: false,
                },
            ],
        ));
}

#[test]
fn fuzz_6_reset_children() {
    assert!(test_multi_sites(
            5,
            &mut [
                Mapping {
                    site: 3,
                    container_idx: 1,
                    key: 0,
                    value: Null,
                },
                Mapping {
                    site: 1,
                    container_idx: 136,
                    key: 0,
                    value: Container(C::Text),
                },
                Text {
                    site: 1,
                    container_idx: 5,
                    pos: 0,
                    value: 0,
                    is_del: false,
                },
            ],
        ));
}

#[test]
fn fuzz_7_checkout() {
    assert!(test_multi_sites(
            5,
            &mut [
                Mapping {
                    site: 1,
                    container_idx: 0,
                    key: 0,
                    value: Container(C::Text),
                },
                List {
                    site: 4,
                    container_idx: 0,
                    key: 0,
                    value: Container(C::List),
                },
                Sync { from: 1, to: 4 },
                List {
                    site: 4,
                    container_idx: 1,
                    key: 0,
                    value: I32(1566399837),
                },
                List {
                    site: 1,
                    container_idx: 0,
                    key: 0,
                    value: Null,
                },
            ],
        ));
}

#[test]
fn fuzz_8_checkout() {
    assert!(test_multi_sites(
            5,
            &mut [
                Text {
                    site: 0,
                    container_idx: 0,
                    pos: 0,
                    value: 16639,
                    is_del: false,
                },
                List {
                    site: 0,
                    container_idx: 0,
                    key: 0,
                    value: Container(C::Text),
                },
                Mapping {
                    site: 0,
                    container_idx: 0,
                    key: 245,
                    value: Container(C::List),
                },
                SyncAll,
                List {
                    site: 2,
                    container_idx: 0,
                    key: 0,
                    value: Container(C::Mapping),
                },
                List {
                    site: 1,
                    container_idx: 1,
                    key: 0,
                    value: Container(C::Tree),
                },
                Text {
                    site: 1,
                    container_idx: 1,
                    pos: 0,
                    value: 47288,
                    is_del: false,
                },
                List {
                    site: 0,
                    container_idx: 0,
                    key: 0,
                    value: Null,
                },
            ],
        ));
}

#[test]
fn fuzz_9_checkout() {
    assert!(test_multi_sites(
            5,
            &mut [
                Mapping {
                    site: 0,
                    container_idx: 0,
                    key: 223,
                    value: Container(C::Mapping),
                },
                List {
                    site: 213,
                    container_idx: 85,
                    key: 85,
                    value: Null,
                },
                Mapping {
                    site: 0,
                    container_idx: 1,
                    key: 14,
                    value: Container(C::Text),
                },
                Mapping {
                    site: 223,
                    container_idx: 255,
                    key: 126,
                    value: Container(C::Tree),
                },
                Text {
                    site: 255,
                    container_idx: 255,
                    pos: 120,
                    value: 9215,
                    is_del: false,
                },
            ],
        ));
}

#[test]
fn fuzz_10_checkout() {
    assert!(test_multi_sites(
            5,
            &mut [
                List {
                    site: 2,
                    container_idx: 0,
                    key: 0,
                    value: Container(C::Tree),
                },
                Mapping {
                    site: 0,
                    container_idx: 0,
                    key: 0,
                    value: I32(-167),
                },
                List {
                    site: 0,
                    container_idx: 0,
                    key: 0,
                    value: Container(C::Mapping),
                },
                Sync { from: 1, to: 0 },
                List {
                    site: 0,
                    container_idx: 0,
                    key: 0,
                    value: Container(C::Tree),
                },
                Mapping {
                    site: 0,
                    container_idx: 1,
                    key: 255,
                    value: Null,
                },
                Mapping {
                    site: 0,
                    container_idx: 0,
                    key: 17,
                    value: Null,
                },
                Mapping {
                    site: 0,
                    container_idx: 1,
                    key: 255,
                    value: Null,
                },
                List {
                    site: 2,
                    container_idx: 0,
                    key: 0,
                    value: Container(C::List),
                },
                List {
                    site: 4,
                    container_idx: 0,
                    key: 0,
                    value: Container(C::Mapping),
                },
                Mapping {
                    site: 0,
                    container_idx: 1,
                    key: 191,
                    value: Container(C::List),
                },
                SyncAll,
                Mapping {
                    site: 0,
                    container_idx: 0,
                    key: 17,
                    value: Null,
                },
                Mapping {
                    site: 0,
                    container_idx: 0,
                    key: 255,
                    value: Null,
                },
                List {
                    site: 2,
                    container_idx: 1,
                    key: 0,
                    value: Container(C::List),
                },
                List {
                    site: 4,
                    container_idx: 2,
                    key: 0,
                    value: Container(C::Mapping),
                },
                SyncAll,
                Mapping {
                    site: 2,
                    container_idx: 3,
                    key: 239,
                    value: I32(-1073741988),
                },
                Mapping {
                    site: 0,
                    container_idx: 3,
                    key: 191,
                    value: Container(C::List),
                },
                List {
                    site: 1,
                    container_idx: 1,
                    key: 0,
                    value: Container(C::Text),
                },
                Mapping {
                    site: 0,
                    container_idx: 0,
                    key: 17,
                    value: Null,
                },
                Mapping {
                    site: 0,
                    container_idx: 3,
                    key: 255,
                    value: Null,
                },
                Mapping {
                    site: 1,
                    container_idx: 0,
                    key: 0,
                    value: Null,
                },
                List {
                    site: 0,
                    container_idx: 3,
                    key: 0,
                    value: Container(C::Mapping),
                },
                Mapping {
                    site: 0,
                    container_idx: 1,
                    key: 191,
                    value: Container(C::Text),
                },
            ],
        ));
}

#[test]
fn fuzz_11_checkout() {
    assert!(test_multi_sites(
            5,
            &mut [
                Mapping {
                    site: 4,
                    container_idx: 0,
                    key: 8,
                    value: Null,
                },
                Mapping {
                    site: 1,
                    container_idx: 0,
                    key: 8,
                    value: Container(C::Text),
                },
                SyncAll,
                Text {
                    site: 2,
                    container_idx: 1,
                    pos: 0,
                    value: 1918,
                    is_del: false,
                },
                SyncAll,
                Text {
                    site: 1,
                    container_idx: 1,
                    pos: 5,
                    value: 1,
                    is_del: true,
                },
                Sync { from: 1, to: 2 },
                Text {
                    site: 2,
                    container_idx: 1,
                    pos: 1,
                    value: 5,
                    is_del: true,
                },
            ],
        ));
}

#[test]
fn fuzz_map_bring_back() {
    assert!(test_multi_sites(
            5,
            &mut [
                Mapping {
                    site: 6,
                    container_idx: 63,
                    key: 255,
                    value: Container(C::Tree),
                },
                List {
                    site: 96,
                    container_idx: 96,
                    key: 96,
                    value: Container(C::Mapping),
                },
                List {
                    site: 96,
                    container_idx: 96,
                    key: 96,
                    value: Null,
                },
                SyncAll,
                Mapping {
                    site: 223,
                    container_idx: 255,
                    key: 96,
                    value: I32(1616928864),
                },
            ],
        ));
}

#[test]
fn fuzz_sub_sub_bring_back() {
    assert!(test_multi_sites(
            5,
            &mut [
                List {
                    site: 65,
                    container_idx: 65,
                    key: 65,
                    value: Container(C::Mapping),
                },
                Mapping {
                    site: 50,
                    container_idx: 7,
                    key: 7,
                    value: Container(C::Text),
                },
                Sync { from: 0, to: 112 },
                Text {
                    site: 0,
                    container_idx: 13,
                    pos: 0,
                    value: 47712,
                    is_del: false,
                },
                Sync { from: 50, to: 50 },
                SyncAll,
                Mapping {
                    site: 59,
                    container_idx: 0,
                    key: 0,
                    value: Container(C::Mapping),
                },
                List {
                    site: 65,
                    container_idx: 65,
                    key: 112,
                    value: Null,
                },
                List {
                    site: 67,
                    container_idx: 65,
                    key: 65,
                    value: Null,
                },
                Mapping {
                    site: 7,
                    container_idx: 50,
                    key: 7,
                    value: Container(C::Text),
                },
            ],
        ));
}

#[test]
fn fuzz_bring_back_sub_is_other_bring_back() {
    assert!(test_multi_sites(
            5,
            &mut [
                List {
                    site: 255,
                    container_idx: 255,
                    key: 90,
                    value: Container(C::List),
                },
                List {
                    site: 255,
                    container_idx: 255,
                    key: 199,
                    value: Container(C::Text),
                },
                Mapping {
                    site: 0,
                    container_idx: 0,
                    key: 0,
                    value: Null,
                },
                SyncAll,
                Text {
                    site: 147,
                    container_idx: 33,
                    pos: 251,
                    value: 37779,
                    is_del: false,
                },
                Mapping {
                    site: 0,
                    container_idx: 68,
                    key: 68,
                    value: Null,
                },
                List {
                    site: 75,
                    container_idx: 0,
                    key: 75,
                    value: Null,
                },
                Text {
                    site: 0,
                    container_idx: 177,
                    pos: 0,
                    value: 53883,
                    is_del: true,
                },
            ],
        ));
}

#[test]
fn fuzz_sub_sub_is_has_diff() {
    assert!(test_multi_sites(
            5,
            &mut [
                List {
                    site: 251,
                    container_idx: 251,
                    key: 123,
                    value: Container(C::List),
                },
                List {
                    site: 255,
                    container_idx: 251,
                    key: 123,
                    value: Container(C::List),
                },
                List {
                    site: 91,
                    container_idx: 33,
                    key: 126,
                    value: Container(C::List),
                },
                List {
                    site: 255,
                    container_idx: 63,
                    key: 251,
                    value: Container(C::Tree),
                },
                Mapping {
                    site: 255,
                    container_idx: 148,
                    key: 255,
                    value: Container(C::Text),
                },
                SyncAll,
                Sync { from: 14, to: 140 },
                Mapping {
                    site: 126,
                    container_idx: 0,
                    key: 58,
                    value: Null,
                },
                List {
                    site: 251,
                    container_idx: 63,
                    key: 255,
                    value: Container(C::Tree),
                },
                List {
                    site: 56,
                    container_idx: 40,
                    key: 255,
                    value: Null,
                },
            ],
        ));
}

#[test]
fn fuzz_12() {
    assert!(test_multi_sites(
            5,
            &mut [
                List {
                    site: 69,
                    container_idx: 69,
                    key: 69,
                    value: Container(C::List),
                },
                List {
                    site: 69,
                    container_idx: 69,
                    key: 69,
                    value: Container(C::List),
                },
                List {
                    site: 69,
                    container_idx: 69,
                    key: 4,
                    value: Container(C::Text),
                },
                List {
                    site: 69,
                    container_idx: 69,
                    key: 69,
                    value: Null,
                },
                List {
                    site: 0,
                    container_idx: 0,
                    key: 0,
                    value: Null,
                },
                List {
                    site: 4,
                    container_idx: 255,
                    key: 47,
                    value: Null,
                },
                Mapping {
                    site: 0,
                    container_idx: 0,
                    key: 0,
                    value: Null,
                },
                List {
                    site: 69,
                    container_idx: 69,
                    key: 69,
                    value: Null,
                },
                Mapping {
                    site: 47,
                    container_idx: 38,
                    key: 250,
                    value: Null,
                },
                List {
                    site: 69,
                    container_idx: 69,
                    key: 69,
                    value: Container(C::Tree),
                },
                Text {
                    site: 0,
                    container_idx: 0,
                    pos: 255,
                    value: 17919,
                    is_del: true,
                },
                List {
                    site: 69,
                    container_idx: 69,
                    key: 4,
                    value: I32(553672192),
                },
                List {
                    site: 69,
                    container_idx: 14,
                    key: 255,
                    value: Container(C::Tree),
                },
            ],
        ));
}

#[test]
fn fuzz_14() {
    assert!(test_multi_sites(
            5,
            &mut [
                Text {
                    site: 4,
                    container_idx: 0,
                    pos: 0,
                    value: 34816,
                    is_del: false,
                },
                Text {
                    site: 1,
                    container_idx: 0,
                    pos: 0,
                    value: 34952,
                    is_del: false,
                },
                Text {
                    site: 1,
                    container_idx: 0,
                    pos: 3,
                    value: 34952,
                    is_del: false,
                },
                Text {
                    site: 1,
                    container_idx: 0,
                    pos: 10,
                    value: 34952,
                    is_del: false,
                },
                Text {
                    site: 1,
                    container_idx: 0,
                    pos: 10,
                    value: 34952,
                    is_del: false,
                },
                Text {
                    site: 1,
                    container_idx: 0,
                    pos: 24,
                    value: 34952,
                    is_del: false,
                },
                Text {
                    site: 3,
                    container_idx: 0,
                    pos: 0,
                    value: 34816,
                    is_del: false,
                },
                Text {
                    site: 1,
                    container_idx: 0,
                    pos: 11,
                    value: 0,
                    is_del: false,
                },
                Text {
                    site: 1,
                    container_idx: 0,
                    pos: 22,
                    value: 34952,
                    is_del: false,
                },
                Text {
                    site: 1,
                    container_idx: 0,
                    pos: 1,
                    value: 34872,
                    is_del: false,
                },
                Mapping {
                    site: 1,
                    container_idx: 0,
                    key: 136,
                    value: Null,
                },
                Text {
                    site: 1,
                    container_idx: 0,
                    pos: 32,
                    value: 34952,
                    is_del: false,
                },
                Text {
                    site: 1,
                    container_idx: 0,
                    pos: 18,
                    value: 36232,
                    is_del: false,
                },
                Text {
                    site: 1,
                    container_idx: 0,
                    pos: 61,
                    value: 34952,
                    is_del: false,
                },
                Text {
                    site: 1,
                    container_idx: 0,
                    pos: 63,
                    value: 34878,
                    is_del: false,
                },
                Text {
                    site: 1,
                    container_idx: 0,
                    pos: 56,
                    value: 34952,
                    is_del: false,
                },
                Mapping {
                    site: 1,
                    container_idx: 0,
                    key: 136,
                    value: I32(-2004318072),
                },
                Text {
                    site: 1,
                    container_idx: 0,
                    pos: 13,
                    value: 0,
                    is_del: false,
                },
                Text {
                    site: 1,
                    container_idx: 0,
                    pos: 50,
                    value: 34952,
                    is_del: false,
                },
                Text {
                    site: 1,
                    container_idx: 0,
                    pos: 39,
                    value: 34952,
                    is_del: false,
                },
                Text {
                    site: 1,
                    container_idx: 0,
                    pos: 32,
                    value: 34858,
                    is_del: false,
                },
                Text {
                    site: 1,
                    container_idx: 0,
                    pos: 25,
                    value: 34952,
                    is_del: false,
                },
                Text {
                    site: 1,
                    container_idx: 0,
                    pos: 18,
                    value: 34952,
                    is_del: false,
                },
                Text {
                    site: 1,
                    container_idx: 0,
                    pos: 11,
                    value: 34952,
                    is_del: false,
                },
                Text {
                    site: 1,
                    container_idx: 0,
                    pos: 4,
                    value: 34952,
                    is_del: false,
                },
                Text {
                    site: 1,
                    container_idx: 0,
                    pos: 136,
                    value: 34952,
                    is_del: false,
                },
                Text {
                    site: 1,
                    container_idx: 0,
                    pos: 0,
                    value: 34816,
                    is_del: false,
                },
                Text {
                    site: 1,
                    container_idx: 0,
                    pos: 136,
                    value: 34952,
                    is_del: false,
                },
                Text {
                    site: 1,
                    container_idx: 0,
                    pos: 136,
                    value: 34952,
                    is_del: false,
                },
                Text {
                    site: 1,
                    container_idx: 0,
                    pos: 136,
                    value: 12936,
                    is_del: false,
                },
                Text {
                    site: 1,
                    container_idx: 0,
                    pos: 136,
                    value: 34952,
                    is_del: false,
                },
                Text {
                    site: 1,
                    container_idx: 0,
                    pos: 68,
                    value: 34957,
                    is_del: false,
                },
                Text {
                    site: 1,
                    container_idx: 0,
                    pos: 136,
                    value: 34952,
                    is_del: false,
                },
                Text {
                    site: 1,
                    container_idx: 0,
                    pos: 136,
                    value: 34952,
                    is_del: false,
                },
                Text {
                    site: 1,
                    container_idx: 0,
                    pos: 136,
                    value: 34952,
                    is_del: false,
                },
                Text {
                    site: 1,
                    container_idx: 0,
                    pos: 136,
                    value: 34952,
                    is_del: false,
                },
                Text {
                    site: 1,
                    container_idx: 0,
                    pos: 136,
                    value: 34952,
                    is_del: false,
                },
                Text {
                    site: 1,
                    container_idx: 0,
                    pos: 136,
                    value: 34952,
                    is_del: false,
                },
                Text {
                    site: 2,
                    container_idx: 0,
                    pos: 0,
                    value: 34952,
                    is_del: false,
                },
                Text {
                    site: 1,
                    container_idx: 0,
                    pos: 136,
                    value: 34952,
                    is_del: false,
                },
                Text {
                    site: 1,
                    container_idx: 0,
                    pos: 136,
                    value: 8,
                    is_del: true,
                },
                Text {
                    site: 1,
                    container_idx: 0,
                    pos: 136,
                    value: 34877,
                    is_del: false,
                },
                Text {
                    site: 1,
                    container_idx: 0,
                    pos: 136,
                    value: 34952,
                    is_del: false,
                },
                Text {
                    site: 1,
                    container_idx: 0,
                    pos: 136,
                    value: 34952,
                    is_del: false,
                },
                Text {
                    site: 1,
                    container_idx: 0,
                    pos: 136,
                    value: 34952,
                    is_del: false,
                },
                Text {
                    site: 1,
                    container_idx: 0,
                    pos: 0,
                    value: 34952,
                    is_del: false,
                },
                Text {
                    site: 1,
                    container_idx: 0,
                    pos: 0,
                    value: 34952,
                    is_del: false,
                },
                Text {
                    site: 1,
                    container_idx: 0,
                    pos: 2,
                    value: 34952,
                    is_del: false,
                },
                Text {
                    site: 1,
                    container_idx: 0,
                    pos: 4,
                    value: 34952,
                    is_del: false,
                },
                Text {
                    site: 1,
                    container_idx: 0,
                    pos: 13,
                    value: 0,
                    is_del: false,
                },
                Text {
                    site: 1,
                    container_idx: 0,
                    pos: 18,
                    value: 34952,
                    is_del: false,
                },
                Text {
                    site: 1,
                    container_idx: 0,
                    pos: 19,
                    value: 34952,
                    is_del: false,
                },
                Text {
                    site: 1,
                    container_idx: 0,
                    pos: 44,
                    value: 34858,
                    is_del: false,
                },
                Text {
                    site: 1,
                    container_idx: 0,
                    pos: 30,
                    value: 34952,
                    is_del: false,
                },
                Text {
                    site: 1,
                    container_idx: 0,
                    pos: 16,
                    value: 34952,
                    is_del: false,
                },
                Text {
                    site: 1,
                    container_idx: 0,
                    pos: 2,
                    value: 34952,
                    is_del: false,
                },
                Text {
                    site: 1,
                    container_idx: 0,
                    pos: 62,
                    value: 34952,
                    is_del: false,
                },
                Text {
                    site: 1,
                    container_idx: 0,
                    pos: 55,
                    value: 34952,
                    is_del: false,
                },
                Text {
                    site: 1,
                    container_idx: 0,
                    pos: 48,
                    value: 34952,
                    is_del: false,
                },
                Text {
                    site: 1,
                    container_idx: 0,
                    pos: 41,
                    value: 11,
                    is_del: false,
                },
                Text {
                    site: 1,
                    container_idx: 0,
                    pos: 62,
                    value: 30,
                    is_del: true,
                },
                Text {
                    site: 1,
                    container_idx: 0,
                    pos: 67,
                    value: 3976,
                    is_del: false,
                },
                Sync { from: 1, to: 3 },
                Text {
                    site: 3,
                    container_idx: 0,
                    pos: 27,
                    value: 34952,
                    is_del: false,
                },
                SyncAll,
                Text {
                    site: 1,
                    container_idx: 0,
                    pos: 8,
                    value: 34952,
                    is_del: false,
                },
                Text {
                    site: 1,
                    container_idx: 0,
                    pos: 27,
                    value: 34952,
                    is_del: false,
                },
                Mapping {
                    site: 1,
                    container_idx: 0,
                    key: 11,
                    value: Null,
                },
                Mapping {
                    site: 1,
                    container_idx: 0,
                    key: 11,
                    value: Null,
                },
                Mapping {
                    site: 1,
                    container_idx: 0,
                    key: 11,
                    value: Null,
                },
                Mapping {
                    site: 1,
                    container_idx: 0,
                    key: 11,
                    value: Null,
                },
                Mapping {
                    site: 1,
                    container_idx: 0,
                    key: 11,
                    value: Null,
                },
                Mapping {
                    site: 1,
                    container_idx: 0,
                    key: 11,
                    value: Null,
                },
                Mapping {
                    site: 1,
                    container_idx: 0,
                    key: 11,
                    value: I32(-2004318072),
                },
                List {
                    site: 1,
                    container_idx: 0,
                    key: 0,
                    value: I32(-2004318072),
                },
                Text {
                    site: 1,
                    container_idx: 0,
                    pos: 20,
                    value: 8,
                    is_del: true,
                },
                Text {
                    site: 1,
                    container_idx: 0,
                    pos: 28,
                    value: 34877,
                    is_del: false,
                },
                Text {
                    site: 1,
                    container_idx: 0,
                    pos: 21,
                    value: 16008,
                    is_del: false,
                },
                Text {
                    site: 1,
                    container_idx: 0,
                    pos: 14,
                    value: 34952,
                    is_del: false,
                },
                Text {
                    site: 1,
                    container_idx: 0,
                    pos: 7,
                    value: 34952,
                    is_del: false,
                },
                Text {
                    site: 1,
                    container_idx: 0,
                    pos: 0,
                    value: 34952,
                    is_del: false,
                },
                Text {
                    site: 1,
                    container_idx: 0,
                    pos: 141,
                    value: 34952,
                    is_del: false,
                },
                Text {
                    site: 1,
                    container_idx: 0,
                    pos: 136,
                    value: 34952,
                    is_del: false,
                },
                Text {
                    site: 1,
                    container_idx: 0,
                    pos: 136,
                    value: 34952,
                    is_del: false,
                },
                Text {
                    site: 1,
                    container_idx: 0,
                    pos: 136,
                    value: 34952,
                    is_del: false,
                },
                Text {
                    site: 1,
                    container_idx: 0,
                    pos: 136,
                    value: 34952,
                    is_del: false,
                },
                Text {
                    site: 1,
                    container_idx: 0,
                    pos: 136,
                    value: 34952,
                    is_del: false,
                },
                Text {
                    site: 1,
                    container_idx: 0,
                    pos: 136,
                    value: 34952,
                    is_del: false,
                },
                Text {
                    site: 1,
                    container_idx: 0,
                    pos: 136,
                    value: 34952,
                    is_del: false,
                },
                Text {
                    site: 1,
                    container_idx: 0,
                    pos: 136,
                    value: 34952,
                    is_del: false,
                },
                Text {
                    site: 1,
                    container_idx: 0,
                    pos: 114,
                    value: 34952,
                    is_del: false,
                },
                Text {
                    site: 1,
                    container_idx: 0,
                    pos: 136,
                    value: 34952,
                    is_del: false,
                },
                Text {
                    site: 1,
                    container_idx: 0,
                    pos: 136,
                    value: 34952,
                    is_del: false,
                },
                Text {
                    site: 1,
                    container_idx: 0,
                    pos: 136,
                    value: 34952,
                    is_del: false,
                },
                Text {
                    site: 1,
                    container_idx: 0,
                    pos: 138,
                    value: 34952,
                    is_del: false,
                },
                Text {
                    site: 1,
                    container_idx: 0,
                    pos: 136,
                    value: 34952,
                    is_del: false,
                },
                Text {
                    site: 1,
                    container_idx: 0,
                    pos: 0,
                    value: 34816,
                    is_del: false,
                },
                Text {
                    site: 1,
                    container_idx: 0,
                    pos: 0,
                    value: 34952,
                    is_del: false,
                },
                Text {
                    site: 1,
                    container_idx: 0,
                    pos: 1,
                    value: 34952,
                    is_del: false,
                },
                Text {
                    site: 1,
                    container_idx: 0,
                    pos: 8,
                    value: 34952,
                    is_del: false,
                },
                Text {
                    site: 1,
                    container_idx: 0,
                    pos: 1,
                    value: 34952,
                    is_del: false,
                },
                Text {
                    site: 1,
                    container_idx: 0,
                    pos: 16,
                    value: 34952,
                    is_del: false,
                },
                Text {
                    site: 1,
                    container_idx: 0,
                    pos: 25,
                    value: 34952,
                    is_del: false,
                },
                Mapping {
                    site: 1,
                    container_idx: 0,
                    key: 136,
                    value: I32(-1903260024),
                },
                Text {
                    site: 1,
                    container_idx: 0,
                    pos: 4,
                    value: 34952,
                    is_del: false,
                },
                Text {
                    site: 1,
                    container_idx: 0,
                    pos: 34,
                    value: 34952,
                    is_del: false,
                },
                Text {
                    site: 1,
                    container_idx: 0,
                    pos: 20,
                    value: 34952,
                    is_del: false,
                },
                Text {
                    site: 1,
                    container_idx: 0,
                    pos: 6,
                    value: 34952,
                    is_del: false,
                },
                Text {
                    site: 1,
                    container_idx: 0,
                    pos: 0,
                    value: 0,
                    is_del: false,
                },
                Text {
                    site: 1,
                    container_idx: 0,
                    pos: 61,
                    value: 34952,
                    is_del: false,
                },
                Text {
                    site: 1,
                    container_idx: 0,
                    pos: 54,
                    value: 34952,
                    is_del: false,
                },
                Text {
                    site: 1,
                    container_idx: 0,
                    pos: 47,
                    value: 34952,
                    is_del: false,
                },
                Text {
                    site: 1,
                    container_idx: 0,
                    pos: 40,
                    value: 12936,
                    is_del: false,
                },
                Text {
                    site: 1,
                    container_idx: 0,
                    pos: 33,
                    value: 34952,
                    is_del: false,
                },
                Text {
                    site: 1,
                    container_idx: 0,
                    pos: 26,
                    value: 34957,
                    is_del: false,
                },
                Text {
                    site: 1,
                    container_idx: 0,
                    pos: 19,
                    value: 34952,
                    is_del: false,
                },
                Text {
                    site: 1,
                    container_idx: 0,
                    pos: 12,
                    value: 34952,
                    is_del: false,
                },
                Text {
                    site: 1,
                    container_idx: 0,
                    pos: 5,
                    value: 34952,
                    is_del: false,
                },
                Text {
                    site: 1,
                    container_idx: 0,
                    pos: 1,
                    value: 34952,
                    is_del: false,
                },
                Text {
                    site: 1,
                    container_idx: 0,
                    pos: 136,
                    value: 34963,
                    is_del: false,
                },
                Text {
                    site: 1,
                    container_idx: 0,
                    pos: 136,
                    value: 34952,
                    is_del: false,
                },
                Text {
                    site: 1,
                    container_idx: 0,
                    pos: 136,
                    value: 34952,
                    is_del: false,
                },
                Text {
                    site: 1,
                    container_idx: 0,
                    pos: 136,
                    value: 34952,
                    is_del: false,
                },
                Text {
                    site: 1,
                    container_idx: 0,
                    pos: 138,
                    value: 34952,
                    is_del: false,
                },
                Text {
                    site: 1,
                    container_idx: 0,
                    pos: 136,
                    value: 34952,
                    is_del: false,
                },
                Text {
                    site: 1,
                    container_idx: 0,
                    pos: 136,
                    value: 36488,
                    is_del: false,
                },
                Text {
                    site: 1,
                    container_idx: 0,
                    pos: 136,
                    value: 8,
                    is_del: true,
                },
                Text {
                    site: 1,
                    container_idx: 0,
                    pos: 136,
                    value: 34952,
                    is_del: false,
                },
                Text {
                    site: 1,
                    container_idx: 0,
                    pos: 136,
                    value: 34952,
                    is_del: false,
                },
                Text {
                    site: 1,
                    container_idx: 0,
                    pos: 136,
                    value: 34952,
                    is_del: false,
                },
                Text {
                    site: 1,
                    container_idx: 0,
                    pos: 136,
                    value: 34952,
                    is_del: false,
                },
                Text {
                    site: 1,
                    container_idx: 0,
                    pos: 136,
                    value: 35464,
                    is_del: false,
                },
                List {
                    site: 1,
                    container_idx: 0,
                    key: 0,
                    value: Null,
                },
                Text {
                    site: 1,
                    container_idx: 0,
                    pos: 136,
                    value: 136,
                    is_del: false,
                },
                Text {
                    site: 1,
                    container_idx: 0,
                    pos: 136,
                    value: 34824,
                    is_del: false,
                },
                Text {
                    site: 1,
                    container_idx: 0,
                    pos: 136,
                    value: 34952,
                    is_del: false,
                },
                Text {
                    site: 1,
                    container_idx: 0,
                    pos: 20,
                    value: 0,
                    is_del: false,
                },
                Mapping {
                    site: 1,
                    container_idx: 0,
                    key: 11,
                    value: Null,
                },
                Mapping {
                    site: 1,
                    container_idx: 0,
                    key: 11,
                    value: Null,
                },
                Mapping {
                    site: 1,
                    container_idx: 0,
                    key: 11,
                    value: Null,
                },
                Mapping {
                    site: 1,
                    container_idx: 0,
                    key: 11,
                    value: Null,
                },
                Mapping {
                    site: 1,
                    container_idx: 0,
                    key: 11,
                    value: Null,
                },
                Mapping {
                    site: 1,
                    container_idx: 0,
                    key: 11,
                    value: Null,
                },
                Mapping {
                    site: 1,
                    container_idx: 0,
                    key: 11,
                    value: Null,
                },
                Mapping {
                    site: 1,
                    container_idx: 0,
                    key: 11,
                    value: Null,
                },
                Mapping {
                    site: 1,
                    container_idx: 0,
                    key: 11,
                    value: Null,
                },
                Text {
                    site: 1,
                    container_idx: 0,
                    pos: 136,
                    value: 34952,
                    is_del: false,
                },
                Text {
                    site: 1,
                    container_idx: 0,
                    pos: 136,
                    value: 34952,
                    is_del: false,
                },
                Text {
                    site: 1,
                    container_idx: 0,
                    pos: 0,
                    value: 34952,
                    is_del: false,
                },
                Text {
                    site: 1,
                    container_idx: 0,
                    pos: 0,
                    value: 34952,
                    is_del: false,
                },
                Text {
                    site: 1,
                    container_idx: 0,
                    pos: 1,
                    value: 34952,
                    is_del: false,
                },
                Text {
                    site: 1,
                    container_idx: 0,
                    pos: 4,
                    value: 34952,
                    is_del: false,
                },
                Text {
                    site: 1,
                    container_idx: 0,
                    pos: 20,
                    value: 8,
                    is_del: true,
                },
                Text {
                    site: 1,
                    container_idx: 0,
                    pos: 0,
                    value: 2681,
                    is_del: false,
                },
                Text {
                    site: 1,
                    container_idx: 0,
                    pos: 15,
                    value: 30976,
                    is_del: false,
                },
                Text {
                    site: 1,
                    container_idx: 0,
                    pos: 0,
                    value: 136,
                    is_del: false,
                },
                Text {
                    site: 1,
                    container_idx: 0,
                    pos: 19,
                    value: 34824,
                    is_del: false,
                },
                Text {
                    site: 1,
                    container_idx: 0,
                    pos: 1,
                    value: 34952,
                    is_del: false,
                },
            ],
        ));
}

#[test]
fn fuzz_13() {
    assert!(test_multi_sites(
            5,
            &mut [
                Text {
                    site: 150,
                    container_idx: 22,
                    pos: 150,
                    value: 38550,
                    is_del: false,
                },
                Text {
                    site: 43,
                    container_idx: 0,
                    pos: 116,
                    value: 29812,
                    is_del: false,
                },
                Text {
                    site: 116,
                    container_idx: 116,
                    pos: 116,
                    value: 29812,
                    is_del: false,
                },
                Text {
                    site: 116,
                    container_idx: 116,
                    pos: 116,
                    value: 29812,
                    is_del: false,
                },
                Text {
                    site: 120,
                    container_idx: 116,
                    pos: 116,
                    value: 29812,
                    is_del: false,
                },
                Text {
                    site: 116,
                    container_idx: 116,
                    pos: 116,
                    value: 29812,
                    is_del: false,
                },
                Text {
                    site: 116,
                    container_idx: 116,
                    pos: 116,
                    value: 29812,
                    is_del: false,
                },
                Text {
                    site: 150,
                    container_idx: 22,
                    pos: 150,
                    value: 38550,
                    is_del: false,
                },
                Text {
                    site: 116,
                    container_idx: 116,
                    pos: 116,
                    value: 29812,
                    is_del: false,
                },
                Text {
                    site: 116,
                    container_idx: 0,
                    pos: 0,
                    value: 16,
                    is_del: false,
                },
                Text {
                    site: 116,
                    container_idx: 116,
                    pos: 116,
                    value: 29812,
                    is_del: false,
                },
                Mapping {
                    site: 0,
                    container_idx: 238,
                    key: 0,
                    value: I32(1950809972),
                },
                Text {
                    site: 20,
                    container_idx: 20,
                    pos: 20,
                    value: 5140,
                    is_del: false,
                },
                Text {
                    site: 116,
                    container_idx: 116,
                    pos: 116,
                    value: 29812,
                    is_del: false,
                },
                Text {
                    site: 116,
                    container_idx: 116,
                    pos: 116,
                    value: 29812,
                    is_del: false,
                },
                Text {
                    site: 116,
                    container_idx: 116,
                    pos: 116,
                    value: 29812,
                    is_del: false,
                },
                Text {
                    site: 116,
                    container_idx: 116,
                    pos: 116,
                    value: 29812,
                    is_del: false,
                },
                Text {
                    site: 116,
                    container_idx: 116,
                    pos: 116,
                    value: 29812,
                    is_del: false,
                },
                Mapping {
                    site: 150,
                    container_idx: 150,
                    key: 150,
                    value: I32(1953789044),
                },
                Text {
                    site: 116,
                    container_idx: 116,
                    pos: 116,
                    value: 116,
                    is_del: false,
                },
            ],
        ));
}

#[test]
fn fuzz_15() {
    assert!(test_multi_sites(
            5,
            &mut [
                List {
                    site: 90,
                    container_idx: 90,
                    key: 90,
                    value: I32(1515870810),
                },
                List {
                    site: 90,
                    container_idx: 175,
                    key: 165,
                    value: I32(1515890085),
                },
                List {
                    site: 90,
                    container_idx: 90,
                    key: 131,
                    value: I32(1520805286),
                },
                Sync { from: 122, to: 90 },
                Sync { from: 165, to: 165 },
                Sync { from: 90, to: 90 },
                List {
                    site: 26,
                    container_idx: 90,
                    key: 131,
                    value: I32(1515879083),
                },
                Sync { from: 165, to: 165 },
                List {
                    site: 90,
                    container_idx: 90,
                    key: 90,
                    value: I32(1509972611),
                },
                List {
                    site: 165,
                    container_idx: 165,
                    key: 165,
                    value: I32(1515870810),
                },
            ],
        ));
}

#[test]
fn fuzz_16() {
    assert!(test_multi_sites(
            5,
            &mut [
                List {
                    site: 8,
                    container_idx: 0,
                    key: 92,
                    value: Null,
                },
                Sync { from: 113, to: 7 },
                Mapping {
                    site: 0,
                    container_idx: 0,
                    key: 0,
                    value: I32(-1077952577),
                },
                Mapping {
                    site: 191,
                    container_idx: 191,
                    key: 191,
                    value: Container(C::Text),
                },
                Sync { from: 61, to: 58 },
                List {
                    site: 58,
                    container_idx: 58,
                    key: 58,
                    value: I32(1617542919),
                },
                List {
                    site: 191,
                    container_idx: 191,
                    key: 191,
                    value: Container(C::Text),
                },
                Sync { from: 202, to: 202 },
                List {
                    site: 0,
                    container_idx: 58,
                    key: 58,
                    value: Null,
                },
                List {
                    site: 58,
                    container_idx: 186,
                    key: 58,
                    value: Null,
                },
                Sync { from: 8, to: 92 },
                Sync { from: 191, to: 28 },
                List {
                    site: 0,
                    container_idx: 100,
                    key: 191,
                    value: I32(1618020287),
                },
                List {
                    site: 191,
                    container_idx: 191,
                    key: 191,
                    value: Container(C::Text),
                },
                Sync { from: 202, to: 191 },
                Sync { from: 191, to: 113 },
                List {
                    site: 191,
                    container_idx: 191,
                    key: 191,
                    value: Container(C::Text),
                },
                Mapping {
                    site: 58,
                    container_idx: 58,
                    key: 245,
                    value: I32(-1077976064),
                },
                List {
                    site: 58,
                    container_idx: 0,
                    key: 100,
                    value: Container(C::Mapping),
                },
                Mapping {
                    site: 100,
                    container_idx: 191,
                    key: 191,
                    value: Null,
                },
            ],
        ));
}

#[test]
fn fuzz_17() {
    assert!(test_multi_sites(
            5,
            &mut [
                Text {
                    site: 3,
                    container_idx: 0,
                    pos: 0,
                    value: 27756,
                    is_del: false,
                },
                Text {
                    site: 3,
                    container_idx: 0,
                    pos: 2,
                    value: 47288,
                    is_del: false,
                },
                List {
                    site: 1,
                    container_idx: 0,
                    key: 0,
                    value: I32(1),
                },
                Text {
                    site: 3,
                    container_idx: 0,
                    pos: 10,
                    value: 4,
                    is_del: true,
                },
                Text {
                    site: 0,
                    container_idx: 0,
                    pos: 0,
                    value: 27756,
                    is_del: false,
                },
                Sync { from: 3, to: 4 },
                Text {
                    site: 0,
                    container_idx: 0,
                    pos: 6,
                    value: 27756,
                    is_del: false,
                },
                Sync { from: 4, to: 0 },
                Text {
                    site: 0,
                    container_idx: 0,
                    pos: 13,
                    value: 15476,
                    is_del: false,
                },
            ],
        ));
}

#[test]
fn fuzz_18() {
    assert!(test_multi_sites(
            5,
            &mut [
                List {
                    site: 1,
                    container_idx: 0,
                    key: 0,
                    value: I32(1),
                },
                List {
                    site: 1,
                    container_idx: 0,
                    key: 0,
                    value: Container(C::List),
                },
                List {
                    site: 1,
                    container_idx: 0,
                    key: 0,
                    value: Null,
                },
                List {
                    site: 1,
                    container_idx: 0,
                    key: 0,
                    value: Null,
                },
            ],
        ));
}

#[test]
fn fuzz_19() {
    assert!(test_multi_sites(
            5,
            &mut [
                List {
                    site: 1,
                    container_idx: 0,
                    key: 0,
                    value: I32(2),
                },
                List {
                    site: 1,
                    container_idx: 0,
                    key: 0,
                    value: I32(1),
                },
                List {
                    site: 1,
                    container_idx: 0,
                    key: 1,
                    value: Null,
                },
                List {
                    site: 1,
                    container_idx: 0,
                    key: 0,
                    value: Null,
                },
            ],
        ));
}
