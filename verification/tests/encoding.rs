use loro_internal::common::{ContainerID, ContainerType, LoroError, LoroValue, ID};
use loro_internal::encoding::arena::{longest_common_prefix_length, PositionArena};
use loro_internal::encoding::encode_reordered::{
    DepsArena, EncodedDep, EncodedTreeMove as ReorderedTreeMove, ValueKind as ReorderedKind,
    ValueReader as ReorderedReader, ValueWriter as ReorderedWriter,
};
use loro_internal::encoding::forward_encode::BasicValueKind;
use loro_internal::encoding::reordered_codec::{MarkStart, Value as OpValue};
use loro_internal::encoding::reordered_value::ContainerRegister;
use loro_internal::encoding::value::{
    get_loro_value_kind, EncodedTreeMove, LoroValueKind, ValueKind, ValueReader, ValueWriter,
};
use loro_internal::encoding::value_register::ValueRegister;

fn s(x: &str) -> String {
    x.to_string()
}

#[test]
fn leb_roundtrip_through_writer_and_reader() {
    let mut w = ValueWriter::new();
    assert_eq!(w.write_u64(300), 2);
    assert_eq!(w.write_i64(-1), 1);
    assert_eq!(w.write_i64(-129), 2);
    assert_eq!(w.write_usize(0), 1);
    let bytes = w.finish();
    assert_eq!(bytes, vec![0xac, 0x02, 0x7f, 0xff, 0x7e, 0x00]);
    let mut r = ValueReader::new(&bytes);
    assert_eq!(r.read_u64(), Ok(300));
    assert_eq!(r.read_i64(), Ok(-1));
    assert_eq!(r.read_i64(), Ok(-129));
    assert_eq!(r.read_usize(), Ok(0));
    assert_eq!(r.read_u8(), Err(LoroError::DecodeDataCorruptionError));
}

#[test]
fn extreme_signed_values_roundtrip() {
    let mut w = ValueWriter::new();
    w.write_i64(i64::MIN);
    w.write_i64(i64::MAX);
    w.write_u64(u64::MAX);
    let bytes = w.finish();
    let mut r = ValueReader::new(&bytes);
    assert_eq!(r.read_i64(), Ok(i64::MIN));
    assert_eq!(r.read_i64(), Ok(i64::MAX));
    assert_eq!(r.read_u64(), Ok(u64::MAX));
}

#[test]
fn truncated_input_is_corrupt() {
    let bytes = [0x80u8, 0x80];
    let mut r = ValueReader::new(&bytes);
    assert_eq!(r.read_u64(), Err(LoroError::DecodeDataCorruptionError));
    let mut r = ValueReader::new(&[1, 2, 3]);
    assert_eq!(r.read_f64(), Err(LoroError::DecodeDataCorruptionError));
    let mut r = ValueReader::new(&[5, 1, 2]);
    assert_eq!(r.read_binary(), Err(LoroError::DecodeDataCorruptionError));
}

#[test]
fn f64_str_binary_roundtrip() {
    let bits = 1.5f64.to_bits();
    let mut w = ValueWriter::new();
    assert_eq!(w.write_f64(bits), 8);
    assert_eq!(w.write_str("héllo"), 7);
    assert_eq!(w.write_binary(&[9, 8, 7]), 4);
    let bytes = w.finish();
    assert_eq!(&bytes[0..8], &1.5f64.to_be_bytes());
    let mut r = ValueReader::new(&bytes);
    assert_eq!(r.read_f64(), Ok(bits));
    assert_eq!(r.read_str(), Ok("héllo"));
    assert_eq!(r.read_binary(), Ok(&[9u8, 8, 7][..]));
}

#[test]
fn tree_move_roundtrip() {
    let moves = [
        EncodedTreeMove { subject_idx: 3, is_parent_null: true, parent_idx: 0, position: 200 },
        EncodedTreeMove { subject_idx: 1, is_parent_null: false, parent_idx: 9, position: 0 },
    ];
    let mut w = ValueWriter::new();
    assert_eq!(w.write_tree_move(&moves[0]), 4);
    assert_eq!(w.write_tree_move(&moves[1]), 4);
    let bytes = w.finish();
    let mut r = ValueReader::new(&bytes);
    assert_eq!(r.read_tree_move(), Ok(moves[0]));
    assert_eq!(r.read_tree_move(), Ok(moves[1]));
    assert!(r.read_tree_move().is_err());
}

#[test]
fn value_kind_bytes() {
    assert_eq!(ValueKind::Null.to_u8(), 0);
    assert_eq!(ValueKind::ListSet.to_u8(), 15);
    assert_eq!(ValueKind::from_u8(13), ValueKind::TreeMove);
    assert_eq!(ValueKind::from_u8(0x85), ValueKind::Str);
    let future = ValueKind::from_u8(40);
    assert_eq!(future.to_u8(), 40 | 0x80);
    assert_eq!(ValueKind::from_u8(future.to_u8()), future);
    assert_eq!(LoroValueKind::from_u8(8), LoroValueKind::Mapping);
    assert_eq!(LoroValueKind::Mapping.to_u8(), 8);
    assert_eq!(get_loro_value_kind(&LoroValue::Bool(false)), LoroValueKind::False);
}

#[test]
fn position_arena_roundtrip() {
    let positions: Vec<Vec<u8>> = vec![
        vec![1, 2, 3, 4],
        vec![1, 2, 3, 5, 6],
        vec![1, 2],
        vec![],
        vec![7, 7],
        vec![7, 7],
    ];
    let arena = PositionArena::from_positions(&positions);
    assert_eq!(arena.positions.len(), 6);
    assert_eq!(arena.positions[0].common_prefix_length, 0);
    assert_eq!(arena.positions[1].common_prefix_length, 3);
    assert_eq!(arena.positions[1].rest, vec![5, 6]);
    assert_eq!(arena.positions[2].common_prefix_length, 2);
    assert_eq!(arena.positions[5].common_prefix_length, 2);
    assert!(arena.positions[5].rest.is_empty());
    assert_eq!(arena.parse_to_positions(), positions);
}

#[test]
fn common_prefix_lengths() {
    assert_eq!(longest_common_prefix_length(&[1, 2, 3], &[1, 2, 4]), 2);
    assert_eq!(longest_common_prefix_length(&[], &[1]), 0);
    assert_eq!(longest_common_prefix_length(&[5, 6], &[5, 6, 7]), 2);
}

#[test]
fn reordered_kinds_and_writer() {
    assert_eq!(ReorderedKind::Mapping.to_u8(), Some(11));
    assert_eq!(ReorderedKind::Unknown.to_u8(), None);
    assert_eq!(ReorderedKind::from_u8(14), Some(ReorderedKind::Binary));
    assert_eq!(ReorderedKind::from_u8(15), None);
    assert_eq!(BasicValueKind::Unknown.code(), 65536);
    assert_eq!(BasicValueKind::Mapping.code(), 8);

    let mut w = ReorderedWriter::new();
    w.write_kind(ReorderedKind::TreeMove);
    let mv = ReorderedTreeMove {
        subject_peer_idx: 2,
        subject_cnt: 130,
        is_parent_null: false,
        parent_peer_idx: 1,
        parent_cnt: 5,
    };
    w.write_tree_move(&mv);
    w.write_i32(-5);
    w.write_binary(&[1, 2]);
    let bytes = w.finish();
    assert_eq!(bytes, vec![13, 2, 0x82, 0x01, 0, 1, 5, 0x7b, 2, 1, 2]);
    let mut r = ReorderedReader::new(&bytes);
    assert_eq!(r.read_u8(), Ok(13));
    assert_eq!(r.read_tree_move(), Ok(mv));
    assert_eq!(r.read_i32(), Ok(-5));
    assert_eq!(r.read_binary(), Ok(&[1u8, 2][..]));
}

#[test]
fn deps_arena_keeps_order() {
    let mut deps = DepsArena::default();
    deps.push(1, 10);
    deps.push(0, -1);
    assert_eq!(deps.deps(), &vec![EncodedDep { peer_idx: 1, counter: 10 }, EncodedDep { peer_idx: 0, counter: -1 }]);
}

#[test]
fn register_gives_stable_indices() {
    let mut reg = ValueRegister::new();
    assert_eq!(reg.register(&s("a")), 0);
    assert_eq!(reg.register(&s("b")), 1);
    assert_eq!(reg.register(&s("a")), 0);
    assert_eq!(reg.get(&s("b")), Some(1));
    assert_eq!(reg.get(&s("c")), None);
    assert!(reg.contains(&s("a")));
    assert_eq!(reg.get_value(1), Some(&s("b")));
    assert_eq!(reg.unwrap_vec(), vec![s("a"), s("b")]);
}

fn nested_value() -> LoroValue {
    LoroValue::Mapping(vec![
        (s("name"), LoroValue::String(s("loro"))),
        (
            s("list"),
            LoroValue::List(vec![
                LoroValue::I64(-42),
                LoroValue::Double(2.5f64.to_bits()),
                LoroValue::Bool(true),
                LoroValue::Null,
                LoroValue::Binary(vec![0, 255]),
                LoroValue::List(vec![]),
                LoroValue::Mapping(vec![(s("name"), LoroValue::Bool(false))]),
            ]),
        ),
        (s("empty"), LoroValue::Mapping(vec![])),
    ])
}

#[test]
fn value_roundtrip_through_nested_reader() {
    let v = nested_value();
    let mut w = ValueWriter::new();
    let mut reg = ValueRegister::new();
    let n = w.write_value_type_and_content(&v, &mut reg);
    let bytes = w.finish();
    assert_eq!(n, bytes.len());
    let keys = reg.unwrap_vec();
    assert_eq!(keys, vec![s("name"), s("list"), s("empty")]);
    let mut r = ValueReader::new(&bytes);
    let back = r.recursive_read_value_type_and_content(&keys, ID::new(0, 0)).unwrap();
    assert!(back.equals(&v));
    assert_eq!(r.read_u8(), Err(LoroError::DecodeDataCorruptionError));
}

#[test]
fn value_roundtrip_through_top_level_reader() {
    let v = nested_value();
    let mut w = ValueWriter::new();
    let mut reg = ValueRegister::new();
    w.write_value_type_and_content(&v, &mut reg);
    w.write_value_type_and_content(&LoroValue::I64(7), &mut reg);
    let bytes = w.finish();
    let keys = reg.unwrap_vec();
    let mut r = ValueReader::new(&bytes);
    let back = r.read_value_type_and_content(&keys, ID::new(0, 0)).unwrap();
    assert!(back.equals(&v));
    let seven = r.read_value_type_and_content(&keys, ID::new(0, 0)).unwrap();
    assert!(seven.equals(&LoroValue::I64(7)));
}

#[test]
fn container_references_take_the_given_id() {
    let mut w = ValueWriter::new();
    let mut reg = ValueRegister::new();
    let c = LoroValue::Container(ContainerID::new_normal(ID::new(3, 4), ContainerType::Text));
    let list = LoroValue::List(vec![c]);
    w.write_value_type_and_content(&list, &mut reg);
    let bytes = w.finish();
    assert_eq!(bytes, vec![7, 1, 9, 2]);
    let mut r = ValueReader::new(&bytes);
    let nested = r.recursive_read_value_type_and_content(&[], ID::new(3, 4)).unwrap();
    assert!(nested.equals(&list));
    // At the top level the items of a list get ids counted up from the id.
    let mut r = ValueReader::new(&bytes);
    let top = r.read_value_type_and_content(&[], ID::new(3, 3)).unwrap();
    let expect = LoroValue::List(vec![LoroValue::Container(ContainerID::new_normal(
        ID::new(3, 3),
        ContainerType::Text,
    ))]);
    assert!(top.equals(&expect));
}

#[test]
fn corrupt_values_are_errors() {
    // A map entry whose key index is past the arena.
    let bytes = [8u8, 1, 5, 0];
    let mut r = ValueReader::new(&bytes);
    assert_eq!(
        r.recursive_read_value_type_and_content(&[s("k")], ID::new(0, 0)).unwrap_err(),
        LoroError::DecodeDataCorruptionError
    );
    // A list announcing more items than there are.
    let bytes = [7u8, 3, 0, 0];
    let mut r = ValueReader::new(&bytes);
    assert!(r.recursive_read_value_type_and_content(&[], ID::new(0, 0)).is_err());
    // A list announcing more items than allowed.
    let bytes = [7u8, 0x80, 0x80, 0x80, 0x80, 0x01];
    let mut r = ValueReader::new(&bytes);
    assert!(r.recursive_read_value_type_and_content(&[], ID::new(0, 0)).is_err());
    // Empty input.
    let mut r = ValueReader::new(&[]);
    assert!(r.read_value_type_and_content(&[], ID::new(0, 0)).is_err());
}

#[test]
fn duplicate_map_keys_keep_the_last_value() {
    // A map of two entries with the same key index.
    let bytes = [8u8, 2, 0, 3, 2, 0, 3, 4];
    let mut r = ValueReader::new(&bytes);
    let v = r.recursive_read_value_type_and_content(&[s("k")], ID::new(0, 0)).unwrap();
    assert!(v.equals(&LoroValue::Mapping(vec![(s("k"), LoroValue::I64(4))])));
}

fn loro_value_read_write(v: LoroValue, container_id: Option<ContainerID>) {
    let id = match &container_id {
        Some(ContainerID::Root { .. }) => ID::new(u64::MAX, 0),
        Some(ContainerID::Normal { peer, counter, .. }) => ID::new(*peer, *counter),
        None => ID::new(u64::MAX, 0),
    };
    let mut registers = ValueRegister::new();
    let mut writer = ValueWriter::new();
    let (kind, _) = writer.write_value_content(&v, &mut registers);
    let binding = writer.finish();
    let mut reader = ValueReader::new(binding.as_slice());
    let ans = reader.read_value_content(kind, &registers.unwrap_vec(), id).unwrap();
    assert!(v.equals(&ans));
}

#[test]
fn outdated_encode_reordered_test_value_read_write() {
    loro_value_read_write(LoroValue::Bool(true), None);
    loro_value_read_write(LoroValue::Bool(false), None);
    loro_value_read_write(LoroValue::I64(123), None);
    loro_value_read_write(LoroValue::Double(1.23f64.to_bits()), None);
    loro_value_read_write(LoroValue::Null, None);
    loro_value_read_write(LoroValue::Binary(vec![123, 223, 255, 0, 1, 2, 3]), None);
    loro_value_read_write(LoroValue::String(s("sldk;ajfas;dlkfas测试")), None);
    loro_value_read_write(
        LoroValue::Container(ContainerID::new_normal(ID::new(u64::MAX, 123), ContainerType::Tree)),
        Some(ContainerID::new_normal(ID::new(u64::MAX, 123), ContainerType::Tree)),
    );
    loro_value_read_write(
        LoroValue::List(vec![LoroValue::I64(1), LoroValue::I64(2), LoroValue::I64(3)]),
        None,
    );
    loro_value_read_write(
        LoroValue::Mapping(vec![
            (s("1"), LoroValue::I64(123)),
            (s("2"), LoroValue::String(s("123"))),
            (s("3"), LoroValue::List(vec![LoroValue::Bool(true)])),
        ]),
        None,
    );
}

fn reordered_value_read_write(v: LoroValue) {
    let mut key_reg = ValueRegister::new();
    let mut cid_reg = ContainerRegister::new();
    let mut writer = ReorderedWriter::new();
    let kind = writer.write_value_content(&v, &mut key_reg, &mut cid_reg);
    let binding = writer.finish();
    let mut reader = ReorderedReader::new(binding.as_slice());
    let keys = key_reg.unwrap_vec();
    let cids = cid_reg.unwrap_vec();
    let ans = reader.read_value_content(kind, &keys, &cids).unwrap();
    assert!(v.equals(&ans));
}

#[test]
fn encode_reordered_test_value_read_write() {
    reordered_value_read_write(LoroValue::Bool(true));
    reordered_value_read_write(LoroValue::Bool(false));
    reordered_value_read_write(LoroValue::I64(123));
    reordered_value_read_write(LoroValue::Double(1.23f64.to_bits()));
    reordered_value_read_write(LoroValue::Null);
    reordered_value_read_write(LoroValue::Binary(vec![123, 223, 255, 0, 1, 2, 3]));
    reordered_value_read_write(LoroValue::String(s("sldk;ajfas;dlkfas测试")));
    reordered_value_read_write(LoroValue::Container(ContainerID::new_root("name", ContainerType::Text)));
    reordered_value_read_write(LoroValue::Container(ContainerID::new_normal(
        ID::new(u64::MAX, 123),
        ContainerType::Tree,
    )));
    reordered_value_read_write(LoroValue::List(vec![LoroValue::I64(1), LoroValue::I64(2), LoroValue::I64(3)]));
    reordered_value_read_write(LoroValue::Mapping(vec![
        (s("1"), LoroValue::I64(123)),
        (s("2"), LoroValue::String(s("123"))),
        (s("3"), LoroValue::List(vec![LoroValue::Bool(true)])),
    ]));
}

#[test]
fn reordered_nested_value_reads_back_with_its_kind_byte() {
    let v = LoroValue::Mapping(vec![
        (s("a"), LoroValue::List(vec![LoroValue::I64(-5), LoroValue::Null])),
        (s("b"), LoroValue::Container(ContainerID::new_root("c", ContainerType::Mapping))),
    ]);
    let mut key_reg = ValueRegister::new();
    let mut cid_reg = ContainerRegister::new();
    let mut writer = ReorderedWriter::new();
    let kind = writer.write_value_type_and_content(&v, &mut key_reg, &mut cid_reg);
    assert_eq!(kind, ReorderedKind::Mapping);
    let bytes = writer.finish();
    // Map kind byte, two entries, key index 0, list kind, two items, ...
    assert_eq!(&bytes[0..4], &[11u8, 2, 0, 10]);
    let keys = key_reg.unwrap_vec();
    let cids = cid_reg.unwrap_vec();
    assert_eq!(keys, vec![s("a"), s("b")]);
    assert_eq!(cids.len(), 1);
    let mut reader = ReorderedReader::new(bytes.as_slice());
    let ans = reader.read_value_type_and_content(&keys, &cids).unwrap();
    assert!(v.equals(&ans));
}

#[test]
fn reordered_integer_is_written_as_32_bits() {
    let mut key_reg = ValueRegister::new();
    let mut cid_reg = ContainerRegister::new();
    let mut writer = ReorderedWriter::new();
    writer.write_value_content(&LoroValue::I64(1i64 << 32 | 7), &mut key_reg, &mut cid_reg);
    let bytes = writer.finish();
    let mut reader = ReorderedReader::new(bytes.as_slice());
    let ans = reader.read_value_content(ReorderedKind::I32, &[], &[]).unwrap();
    assert!(ans.equals(&LoroValue::I64(7)));
}

#[test]
fn reordered_container_index_out_of_range_is_corrupt() {
    let bytes = [3u8];
    let mut reader = ReorderedReader::new(&bytes);
    let r = reader.read_value_content(ReorderedKind::ContainerIdx, &[], &[]);
    assert_eq!(r.unwrap_err(), LoroError::DecodeDataCorruptionError);
}

#[test]
fn reordered_op_values_write_and_read_back() {
    let keys_in = vec![s("k")];
    let mut key_reg = ValueRegister::new();
    let mut cid_reg = ContainerRegister::new();
    let mut writer = ReorderedWriter::new();
    let values = vec![
        OpValue::Null,
        OpValue::DeleteOnce,
        OpValue::I32(-42),
        OpValue::DeleteSeq(3),
        OpValue::DeltaInt(-1),
        OpValue::F64(2.5f64.to_bits()),
        OpValue::Str("héllo"),
        OpValue::Binary(&[1, 2, 3]),
        OpValue::ContainerIdx(7),
        OpValue::TreeMove(ReorderedTreeMove {
            subject_peer_idx: 1,
            subject_cnt: 2,
            is_parent_null: false,
            parent_peer_idx: 3,
            parent_cnt: 4,
        }),
        OpValue::Array(vec![OpValue::True, OpValue::I32(5)]),
        OpValue::Mapping(vec![(s("k"), OpValue::False)]),
        OpValue::MarkStart(MarkStart { len: 9, key_idx: 0, value: LoroValue::I64(1), info: 4 }),
    ];
    for v in values.iter() {
        writer.write_kind(v.kind());
        writer.write(v, &mut key_reg, &mut cid_reg);
    }
    let bytes = writer.finish();
    let keys = key_reg.unwrap_vec();
    assert_eq!(keys, keys_in);
    let cids = cid_reg.unwrap_vec();
    let mut reader = ReorderedReader::new(bytes.as_slice());
    let mut kinds = Vec::new();
    for _ in 0..values.len() {
        let kind = reader.read_u8().unwrap();
        kinds.push(kind);
        let v = reader.read(kind, &keys, &cids).unwrap();
        match (&v, kind) {
            (OpValue::I32(x), 4) => assert_eq!(*x, -42),
            (OpValue::DeleteSeq(x), 8) => assert_eq!(*x, 3),
            (OpValue::DeltaInt(x), 9) => assert_eq!(*x, -1),
            (OpValue::F64(b), 6) => assert_eq!(f64::from_bits(*b), 2.5),
            (OpValue::Str(st), 7) => assert_eq!(*st, "héllo"),
            (OpValue::Binary(b), 14) => assert_eq!(*b, &[1u8, 2, 3][..]),
            (OpValue::ContainerIdx(i), 5) => assert_eq!(*i, 7),
            (OpValue::TreeMove(t), 13) => assert_eq!((t.subject_cnt, t.parent_cnt), (2, 4)),
            (OpValue::Array(items), 10) => assert_eq!(items.len(), 2),
            (OpValue::Mapping(es), 11) => {
                assert_eq!(es.len(), 1);
                assert_eq!(es[0].0, "k");
            }
            (OpValue::MarkStart(m), 12) => {
                assert_eq!((m.len, m.key_idx, m.info), (9, 0, 4));
                assert!(m.value.equals(&LoroValue::I64(1)));
            }
            (OpValue::Null, 0) | (OpValue::DeleteOnce, 3) => {}
            _ => panic!("unexpected value for kind {}", kind),
        }
    }
    assert_eq!(kinds, vec![0, 3, 4, 8, 9, 6, 7, 14, 5, 13, 10, 11, 12]);
}

#[test]
fn reordered_unknown_kind_is_kept_as_bytes() {
    let bytes = [2u8, 0xaa, 0xbb, 0xcc];
    let mut reader = ReorderedReader::new(&bytes);
    match reader.read(99, &[], &[]).unwrap() {
        OpValue::Unknown { kind, data } => {
            assert_eq!(kind, 99);
            assert_eq!(data, &[0xaa, 0xbb][..]);
        }
        _ => panic!("an unknown kind reads as unknown"),
    }
    assert_eq!(reader.read_u8().unwrap(), 0xcc);
}

#[test]
fn reordered_map_with_key_out_of_range_is_corrupt() {
    // One entry whose key index 5 is not registered.
    let bytes = [1u8, 5, 0];
    let mut reader = ReorderedReader::new(&bytes);
    assert_eq!(reader.read_map(&[s("a")], &[]).unwrap_err(), LoroError::DecodeDataCorruptionError);
}
