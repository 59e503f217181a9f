use loro_internal::common::{LoroError, LoroValue, ID};
use loro_internal::encoding::encode_reordered::EncodedArenas;
use loro_internal::encoding::value::{
    EncodedTreeMove, FutureValue, FutureValueKind, MarkStart, OwnedFutureValue, OwnedValue, ValueKind,
    ValueReader, ValueWriter,
};
use loro_internal::encoding::value_codec::Value;
use loro_internal::encoding::value_register::ValueRegister;

fn roundtrip<'a>(v: Value<'a>, bytes: &'a mut Vec<u8>, keys: &'a mut Vec<String>) -> (ValueKind, usize) {
    let mut w = ValueWriter::new();
    let mut reg = ValueRegister::new();
    let out = v.encode(&mut w, &mut reg);
    *bytes = w.finish();
    *keys = reg.unwrap_vec();
    out
}

#[test]
fn scalar_values_roundtrip() {
    let mut bytes = Vec::new();
    let mut keys = Vec::new();
    let (kind, n) = roundtrip(Value::I64(-300), &mut bytes, &mut keys);
    assert_eq!(kind, ValueKind::I64);
    assert_eq!(n, bytes.len());
    let mut r = ValueReader::new(&bytes);
    assert!(matches!(Value::decode(kind, &mut r, &keys, ID::new(1, 2), 0), Ok(Value::I64(-300))));

    let (kind, n) = roundtrip(
        Value::ListMove { from: 3, from_idx: 200, lamport: 70000 },
        &mut bytes,
        &mut keys,
    );
    assert_eq!(kind, ValueKind::ListMove);
    assert_eq!(n, 1 + 2 + 3);
    let mut r = ValueReader::new(&bytes);
    assert!(matches!(
        Value::decode(kind, &mut r, &keys, ID::new(1, 2), 0),
        Ok(Value::ListMove { from: 3, from_idx: 200, lamport: 70000 })
    ));

    let (kind, _) = roundtrip(Value::Str("héllo"), &mut bytes, &mut keys);
    assert_eq!(kind, ValueKind::Str);
    let mut r = ValueReader::new(&bytes);
    assert!(matches!(Value::decode(kind, &mut r, &keys, ID::new(1, 2), 0), Ok(Value::Str("héllo"))));

    let (kind, n) = roundtrip(Value::DeleteSeq, &mut bytes, &mut keys);
    assert_eq!((kind, n), (ValueKind::DeleteSeq, 0));
}

#[test]
fn mark_start_registers_its_key() {
    let mut w = ValueWriter::new();
    let mut reg = ValueRegister::new();
    let mark = MarkStart { len: 5, key: "bold".to_string(), value: LoroValue::Bool(true), info: 4 };
    let (kind, n) = Value::MarkStart(mark).encode(&mut w, &mut reg);
    assert_eq!(kind, ValueKind::MarkStart);
    let bytes = w.finish();
    assert_eq!(bytes, vec![4, 5, 0, 1]);
    assert_eq!(n, 4);
    let keys = reg.unwrap_vec();
    assert_eq!(keys, vec!["bold".to_string()]);
    let mut r = ValueReader::new(&bytes);
    match Value::decode(kind, &mut r, &keys, ID::new(0, 0), 0) {
        Ok(Value::MarkStart(m)) => {
            assert_eq!((m.len, m.key.as_str(), m.info), (5, "bold", 4));
            assert!(m.value.equals(&LoroValue::Bool(true)));
        },
        other => panic!("unexpected {:?}", other),
    }
    let mut r = ValueReader::new(&bytes);
    assert!(matches!(
        r.read_mark(&[], ID::new(0, 0)),
        Err(LoroError::DecodeDataCorruptionError)
    ));
}

#[test]
fn list_set_roundtrip_keeps_low_lamport_bits() {
    let mut bytes = Vec::new();
    let mut keys = Vec::new();
    let (kind, _) = roundtrip(
        Value::ListSet { peer_idx: 2, lamport: 9, value: LoroValue::I64(-1) },
        &mut bytes,
        &mut keys,
    );
    assert_eq!(bytes, vec![2, 9, 3, 0x7f]);
    let mut r = ValueReader::new(&bytes);
    match Value::decode(kind, &mut r, &keys, ID::new(0, 0), 0) {
        Ok(Value::ListSet { peer_idx: 2, lamport: 9, value }) => assert!(value.equals(&LoroValue::I64(-1))),
        other => panic!("unexpected {:?}", other),
    }
}

#[test]
fn future_values_carry_their_bytes() {
    let data = [9u8, 8, 7];
    let mut bytes = Vec::new();
    let mut keys = Vec::new();
    let (kind, n) = roundtrip(Value::Future(FutureValue::Unknown { kind: 33, prop: 5, data: &data }), &mut bytes, &mut keys);
    assert_eq!(kind, ValueKind::Future(FutureValueKind::Unknown(33)));
    assert_eq!(n, 4);
    let mut r = ValueReader::new(&bytes);
    match Value::decode(kind, &mut r, &keys, ID::new(0, 0), 11) {
        Ok(Value::Future(FutureValue::Unknown { kind: 33, prop: 11, data })) => assert_eq!(data, &[9, 8, 7]),
        other => panic!("unexpected {:?}", other),
    }
}

#[test]
fn truncated_value_content_is_corrupt() {
    let bytes = [0x80u8];
    let mut r = ValueReader::new(&bytes);
    assert!(matches!(Value::decode(ValueKind::ContainerType, &mut r, &[], ID::new(0, 0), 0), Err(LoroError::DecodeDataCorruptionError)));
    let mut r = ValueReader::new(&bytes[..0]);
    assert!(matches!(Value::decode(ValueKind::F64, &mut r, &[], ID::new(0, 0), 0), Err(LoroError::DecodeDataCorruptionError)));
}

#[test]
fn owned_values_convert_both_ways() {
    let owned = OwnedValue::Future(OwnedFutureValue::Unknown { kind: 1, prop: 2, data: vec![3, 4] });
    let v = Value::from_owned(&owned);
    assert!(matches!(v, Value::Future(FutureValue::Unknown { kind: 1, prop: 2, data: [3, 4] })));
    assert!(matches!(
        v.into_owned(),
        OwnedValue::Future(OwnedFutureValue::Unknown { kind: 1, prop: 2, ref data }) if data == &vec![3, 4]
    ));
    let owned = OwnedValue::Str("abc".to_string());
    assert!(matches!(Value::from_owned(&owned), Value::Str("abc")));
    let tm = EncodedTreeMove { subject_idx: 1, is_parent_null: true, parent_idx: 0, position: 2 };
    assert!(matches!(Value::TreeMove(tm).into_owned(), OwnedValue::TreeMove(t) if t == tm));
}

#[test]
fn arenas_roundtrip() {
    let a = [1u8, 2, 3];
    let b: [u8; 0] = [];
    let c = [7u8; 130];
    let arenas = EncodedArenas {
        peer_id_arena: &a,
        container_arena: &b,
        key_arena: &c,
        deps_arena: &a,
        state_blob_arena: &b,
    };
    let bytes = arenas.encode_arenas();
    assert_eq!(bytes.len(), 4 + 1 + 132 + 4 + 1);
    assert_eq!(&bytes[..4], &[3, 1, 2, 3]);
    let back = EncodedArenas::decode_arenas(&bytes).ok().unwrap();
    assert_eq!(back.peer_id_arena, &a);
    assert_eq!(back.container_arena, &b);
    assert_eq!(back.key_arena, &c[..]);
    assert_eq!(back.deps_arena, &a);
    assert_eq!(back.state_blob_arena, &b);
    assert!(EncodedArenas::decode_arenas(&bytes[..5]).is_err());
    assert!(EncodedArenas::decode_arenas(&[0x80, 0x80, 0x80, 0x80, 0x04]).is_err());
}
