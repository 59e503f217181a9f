use loro_internal::common::LoroError;
use loro_internal::encoding::fast_snapshot::{
    _decode_snapshot_bytes, _decode_snapshot_meta_partial, _encode_snapshot, Snapshot,
};

#[test]
fn snapshot_encoded_len_matches_written_len() {
    for snapshot in [
        Snapshot {
            oplog_bytes: b"oplog".to_vec(),
            state_bytes: Some(b"state".to_vec()),
            shallow_root_state_bytes: Vec::new(),
        },
        Snapshot {
            oplog_bytes: Vec::new(),
            state_bytes: None,
            shallow_root_state_bytes: b"shallow".to_vec(),
        },
    ] {
        let expected_len = snapshot.encoded_len().unwrap();
        let mut encoded = Vec::new();
        _encode_snapshot(&snapshot, &mut encoded);
        assert_eq!(encoded.len(), expected_len);
    }
}

#[test]
fn snapshot_layout_and_roundtrip() {
    let snapshot = Snapshot {
        oplog_bytes: vec![1, 2],
        state_bytes: None,
        shallow_root_state_bytes: vec![9],
    };
    let mut encoded = Vec::new();
    _encode_snapshot(&snapshot, &mut encoded);
    assert_eq!(encoded, vec![2, 0, 0, 0, 1, 2, 1, 0, 0, 0, b'E', 1, 0, 0, 0, 9]);
    let back = _decode_snapshot_bytes(&encoded).ok().unwrap();
    assert_eq!(back.oplog_bytes, vec![1, 2]);
    assert!(back.state_bytes.is_none());
    assert_eq!(back.shallow_root_state_bytes, vec![9]);
    assert_eq!(_decode_snapshot_meta_partial(&encoded), Ok((&[1u8, 2][..], true)));
}

#[test]
fn snapshot_framing_errors() {
    let snapshot = Snapshot {
        oplog_bytes: vec![7; 3],
        state_bytes: Some(vec![5]),
        shallow_root_state_bytes: Vec::new(),
    };
    let mut encoded = Vec::new();
    _encode_snapshot(&snapshot, &mut encoded);
    let back = _decode_snapshot_bytes(&encoded).ok().unwrap();
    assert_eq!(back.state_bytes, Some(vec![5]));
    assert_eq!(_decode_snapshot_meta_partial(&encoded), Ok((&[7u8, 7, 7][..], false)));
    let mut trailing = encoded.clone();
    trailing.push(0);
    assert!(matches!(_decode_snapshot_bytes(&trailing), Err(LoroError::DecodeError)));
    assert_eq!(_decode_snapshot_meta_partial(&trailing), Err(LoroError::DecodeDataCorruptionError));
    let short = &encoded[..encoded.len() - 1];
    assert!(matches!(_decode_snapshot_bytes(short), Err(LoroError::DecodeError)));
    assert!(matches!(_decode_snapshot_bytes(&[1, 0]), Err(LoroError::DecodeError)));
    assert_eq!(_decode_snapshot_meta_partial(&[1, 0]), Err(LoroError::DecodeDataCorruptionError));
}
