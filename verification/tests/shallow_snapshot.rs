use loro_internal::common::{ContainerID, LoroValue, ID};
use loro_internal::common::ContainerType;
use loro_internal::encoding::future_value::{
    FutureValueFieldError, FutureValueFields, JsonUnknown, OwnedFutureValue as JsonFutureValue,
    Unknown,
};
use loro_internal::encoding::shallow_snapshot::{
    forward_replay_gate, owned_value_bytes_capped, value_bytes_capped,
    MAX_PRE_ROOT_BYTES_FOR_FORWARD_REPLAY, MAX_PRE_ROOT_OPS_FOR_FORWARD_REPLAY,
    MIN_RETAINED_OPS_FOR_FORWARD_ROOT_STATE,
};
use loro_internal::encoding::value::{OwnedFutureValue, OwnedValue};
use loro_internal::estimated_size::EstimatedSize;

#[test]
fn forward_replay_gate_bounds_prefix_by_ops_ratio_and_bytes() {
    let min = MIN_RETAINED_OPS_FOR_FORWARD_ROOT_STATE;
    let max_ops = MAX_PRE_ROOT_OPS_FOR_FORWARD_REPLAY;
    let max_bytes = MAX_PRE_ROOT_BYTES_FOR_FORWARD_REPLAY;

    // Tail below the minimum: never.
    assert!(!forward_replay_gate(min - 1, 0, 0));
    // Balanced prefix/tail: allowed.
    assert!(forward_replay_gate(min, min, 1));
    // Prefix larger than 16x the tail: blocked.
    assert!(!forward_replay_gate(min, 17 * min, 1));
    // Prefix above the absolute op cap: blocked.
    assert!(!forward_replay_gate(max_ops, max_ops + 1, 1));
    // A byte-heavy but low-op prefix: blocked only by the byte leg.
    assert!(!forward_replay_gate(min, 1, max_bytes + 1));
    assert!(forward_replay_gate(min, 1, max_bytes));
}

#[test]
fn forward_replay_gate_ratio_edge() {
    let min = MIN_RETAINED_OPS_FOR_FORWARD_ROOT_STATE;
    assert!(forward_replay_gate(min, 16 * min / 16 * 15, 0));
    assert!(forward_replay_gate(62_500, 1_000_000, 0) == false);
    assert!(forward_replay_gate(65_536, 1_000_000, 0));
    assert!(forward_replay_gate(usize::MAX, 1_000_000, 0));
}

fn s(x: &str) -> String {
    x.to_string()
}

#[test]
fn value_bytes_exact_under_budget() {
    // 16 for the list, 16 + 3 for "abc", 16 for the integer.
    let v = LoroValue::List(vec![LoroValue::String(s("abc")), LoroValue::I64(7)]);
    assert_eq!(value_bytes_capped(&v, 1000), 16 + 19 + 16);
    // A map: 16, then key "k" (1) and a binary of 4 bytes (16 + 4).
    let m = LoroValue::Mapping(vec![(s("k"), LoroValue::Binary(vec![1, 2, 3, 4]))]);
    assert_eq!(value_bytes_capped(&m, 1000), 16 + 1 + 20);
    // Exactly at the budget.
    assert_eq!(value_bytes_capped(&m, 37), 37);
}

#[test]
fn value_bytes_stops_past_budget() {
    let big = LoroValue::String("v".repeat(1000));
    let nested = LoroValue::Mapping(vec![(s("payload"), big)]);
    let r = value_bytes_capped(&nested, 100);
    assert!(r > 100);
    // A budget below the overhead answers one past it.
    assert_eq!(value_bytes_capped(&LoroValue::Null, 3), 4);
    assert_eq!(value_bytes_capped(&LoroValue::Null, usize::MAX), 16);
}

#[test]
fn owned_value_bytes() {
    assert_eq!(owned_value_bytes_capped(&OwnedValue::Str(s("hello")), 100), 21);
    assert_eq!(owned_value_bytes_capped(&OwnedValue::Binary(vec![0; 10]), 100), 26);
    assert_eq!(owned_value_bytes_capped(&OwnedValue::Null, 100), 16);
    assert_eq!(owned_value_bytes_capped(&OwnedValue::Null, 5), 6);
    let f = OwnedValue::Future(OwnedFutureValue::Unknown { kind: 3, prop: 0, data: vec![1, 2, 3] });
    assert_eq!(owned_value_bytes_capped(&f, 100), 19);
    let lv = OwnedValue::LoroValue(LoroValue::String(s("ab")));
    assert_eq!(owned_value_bytes_capped(&lv, 100), 16 + 18);
}

#[test]
fn estimated_storage_sizes() {
    assert_eq!(LoroValue::Null.estimate_storage_size(), 1);
    assert_eq!(LoroValue::Bool(true).estimate_storage_size(), 1);
    assert_eq!(LoroValue::Double(0).estimate_storage_size(), 8);
    assert_eq!(LoroValue::I64(0).estimate_storage_size(), 1);
    assert_eq!(LoroValue::I64(127).estimate_storage_size(), 2);
    assert_eq!(LoroValue::I64(-1).estimate_storage_size(), 10);
    assert_eq!(LoroValue::String(s("héllo")).estimate_storage_size(), 7);
    assert_eq!(LoroValue::Binary(vec![1, 2]).estimate_storage_size(), 3);
    let c = LoroValue::Container(ContainerID::new_normal(ID::new(1, 2), ContainerType::List));
    assert_eq!(c.estimate_storage_size(), 6);
    let l = LoroValue::List(vec![LoroValue::Null, LoroValue::Bool(false)]);
    assert_eq!(l.estimate_storage_size(), 5);
    let m = LoroValue::Mapping(vec![(s("ab"), LoroValue::Null)]);
    assert_eq!(m.estimate_storage_size(), 3 + 2 + 3 + 1);
}

#[test]
fn future_value_fields() {
    let missing = JsonFutureValue::from_fields(None, Some(s("x")));
    assert_eq!(missing, Err(FutureValueFieldError::MissingValueType));
    let unknown_missing = JsonFutureValue::from_fields(Some(s("unknown")), None);
    assert_eq!(unknown_missing, Err(FutureValueFieldError::MissingValue));
    let unknown = JsonFutureValue::from_fields(Some(s("unknown")), Some(s("{\"kind\":1}")));
    assert_eq!(unknown, Ok(FutureValueFields::ParseUnknown(s("{\"kind\":1}"))));
    let other = JsonFutureValue::from_fields(Some(s("counter")), None);
    assert_eq!(
        other,
        Ok(FutureValueFields::Json(JsonUnknown { value_type: s("counter"), value: s("") }))
    );
    let u = JsonFutureValue::Unknown(Unknown { kind: 1, data: vec![] });
    assert_eq!(u.value_type_name(), "unknown");
    let j = JsonFutureValue::JsonUnknown(JsonUnknown { value_type: s("t"), value: s("v") });
    assert_eq!(j.value_type_name(), "json_unknown");
}
