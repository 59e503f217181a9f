//! Decisions of the shallow-snapshot export: when the pre-root history may
//! be replayed forward, and the capped estimates of value sizes that guard
//! that decision.
use vstd::prelude::*;
use vstd::utf8::encode_utf8;
use crate::common::{LoroValue, LoroValueView, lemma_pairs_view, lemma_values_view, pairs_view, values_view};
use crate::encoding::value::{OwnedFutureValue, OwnedValue};

verus! {

/// The fewest retained ops for which the state at the shallow root is
/// rebuilt by replaying history forward rather than by checking out.
pub const MIN_RETAINED_OPS_FOR_FORWARD_ROOT_STATE: usize = 65536;

/// The largest ratio of pre-root ops to retained ops that forward replay
/// accepts.
pub const MAX_PRE_ROOT_TO_RETAINED_OPS_RATIO: usize = 16;

/// The absolute cap on pre-root ops for forward replay.
pub const MAX_PRE_ROOT_OPS_FOR_FORWARD_REPLAY: usize = 1_000_000;

/// The cap on the estimated decoded bytes of the pre-root prefix.
pub const MAX_PRE_ROOT_BYTES_FOR_FORWARD_REPLAY: usize = 33554432;

/// Whether the forward-replay path may be used for the given prefix/tail
/// shape: enough retained ops, a prefix under the absolute op cap and under
/// the ratio cap against the tail, and a prefix under the byte cap.
pub fn forward_replay_gate(ops_num: usize, pre_root_ops: usize, pre_root_bytes: usize) -> (r: bool)
    ensures
        r == (ops_num >= MIN_RETAINED_OPS_FOR_FORWARD_ROOT_STATE && pre_root_ops
            <= MAX_PRE_ROOT_OPS_FOR_FORWARD_REPLAY && pre_root_ops
            <= MAX_PRE_ROOT_TO_RETAINED_OPS_RATIO * ops_num && pre_root_bytes
            <= MAX_PRE_ROOT_BYTES_FOR_FORWARD_REPLAY),
{
    ops_num >= MIN_RETAINED_OPS_FOR_FORWARD_ROOT_STATE && pre_root_ops
        <= MAX_PRE_ROOT_OPS_FOR_FORWARD_REPLAY && (ops_num > MAX_PRE_ROOT_OPS_FOR_FORWARD_REPLAY
        || pre_root_ops <= MAX_PRE_ROOT_TO_RETAINED_OPS_RATIO * ops_num) && pre_root_bytes
        <= MAX_PRE_ROOT_BYTES_FOR_FORWARD_REPLAY
}

/// The byte length of a string as `str::len` reports it (its UTF-8 length,
/// which always fits a `usize`).
pub open spec fn str_byte_len(s: Seq<char>) -> nat {
    (encode_utf8(s).len() as usize) as nat
}

/// The per-value overhead counted by the byte estimates.
pub const VALUE_OVERHEAD: usize = 16;

/// The uncapped byte estimate of a value: an overhead for every value,
/// plus the bytes of a string or binary, plus the estimates of the items
/// of a list, plus the key bytes and value estimates of a map's entries.
pub open spec fn value_bytes(v: LoroValueView) -> nat
    decreases v,
{
    match v {
        LoroValueView::String(s) => 16 + str_byte_len(s),
        LoroValueView::Binary(b) => 16 + b.len(),
        LoroValueView::List(l) => 16 + list_bytes(l),
        LoroValueView::Mapping(m) => 16 + entries_bytes(m),
        _ => 16,
    }
}

/// The sum of the byte estimates of a run of values.
pub open spec fn list_bytes(l: Seq<LoroValueView>) -> nat
    decreases l,
{
    if l.len() == 0 {
        0
    } else {
        list_bytes(l.drop_last()) + value_bytes(l.last())
    }
}

/// The sum, over a run of map entries, of the key bytes and the estimate of
/// the value.
pub open spec fn entries_bytes(m: Seq<(Seq<char>, LoroValueView)>) -> nat
    decreases m,
{
    if m.len() == 0 {
        0
    } else {
        entries_bytes(m.drop_last()) + str_byte_len(m.last().0) + value_bytes(m.last().1)
    }
}

proof fn lemma_list_bytes_step(l: Seq<LoroValueView>, i: int)
    requires
        0 <= i < l.len(),
    ensures
        list_bytes(l.take(i + 1)) == list_bytes(l.take(i)) + value_bytes(l[i]),
        list_bytes(l.take(i + 1)) <= list_bytes(l),
    decreases l.len(),
{
    assert(l.take(i + 1).drop_last() =~= l.take(i));
    if i + 1 < l.len() {
        lemma_list_bytes_step(l.drop_last(), i);
        assert(l.drop_last().take(i + 1) =~= l.take(i + 1));
        assert(l.drop_last().take(i) =~= l.take(i));
    } else {
        assert(l.take(i + 1) =~= l);
    }
}

proof fn lemma_entries_bytes_step(m: Seq<(Seq<char>, LoroValueView)>, i: int)
    requires
        0 <= i < m.len(),
    ensures
        entries_bytes(m.take(i + 1)) == entries_bytes(m.take(i)) + str_byte_len(m[i].0)
            + value_bytes(m[i].1),
        entries_bytes(m.take(i + 1)) <= entries_bytes(m),
    decreases m.len(),
{
    assert(m.take(i + 1).drop_last() =~= m.take(i));
    if i + 1 < m.len() {
        lemma_entries_bytes_step(m.drop_last(), i);
        assert(m.drop_last().take(i + 1) =~= m.take(i + 1));
        assert(m.drop_last().take(i) =~= m.take(i));
    } else {
        assert(m.take(i + 1) =~= m);
    }
}

/// What a capped estimate owes: the exact estimate when it fits the
/// budget, and otherwise a count past the budget (or the largest `usize`
/// when the budget is already the largest).
pub open spec fn capped(r: usize, full: nat, remaining: usize) -> bool {
    &&& full <= remaining ==> r == full
    &&& full > remaining ==> r > remaining || r == usize::MAX
}

/// Byte size of a value, recursing into nested lists and maps; `remaining`
/// is the budget left before the cap, and the count may stop early once it
/// is exceeded.
#[verifier::loop_isolation(false)]
pub fn value_bytes_capped(value: &LoroValue, remaining: usize) -> (r: usize)
    ensures
        capped(r, value_bytes(value@), remaining),
    decreases value,
{
    if remaining < VALUE_OVERHEAD {
        return remaining + 1;
    }
    let mut used: usize = VALUE_OVERHEAD;
    match value {
        LoroValue::String(s) => used = used.saturating_add(s.as_str().len()),
        LoroValue::Binary(b) => used = used.saturating_add(b.len()),
        LoroValue::List(list) => {
            let ghost vv = values_view(list@);
            proof {
                lemma_values_view(list@);
            }
            let mut i: usize = 0;
            while i < list.len()
                invariant
                    i <= list@.len(),
                    used == 16 + list_bytes(vv.take(i as int)) && used <= remaining || used
                        == usize::MAX && 16 + list_bytes(vv) > remaining,
                decreases list.len() - i,
            {
                proof {
                    lemma_list_bytes_step(vv, i as int);
                    assert(decreases_to!(*value => *list));
                    assert(decreases_to!(*list => list@));
                    assert(decreases_to!(list@ => list@[i as int]));
                }
                let item = value_bytes_capped(&list[i], remaining.saturating_sub(used));
                used = used.saturating_add(item);
                i += 1;
                assert(used > remaining ==> 16 + list_bytes(vv) > remaining);
                if used > remaining {
                    break;
                }
            }
            assert(vv.take(list@.len() as int) =~= vv);
            assert(capped(used, value_bytes(value@), remaining));
        },
        LoroValue::Mapping(map) => {
            let ghost pv = pairs_view(map@);
            proof {
                lemma_pairs_view(map@);
            }
            let mut i: usize = 0;
            while i < map.len()
                invariant
                    i <= map@.len(),
                    used == 16 + entries_bytes(pv.take(i as int)) && used <= remaining || used
                        == usize::MAX && 16 + entries_bytes(pv) > remaining,
                decreases map.len() - i,
            {
                proof {
                    lemma_entries_bytes_step(pv, i as int);
                    assert(decreases_to!(*value => *map));
                    assert(decreases_to!(*map => map@));
                    assert(decreases_to!(map@ => map@[i as int]));
                    assert(decreases_to!(map@[i as int] => map@[i as int].1));
                }
                let ghost u0 = used;
                let klen = map[i].0.as_str().len();
                assert(pv[i as int].0 == map@[i as int].0@);
                assert(pv[i as int].1 == map@[i as int].1@);
                assert(klen == str_byte_len(pv[i as int].0));
                used = used.saturating_add(klen);
                assert(used > remaining ==> 16 + entries_bytes(pv) > remaining);
                if used > remaining {
                    break;
                }
                let ghost u1 = used;
                let item = value_bytes_capped(&map[i].1, remaining.saturating_sub(used));
                used = used.saturating_add(item);
                proof {
                    if u0 == usize::MAX && 16 + entries_bytes(pv) > remaining {
                        assert(used == usize::MAX);
                    } else {
                        assert(u0 == 16 + entries_bytes(pv.take(i as int)) && u0 <= remaining);
                        if u0 + klen > remaining {
                            assert(u1 == usize::MAX);
                            assert(16 + entries_bytes(pv.take(i as int + 1)) > remaining);
                            assert(used == usize::MAX);
                        } else {
                            assert(u1 == u0 + klen);
                            let vb = value_bytes(pv[i as int].1);
                            if vb <= remaining - u1 {
                                assert(item == vb);
                                assert(used == 16 + entries_bytes(pv.take(i as int + 1)));
                            } else {
                                assert(16 + entries_bytes(pv.take(i as int + 1)) > remaining);
                            }
                        }
                    }
                }
                i += 1;
                assert(used > remaining ==> 16 + entries_bytes(pv) > remaining);
                if used > remaining {
                    break;
                }
            }
            assert(pv.take(map@.len() as int) =~= pv);
            assert(capped(used, value_bytes(value@), remaining));
        },
        _ => {},
    }
    used
}

/// The uncapped byte estimate of an owned value: the overhead, plus the
/// bytes of a string, binary or unknown payload, or the estimate of a
/// nested value.
pub open spec fn owned_value_bytes(v: OwnedValue) -> nat {
    match v {
        OwnedValue::Str(s) => 16 + str_byte_len(s@),
        OwnedValue::Binary(b) => 16 + b@.len(),
        OwnedValue::LoroValue(v) => 16 + value_bytes(v@),
        OwnedValue::Future(OwnedFutureValue::Unknown { data, .. }) => 16 + data@.len(),
        _ => 16,
    }
}

/// `n`, or the largest `usize` when `n` does not fit one.
pub open spec fn saturated(n: nat) -> nat {
    if n <= usize::MAX {
        n
    } else {
        usize::MAX as nat
    }
}

/// Byte size of an owned value, recursing where the payload is a value;
/// `remaining` is the budget left before the cap.
pub fn owned_value_bytes_capped(value: &OwnedValue, remaining: usize) -> (r: usize)
    ensures
        remaining < 16 ==> r == remaining + 1,
        remaining >= 16 ==> match *value {
            OwnedValue::LoroValue(v) => {
                &&& value_bytes(v@) <= remaining ==> r == saturated(16 + value_bytes(v@))
                &&& value_bytes(v@) > remaining ==> r > remaining || r == usize::MAX
            },
            _ => r == saturated(owned_value_bytes(*value)),
        },
{
    if remaining < VALUE_OVERHEAD {
        return remaining + 1;
    }
    match value {
        OwnedValue::Str(s) => VALUE_OVERHEAD.saturating_add(s.as_str().len()),
        OwnedValue::Binary(b) => VALUE_OVERHEAD.saturating_add(b.len()),
        OwnedValue::LoroValue(v) => VALUE_OVERHEAD.saturating_add(value_bytes_capped(v, remaining)),
        OwnedValue::Future(owned) => match owned {
            OwnedFutureValue::Unknown { data, .. } => VALUE_OVERHEAD.saturating_add(data.len()),
        },
        _ => VALUE_OVERHEAD,
    }
}

} // verus!
