//! Finding the lamport timestamp of an op from the counter ranges of a
//! peer's changes: each entry maps a range of counters to the lamport
//! timestamp of the range's first op.
use vstd::prelude::*;
use core::ops::Range;
use crate::common::Counter;

verus! {

/// A lamport timestamp.
pub type Lamport = u32;

/// The entries' ranges start at strictly increasing counters.
pub open spec fn starts_sorted(v: Seq<(Range<Counter>, Lamport)>) -> bool {
    forall|i: int, j: int| 0 <= i < j < v.len() ==> (#[trigger] v[i]).0.start < (#[trigger] v[j]).0.start
}

/// The number of entries whose range starts at or before `key`, in a
/// sorted run of entries.
pub open spec fn count_starting_by(v: Seq<(Range<Counter>, Lamport)>, key: Counter) -> int
    decreases v.len(),
{
    if v.len() == 0 {
        0
    } else if v.last().0.start <= key {
        v.len() as int
    } else {
        count_starting_by(v.drop_last(), key)
    }
}

/// The lamport timestamp of counter `key` and its offset in its range: the
/// range is the last one starting at or before `key`, and `key` must fall
/// before its end.
pub open spec fn range_map_lookup(v: Seq<(Range<Counter>, Lamport)>, key: Counter) -> Option<(Lamport, u32)> {
    let n = count_starting_by(v, key);
    if n == 0 {
        None
    } else if key < v[n - 1].0.end {
        Some((v[n - 1].1, (key - v[n - 1].0.start) as u32))
    } else {
        None
    }
}

proof fn lemma_count_starting_by(v: Seq<(Range<Counter>, Lamport)>, key: Counter, n: int)
    requires
        starts_sorted(v),
        0 <= n <= v.len(),
        forall|k: int| 0 <= k < n ==> (#[trigger] v[k]).0.start <= key,
        forall|k: int| n <= k < v.len() ==> (#[trigger] v[k]).0.start > key,
    ensures
        count_starting_by(v, key) == n,
    decreases v.len(),
{
    if v.len() > 0 && n < v.len() {
        let t = v.drop_last();
        assert forall|i: int, j: int| 0 <= i < j < t.len() implies (#[trigger] t[i]).0.start < (#[trigger] t[j]).0.start by {
            assert(t[i] == v[i] && t[j] == v[j]);
        }
        assert forall|k: int| 0 <= k < n implies (#[trigger] t[k]).0.start <= key by {
            assert(t[k] == v[k]);
        }
        assert forall|k: int| n <= k < t.len() implies (#[trigger] t[k]).0.start > key by {
            assert(t[k] == v[k]);
        }
        assert(v[v.len() - 1].0.start > key);
        lemma_count_starting_by(t, key, n);
    } else if v.len() > 0 {
        assert(v[v.len() - 1].0.start <= key);
    }
}

/// Looks up counter `key` by a binary search over the entries' starts.
/// On entries sorted by start, the result is `range_map_lookup`.
pub fn get_value_from_range_map(v: &[(Range<Counter>, Lamport)], key: Counter) -> (r: Option<(Lamport, u32)>)
    ensures
        starts_sorted(v@) ==> r == range_map_lookup(v@, key),
{
    let mut lo: usize = 0;
    let mut hi: usize = v.len();
    while lo < hi
        invariant
            lo <= hi <= v@.len(),
            starts_sorted(v@) ==> forall|k: int| 0 <= k < lo ==> (#[trigger] v@[k]).0.start <= key,
            starts_sorted(v@) ==> forall|k: int| hi <= k < v@.len() ==> (#[trigger] v@[k]).0.start > key,
        decreases hi - lo,
    {
        let mid = lo + (hi - lo) / 2;
        if v[mid].0.start <= key {
            proof {
                if starts_sorted(v@) {
                    assert forall|k: int| 0 <= k < mid + 1 implies (#[trigger] v@[k]).0.start <= key by {
                        if k < mid {
                            assert(v@[k].0.start < v@[mid as int].0.start);
                        }
                    }
                }
            }
            lo = mid + 1;
        } else {
            proof {
                if starts_sorted(v@) {
                    assert forall|k: int| mid <= k < v@.len() implies (#[trigger] v@[k]).0.start > key by {
                        if k > mid {
                            assert(v@[mid as int].0.start < v@[k].0.start);
                        }
                    }
                }
            }
            hi = mid;
        }
    }
    proof {
        if starts_sorted(v@) {
            lemma_count_starting_by(v@, key, lo as int);
        }
    }
    if lo == 0 {
        return None;
    }
    let index = lo - 1;
    let range = &v[index].0;
    let value = v[index].1;
    if key < range.end {
        let offset: i64 = key as i64 - range.start as i64;
        Some((value, offset as u32))
    } else {
        None
    }
}

} // verus!
