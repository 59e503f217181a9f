//! Estimates of how many bytes a value takes in storage.
use vstd::prelude::*;
use vstd::std_specs::bits::u64_leading_zeros;
use vstd::utf8::encode_utf8;
use crate::common::{LoroValue, LoroValueView, lemma_pairs_view, lemma_values_view, pairs_view, values_view};

verus! {

/// Estimate the storage size of the object in bytes.
pub trait EstimatedSize {
    /// The estimate, as a number.
    spec fn estimated_size(&self) -> nat;

    /// Estimate the storage size of the object in bytes.
    fn estimate_storage_size(&self) -> (r: usize)
        requires
            self.estimated_size() <= usize::MAX,
        ensures
            r == self.estimated_size(),
    ;
}

/// The storage estimate of a value: one byte for null and booleans, eight
/// for doubles, one byte plus one per seven significant bits for integers
/// (ten for negative ones), the length plus one for strings and binaries,
/// three plus the entries for lists and maps (a map entry adds its key's
/// length and three), and six for a container reference.
pub open spec fn value_storage_size(v: LoroValueView) -> nat
    decreases v,
{
    match v {
        LoroValueView::Null => 1,
        LoroValueView::Bool(_) => 1,
        LoroValueView::Double(_) => 8,
        LoroValueView::I64(i) => 1 + ((64 - u64_leading_zeros(i as u64)) / 7) as nat,
        LoroValueView::Binary(b) => b.len() + 1,
        LoroValueView::String(s) => encode_utf8(s).len() + 1,
        LoroValueView::List(l) => 3 + list_storage_size(l),
        LoroValueView::Mapping(m) => 3 + entries_storage_size(m),
        LoroValueView::Container(_) => 6,
    }
}

/// The sum of the estimates of a run of values.
pub open spec fn list_storage_size(l: Seq<LoroValueView>) -> nat
    decreases l,
{
    if l.len() == 0 {
        0
    } else {
        list_storage_size(l.drop_last()) + value_storage_size(l.last())
    }
}

/// The sum, over a run of map entries, of each key's length plus three
/// plus the estimate of its value.
pub open spec fn entries_storage_size(m: Seq<(Seq<char>, LoroValueView)>) -> nat
    decreases m,
{
    if m.len() == 0 {
        0
    } else {
        entries_storage_size(m.drop_last()) + encode_utf8(m.last().0).len() + 3 + value_storage_size(
            m.last().1,
        )
    }
}

proof fn lemma_list_storage_size_step(l: Seq<LoroValueView>, i: int)
    requires
        0 <= i < l.len(),
    ensures
        list_storage_size(l.take(i + 1)) == list_storage_size(l.take(i)) + value_storage_size(l[i]),
        list_storage_size(l.take(i + 1)) <= list_storage_size(l),
    decreases l.len(),
{
    assert(l.take(i + 1).drop_last() =~= l.take(i));
    if i + 1 < l.len() {
        lemma_list_storage_size_step(l.drop_last(), i);
        assert(l.drop_last().take(i + 1) =~= l.take(i + 1));
        assert(l.drop_last().take(i) =~= l.take(i));
    } else {
        assert(l.take(i + 1) =~= l);
    }
}

proof fn lemma_entries_storage_size_step(m: Seq<(Seq<char>, LoroValueView)>, i: int)
    requires
        0 <= i < m.len(),
    ensures
        entries_storage_size(m.take(i + 1)) == entries_storage_size(m.take(i)) + encode_utf8(
            m[i].0,
        ).len() + 3 + value_storage_size(m[i].1),
        entries_storage_size(m.take(i + 1)) <= entries_storage_size(m),
    decreases m.len(),
{
    assert(m.take(i + 1).drop_last() =~= m.take(i));
    if i + 1 < m.len() {
        lemma_entries_storage_size_step(m.drop_last(), i);
        assert(m.drop_last().take(i + 1) =~= m.take(i + 1));
        assert(m.drop_last().take(i) =~= m.take(i));
    } else {
        assert(m.take(i + 1) =~= m);
    }
}

/// The storage estimate of a value; the estimate must fit a `usize`.
#[verifier::loop_isolation(false)]
pub fn loro_value_storage_size(value: &LoroValue) -> (r: usize)
    requires
        value_storage_size(value@) <= usize::MAX,
    ensures
        r == value_storage_size(value@),
    decreases value,
{
    match value {
        LoroValue::Null => 1,
        LoroValue::Bool(_) => 1,
        LoroValue::Double(_) => 8,
        LoroValue::I64(i) => {
            let lz = (*i as u64).leading_zeros();
            proof {
                vstd::std_specs::bits::axiom_u64_leading_zeros(*i as u64);
            }
            1 + (64 - lz as usize) / 7
        },
        LoroValue::Binary(b) => b.len() + 1,
        LoroValue::String(s) => s.as_str().len() + 1,
        LoroValue::List(list) => {
            let ghost vv = values_view(list@);
            proof {
                lemma_values_view(list@);
            }
            let mut sum: usize = 0;
            let mut i: usize = 0;
            while i < list.len()
                invariant
                    i <= list@.len(),
                    vv == values_view(list@),
                    vv.len() == list@.len(),
                    forall|k: int| 0 <= k < list@.len() ==> #[trigger] vv[k] == list@[k]@,
                    value@ == LoroValueView::List(vv),
                    value_storage_size(value@) <= usize::MAX,
                    sum == list_storage_size(vv.take(i as int)),
                decreases list.len() - i,
            {
                proof {
                    lemma_list_storage_size_step(vv, i as int);
                    assert(decreases_to!(*value => *list));
                    assert(decreases_to!(*list => list@));
                    assert(decreases_to!(list@ => list@[i as int]));
                }
                let item = loro_value_storage_size(&list[i]);
                sum = sum + item;
                i += 1;
            }
            assert(vv.take(i as int) =~= vv);
            3 + sum
        },
        LoroValue::Mapping(map) => {
            let ghost pv = pairs_view(map@);
            proof {
                lemma_pairs_view(map@);
            }
            let mut sum: usize = 0;
            let mut i: usize = 0;
            while i < map.len()
                invariant
                    i <= map@.len(),
                    pv == pairs_view(map@),
                    pv.len() == map@.len(),
                    forall|k: int|
                        0 <= k < map@.len() ==> #[trigger] pv[k] == (map@[k].0@, map@[k].1@),
                    value@ == LoroValueView::Mapping(pv),
                    value_storage_size(value@) <= usize::MAX,
                    sum == entries_storage_size(pv.take(i as int)),
                decreases map.len() - i,
            {
                proof {
                    lemma_entries_storage_size_step(pv, i as int);
                    assert(decreases_to!(*value => *map));
                    assert(decreases_to!(*map => map@));
                    assert(decreases_to!(map@ => map@[i as int]));
                    assert(decreases_to!(map@[i as int] => map@[i as int].1));
                }
                let key_len = map[i].0.as_str().len();
                let item = loro_value_storage_size(&map[i].1);
                sum = sum + key_len + 3 + item;
                i += 1;
            }
            assert(pv.take(i as int) =~= pv);
            3 + sum
        },
        LoroValue::Container(_) => 6,
    }
}

impl EstimatedSize for LoroValue {
    open spec fn estimated_size(&self) -> nat {
        value_storage_size(self@)
    }

    fn estimate_storage_size(&self) -> (r: usize) {
        loro_value_storage_size(self)
    }
}

} // verus!
