//! The law that the top-level reader gives back what the writer wrote: the
//! items of a top-level list are read with ids counted up from the value's
//! own, and the key of a top-level map entry is checked before its value.
use vstd::prelude::*;
use crate::common::{ID, LoroValueView};
use crate::encoding::leb::{lemma_uleb_roundtrip, uleb_encode, uleb_read};
use crate::encoding::value::rest;
use crate::encoding::value_decode::{
    EntriesParse, ItemsParse, MAX_COLLECTION_SIZE, ValueParse, item_id, parse_top_entries,
    parse_top_items, parse_top_value, parse_value,
};
use crate::encoding::value_encode::{
    encode_content, encode_entries, encode_items, encode_value, entries_encodable, keys_cover,
    lemma_cover_prefix, lemma_encode_entries_register, lemma_encode_items_register,
    lemma_encode_value_register, lemma_map_put_all_fresh, lemma_value_roundtrip, value_encodable,
    value_kind_of,
};
use crate::encoding::value_register::{lemma_register_key, register_key};

verus! {

/// Top-level values the writer and the top-level reader agree on: as for
/// `value_encodable`, except that the items of a list are read with the ids
/// counted up from `id`.
pub open spec fn top_value_encodable(v: LoroValueView, id: ID) -> bool {
    match v {
        LoroValueView::List(l) => l.len() <= MAX_COLLECTION_SIZE && top_items_encodable(l, id, 0),
        _ => value_encodable(v, id),
    }
}

/// Every item is encodable with the id of its place, counted from `i`.
pub open spec fn top_items_encodable(l: Seq<LoroValueView>, id: ID, i: nat) -> bool
    decreases l.len(),
{
    l.len() > 0 ==> value_encodable(l[0], item_id(id, i)) && top_items_encodable(
        l.drop_first(),
        id,
        i + 1,
    )
}

proof fn lemma_top_items_roundtrip(
    l: Seq<LoroValueView>,
    reg: Seq<Seq<char>>,
    keys: Seq<Seq<char>>,
    id: ID,
    i: nat,
    tail: Seq<u8>,
)
    requires
        top_items_encodable(l, id, i),
        keys_cover(keys, encode_items(l, reg).1),
        keys.len() <= usize::MAX,
    ensures
        parse_top_items(encode_items(l, reg).0 + tail, l.len(), keys, id, i) == ItemsParse::Items(
            l,
            tail,
        ),
    decreases l.len(),
{
    if l.len() == 0 {
        assert(Seq::<u8>::empty() + tail =~= tail);
        assert(l =~= Seq::<LoroValueView>::empty());
    } else {
        let a = encode_value(l[0], reg);
        let rest_l = l.drop_first();
        let b = encode_items(rest_l, a.1);
        lemma_encode_items_register(rest_l, a.1);
        lemma_cover_prefix(keys, a.1, b.1);
        lemma_value_roundtrip(l[0], reg, keys, item_id(id, i), b.0 + tail);
        lemma_top_items_roundtrip(rest_l, a.1, keys, id, i + 1, tail);
        assert(encode_items(l, reg).0 + tail =~= a.0 + (b.0 + tail));
        assert(seq![l[0]] + rest_l =~= l);
        let s = encode_items(l, reg).0 + tail;
        assert(parse_value(s, keys, item_id(id, i)) == ValueParse::Value(l[0], b.0 + tail));
        lemma_encode_value_nonempty(l[0], reg);
    }
}

proof fn lemma_encode_value_nonempty(v: LoroValueView, reg: Seq<Seq<char>>)
    ensures
        encode_value(v, reg).0.len() >= 1,
{
}

#[verifier::rlimit(40)]
proof fn lemma_top_entries_roundtrip(
    m: Seq<(Seq<char>, LoroValueView)>,
    reg: Seq<Seq<char>>,
    keys: Seq<Seq<char>>,
    id: ID,
    tail: Seq<u8>,
)
    requires
        entries_encodable(m, id),
        keys_cover(keys, encode_entries(m, reg).1),
        keys.len() <= usize::MAX,
    ensures
        parse_top_entries(encode_entries(m, reg).0 + tail, m.len(), keys, id) == EntriesParse::Entries(
            m,
            tail,
        ),
    decreases m.len(),
{
    if m.len() == 0 {
        assert(Seq::<u8>::empty() + tail =~= tail);
        assert(m =~= Seq::<(Seq<char>, LoroValueView)>::empty());
    } else {
        let (idx, r1) = register_key(reg, m[0].0);
        lemma_register_key(reg, m[0].0);
        let a = encode_value(m[0].1, r1);
        let rest_m = m.drop_first();
        let b = encode_entries(rest_m, a.1);
        lemma_encode_entries_register(rest_m, a.1);
        lemma_encode_value_register(m[0].1, r1);
        lemma_cover_prefix(keys, a.1, b.1);
        lemma_cover_prefix(keys, r1, a.1);
        assert(keys[idx as int] == m[0].0);
        let after = a.0 + (b.0 + tail);
        lemma_value_roundtrip(m[0].1, r1, keys, id, b.0 + tail);
        lemma_top_entries_roundtrip(rest_m, a.1, keys, id, tail);
        let s = encode_entries(m, reg).0 + tail;
        assert(s =~= uleb_encode(idx as u64 as nat) + after);
        lemma_uleb_roundtrip(idx as u64, after);
        let k = uleb_encode(idx).len();
        assert(uleb_read(s) == Some((idx as int, k)));
        assert(rest(s, k as int) =~= after);
        lemma_encode_value_nonempty(m[0].1, r1);
        assert((b.0 + tail).len() < s.len());
        assert((idx as int) as usize == idx);
        assert(parse_value(rest(s, k as int), keys, id) == ValueParse::Value(m[0].1, b.0 + tail));
        assert(seq![(keys[(idx as usize) as int], m[0].1)] + rest_m =~= m);
    }
}

/// What the writer writes for a value, the top-level reader reads back as
/// the same value, whatever follows it, given a key arena that holds the
/// keys the writer registered.
pub proof fn lemma_top_value_roundtrip(
    v: LoroValueView,
    reg: Seq<Seq<char>>,
    keys: Seq<Seq<char>>,
    id: ID,
    tail: Seq<u8>,
)
    requires
        top_value_encodable(v, id),
        keys_cover(keys, encode_value(v, reg).1),
        keys.len() <= usize::MAX,
    ensures
        parse_top_value(encode_value(v, reg).0 + tail, keys, id) == ValueParse::Value(v, tail),
{
    match v {
        LoroValueView::List(l) => lemma_top_list_roundtrip(l, reg, keys, id, tail),
        LoroValueView::Mapping(m) => lemma_top_map_roundtrip(m, reg, keys, id, tail),
        _ => {
            let s = encode_value(v, reg).0 + tail;
            let t = encode_content(v, reg).0 + tail;
            assert(s =~= seq![value_kind_of(v)] + t);
            assert(s.drop_first() =~= t);
            lemma_value_roundtrip(v, reg, keys, id, tail);
        },
    }
}

#[verifier::rlimit(40)]
proof fn lemma_top_list_roundtrip(
    l: Seq<LoroValueView>,
    reg: Seq<Seq<char>>,
    keys: Seq<Seq<char>>,
    id: ID,
    tail: Seq<u8>,
)
    requires
        l.len() <= MAX_COLLECTION_SIZE,
        top_items_encodable(l, id, 0),
        keys_cover(keys, encode_value(LoroValueView::List(l), reg).1),
        keys.len() <= usize::MAX,
    ensures
        parse_top_value(encode_value(LoroValueView::List(l), reg).0 + tail, keys, id)
            == ValueParse::Value(LoroValueView::List(l), tail),
{
    let v = LoroValueView::List(l);
    let s = encode_value(v, reg).0 + tail;
    let e = encode_items(l, reg);
    let t = (uleb_encode(l.len()) + e.0) + tail;
    assert(encode_content(v, reg).0 == uleb_encode(l.len()) + e.0);
    assert(s =~= seq![7u8] + t);
    assert(s.drop_first() =~= t);
    lemma_uleb_roundtrip(l.len() as u64, e.0 + tail);
    assert(t =~= uleb_encode(l.len() as u64 as nat) + (e.0 + tail));
    let n = uleb_encode(l.len()).len();
    assert(rest(t, n as int) =~= e.0 + tail);
    lemma_top_items_roundtrip(l, reg, keys, id, 0, tail);
}

#[verifier::rlimit(40)]
proof fn lemma_top_map_roundtrip(
    m: Seq<(Seq<char>, LoroValueView)>,
    reg: Seq<Seq<char>>,
    keys: Seq<Seq<char>>,
    id: ID,
    tail: Seq<u8>,
)
    requires
        value_encodable(LoroValueView::Mapping(m), id),
        keys_cover(keys, encode_value(LoroValueView::Mapping(m), reg).1),
        keys.len() <= usize::MAX,
    ensures
        parse_top_value(encode_value(LoroValueView::Mapping(m), reg).0 + tail, keys, id)
            == ValueParse::Value(LoroValueView::Mapping(m), tail),
{
    let v = LoroValueView::Mapping(m);
    let s = encode_value(v, reg).0 + tail;
    let e = encode_entries(m, reg);
    let t = (uleb_encode(m.len()) + e.0) + tail;
    assert(encode_content(v, reg).0 == uleb_encode(m.len()) + e.0);
    assert(s =~= seq![8u8] + t);
    assert(s.drop_first() =~= t);
    lemma_uleb_roundtrip(m.len() as u64, e.0 + tail);
    assert(t =~= uleb_encode(m.len() as u64 as nat) + (e.0 + tail));
    let n = uleb_encode(m.len()).len();
    assert(rest(t, n as int) =~= e.0 + tail);
    lemma_top_entries_roundtrip(m, reg, keys, id, tail);
    lemma_map_put_all_fresh(Seq::empty(), m);
    assert(Seq::<(Seq<char>, LoroValueView)>::empty() + m =~= m);
}

} // verus!
