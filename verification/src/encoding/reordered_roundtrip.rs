//! What the reordered value writer writes, its reader reads back.
use vstd::prelude::*;
use vstd::utf8::{encode_utf8, encode_utf8_decode_utf8, encode_utf8_valid_utf8};
use crate::common::{ContainerIdView, LoroValueView};
use crate::encoding::encode_reordered::ValueKind;
use crate::encoding::leb::{lemma_sleb_roundtrip, lemma_uleb_roundtrip, sleb_encode, uleb_encode, uleb_read};
use crate::encoding::reordered_value::{
    Registers, register_cid, lemma_register_cid, reordered_encode_content, reordered_encode_entries,
    reordered_encode_items, reordered_encode_value, reordered_kind_byte, reordered_kind_of,
    reordered_parse_entries, reordered_parse_items, reordered_parse_scalar, reordered_parse_top_content,
    reordered_parse_top_entries, reordered_parse_value,
};
use crate::encoding::value::rest;
use crate::encoding::value_decode::{EntriesParse, ItemsParse, MAX_COLLECTION_SIZE, ValueParse, map_put_all};
use crate::encoding::value_encode::{
    distinct_keys, is_prefix_of, keys_cover, lemma_be_roundtrip, lemma_cover_prefix, lemma_map_put_all_fresh,
};
use crate::encoding::value_register::{lemma_register_key, register_key};

verus! {

/// Values the reordered writer and reader agree on: integers fit in 32
/// bits, strings and binaries are no longer than a `usize` counts, every
/// list and map has at most `MAX_COLLECTION_SIZE` items and map keys are
/// distinct.
pub open spec fn reordered_encodable(v: LoroValueView) -> bool
    decreases v, 1nat,
{
    match v {
        LoroValueView::I64(i) => i32::MIN <= i <= i32::MAX,
        LoroValueView::String(s) => encode_utf8(s).len() <= usize::MAX,
        LoroValueView::Binary(b) => b.len() <= usize::MAX,
        LoroValueView::List(l) => l.len() <= MAX_COLLECTION_SIZE && reordered_items_encodable(l),
        LoroValueView::Mapping(m) => m.len() <= MAX_COLLECTION_SIZE && distinct_keys(m)
            && reordered_entries_encodable(m),
        _ => true,
    }
}

/// Every item is encodable.
pub open spec fn reordered_items_encodable(l: Seq<LoroValueView>) -> bool
    decreases l, 0nat,
{
    l.len() > 0 ==> reordered_encodable(l[0]) && reordered_items_encodable(l.drop_first())
}

/// Every entry's value is encodable.
pub open spec fn reordered_entries_encodable(m: Seq<(Seq<char>, LoroValueView)>) -> bool
    decreases m, 0nat,
{
    m.len() > 0 ==> {
        &&& decreases_to!(m => m[0])
        &&& reordered_encodable(m[0].1)
        &&& reordered_entries_encodable(m.drop_first())
    }
}

/// The registers `a` are the start of the registers `b`.
pub open spec fn registers_prefix(a: Registers, b: Registers) -> bool {
    &&& is_prefix_of(a.keys, b.keys)
    &&& a.cids.len() <= b.cids.len()
    &&& b.cids.subrange(0, a.cids.len() as int) == a.cids
}

/// The arenas `keys` and `cids` hold what the registers `g` registered, at
/// the same indices.
pub open spec fn registers_cover(keys: Seq<Seq<char>>, cids: Seq<ContainerIdView>, g: Registers) -> bool {
    &&& keys_cover(keys, g.keys)
    &&& g.cids.len() <= cids.len()
    &&& forall|j: int| 0 <= j < g.cids.len() ==> cids[j] == g.cids[j]
}

proof fn lemma_registers_prefix_refl(g: Registers)
    ensures
        registers_prefix(g, g),
{
    assert(g.keys.subrange(0, g.keys.len() as int) =~= g.keys);
    assert(g.cids.subrange(0, g.cids.len() as int) =~= g.cids);
}

proof fn lemma_registers_prefix_trans(a: Registers, b: Registers, c: Registers)
    requires
        registers_prefix(a, b),
        registers_prefix(b, c),
    ensures
        registers_prefix(a, c),
{
    assert(c.keys.subrange(0, a.keys.len() as int) =~= b.keys.subrange(0, a.keys.len() as int));
    assert(c.cids.subrange(0, a.cids.len() as int) =~= b.cids.subrange(0, a.cids.len() as int));
}

proof fn lemma_registers_cover_prefix(
    keys: Seq<Seq<char>>,
    cids: Seq<ContainerIdView>,
    a: Registers,
    b: Registers,
)
    requires
        registers_prefix(a, b),
        registers_cover(keys, cids, b),
    ensures
        registers_cover(keys, cids, a),
{
    lemma_cover_prefix(keys, a.keys, b.keys);
    assert forall|j: int| 0 <= j < a.cids.len() implies cids[j] == a.cids[j] by {
        assert(a.cids[j] == b.cids.subrange(0, a.cids.len() as int)[j]);
    }
}

/// Writing a value only adds to the registers.
pub proof fn lemma_reordered_value_registers(v: LoroValueView, g: Registers)
    ensures
        registers_prefix(g, reordered_encode_value(v, g).1),
    decreases v, 1nat,
{
    lemma_reordered_content_registers(v, g);
}

proof fn lemma_reordered_content_registers(v: LoroValueView, g: Registers)
    ensures
        registers_prefix(g, reordered_encode_content(v, g).1),
    decreases v, 0nat,
{
    lemma_registers_prefix_refl(g);
    match v {
        LoroValueView::List(l) => lemma_reordered_items_registers(l, g),
        LoroValueView::Mapping(m) => lemma_reordered_entries_registers(m, g),
        LoroValueView::Container(c) => {
            lemma_register_cid(g.cids, c);
        },
        _ => {},
    }
}

proof fn lemma_reordered_items_registers(l: Seq<LoroValueView>, g: Registers)
    ensures
        registers_prefix(g, reordered_encode_items(l, g).1),
    decreases l, 0nat,
{
    lemma_registers_prefix_refl(g);
    if l.len() > 0 {
        let a = reordered_encode_value(l[0], g);
        lemma_reordered_value_registers(l[0], g);
        lemma_reordered_items_registers(l.drop_first(), a.1);
        lemma_registers_prefix_trans(g, a.1, reordered_encode_items(l.drop_first(), a.1).1);
    }
}

proof fn lemma_reordered_entries_registers(m: Seq<(Seq<char>, LoroValueView)>, g: Registers)
    ensures
        registers_prefix(g, reordered_encode_entries(m, g).1),
    decreases m, 0nat,
{
    lemma_registers_prefix_refl(g);
    if m.len() > 0 {
        let (idx, k1) = register_key(g.keys, m[0].0);
        lemma_register_key(g.keys, m[0].0);
        let g1 = Registers { keys: k1, cids: g.cids };
        assert(g.cids.subrange(0, g.cids.len() as int) =~= g.cids);
        assert(decreases_to!(m => m[0]));
        let a = reordered_encode_value(m[0].1, g1);
        lemma_reordered_value_registers(m[0].1, g1);
        lemma_reordered_entries_registers(m.drop_first(), a.1);
        lemma_registers_prefix_trans(g, g1, a.1);
        lemma_registers_prefix_trans(g, a.1, reordered_encode_entries(m.drop_first(), a.1).1);
    }
}

/// A value that holds no other values reads back from its content.
#[verifier::rlimit(50)]
proof fn lemma_reordered_scalar_roundtrip(
    v: LoroValueView,
    g: Registers,
    cids: Seq<ContainerIdView>,
    tail: Seq<u8>,
)
    requires
        !(v is List),
        !(v is Mapping),
        reordered_encodable(v),
        reordered_encode_content(v, g).1.cids.len() <= cids.len(),
        forall|j: int|
            0 <= j < reordered_encode_content(v, g).1.cids.len() ==> cids[j] == reordered_encode_content(
                v,
                g,
            ).1.cids[j],
        cids.len() <= usize::MAX,
    ensures
        reordered_parse_scalar(reordered_kind_byte(v), reordered_encode_content(v, g).0 + tail, cids)
            == ValueParse::Value(v, tail),
{
    let t = reordered_encode_content(v, g).0 + tail;
    match v {
        LoroValueView::I64(i) => {
            lemma_sleb_roundtrip(i, tail);
            assert((i as i32) as int == i);
            assert(rest(t, sleb_encode(i as int).len() as int) =~= tail);
        },
        LoroValueView::Double(b) => {
            lemma_be_roundtrip(b, tail);
        },
        LoroValueView::String(str) => {
            let bytes = encode_utf8(str);
            lemma_uleb_roundtrip(bytes.len() as u64, bytes + tail);
            assert(t =~= uleb_encode(bytes.len() as u64 as nat) + (bytes + tail));
            let n = uleb_encode(bytes.len()).len();
            assert(t.subrange(n as int, (n + bytes.len()) as int) =~= bytes);
            assert(rest(t, (n + bytes.len()) as int) =~= tail);
            encode_utf8_valid_utf8(str);
            encode_utf8_decode_utf8(str);
        },
        LoroValueView::Binary(bytes) => {
            lemma_uleb_roundtrip(bytes.len() as u64, bytes + tail);
            assert(t =~= uleb_encode(bytes.len() as u64 as nat) + (bytes + tail));
            let n = uleb_encode(bytes.len()).len();
            assert(t.subrange(n as int, (n + bytes.len()) as int) =~= bytes);
            assert(rest(t, (n + bytes.len()) as int) =~= tail);
        },
        LoroValueView::Container(c) => {
            let (idx, c1) = register_cid(g.cids, c);
            lemma_register_cid(g.cids, c);
            lemma_uleb_roundtrip(idx as u64, tail);
            assert(rest(t, uleb_encode(idx).len() as int) =~= tail);
        },
        _ => {},
    }
}

/// What the writer writes for an encodable value, the reader reads back as
/// the same value, whatever follows it, given arenas that hold what the
/// writer registered.
pub proof fn lemma_reordered_value_roundtrip(
    v: LoroValueView,
    g: Registers,
    keys: Seq<Seq<char>>,
    cids: Seq<ContainerIdView>,
    tail: Seq<u8>,
)
    requires
        reordered_encodable(v),
        registers_cover(keys, cids, reordered_encode_value(v, g).1),
        keys.len() <= usize::MAX,
        cids.len() <= usize::MAX,
    ensures
        reordered_parse_value(reordered_encode_value(v, g).0 + tail, keys, cids) == ValueParse::Value(v, tail),
    decreases v, 2nat,
{
    let s = reordered_encode_value(v, g).0 + tail;
    let t = reordered_encode_content(v, g).0 + tail;
    assert(s =~= seq![reordered_kind_byte(v)] + t);
    assert(s.drop_first() =~= t);
    if v is List || v is Mapping {
        lemma_reordered_collection_roundtrip(v, g, keys, cids, tail);
    } else {
        lemma_reordered_scalar_roundtrip(v, g, cids, tail);
    }
}

/// The content of a list or map reads back as nested collections do and
/// as top-level ones do.
proof fn lemma_reordered_collection_roundtrip(
    v: LoroValueView,
    g: Registers,
    keys: Seq<Seq<char>>,
    cids: Seq<ContainerIdView>,
    tail: Seq<u8>,
)
    requires
        v is List || v is Mapping,
        reordered_encodable(v),
        registers_cover(keys, cids, reordered_encode_content(v, g).1),
        keys.len() <= usize::MAX,
        cids.len() <= usize::MAX,
    ensures
        ({
            let t = reordered_encode_content(v, g).0 + tail;
            let (len, n) = uleb_read(t)->Some_0;
            let r = rest(t, n as int);
            &&& uleb_read(t) is Some
            &&& (len as usize) <= MAX_COLLECTION_SIZE
            &&& n <= t.len()
            &&& v is List ==> (len as usize) as nat == v->List_0.len()
            &&& v is List ==> reordered_parse_items(r, v->List_0.len(), keys, cids) == ItemsParse::Items(v->List_0, tail)
            &&& v is Mapping ==> (len as usize) as nat == v->Mapping_0.len()
            &&& v is Mapping ==> reordered_parse_entries(r, v->Mapping_0.len(), keys, cids) == EntriesParse::Entries(v->Mapping_0, tail)
            &&& v is Mapping ==> reordered_parse_top_entries(r, v->Mapping_0.len(), keys, cids) == EntriesParse::Entries(v->Mapping_0, tail)
            &&& v is Mapping ==> map_put_all(Seq::empty(), v->Mapping_0) == v->Mapping_0
        }),
    decreases v, 1nat,
{
    let t = reordered_encode_content(v, g).0 + tail;
    match v {
        LoroValueView::List(l) => {
            let e = reordered_encode_items(l, g);
            lemma_uleb_roundtrip(l.len() as u64, e.0 + tail);
            assert(t =~= uleb_encode(l.len() as u64 as nat) + (e.0 + tail));
            assert(rest(t, uleb_encode(l.len()).len() as int) =~= e.0 + tail);
            lemma_reordered_items_roundtrip(l, g, keys, cids, tail);
        },
        LoroValueView::Mapping(m) => {
            let e = reordered_encode_entries(m, g);
            lemma_uleb_roundtrip(m.len() as u64, e.0 + tail);
            assert(t =~= uleb_encode(m.len() as u64 as nat) + (e.0 + tail));
            assert(rest(t, uleb_encode(m.len()).len() as int) =~= e.0 + tail);
            lemma_reordered_entries_roundtrip(m, g, keys, cids, tail, false);
            lemma_reordered_entries_roundtrip(m, g, keys, cids, tail, true);
            lemma_map_put_all_fresh(Seq::empty(), m);
            assert(Seq::<(Seq<char>, LoroValueView)>::empty() + m =~= m);
        },
        _ => {},
    }
}

/// What the writer writes as the content of an encodable value, the reader
/// reads back as that value when given the kind the writer returned.
pub proof fn lemma_reordered_content_roundtrip(
    v: LoroValueView,
    g: Registers,
    keys: Seq<Seq<char>>,
    cids: Seq<ContainerIdView>,
    tail: Seq<u8>,
)
    requires
        reordered_encodable(v),
        registers_cover(keys, cids, reordered_encode_content(v, g).1),
        keys.len() <= usize::MAX,
        cids.len() <= usize::MAX,
    ensures
        reordered_parse_top_content(reordered_kind_of(v), reordered_encode_content(v, g).0 + tail, keys, cids)
            == ValueParse::Value(v, tail),
{
    if v is List || v is Mapping {
        lemma_reordered_collection_roundtrip(v, g, keys, cids, tail);
    } else {
        lemma_reordered_scalar_roundtrip(v, g, cids, tail);
    }
}

#[verifier::rlimit(50)]
proof fn lemma_reordered_items_roundtrip(
    l: Seq<LoroValueView>,
    g: Registers,
    keys: Seq<Seq<char>>,
    cids: Seq<ContainerIdView>,
    tail: Seq<u8>,
)
    requires
        reordered_items_encodable(l),
        registers_cover(keys, cids, reordered_encode_items(l, g).1),
        keys.len() <= usize::MAX,
        cids.len() <= usize::MAX,
    ensures
        reordered_parse_items(reordered_encode_items(l, g).0 + tail, l.len(), keys, cids) == ItemsParse::Items(
            l,
            tail,
        ),
    decreases l, 0nat,
{
    if l.len() == 0 {
        assert(Seq::<u8>::empty() + tail =~= tail);
        assert(l =~= Seq::<LoroValueView>::empty());
    } else {
        let a = reordered_encode_value(l[0], g);
        let rest_l = l.drop_first();
        let b = reordered_encode_items(rest_l, a.1);
        lemma_reordered_items_registers(rest_l, a.1);
        lemma_registers_cover_prefix(keys, cids, a.1, b.1);
        lemma_reordered_value_roundtrip(l[0], g, keys, cids, b.0 + tail);
        lemma_reordered_items_roundtrip(rest_l, a.1, keys, cids, tail);
        let s = reordered_encode_items(l, g).0 + tail;
        assert(s =~= a.0 + (b.0 + tail));
        assert(a.0.len() > 0);
        assert(reordered_parse_value(s, keys, cids) == ValueParse::Value(l[0], b.0 + tail));
        assert(reordered_parse_items(b.0 + tail, (l.len() - 1) as nat, keys, cids) == ItemsParse::Items(
            rest_l,
            tail,
        ));
        assert(seq![l[0]] + rest_l =~= l);
    }
}

/// One step of reading map entries, nested or top-level.
proof fn lemma_reordered_entries_unfold(
    s: Seq<u8>,
    n: nat,
    keys: Seq<Seq<char>>,
    cids: Seq<ContainerIdView>,
    ki: int,
    m: nat,
    v: LoroValueView,
    r: Seq<u8>,
    top: bool,
)
    requires
        n >= 1,
        uleb_read(s) == Some((ki, m)),
        0 < m <= s.len(),
        (ki as usize) < keys.len(),
        reordered_parse_value(rest(s, m as int), keys, cids) == ValueParse::Value(v, r),
        r.len() < s.len(),
    ensures
        (if top {
            reordered_parse_top_entries(s, n, keys, cids)
        } else {
            reordered_parse_entries(s, n, keys, cids)
        }) == match (if top {
            reordered_parse_top_entries(r, (n - 1) as nat, keys, cids)
        } else {
            reordered_parse_entries(r, (n - 1) as nat, keys, cids)
        }) {
            EntriesParse::Entries(es, r2) => EntriesParse::Entries(seq![(keys[(ki as usize) as int], v)] + es, r2),
            EntriesParse::Corrupt => EntriesParse::Corrupt,
            EntriesParse::Unreadable => EntriesParse::Unreadable,
        },
{
}

#[verifier::rlimit(100)]
proof fn lemma_reordered_entries_roundtrip(
    m: Seq<(Seq<char>, LoroValueView)>,
    g: Registers,
    keys: Seq<Seq<char>>,
    cids: Seq<ContainerIdView>,
    tail: Seq<u8>,
    top: bool,
)
    requires
        reordered_entries_encodable(m),
        registers_cover(keys, cids, reordered_encode_entries(m, g).1),
        keys.len() <= usize::MAX,
        cids.len() <= usize::MAX,
    ensures
        (if top {
            reordered_parse_top_entries(reordered_encode_entries(m, g).0 + tail, m.len(), keys, cids)
        } else {
            reordered_parse_entries(reordered_encode_entries(m, g).0 + tail, m.len(), keys, cids)
        }) == EntriesParse::Entries(m, tail),
    decreases m, 0nat,
{
    if m.len() == 0 {
        assert(Seq::<u8>::empty() + tail =~= tail);
        assert(m =~= Seq::<(Seq<char>, LoroValueView)>::empty());
    } else {
        let (idx, k1) = register_key(g.keys, m[0].0);
        lemma_register_key(g.keys, m[0].0);
        let g1 = Registers { keys: k1, cids: g.cids };
        let a = reordered_encode_value(m[0].1, g1);
        let rest_m = m.drop_first();
        let b = reordered_encode_entries(rest_m, a.1);
        lemma_reordered_entries_registers(rest_m, a.1);
        lemma_reordered_value_registers(m[0].1, g1);
        lemma_registers_cover_prefix(keys, cids, a.1, b.1);
        lemma_registers_cover_prefix(keys, cids, g1, a.1);
        assert(keys[idx as int] == m[0].0);
        lemma_reordered_value_roundtrip(m[0].1, g1, keys, cids, b.0 + tail);
        lemma_reordered_entries_roundtrip(rest_m, a.1, keys, cids, tail, top);
        let s = reordered_encode_entries(m, g).0 + tail;
        assert(s =~= uleb_encode(idx as u64 as nat) + (a.0 + (b.0 + tail)));
        lemma_uleb_roundtrip(idx as u64, a.0 + (b.0 + tail));
        assert(rest(s, uleb_encode(idx).len() as int) =~= a.0 + (b.0 + tail));
        assert(a.0.len() > 0);
        lemma_reordered_entries_unfold(s, m.len(), keys, cids, idx as int, uleb_encode(idx).len(), m[0].1, b.0 + tail, top);
        assert(seq![(keys[(idx as usize) as int], m[0].1)] + rest_m =~= m);
    }
}

} // verus!
