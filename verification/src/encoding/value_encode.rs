//! The bytes the value writer produces for a value, with the key register
//! it threads through, and the law that the reader gives the value back.
use vstd::prelude::*;
use vstd::utf8::{encode_utf8, encode_utf8_decode_utf8, encode_utf8_valid_utf8};
use crate::common::{ContainerIdView, ContainerType, ID, LoroValueView, cid_type, container_type_to_u8};
use crate::encoding::leb::{lemma_sleb_roundtrip, lemma_uleb_roundtrip, sleb_encode, uleb_encode};
use crate::encoding::value::{be_bytes, be_word, rest};
use crate::encoding::value_decode::{
    EntriesParse, ItemsParse, MAX_COLLECTION_SIZE, ValueParse, container_type_of_byte, entry_index,
    map_put, map_put_all, parse_entries, parse_items, parse_value,
};
use crate::encoding::value_register::{lemma_register_key, register_key};

verus! {

/// The kind byte of a value.
pub open spec fn value_kind_of(v: LoroValueView) -> u8 {
    match v {
        LoroValueView::Null => 0,
        LoroValueView::Bool(b) => if b {
            1
        } else {
            2
        },
        LoroValueView::I64(_) => 3,
        LoroValueView::Double(_) => 4,
        LoroValueView::String(_) => 5,
        LoroValueView::Binary(_) => 6,
        LoroValueView::List(_) => 7,
        LoroValueView::Mapping(_) => 8,
        LoroValueView::Container(_) => 9,
    }
}

/// The bytes of a value (its kind byte, then its content) and the key
/// register after it, starting from the register `reg`.
pub open spec fn encode_value(v: LoroValueView, reg: Seq<Seq<char>>) -> (Seq<u8>, Seq<Seq<char>>)
    decreases v, 1nat,
{
    let c = encode_content(v, reg);
    (seq![value_kind_of(v)] + c.0, c.1)
}

/// The content bytes of a value: nothing for null and booleans; signed
/// LEB128 for an integer; eight big-endian bytes for a double; the byte
/// length and the UTF-8 bytes of a string; the length and the bytes of a
/// binary; the number of items and the items of a list; the number of
/// entries and, for each, the register index of its key and its value;
/// and the type byte of a container.
pub open spec fn encode_content(v: LoroValueView, reg: Seq<Seq<char>>) -> (Seq<u8>, Seq<Seq<char>>)
    decreases v, 0nat,
{
    match v {
        LoroValueView::Null => (Seq::empty(), reg),
        LoroValueView::Bool(_) => (Seq::empty(), reg),
        LoroValueView::I64(i) => (sleb_encode(i as int), reg),
        LoroValueView::Double(b) => (be_bytes(b), reg),
        LoroValueView::String(s) => (uleb_encode(encode_utf8(s).len()) + encode_utf8(s), reg),
        LoroValueView::Binary(b) => (uleb_encode(b.len()) + b, reg),
        LoroValueView::List(l) => {
            let e = encode_items(l, reg);
            (uleb_encode(l.len()) + e.0, e.1)
        },
        LoroValueView::Mapping(m) => {
            let e = encode_entries(m, reg);
            (uleb_encode(m.len()) + e.0, e.1)
        },
        LoroValueView::Container(c) => (seq![container_type_to_u8(cid_type(c))], reg),
    }
}

/// The bytes of a run of values written one after another.
pub open spec fn encode_items(l: Seq<LoroValueView>, reg: Seq<Seq<char>>) -> (Seq<u8>, Seq<Seq<char>>)
    decreases l, 0nat,
{
    if l.len() == 0 {
        (Seq::empty(), reg)
    } else {
        let a = encode_value(l[0], reg);
        let b = encode_items(l.drop_first(), a.1);
        (a.0 + b.0, b.1)
    }
}

/// The bytes of a run of map entries: each key's register index, then the
/// value.
pub open spec fn encode_entries(m: Seq<(Seq<char>, LoroValueView)>, reg: Seq<Seq<char>>) -> (
    Seq<u8>,
    Seq<Seq<char>>,
)
    decreases m, 0nat,
{
    if m.len() == 0 {
        (Seq::empty(), reg)
    } else {
        let (idx, r1) = register_key(reg, m[0].0);
        let a = encode_value(m[0].1, r1);
        let b = encode_entries(m.drop_first(), a.1);
        (uleb_encode(idx) + a.0 + b.0, b.1)
    }
}

/// `a` is the start of `b`.
pub open spec fn is_prefix_of(a: Seq<Seq<char>>, b: Seq<Seq<char>>) -> bool {
    a.len() <= b.len() && b.subrange(0, a.len() as int) == a
}

/// The key arena `keys` holds the registered keys `reg` at their indices.
pub open spec fn keys_cover(keys: Seq<Seq<char>>, reg: Seq<Seq<char>>) -> bool {
    &&& reg.len() <= keys.len()
    &&& forall|j: int| 0 <= j < reg.len() ==> keys[j] == reg[j]
}

proof fn lemma_prefix_trans(a: Seq<Seq<char>>, b: Seq<Seq<char>>, c: Seq<Seq<char>>)
    requires
        is_prefix_of(a, b),
        is_prefix_of(b, c),
    ensures
        is_prefix_of(a, c),
{
    assert(c.subrange(0, a.len() as int) =~= b.subrange(0, a.len() as int));
}

pub(crate) proof fn lemma_cover_prefix(keys: Seq<Seq<char>>, a: Seq<Seq<char>>, b: Seq<Seq<char>>)
    requires
        is_prefix_of(a, b),
        keys_cover(keys, b),
    ensures
        keys_cover(keys, a),
{
    assert forall|j: int| 0 <= j < a.len() implies keys[j] == a[j] by {
        assert(a[j] == b.subrange(0, a.len() as int)[j]);
    }
}

proof fn lemma_prefix_refl(a: Seq<Seq<char>>)
    ensures
        is_prefix_of(a, a),
{
    assert(a.subrange(0, a.len() as int) =~= a);
}

/// Writing a value only adds keys to the register.
pub proof fn lemma_encode_value_register(v: LoroValueView, reg: Seq<Seq<char>>)
    ensures
        is_prefix_of(reg, encode_value(v, reg).1),
    decreases v, 1nat,
{
    lemma_encode_content_register(v, reg);
}

proof fn lemma_encode_content_register(v: LoroValueView, reg: Seq<Seq<char>>)
    ensures
        is_prefix_of(reg, encode_content(v, reg).1),
    decreases v, 0nat,
{
    lemma_prefix_refl(reg);
    match v {
        LoroValueView::List(l) => lemma_encode_items_register(l, reg),
        LoroValueView::Mapping(m) => lemma_encode_entries_register(m, reg),
        _ => {},
    }
}

pub(crate) proof fn lemma_encode_items_register(l: Seq<LoroValueView>, reg: Seq<Seq<char>>)
    ensures
        is_prefix_of(reg, encode_items(l, reg).1),
    decreases l, 0nat,
{
    lemma_prefix_refl(reg);
    if l.len() > 0 {
        let a = encode_value(l[0], reg);
        lemma_encode_value_register(l[0], reg);
        lemma_encode_items_register(l.drop_first(), a.1);
        lemma_prefix_trans(reg, a.1, encode_items(l.drop_first(), a.1).1);
    }
}

pub(crate) proof fn lemma_encode_entries_register(m: Seq<(Seq<char>, LoroValueView)>, reg: Seq<Seq<char>>)
    ensures
        is_prefix_of(reg, encode_entries(m, reg).1),
    decreases m, 0nat,
{
    lemma_prefix_refl(reg);
    if m.len() > 0 {
        let (idx, r1) = register_key(reg, m[0].0);
        lemma_register_key(reg, m[0].0);
        assert(decreases_to!(m => m[0]));
        let a = encode_value(m[0].1, r1);
        lemma_encode_value_register(m[0].1, r1);
        lemma_encode_entries_register(m.drop_first(), a.1);
        lemma_prefix_trans(reg, r1, a.1);
        lemma_prefix_trans(reg, a.1, encode_entries(m.drop_first(), a.1).1);
    }
}

/// The keys of a map's entries are distinct.
pub open spec fn distinct_keys(m: Seq<(Seq<char>, LoroValueView)>) -> bool {
    forall|i: int, j: int| 0 <= i < j < m.len() ==> (#[trigger] m[i]).0 != (#[trigger] m[j]).0
}

proof fn lemma_entry_index_absent(m: Seq<(Seq<char>, LoroValueView)>, key: Seq<char>)
    requires
        forall|i: int| 0 <= i < m.len() ==> (#[trigger] m[i]).0 != key,
    ensures
        entry_index(m, key) < 0,
    decreases m.len(),
{
    if m.len() > 0 {
        lemma_entry_index_absent(m.drop_last(), key);
    }
}

/// Putting entries with distinct keys, none already present, appends them.
pub(crate) proof fn lemma_map_put_all_fresh(acc: Seq<(Seq<char>, LoroValueView)>, m: Seq<(Seq<char>, LoroValueView)>)
    requires
        distinct_keys(m),
        forall|i: int, j: int| 0 <= i < acc.len() && 0 <= j < m.len() ==> (#[trigger] acc[i]).0 != (
        #[trigger] m[j]).0,
    ensures
        map_put_all(acc, m) == acc + m,
    decreases m.len(),
{
    if m.len() == 0 {
        assert(acc + m =~= acc);
    } else {
        assert forall|i: int| 0 <= i < acc.len() implies (#[trigger] acc[i]).0 != m[0].0 by {}
        lemma_entry_index_absent(acc, m[0].0);
        let acc2 = acc.push(m[0]);
        assert(map_put(acc, m[0].0, m[0].1) == acc2);
        let m2 = m.drop_first();
        assert forall|i: int, j: int| 0 <= i < acc2.len() && 0 <= j < m2.len() implies (
        #[trigger] acc2[i]).0 != (#[trigger] m2[j]).0 by {
            assert(m2[j] == m[j + 1]);
            if i < acc.len() {
                assert(acc2[i] == acc[i]);
            }
        }
        assert forall|i: int, j: int| 0 <= i < j < m2.len() implies (#[trigger] m2[i]).0 != (
        #[trigger] m2[j]).0 by {
            assert(m2[i] == m[i + 1]);
            assert(m2[j] == m[j + 1]);
        }
        lemma_map_put_all_fresh(acc2, m2);
        assert(acc2 + m2 =~= acc + m);
    }
}

/// Values the writer and the reader agree on, for a reader that gives
/// container references the id `id`: every list and map has at most
/// `MAX_COLLECTION_SIZE` items, map keys are distinct, strings and binaries
/// are no longer than a `usize` counts, and every container reference is to
/// the container of `id`, of a type whose byte reads back as that type.
pub open spec fn value_encodable(v: LoroValueView, id: ID) -> bool
    decreases v, 1nat,
{
    match v {
        LoroValueView::String(s) => encode_utf8(s).len() <= usize::MAX,
        LoroValueView::Binary(b) => b.len() <= usize::MAX,
        LoroValueView::List(l) => l.len() <= MAX_COLLECTION_SIZE && items_encodable(l, id),
        LoroValueView::Mapping(m) => m.len() <= MAX_COLLECTION_SIZE && distinct_keys(m)
            && entries_encodable(m, id),
        LoroValueView::Container(c) => c == ContainerIdView::Normal {
            peer: id.peer,
            counter: id.counter,
            container_type: cid_type(c),
        } && container_type_of_byte(container_type_to_u8(cid_type(c))) == cid_type(c),
        _ => true,
    }
}

/// Every item is encodable.
pub open spec fn items_encodable(l: Seq<LoroValueView>, id: ID) -> bool
    decreases l, 0nat,
{
    l.len() > 0 ==> value_encodable(l[0], id) && items_encodable(l.drop_first(), id)
}

/// Every entry's value is encodable.
pub open spec fn entries_encodable(m: Seq<(Seq<char>, LoroValueView)>, id: ID) -> bool
    decreases m, 0nat,
{
    m.len() > 0 ==> {
        &&& decreases_to!(m => m[0])
        &&& value_encodable(m[0].1, id)
        &&& entries_encodable(m.drop_first(), id)
    }
}

pub(crate) proof fn lemma_be_roundtrip(b: u64, tail: Seq<u8>)
    ensures
        (be_bytes(b) + tail).len() >= 8,
        be_word(be_bytes(b) + tail) == b,
        rest(be_bytes(b) + tail, 8) == tail,
{
    let s = be_bytes(b) + tail;
    assert(s[0] == (b >> 56) as u8);
    assert(s[1] == (b >> 48) as u8);
    assert(s[2] == (b >> 40) as u8);
    assert(s[3] == (b >> 32) as u8);
    assert(s[4] == (b >> 24) as u8);
    assert(s[5] == (b >> 16) as u8);
    assert(s[6] == (b >> 8) as u8);
    assert(s[7] == b as u8);
    assert((((b >> 56) as u8 as u64) << 56) | (((b >> 48) as u8 as u64) << 48) | (((b >> 40) as u8
        as u64) << 40) | (((b >> 32) as u8 as u64) << 32) | (((b >> 24) as u8 as u64) << 24) | (((b
        >> 16) as u8 as u64) << 16) | (((b >> 8) as u8 as u64) << 8) | (b as u8 as u64) == b)
        by (bit_vector);
    assert(rest(s, 8) =~= tail);
}

/// What the writer writes for an encodable value, the reader reads back as
/// the same value, whatever follows it, given a key arena that holds the
/// keys the writer registered.
#[verifier::rlimit(60)]
pub proof fn lemma_value_roundtrip(
    v: LoroValueView,
    reg: Seq<Seq<char>>,
    keys: Seq<Seq<char>>,
    id: ID,
    tail: Seq<u8>,
)
    requires
        value_encodable(v, id),
        keys_cover(keys, encode_value(v, reg).1),
        keys.len() <= usize::MAX,
    ensures
        parse_value(encode_value(v, reg).0 + tail, keys, id) == ValueParse::Value(v, tail),
    decreases v, 1nat,
{
    let c = encode_content(v, reg);
    let s = encode_value(v, reg).0 + tail;
    let t = c.0 + tail;
    assert(s =~= seq![value_kind_of(v)] + t);
    assert(s.drop_first() =~= t);
    assert(s[0] == value_kind_of(v));
    match v {
        LoroValueView::I64(i) => {
            lemma_sleb_roundtrip(i, tail);
            assert(rest(t, sleb_encode(i as int).len() as int) =~= tail);
        },
        LoroValueView::Double(b) => {
            lemma_be_roundtrip(b, tail);
        },
        LoroValueView::String(str) => {
            let bytes = encode_utf8(str);
            lemma_uleb_roundtrip(bytes.len() as u64, bytes + tail);
            assert(t =~= uleb_encode(bytes.len() as u64 as nat) + (bytes + tail));
            let n = uleb_encode(bytes.len()).len();
            assert(t.subrange(n as int, (n + bytes.len()) as int) =~= bytes);
            assert(rest(t, (n + bytes.len()) as int) =~= tail);
            encode_utf8_valid_utf8(str);
            encode_utf8_decode_utf8(str);
        },
        LoroValueView::Binary(bytes) => {
            lemma_uleb_roundtrip(bytes.len() as u64, bytes + tail);
            assert(t =~= uleb_encode(bytes.len() as u64 as nat) + (bytes + tail));
            let n = uleb_encode(bytes.len()).len();
            assert(t.subrange(n as int, (n + bytes.len()) as int) =~= bytes);
            assert(rest(t, (n + bytes.len()) as int) =~= tail);
        },
        LoroValueView::List(l) => {
            let e = encode_items(l, reg);
            lemma_uleb_roundtrip(l.len() as u64, e.0 + tail);
            assert(t =~= uleb_encode(l.len() as u64 as nat) + (e.0 + tail));
            let n = uleb_encode(l.len()).len();
            assert(rest(t, n as int) =~= e.0 + tail);
            lemma_items_roundtrip(l, reg, keys, id, tail);
        },
        LoroValueView::Mapping(m) => {
            let e = encode_entries(m, reg);
            lemma_uleb_roundtrip(m.len() as u64, e.0 + tail);
            assert(t =~= uleb_encode(m.len() as u64 as nat) + (e.0 + tail));
            let n = uleb_encode(m.len()).len();
            assert(rest(t, n as int) =~= e.0 + tail);
            lemma_entries_roundtrip(m, reg, keys, id, tail);
            lemma_map_put_all_fresh(Seq::empty(), m);
            assert(Seq::<(Seq<char>, LoroValueView)>::empty() + m =~= m);
        },
        LoroValueView::Container(cid) => {
            assert(t[0] == container_type_to_u8(cid_type(cid)));
            assert(rest(t, 1) =~= tail);
        },
        _ => {},
    }
}

#[verifier::rlimit(30)]
proof fn lemma_items_roundtrip(
    l: Seq<LoroValueView>,
    reg: Seq<Seq<char>>,
    keys: Seq<Seq<char>>,
    id: ID,
    tail: Seq<u8>,
)
    requires
        items_encodable(l, id),
        keys_cover(keys, encode_items(l, reg).1),
        keys.len() <= usize::MAX,
    ensures
        parse_items(encode_items(l, reg).0 + tail, l.len(), keys, id) == ItemsParse::Items(l, tail),
    decreases l, 0nat,
{
    if l.len() == 0 {
        assert(Seq::<u8>::empty() + tail =~= tail);
        assert(l =~= Seq::<LoroValueView>::empty());
    } else {
        let a = encode_value(l[0], reg);
        let rest_l = l.drop_first();
        let b = encode_items(rest_l, a.1);
        lemma_encode_items_register(rest_l, a.1);
        lemma_cover_prefix(keys, a.1, b.1);
        lemma_value_roundtrip(l[0], reg, keys, id, b.0 + tail);
        lemma_items_roundtrip(rest_l, a.1, keys, id, tail);
        assert(encode_items(l, reg).0 + tail =~= a.0 + (b.0 + tail));
        assert(seq![l[0]] + rest_l =~= l);
    }
}

#[verifier::rlimit(50)]
proof fn lemma_entries_roundtrip(
    m: Seq<(Seq<char>, LoroValueView)>,
    reg: Seq<Seq<char>>,
    keys: Seq<Seq<char>>,
    id: ID,
    tail: Seq<u8>,
)
    requires
        entries_encodable(m, id),
        keys_cover(keys, encode_entries(m, reg).1),
        keys.len() <= usize::MAX,
    ensures
        parse_entries(encode_entries(m, reg).0 + tail, m.len(), keys, id) == EntriesParse::Entries(
            m,
            tail,
        ),
    decreases m, 0nat,
{
    if m.len() == 0 {
        assert(Seq::<u8>::empty() + tail =~= tail);
        assert(m =~= Seq::<(Seq<char>, LoroValueView)>::empty());
    } else {
        let (idx, r1) = register_key(reg, m[0].0);
        lemma_register_key(reg, m[0].0);
        let a = encode_value(m[0].1, r1);
        let rest_m = m.drop_first();
        let b = encode_entries(rest_m, a.1);
        lemma_encode_entries_register(rest_m, a.1);
        lemma_encode_value_register(m[0].1, r1);
        lemma_cover_prefix(keys, a.1, b.1);
        lemma_cover_prefix(keys, r1, a.1);
        assert(keys[idx as int] == m[0].0);
        lemma_value_roundtrip(m[0].1, r1, keys, id, b.0 + tail);
        lemma_entries_roundtrip(rest_m, a.1, keys, id, tail);
        let s = encode_entries(m, reg).0 + tail;
        assert(s =~= uleb_encode(idx as u64 as nat) + (a.0 + (b.0 + tail)));
        lemma_uleb_roundtrip(idx as u64, a.0 + (b.0 + tail));
        assert(rest(s, uleb_encode(idx).len() as int) =~= a.0 + (b.0 + tail));
        assert(seq![(keys[(idx as usize) as int], m[0].1)] + rest_m =~= m);
    }
}


} // verus!
