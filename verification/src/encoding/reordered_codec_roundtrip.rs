//! What the op-content writer writes, its reader reads back.
use vstd::prelude::*;
use vstd::utf8::{encode_utf8, encode_utf8_decode_utf8, encode_utf8_valid_utf8};
use crate::common::{ContainerIdView, LoroValueView};
use crate::encoding::encode_reordered::{EncodedTreeMove, lemma_tree_move_roundtrip, tree_move_bytes};
use crate::encoding::leb::{lemma_sleb_roundtrip, lemma_uleb_roundtrip, sleb_encode, uleb_encode, uleb_read};
use crate::encoding::reordered_codec::{
    OpEntriesRead, OpItemsRead, OpValueRead, ValueView, op_entries_read, op_entry_index, op_items_read,
    op_kind_byte, op_map_bytes, op_map_put, op_map_put_all, op_array_bytes, op_value_bytes, op_value_read,
};
use crate::encoding::reordered_roundtrip::{
    lemma_reordered_content_roundtrip, lemma_reordered_value_registers, registers_cover, registers_prefix,
    reordered_encodable,
};
use crate::encoding::reordered_value::{
    Registers, kind_of_code, reordered_encode_content, reordered_encode_value, reordered_kind_byte, reordered_kind_of,
    reordered_parse_top_value,
};
use crate::encoding::value::{be_bytes, rest};
use crate::encoding::value_decode::{MAX_COLLECTION_SIZE, ValueParse};
use crate::encoding::value_encode::{lemma_be_roundtrip, lemma_cover_prefix};
use crate::encoding::value_register::{lemma_register_key, register_key};

verus! {

/// The keys of a map's entries are distinct.
pub open spec fn op_distinct_keys(m: Seq<(Seq<char>, ValueView)>) -> bool {
    forall|i: int, j: int| 0 <= i < j < m.len() ==> (#[trigger] m[i]).0 != (#[trigger] m[j]).0
}

/// Op content the writer and the reader agree on: no value of an unknown
/// kind, strings and binaries no longer than a `usize` counts, arrays and
/// maps of at most `MAX_COLLECTION_SIZE` items, distinct map keys, mark
/// values the reordered value codec carries, and tree moves to a null
/// parent with a zero parent.
pub open spec fn op_value_encodable(v: ValueView) -> bool
    decreases v, 1nat,
{
    match v {
        ValueView::Unknown { .. } => false,
        ValueView::Str(s) => encode_utf8(s).len() <= usize::MAX,
        ValueView::Binary(b) => b.len() <= usize::MAX,
        ValueView::Array(vs) => vs.len() <= MAX_COLLECTION_SIZE && op_items_encodable(vs),
        ValueView::Mapping(es) => es.len() <= MAX_COLLECTION_SIZE && op_distinct_keys(es)
            && op_entries_encodable(es),
        ValueView::MarkStart { value, .. } => reordered_encodable(value),
        ValueView::TreeMove(t) => t.is_parent_null ==> t.parent_peer_idx == 0 && t.parent_cnt == 0,
        _ => true,
    }
}

/// Every item is encodable.
pub open spec fn op_items_encodable(vs: Seq<ValueView>) -> bool
    decreases vs, 0nat,
{
    vs.len() > 0 ==> op_value_encodable(vs[0]) && op_items_encodable(vs.drop_first())
}

/// Every entry's value is encodable.
pub open spec fn op_entries_encodable(es: Seq<(Seq<char>, ValueView)>) -> bool
    decreases es, 0nat,
{
    es.len() > 0 ==> {
        &&& decreases_to!(es => es[0])
        &&& op_value_encodable(es[0].1)
        &&& op_entries_encodable(es.drop_first())
    }
}

proof fn lemma_prefix_refl(g: Registers)
    ensures
        registers_prefix(g, g),
{
    assert(g.keys.subrange(0, g.keys.len() as int) =~= g.keys);
    assert(g.cids.subrange(0, g.cids.len() as int) =~= g.cids);
}

proof fn lemma_prefix_trans(a: Registers, b: Registers, c: Registers)
    requires
        registers_prefix(a, b),
        registers_prefix(b, c),
    ensures
        registers_prefix(a, c),
{
    assert(c.keys.subrange(0, a.keys.len() as int) =~= b.keys.subrange(0, a.keys.len() as int));
    assert(c.cids.subrange(0, a.cids.len() as int) =~= b.cids.subrange(0, a.cids.len() as int));
}

proof fn lemma_cover_prefix_regs(keys: Seq<Seq<char>>, cids: Seq<ContainerIdView>, a: Registers, b: Registers)
    requires
        registers_prefix(a, b),
        registers_cover(keys, cids, b),
    ensures
        registers_cover(keys, cids, a),
{
    lemma_cover_prefix(keys, a.keys, b.keys);
    assert forall|j: int| 0 <= j < a.cids.len() implies cids[j] == a.cids[j] by {
        assert(a.cids[j] == b.cids.subrange(0, a.cids.len() as int)[j]);
    }
}

/// Writing op content only adds to the registers.
pub proof fn lemma_op_value_registers(v: ValueView, g: Registers)
    ensures
        registers_prefix(g, op_value_bytes(v, g).1),
    decreases v, 1nat,
{
    lemma_prefix_refl(g);
    match v {
        ValueView::Array(vs) => lemma_op_array_registers(vs, g),
        ValueView::Mapping(es) => lemma_op_map_registers(es, g),
        ValueView::MarkStart { value, .. } => lemma_reordered_value_registers(value, g),
        _ => {},
    }
}

proof fn lemma_op_array_registers(vs: Seq<ValueView>, g: Registers)
    ensures
        registers_prefix(g, op_array_bytes(vs, g).1),
    decreases vs, 0nat,
{
    lemma_prefix_refl(g);
    if vs.len() > 0 {
        let a = op_value_bytes(vs[0], g);
        lemma_op_value_registers(vs[0], g);
        lemma_op_array_registers(vs.drop_first(), a.1);
        lemma_prefix_trans(g, a.1, op_array_bytes(vs.drop_first(), a.1).1);
    }
}

proof fn lemma_op_map_registers(es: Seq<(Seq<char>, ValueView)>, g: Registers)
    ensures
        registers_prefix(g, op_map_bytes(es, g).1),
    decreases es, 0nat,
{
    lemma_prefix_refl(g);
    if es.len() > 0 {
        let (idx, k1) = register_key(g.keys, es[0].0);
        lemma_register_key(g.keys, es[0].0);
        let g1 = Registers { keys: k1, cids: g.cids };
        assert(g.cids.subrange(0, g.cids.len() as int) =~= g.cids);
        assert(decreases_to!(es => es[0]));
        let a = op_value_bytes(es[0].1, g1);
        lemma_op_value_registers(es[0].1, g1);
        lemma_op_map_registers(es.drop_first(), a.1);
        lemma_prefix_trans(g, g1, a.1);
        lemma_prefix_trans(g, a.1, op_map_bytes(es.drop_first(), a.1).1);
    }
}

proof fn lemma_op_entry_index_absent(m: Seq<(Seq<char>, ValueView)>, key: Seq<char>)
    requires
        forall|i: int| 0 <= i < m.len() ==> (#[trigger] m[i]).0 != key,
    ensures
        op_entry_index(m, key) < 0,
    decreases m.len(),
{
    if m.len() > 0 {
        lemma_op_entry_index_absent(m.drop_last(), key);
    }
}

/// Putting entries with distinct keys, none already present, appends them.
proof fn lemma_op_map_put_all_fresh(acc: Seq<(Seq<char>, ValueView)>, m: Seq<(Seq<char>, ValueView)>)
    requires
        op_distinct_keys(m),
        forall|i: int, j: int| 0 <= i < acc.len() && 0 <= j < m.len() ==> (#[trigger] acc[i]).0 != (
        #[trigger] m[j]).0,
    ensures
        op_map_put_all(acc, m) == acc + m,
    decreases m.len(),
{
    if m.len() == 0 {
        assert(acc + m =~= acc);
    } else {
        assert forall|i: int| 0 <= i < acc.len() implies (#[trigger] acc[i]).0 != m[0].0 by {}
        lemma_op_entry_index_absent(acc, m[0].0);
        let acc2 = acc.push(m[0]);
        assert(op_map_put(acc, m[0].0, m[0].1) == acc2);
        let m2 = m.drop_first();
        assert forall|i: int, j: int| 0 <= i < acc2.len() && 0 <= j < m2.len() implies (
        #[trigger] acc2[i]).0 != (#[trigger] m2[j]).0 by {
            assert(m2[j] == m[j + 1]);
            if i < acc.len() {
                assert(acc2[i] == acc[i]);
            }
        }
        assert forall|i: int, j: int| 0 <= i < j < m2.len() implies (#[trigger] m2[i]).0 != (
        #[trigger] m2[j]).0 by {
            assert(m2[i] == m[i + 1]);
            assert(m2[j] == m[j + 1]);
        }
        lemma_op_map_put_all_fresh(acc2, m2);
        assert(acc2 + m2 =~= acc + m);
    }
}

/// A value written with its kind byte by the reordered value writer reads
/// back as a top-level value.
pub proof fn lemma_reordered_top_value_roundtrip(
    v: LoroValueView,
    g: Registers,
    keys: Seq<Seq<char>>,
    cids: Seq<ContainerIdView>,
    tail: Seq<u8>,
)
    requires
        reordered_encodable(v),
        registers_cover(keys, cids, reordered_encode_value(v, g).1),
        keys.len() <= usize::MAX,
        cids.len() <= usize::MAX,
    ensures
        reordered_parse_top_value(reordered_encode_value(v, g).0 + tail, keys, cids) == ValueParse::Value(v, tail),
{
    let c = reordered_encode_content(v, g);
    let s = reordered_encode_value(v, g).0 + tail;
    assert(s =~= seq![reordered_kind_byte(v)] + (c.0 + tail));
    assert(s.drop_first() =~= c.0 + tail);
    assert(kind_of_code(reordered_kind_byte(v)) == reordered_kind_of(v));
    lemma_reordered_content_roundtrip(v, g, keys, cids, tail);
}

/// What the writer writes for encodable op content, the reader reads back,
/// given the value's kind byte, whatever follows it, with arenas that hold
/// what the writer registered.
pub proof fn lemma_op_value_roundtrip(
    v: ValueView,
    g: Registers,
    keys: Seq<Seq<char>>,
    cids: Seq<ContainerIdView>,
    tail: Seq<u8>,
)
    requires
        op_value_encodable(v),
        registers_cover(keys, cids, op_value_bytes(v, g).1),
        keys.len() <= usize::MAX,
        cids.len() <= usize::MAX,
    ensures
        op_value_read(op_kind_byte(v), op_value_bytes(v, g).0 + tail, keys, cids) == OpValueRead::Value(v, tail),
    decreases v, 2nat,
{
    match v {
        ValueView::MarkStart { len, key_idx, value, info } => {
            lemma_op_mark_roundtrip(len, key_idx, value, info, g, keys, cids, tail);
        },
        ValueView::Array(vs) => {
            lemma_op_array_roundtrip(vs, g, keys, cids, tail);
        },
        ValueView::Mapping(es) => {
            lemma_op_map_roundtrip(es, g, keys, cids, tail);
        },
        _ => {
            lemma_op_scalar_roundtrip(v, g, keys, cids, tail);
        },
    }
}

/// The same for content that holds no other values.
proof fn lemma_op_scalar_roundtrip(
    v: ValueView,
    g: Registers,
    keys: Seq<Seq<char>>,
    cids: Seq<ContainerIdView>,
    tail: Seq<u8>,
)
    requires
        op_value_encodable(v),
        !(v is MarkStart),
        !(v is Array),
        !(v is Mapping),
    ensures
        op_value_read(op_kind_byte(v), op_value_bytes(v, g).0 + tail, keys, cids) == OpValueRead::Value(v, tail),
{
    match v {
        ValueView::I32(i) => lemma_op_int_roundtrip(4, i, keys, cids, tail),
        ValueView::DeleteSeq(i) => lemma_op_int_roundtrip(8, i, keys, cids, tail),
        ValueView::DeltaInt(i) => lemma_op_int_roundtrip(9, i, keys, cids, tail),
        ValueView::F64(b) => lemma_op_f64_roundtrip(b, keys, cids, tail),
        ValueView::Str(str) => lemma_op_str_roundtrip(str, keys, cids, tail),
        ValueView::Binary(bytes) => lemma_op_binary_roundtrip(bytes, keys, cids, tail),
        ValueView::ContainerIdx(i) => lemma_op_idx_roundtrip(i, keys, cids, tail),
        ValueView::TreeMove(m) => lemma_op_tree_move_roundtrip(m, keys, cids, tail),
        _ => {},
    }
}

proof fn lemma_op_int_roundtrip(kind: u8, i: i32, keys: Seq<Seq<char>>, cids: Seq<ContainerIdView>, tail: Seq<u8>)
    requires
        kind == 4 || kind == 8 || kind == 9,
    ensures
        op_value_read(kind, sleb_encode(i as int) + tail, keys, cids) == OpValueRead::Value(
            if kind == 4 {
                ValueView::I32(i)
            } else if kind == 8 {
                ValueView::DeleteSeq(i)
            } else {
                ValueView::DeltaInt(i)
            },
            tail,
        ),
{
    lemma_sleb_roundtrip(i as i64, tail);
    assert(rest(sleb_encode(i as int) + tail, sleb_encode(i as int).len() as int) =~= tail);
}

proof fn lemma_op_f64_roundtrip(b: u64, keys: Seq<Seq<char>>, cids: Seq<ContainerIdView>, tail: Seq<u8>)
    ensures
        op_value_read(6, be_bytes(b) + tail, keys, cids) == OpValueRead::Value(ValueView::F64(b), tail),
{
    lemma_be_roundtrip(b, tail);
}

proof fn lemma_op_str_roundtrip(str: Seq<char>, keys: Seq<Seq<char>>, cids: Seq<ContainerIdView>, tail: Seq<u8>)
    requires
        encode_utf8(str).len() <= usize::MAX,
    ensures
        op_value_read(7, uleb_encode(encode_utf8(str).len()) + encode_utf8(str) + tail, keys, cids)
            == OpValueRead::Value(ValueView::Str(str), tail),
{
    let bytes = encode_utf8(str);
    let t = uleb_encode(bytes.len()) + bytes + tail;
    lemma_uleb_roundtrip(bytes.len() as u64, bytes + tail);
    assert(t =~= uleb_encode(bytes.len() as u64 as nat) + (bytes + tail));
    let n = uleb_encode(bytes.len()).len();
    assert(t.subrange(n as int, (n + bytes.len()) as int) =~= bytes);
    assert(rest(t, (n + bytes.len()) as int) =~= tail);
    encode_utf8_valid_utf8(str);
    encode_utf8_decode_utf8(str);
}

proof fn lemma_op_binary_roundtrip(bytes: Seq<u8>, keys: Seq<Seq<char>>, cids: Seq<ContainerIdView>, tail: Seq<u8>)
    requires
        bytes.len() <= usize::MAX,
    ensures
        op_value_read(14, uleb_encode(bytes.len()) + bytes + tail, keys, cids) == OpValueRead::Value(
            ValueView::Binary(bytes),
            tail,
        ),
{
    let t = uleb_encode(bytes.len()) + bytes + tail;
    lemma_uleb_roundtrip(bytes.len() as u64, bytes + tail);
    assert(t =~= uleb_encode(bytes.len() as u64 as nat) + (bytes + tail));
    let n = uleb_encode(bytes.len()).len();
    assert(t.subrange(n as int, (n + bytes.len()) as int) =~= bytes);
    assert(rest(t, (n + bytes.len()) as int) =~= tail);
}

proof fn lemma_op_idx_roundtrip(i: usize, keys: Seq<Seq<char>>, cids: Seq<ContainerIdView>, tail: Seq<u8>)
    ensures
        op_value_read(5, uleb_encode(i as nat) + tail, keys, cids) == OpValueRead::Value(
            ValueView::ContainerIdx(i),
            tail,
        ),
{
    lemma_uleb_roundtrip(i as u64, tail);
    assert(rest(uleb_encode(i as nat) + tail, uleb_encode(i as nat).len() as int) =~= tail);
}

proof fn lemma_op_tree_move_roundtrip(m: EncodedTreeMove, keys: Seq<Seq<char>>, cids: Seq<ContainerIdView>, tail: Seq<u8>)
    requires
        m.is_parent_null ==> m.parent_peer_idx == 0 && m.parent_cnt == 0,
    ensures
        op_value_read(13, tree_move_bytes(m) + tail, keys, cids) == OpValueRead::Value(ValueView::TreeMove(m), tail),
{
    lemma_tree_move_roundtrip(m, tail);
    assert(rest(tree_move_bytes(m) + tail, tree_move_bytes(m).len() as int) =~= tail);
}

#[verifier::rlimit(100)]
proof fn lemma_op_mark_roundtrip(
    len: u32,
    key_idx: u32,
    value: LoroValueView,
    info: u8,
    g: Registers,
    keys: Seq<Seq<char>>,
    cids: Seq<ContainerIdView>,
    tail: Seq<u8>,
)
    requires
        reordered_encodable(value),
        registers_cover(keys, cids, reordered_encode_value(value, g).1),
        keys.len() <= usize::MAX,
        cids.len() <= usize::MAX,
    ensures
        ({
            let v = ValueView::MarkStart { len, key_idx, value, info };
            op_value_read(op_kind_byte(v), op_value_bytes(v, g).0 + tail, keys, cids) == OpValueRead::Value(v, tail)
        }),
{
    let v = ValueView::MarkStart { len, key_idx, value, info };
    let e = reordered_encode_value(value, g);
    let s = op_value_bytes(v, g).0 + tail;
    let u1 = uleb_encode(len as nat);
    let u2 = uleb_encode(key_idx as nat);
    assert(s =~= seq![info] + (u1 + (u2 + (e.0 + tail))));
    assert(s.drop_first() =~= u1 + (u2 + (e.0 + tail)));
    lemma_uleb_roundtrip(len as u64, u2 + (e.0 + tail));
    let t = s.drop_first();
    assert(rest(t, u1.len() as int) =~= u2 + (e.0 + tail));
    lemma_uleb_roundtrip(key_idx as u64, e.0 + tail);
    assert(rest(rest(t, u1.len() as int), u2.len() as int) =~= e.0 + tail);
    assert(rest(t, (u1.len() + u2.len()) as int) =~= e.0 + tail);
    lemma_reordered_top_value_roundtrip(value, g, keys, cids, tail);
}

proof fn lemma_op_array_roundtrip(
    vs: Seq<ValueView>,
    g: Registers,
    keys: Seq<Seq<char>>,
    cids: Seq<ContainerIdView>,
    tail: Seq<u8>,
)
    requires
        vs.len() <= MAX_COLLECTION_SIZE,
        op_items_encodable(vs),
        registers_cover(keys, cids, op_array_bytes(vs, g).1),
        keys.len() <= usize::MAX,
        cids.len() <= usize::MAX,
    ensures
        op_value_read(10, op_value_bytes(ValueView::Array(vs), g).0 + tail, keys, cids) == OpValueRead::Value(
            ValueView::Array(vs),
            tail,
        ),
    decreases vs, 1nat,
{
    let e = op_array_bytes(vs, g);
    let t = op_value_bytes(ValueView::Array(vs), g).0 + tail;
    lemma_uleb_roundtrip(vs.len() as u64, e.0 + tail);
    assert(t =~= uleb_encode(vs.len() as u64 as nat) + (e.0 + tail));
    assert(rest(t, uleb_encode(vs.len()).len() as int) =~= e.0 + tail);
    lemma_op_items_roundtrip(vs, g, keys, cids, tail);
}

proof fn lemma_op_map_roundtrip(
    es: Seq<(Seq<char>, ValueView)>,
    g: Registers,
    keys: Seq<Seq<char>>,
    cids: Seq<ContainerIdView>,
    tail: Seq<u8>,
)
    requires
        es.len() <= MAX_COLLECTION_SIZE,
        op_distinct_keys(es),
        op_entries_encodable(es),
        registers_cover(keys, cids, op_map_bytes(es, g).1),
        keys.len() <= usize::MAX,
        cids.len() <= usize::MAX,
    ensures
        op_value_read(11, op_value_bytes(ValueView::Mapping(es), g).0 + tail, keys, cids) == OpValueRead::Value(
            ValueView::Mapping(es),
            tail,
        ),
    decreases es, 1nat,
{
    let e = op_map_bytes(es, g);
    let t = op_value_bytes(ValueView::Mapping(es), g).0 + tail;
    lemma_uleb_roundtrip(es.len() as u64, e.0 + tail);
    assert(t =~= uleb_encode(es.len() as u64 as nat) + (e.0 + tail));
    assert(rest(t, uleb_encode(es.len()).len() as int) =~= e.0 + tail);
    lemma_op_entries_roundtrip(es, g, keys, cids, tail);
    lemma_op_map_put_all_fresh(Seq::empty(), es);
    assert(Seq::<(Seq<char>, ValueView)>::empty() + es =~= es);
}

#[verifier::rlimit(50)]
proof fn lemma_op_items_roundtrip(
    vs: Seq<ValueView>,
    g: Registers,
    keys: Seq<Seq<char>>,
    cids: Seq<ContainerIdView>,
    tail: Seq<u8>,
)
    requires
        op_items_encodable(vs),
        registers_cover(keys, cids, op_array_bytes(vs, g).1),
        keys.len() <= usize::MAX,
        cids.len() <= usize::MAX,
    ensures
        op_items_read(op_array_bytes(vs, g).0 + tail, vs.len(), keys, cids) == OpItemsRead::Items(vs, tail),
    decreases vs, 0nat,
{
    if vs.len() == 0 {
        assert(Seq::<u8>::empty() + tail =~= tail);
        assert(vs =~= Seq::<ValueView>::empty());
    } else {
        let a = op_value_bytes(vs[0], g);
        let rest_v = vs.drop_first();
        let b = op_array_bytes(rest_v, a.1);
        lemma_op_array_registers(rest_v, a.1);
        lemma_cover_prefix_regs(keys, cids, a.1, b.1);
        lemma_op_value_roundtrip(vs[0], g, keys, cids, b.0 + tail);
        lemma_op_items_roundtrip(rest_v, a.1, keys, cids, tail);
        let s = op_array_bytes(vs, g).0 + tail;
        assert(s =~= seq![op_kind_byte(vs[0])] + (a.0 + (b.0 + tail)));
        assert(s.drop_first() =~= a.0 + (b.0 + tail));
        assert(op_value_read(s[0], s.drop_first(), keys, cids) == OpValueRead::Value(vs[0], b.0 + tail));
        assert(op_items_read(b.0 + tail, (vs.len() - 1) as nat, keys, cids) == OpItemsRead::Items(rest_v, tail));
        assert(seq![vs[0]] + rest_v =~= vs);
    }
}

/// One step of reading map entries.
proof fn lemma_op_entries_unfold(
    s: Seq<u8>,
    n: nat,
    keys: Seq<Seq<char>>,
    cids: Seq<ContainerIdView>,
    ki: int,
    m: nat,
    v: ValueView,
    r: Seq<u8>,
)
    requires
        n >= 1,
        uleb_read(s) == Some((ki, m)),
        m <= s.len(),
        (ki as usize) < keys.len(),
        rest(s, m as int).len() > 0,
        op_value_read(rest(s, m as int)[0], rest(s, m as int).drop_first(), keys, cids) == OpValueRead::Value(v, r),
        r.len() < s.len(),
    ensures
        op_entries_read(s, n, keys, cids) == match op_entries_read(r, (n - 1) as nat, keys, cids) {
            OpEntriesRead::Entries(es, r2) => OpEntriesRead::Entries(seq![(keys[(ki as usize) as int], v)] + es, r2),
            OpEntriesRead::Corrupt => OpEntriesRead::Corrupt,
            OpEntriesRead::Unreadable => OpEntriesRead::Unreadable,
        },
{
}

#[verifier::rlimit(100)]
proof fn lemma_op_entries_roundtrip(
    es: Seq<(Seq<char>, ValueView)>,
    g: Registers,
    keys: Seq<Seq<char>>,
    cids: Seq<ContainerIdView>,
    tail: Seq<u8>,
)
    requires
        op_entries_encodable(es),
        registers_cover(keys, cids, op_map_bytes(es, g).1),
        keys.len() <= usize::MAX,
        cids.len() <= usize::MAX,
    ensures
        op_entries_read(op_map_bytes(es, g).0 + tail, es.len(), keys, cids) == OpEntriesRead::Entries(es, tail),
    decreases es, 0nat,
{
    if es.len() == 0 {
        assert(Seq::<u8>::empty() + tail =~= tail);
        assert(es =~= Seq::<(Seq<char>, ValueView)>::empty());
    } else {
        let (idx, k1) = register_key(g.keys, es[0].0);
        lemma_register_key(g.keys, es[0].0);
        let g1 = Registers { keys: k1, cids: g.cids };
        let a = op_value_bytes(es[0].1, g1);
        let rest_e = es.drop_first();
        let b = op_map_bytes(rest_e, a.1);
        lemma_op_map_registers(rest_e, a.1);
        lemma_op_value_registers(es[0].1, g1);
        lemma_cover_prefix_regs(keys, cids, a.1, b.1);
        lemma_cover_prefix_regs(keys, cids, g1, a.1);
        assert(keys[idx as int] == es[0].0);
        lemma_op_value_roundtrip(es[0].1, g1, keys, cids, b.0 + tail);
        lemma_op_entries_roundtrip(rest_e, a.1, keys, cids, tail);
        let s = op_map_bytes(es, g).0 + tail;
        let kb = op_kind_byte(es[0].1);
        assert(s =~= uleb_encode(idx as u64 as nat) + (seq![kb] + (a.0 + (b.0 + tail))));
        lemma_uleb_roundtrip(idx as u64, seq![kb] + (a.0 + (b.0 + tail)));
        let r = rest(s, uleb_encode(idx).len() as int);
        assert(r =~= seq![kb] + (a.0 + (b.0 + tail)));
        assert(r.drop_first() =~= a.0 + (b.0 + tail));
        lemma_op_entries_unfold(s, es.len(), keys, cids, idx as int, uleb_encode(idx).len(), es[0].1, b.0 + tail);
        assert(seq![(keys[(idx as usize) as int], es[0].1)] + rest_e =~= es);
    }
}

} // verus!
