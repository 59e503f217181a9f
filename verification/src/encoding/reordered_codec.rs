//! Op content values of the reordered format: besides plain values, they
//! carry deletions, delta integers, mark starts, tree moves and values of
//! kinds this version does not know. Each nested value is its kind byte
//! followed by its content; map keys are indices into a key register.
use vstd::prelude::*;
use vstd::utf8::encode_utf8;
use vstd::utf8::encode_utf8_decode_utf8;
use crate::common::{ContainerID, ContainerIdView, LoroError, LoroResult, LoroValue, LoroValueView};
use crate::encoding::encode_reordered::{
    EncodedTreeMove, ValueKind, ValueReader, ValueWriter, tree_move_bytes, tree_move_read, value_kind_code,
};
use crate::encoding::leb::{
    lemma_sleb_read_len, lemma_uleb_read_len, sleb_encode, sleb_read, uleb_encode, uleb_read,
};
use crate::encoding::reordered_value::{
    ContainerRegister, Registers, cids_view, reordered_encode_value, reordered_parse_top_value,
};
use crate::encoding::value::{be_bytes, be_word, rest};
use crate::encoding::value_decode::{MAX_COLLECTION_SIZE, ValueParse, keys_view, parse_binary, parse_str};
use crate::encoding::value_register::{ValueRegister, register_key};

verus! {

/// The start of a mark: its length, the index of its key, its value and its
/// info flags.
#[derive(Debug)]
pub struct MarkStart {
    pub len: u32,
    pub key_idx: u32,
    pub value: LoroValue,
    pub info: u8,
}

/// A value of op content. A double is held by its IEEE-754 bits; a map is
/// held as its entries.
#[derive(Debug)]
pub enum Value<'a> {
    Null,
    True,
    False,
    DeleteOnce,
    ContainerIdx(usize),
    I32(i32),
    F64(u64),
    Str(&'a str),
    DeleteSeq(i32),
    DeltaInt(i32),
    Array(Vec<Value<'a>>),
    Mapping(Vec<(String, Value<'a>)>),
    Binary(&'a [u8]),
    MarkStart(MarkStart),
    TreeMove(EncodedTreeMove),
    Unknown { kind: u8, data: &'a [u8] },
}

/// The abstract value of a `Value`.
pub enum ValueView {
    Null,
    True,
    False,
    DeleteOnce,
    ContainerIdx(usize),
    I32(i32),
    F64(u64),
    Str(Seq<char>),
    DeleteSeq(i32),
    DeltaInt(i32),
    Array(Seq<ValueView>),
    Mapping(Seq<(Seq<char>, ValueView)>),
    Binary(Seq<u8>),
    MarkStart { len: u32, key_idx: u32, value: LoroValueView, info: u8 },
    TreeMove(EncodedTreeMove),
    Unknown { kind: u8, data: Seq<u8> },
}

impl<'a> View for Value<'a> {
    type V = ValueView;

    open spec fn view(&self) -> ValueView
        decreases self,
    {
        match self {
            Value::Null => ValueView::Null,
            Value::True => ValueView::True,
            Value::False => ValueView::False,
            Value::DeleteOnce => ValueView::DeleteOnce,
            Value::ContainerIdx(i) => ValueView::ContainerIdx(*i),
            Value::I32(i) => ValueView::I32(*i),
            Value::F64(b) => ValueView::F64(*b),
            Value::Str(s) => ValueView::Str(s@),
            Value::DeleteSeq(i) => ValueView::DeleteSeq(*i),
            Value::DeltaInt(i) => ValueView::DeltaInt(*i),
            Value::Array(v) => ValueView::Array(op_values_view(v@)),
            Value::Mapping(v) => ValueView::Mapping(op_entries_view(v@)),
            Value::Binary(b) => ValueView::Binary(b@),
            Value::MarkStart(m) => ValueView::MarkStart {
                len: m.len,
                key_idx: m.key_idx,
                value: m.value@,
                info: m.info,
            },
            Value::TreeMove(t) => ValueView::TreeMove(*t),
            Value::Unknown { kind, data } => ValueView::Unknown { kind: *kind, data: data@ },
        }
    }
}

/// The abstract values of a run of values.
pub open spec fn op_values_view<'a>(s: Seq<Value<'a>>) -> Seq<ValueView>
    decreases s,
{
    if s.len() == 0 {
        Seq::empty()
    } else {
        op_values_view(s.drop_last()).push(s.last().view())
    }
}

/// The abstract entries of a run of map entries.
pub open spec fn op_entries_view<'a>(s: Seq<(String, Value<'a>)>) -> Seq<(Seq<char>, ValueView)>
    decreases s,
{
    if s.len() == 0 {
        Seq::empty()
    } else {
        op_entries_view(s.drop_last()).push((s.last().0@, s.last().1.view()))
    }
}

pub proof fn lemma_op_values_view<'a>(s: Seq<Value<'a>>)
    ensures
        op_values_view(s).len() == s.len(),
        forall|i: int| 0 <= i < s.len() ==> #[trigger] op_values_view(s)[i] == s[i]@,
    decreases s.len(),
{
    if s.len() > 0 {
        lemma_op_values_view(s.drop_last());
        assert(op_values_view(s) == op_values_view(s.drop_last()).push(s.last()@));
        vstd::seq::axiom_seq_push_len(op_values_view(s.drop_last()), s.last()@);
        assert forall|i: int| 0 <= i < s.len() implies #[trigger] op_values_view(s)[i] == s[i]@ by {
            if i < s.len() - 1 {
                assert(s.drop_last()[i] == s[i]);
            }
        }
    }
}

pub proof fn lemma_op_entries_view<'a>(s: Seq<(String, Value<'a>)>)
    ensures
        op_entries_view(s).len() == s.len(),
        forall|i: int| 0 <= i < s.len() ==> #[trigger] op_entries_view(s)[i] == (s[i].0@, s[i].1@),
    decreases s.len(),
{
    if s.len() > 0 {
        lemma_op_entries_view(s.drop_last());
        assert(op_entries_view(s) == op_entries_view(s.drop_last()).push((s.last().0@, s.last().1@)));
        vstd::seq::axiom_seq_push_len(op_entries_view(s.drop_last()), (s.last().0@, s.last().1@));
        assert forall|i: int| 0 <= i < s.len() implies #[trigger] op_entries_view(s)[i] == (s[i].0@, s[i].1@) by {
            if i < s.len() - 1 {
                assert(s.drop_last()[i] == s[i]);
            }
        }
    }
}

/// The kind of a value.
pub open spec fn op_value_kind(v: ValueView) -> ValueKind {
    match v {
        ValueView::Null => ValueKind::Null,
        ValueView::True => ValueKind::True,
        ValueView::False => ValueKind::False,
        ValueView::DeleteOnce => ValueKind::DeleteOnce,
        ValueView::I32(_) => ValueKind::I32,
        ValueView::ContainerIdx(_) => ValueKind::ContainerIdx,
        ValueView::F64(_) => ValueKind::F64,
        ValueView::Str(_) => ValueKind::Str,
        ValueView::DeleteSeq(_) => ValueKind::DeleteSeq,
        ValueView::DeltaInt(_) => ValueKind::DeltaInt,
        ValueView::Array(_) => ValueKind::Array,
        ValueView::Mapping(_) => ValueKind::Mapping,
        ValueView::MarkStart { .. } => ValueKind::MarkStart,
        ValueView::TreeMove(_) => ValueKind::TreeMove,
        ValueView::Binary(_) => ValueKind::Binary,
        ValueView::Unknown { .. } => ValueKind::Unknown,
    }
}

/// The byte of a value's kind.
pub open spec fn op_kind_byte(v: ValueView) -> u8 {
    value_kind_code(op_value_kind(v)) as u8
}

impl<'a> Value<'a> {
    /// The kind of the value.
    pub fn kind(&self) -> (r: ValueKind)
        ensures
            r == op_value_kind(self@),
    {
        match self {
            Value::Null => ValueKind::Null,
            Value::True => ValueKind::True,
            Value::False => ValueKind::False,
            Value::DeleteOnce => ValueKind::DeleteOnce,
            Value::I32(_) => ValueKind::I32,
            Value::ContainerIdx(_) => ValueKind::ContainerIdx,
            Value::F64(_) => ValueKind::F64,
            Value::Str(_) => ValueKind::Str,
            Value::DeleteSeq(_) => ValueKind::DeleteSeq,
            Value::DeltaInt(_) => ValueKind::DeltaInt,
            Value::Array(_) => ValueKind::Array,
            Value::Mapping(_) => ValueKind::Mapping,
            Value::MarkStart(_) => ValueKind::MarkStart,
            Value::TreeMove(_) => ValueKind::TreeMove,
            Value::Binary(_) => ValueKind::Binary,
            Value::Unknown { .. } => ValueKind::Unknown,
        }
    }
}

/// A value the writer can write: no value of an unknown kind, at any depth.
pub open spec fn op_value_writable(v: ValueView) -> bool
    decreases v, 1nat,
{
    match v {
        ValueView::Unknown { .. } => false,
        ValueView::Array(vs) => op_values_writable(vs),
        ValueView::Mapping(es) => op_entries_writable(es),
        _ => true,
    }
}

/// Every value of the run is writable.
pub open spec fn op_values_writable(vs: Seq<ValueView>) -> bool
    decreases vs, 0nat,
{
    vs.len() > 0 ==> op_value_writable(vs[0]) && op_values_writable(vs.drop_first())
}

/// Every entry's value is writable.
pub open spec fn op_entries_writable(es: Seq<(Seq<char>, ValueView)>) -> bool
    decreases es, 0nat,
{
    es.len() > 0 ==> {
        &&& decreases_to!(es => es[0])
        &&& op_value_writable(es[0].1)
        &&& op_entries_writable(es.drop_first())
    }
}

/// The content bytes of a value and the registers after it: nothing for the
/// kinds that carry nothing; signed LEB128 for 32-bit integers; eight
/// big-endian bytes for a double; length and bytes for strings and binaries;
/// an index for a container; the number of items, then each item's kind
/// byte and content, for an array; the number of entries, then each key's
/// register index, the value's kind byte and content, for a map; the info
/// byte, length, key index and value for a mark start; a tree move as
/// `write_tree_move` writes it.
pub open spec fn op_value_bytes(v: ValueView, g: Registers) -> (Seq<u8>, Registers)
    decreases v, 1nat,
{
    match v {
        ValueView::I32(i) => (sleb_encode(i as int), g),
        ValueView::DeleteSeq(i) => (sleb_encode(i as int), g),
        ValueView::DeltaInt(i) => (sleb_encode(i as int), g),
        ValueView::F64(b) => (be_bytes(b), g),
        ValueView::Str(s) => (uleb_encode(encode_utf8(s).len()) + encode_utf8(s), g),
        ValueView::Binary(b) => (uleb_encode(b.len()) + b, g),
        ValueView::ContainerIdx(i) => (uleb_encode(i as nat), g),
        ValueView::Array(vs) => {
            let e = op_array_bytes(vs, g);
            (uleb_encode(vs.len()) + e.0, e.1)
        },
        ValueView::Mapping(es) => {
            let e = op_map_bytes(es, g);
            (uleb_encode(es.len()) + e.0, e.1)
        },
        ValueView::MarkStart { len, key_idx, value, info } => {
            let e = reordered_encode_value(value, g);
            (seq![info] + uleb_encode(len as nat) + uleb_encode(key_idx as nat) + e.0, e.1)
        },
        ValueView::TreeMove(t) => (tree_move_bytes(t), g),
        _ => (Seq::empty(), g),
    }
}

/// The bytes of the items of an array: each item's kind byte and content.
pub open spec fn op_array_bytes(vs: Seq<ValueView>, g: Registers) -> (Seq<u8>, Registers)
    decreases vs, 0nat,
{
    if vs.len() == 0 {
        (Seq::empty(), g)
    } else {
        let a = op_value_bytes(vs[0], g);
        let b = op_array_bytes(vs.drop_first(), a.1);
        (seq![op_kind_byte(vs[0])] + a.0 + b.0, b.1)
    }
}

/// The bytes of the entries of a map: each key's register index, then the
/// value's kind byte and content.
pub open spec fn op_map_bytes(es: Seq<(Seq<char>, ValueView)>, g: Registers) -> (Seq<u8>, Registers)
    decreases es, 0nat,
{
    if es.len() == 0 {
        (Seq::empty(), g)
    } else {
        let (idx, keys) = register_key(g.keys, es[0].0);
        let a = op_value_bytes(es[0].1, Registers { keys, cids: g.cids });
        let b = op_map_bytes(es.drop_first(), a.1);
        (uleb_encode(idx) + seq![op_kind_byte(es[0].1)] + a.0 + b.0, b.1)
    }
}

impl ValueWriter {
    /// Writes the content of a value (see `op_value_bytes`). A value of an
    /// unknown kind cannot be written.
    pub fn write(&mut self, value: &Value, register_key: &mut ValueRegister, register_cid: &mut ContainerRegister)
        requires
            op_value_writable(value@),
        ensures
            final(self)@ == old(self)@ + op_value_bytes(
                value@,
                Registers { keys: old(register_key)@, cids: old(register_cid)@ },
            ).0,
            (Registers { keys: final(register_key)@, cids: final(register_cid)@ }) == op_value_bytes(
                value@,
                Registers { keys: old(register_key)@, cids: old(register_cid)@ },
            ).1,
        decreases value, 1nat,
    {
        let ghost g0 = Registers { keys: register_key@, cids: register_cid@ };
        match value {
            Value::Null => {
                assert(self@ =~= old(self)@ + op_value_bytes(value@, g0).0);
            },
            Value::True => {
                assert(self@ =~= old(self)@ + op_value_bytes(value@, g0).0);
            },
            Value::False => {
                assert(self@ =~= old(self)@ + op_value_bytes(value@, g0).0);
            },
            Value::DeleteOnce => {
                assert(self@ =~= old(self)@ + op_value_bytes(value@, g0).0);
            },
            Value::I32(v) => {
                self.write_i32(*v);
                assert(self@ =~= old(self)@ + op_value_bytes(value@, g0).0);
            },
            Value::F64(v) => {
                self.write_f64(*v);
                assert(self@ =~= old(self)@ + op_value_bytes(value@, g0).0);
            },
            Value::Str(v) => {
                self.write_str(v);
                assert(self@ =~= old(self)@ + op_value_bytes(value@, g0).0);
            },
            Value::DeleteSeq(v) => {
                self.write_i32(*v);
                assert(self@ =~= old(self)@ + op_value_bytes(value@, g0).0);
            },
            Value::DeltaInt(v) => {
                self.write_i32(*v);
                assert(self@ =~= old(self)@ + op_value_bytes(value@, g0).0);
            },
            Value::Array(v) => {
                assert(decreases_to!(*value => *v));
                proof {
                    lemma_op_values_view(v@);
                }
                self.write_array(v, register_key, register_cid);
                assert(self@ =~= old(self)@ + op_value_bytes(value@, g0).0);
            },
            Value::Mapping(v) => {
                assert(decreases_to!(*value => *v));
                proof {
                    lemma_op_entries_view(v@);
                }
                self.write_map(v, register_key, register_cid);
                assert(self@ =~= old(self)@ + op_value_bytes(value@, g0).0);
            },
            Value::MarkStart(m) => {
                self.write_mark(m, register_key, register_cid);
                assert(self@ =~= old(self)@ + op_value_bytes(value@, g0).0);
            },
            Value::TreeMove(op) => {
                self.write_tree_move(op);
                assert(self@ =~= old(self)@ + op_value_bytes(value@, g0).0);
            },
            Value::Binary(v) => {
                self.write_binary(v);
                assert(self@ =~= old(self)@ + op_value_bytes(value@, g0).0);
            },
            Value::ContainerIdx(v) => {
                self.write_usize(*v);
                assert(self@ =~= old(self)@ + op_value_bytes(value@, g0).0);
            },
            Value::Unknown { .. } => {
                assert(false);
            },
        }
    }

    /// Writes the items of an array: their number, then each item's kind
    /// byte and content.
    pub fn write_array(
        &mut self,
        value: &Vec<Value>,
        register_key: &mut ValueRegister,
        register_cid: &mut ContainerRegister,
    )
        requires
            op_values_writable(op_values_view(value@)),
        ensures
            final(self)@ == old(self)@ + uleb_encode(value@.len() as nat) + op_array_bytes(
                op_values_view(value@),
                Registers { keys: old(register_key)@, cids: old(register_cid)@ },
            ).0,
            (Registers { keys: final(register_key)@, cids: final(register_cid)@ }) == op_array_bytes(
                op_values_view(value@),
                Registers { keys: old(register_key)@, cids: old(register_cid)@ },
            ).1,
        decreases value, 0nat,
    {
        let ghost vv = op_values_view(value@);
        let ghost e = op_array_bytes(vv, Registers { keys: register_key@, cids: register_cid@ });
        proof {
            lemma_op_values_view(value@);
        }
        self.write_usize(value.len());
        let mut i: usize = 0;
        assert(vv.skip(0) =~= vv);
        while i < value.len()
            invariant
                i <= value@.len(),
                vv == op_values_view(value@),
                vv.len() == value@.len(),
                forall|j: int| 0 <= j < value@.len() ==> #[trigger] vv[j] == value@[j]@,
                op_values_writable(vv.skip(i as int)),
                self@ + op_array_bytes(vv.skip(i as int), Registers { keys: register_key@, cids: register_cid@ }).0
                    == old(self)@ + uleb_encode(value@.len() as nat) + e.0,
                op_array_bytes(vv.skip(i as int), Registers { keys: register_key@, cids: register_cid@ }).1 == e.1,
            decreases value.len() - i,
        {
            proof {
                assert(decreases_to!(*value => value@));
                assert(decreases_to!(value@ => value@[i as int]));
                let sk = vv.skip(i as int);
                assert(sk[0] == value@[i as int]@);
                assert(sk.drop_first() =~= vv.skip(i + 1));
                assert(op_value_writable(value@[i as int]@));
            }
            let ghost b0 = self@;
            let ghost r0 = Registers { keys: register_key@, cids: register_cid@ };
            let kind = value[i].kind();
            self.write_kind(kind);
            self.write(&value[i], register_key, register_cid);
            proof {
                let a = op_value_bytes(value@[i as int]@, r0);
                let rest_e = op_array_bytes(vv.skip(i + 1), a.1);
                assert(op_array_bytes(vv.skip(i as int), r0).0 == seq![op_kind_byte(value@[i as int]@)] + a.0
                    + rest_e.0);
                assert(self@ + rest_e.0 =~= b0 + (seq![op_kind_byte(value@[i as int]@)] + a.0 + rest_e.0));
            }
            i += 1;
        }
        assert(vv.skip(i as int) =~= Seq::<ValueView>::empty());
    }

    /// Writes the entries of a map: their number, then each key's register
    /// index, the value's kind byte and its content.
    pub fn write_map(
        &mut self,
        value: &Vec<(String, Value)>,
        register_key: &mut ValueRegister,
        register_cid: &mut ContainerRegister,
    )
        requires
            op_entries_writable(op_entries_view(value@)),
        ensures
            final(self)@ == old(self)@ + uleb_encode(value@.len() as nat) + op_map_bytes(
                op_entries_view(value@),
                Registers { keys: old(register_key)@, cids: old(register_cid)@ },
            ).0,
            (Registers { keys: final(register_key)@, cids: final(register_cid)@ }) == op_map_bytes(
                op_entries_view(value@),
                Registers { keys: old(register_key)@, cids: old(register_cid)@ },
            ).1,
        decreases value, 0nat,
    {
        let ghost pv = op_entries_view(value@);
        let ghost e = op_map_bytes(pv, Registers { keys: register_key@, cids: register_cid@ });
        proof {
            lemma_op_entries_view(value@);
        }
        self.write_usize(value.len());
        let mut i: usize = 0;
        assert(pv.skip(0) =~= pv);
        while i < value.len()
            invariant
                i <= value@.len(),
                pv == op_entries_view(value@),
                pv.len() == value@.len(),
                forall|j: int| 0 <= j < value@.len() ==> #[trigger] pv[j] == (value@[j].0@, value@[j].1@),
                op_entries_writable(pv.skip(i as int)),
                self@ + op_map_bytes(pv.skip(i as int), Registers { keys: register_key@, cids: register_cid@ }).0
                    == old(self)@ + uleb_encode(value@.len() as nat) + e.0,
                op_map_bytes(pv.skip(i as int), Registers { keys: register_key@, cids: register_cid@ }).1 == e.1,
            decreases value.len() - i,
        {
            proof {
                assert(decreases_to!(*value => value@));
                assert(decreases_to!(value@ => value@[i as int]));
                assert(decreases_to!(value@[i as int] => value@[i as int].1));
                let sk = pv.skip(i as int);
                assert(sk[0] == (value@[i as int].0@, value@[i as int].1@));
                assert(sk.drop_first() =~= pv.skip(i + 1));
                assert(op_value_writable(value@[i as int].1@));
            }
            let ghost b0 = self@;
            let ghost r0 = Registers { keys: register_key@, cids: register_cid@ };
            let key_idx = register_key.register(&value[i].0);
            let ghost r1 = Registers { keys: register_key@, cids: register_cid@ };
            self.write_usize(key_idx);
            let kind = value[i].1.kind();
            self.write_kind(kind);
            self.write(&value[i].1, register_key, register_cid);
            proof {
                let v = value@[i as int].1@;
                let a = op_value_bytes(v, r1);
                let rest_e = op_map_bytes(pv.skip(i + 1), a.1);
                assert(op_map_bytes(pv.skip(i as int), r0).0 == uleb_encode(key_idx as nat) + seq![
                    op_kind_byte(v),
                ] + a.0 + rest_e.0);
                assert(self@ + rest_e.0 =~= b0 + (uleb_encode(key_idx as nat) + seq![op_kind_byte(v)] + a.0
                    + rest_e.0));
            }
            i += 1;
        }
        assert(pv.skip(i as int) =~= Seq::<(Seq<char>, ValueView)>::empty());
    }

    /// Writes a mark start: its info byte, its length, its key index, then
    /// its value with the value's kind byte.
    pub fn write_mark(&mut self, mark: &MarkStart, register_key: &mut ValueRegister, register_cid: &mut ContainerRegister)
        ensures
            final(self)@ == old(self)@ + seq![mark.info] + uleb_encode(mark.len as nat) + uleb_encode(
                mark.key_idx as nat,
            ) + reordered_encode_value(mark.value@, Registers { keys: old(register_key)@, cids: old(register_cid)@ }).0,
            (Registers { keys: final(register_key)@, cids: final(register_cid)@ }) == reordered_encode_value(
                mark.value@,
                Registers { keys: old(register_key)@, cids: old(register_cid)@ },
            ).1,
    {
        self.write_u8(mark.info);
        self.write_usize(mark.len as usize);
        self.write_usize(mark.key_idx as usize);
        self.write_value_type_and_content(&mark.value, register_key, register_cid);
        assert(self@ =~= old(self)@ + seq![mark.info] + uleb_encode(mark.len as nat) + uleb_encode(
            mark.key_idx as nat,
        ) + reordered_encode_value(mark.value@, Registers { keys: old(register_key)@, cids: old(register_cid)@ }).0);
    }
}

/// What reading a value gives: the value and the bytes after it, corrupt
/// data, or data this reader cannot take (a string that is not UTF-8, or a
/// mark start whose value is of a kind that carries no value).
pub enum OpValueRead {
    Value(ValueView, Seq<u8>),
    Corrupt,
    Unreadable,
}

/// What reading a run of values gives.
pub enum OpItemsRead {
    Items(Seq<ValueView>, Seq<u8>),
    Corrupt,
    Unreadable,
}

/// What reading a run of map entries gives.
pub enum OpEntriesRead {
    Entries(Seq<(Seq<char>, ValueView)>, Seq<u8>),
    Corrupt,
    Unreadable,
}

/// The position of `key` among a map's entries, or -1.
pub open spec fn op_entry_index(m: Seq<(Seq<char>, ValueView)>, key: Seq<char>) -> int
    decreases m.len(),
{
    if m.len() == 0 {
        -1
    } else if m.last().0 == key {
        m.len() - 1
    } else {
        op_entry_index(m.drop_last(), key)
    }
}

/// A map with `key` set to `v`: the entry is replaced where the key is
/// present, and appended otherwise.
pub open spec fn op_map_put(m: Seq<(Seq<char>, ValueView)>, key: Seq<char>, v: ValueView) -> Seq<
    (Seq<char>, ValueView),
> {
    let i = op_entry_index(m, key);
    if i >= 0 {
        m.update(i, (key, v))
    } else {
        m.push((key, v))
    }
}

/// The map built by putting the entries one after another into `m`.
pub open spec fn op_map_put_all(m: Seq<(Seq<char>, ValueView)>, es: Seq<(Seq<char>, ValueView)>) -> Seq<
    (Seq<char>, ValueView),
>
    decreases es.len(),
{
    if es.len() == 0 {
        m
    } else {
        op_map_put_all(op_map_put(m, es[0].0, es[0].1), es.drop_first())
    }
}

/// Reading a mark start: its info byte, its length and key index (each read
/// as a `usize` and kept in 32 bits), then a value with its kind byte.
pub open spec fn op_mark_read(s: Seq<u8>, keys: Seq<Seq<char>>, cids: Seq<ContainerIdView>) -> OpValueRead {
    if s.len() == 0 {
        OpValueRead::Corrupt
    } else {
        let t = s.drop_first();
        match uleb_read(t) {
            None => OpValueRead::Corrupt,
            Some((len, n1)) => match uleb_read(rest(t, n1 as int)) {
                None => OpValueRead::Corrupt,
                Some((key_idx, n2)) => match reordered_parse_top_value(rest(t, (n1 + n2) as int), keys, cids) {
                    ValueParse::Value(v, r) => OpValueRead::Value(
                        ValueView::MarkStart {
                            len: (len as usize) as u32,
                            key_idx: (key_idx as usize) as u32,
                            value: v,
                            info: s[0],
                        },
                        r,
                    ),
                    ValueParse::Corrupt => OpValueRead::Corrupt,
                    ValueParse::Unreadable => OpValueRead::Unreadable,
                },
            },
        }
    }
}

/// Reading the content of a value of kind `kind`, the inverse of
/// `op_value_bytes`. A byte that names no kind is an unknown value kept as
/// binary data.
pub open spec fn op_value_read(kind: u8, s: Seq<u8>, keys: Seq<Seq<char>>, cids: Seq<ContainerIdView>) -> OpValueRead
    decreases s.len(), 2nat, 0nat,
{
    if kind > 14 || kind == 14 {
        match parse_binary(s) {
            ValueParse::Value(LoroValueView::Binary(b), r) => OpValueRead::Value(
                if kind == 14 {
                    ValueView::Binary(b)
                } else {
                    ValueView::Unknown { kind, data: b }
                },
                r,
            ),
            _ => OpValueRead::Corrupt,
        }
    } else if kind == 0 {
        OpValueRead::Value(ValueView::Null, s)
    } else if kind == 1 {
        OpValueRead::Value(ValueView::True, s)
    } else if kind == 2 {
        OpValueRead::Value(ValueView::False, s)
    } else if kind == 3 {
        OpValueRead::Value(ValueView::DeleteOnce, s)
    } else if kind == 4 || kind == 8 || kind == 9 {
        match sleb_read(s) {
            None => OpValueRead::Corrupt,
            Some((v, n)) => OpValueRead::Value(
                if kind == 4 {
                    ValueView::I32(v as i32)
                } else if kind == 8 {
                    ValueView::DeleteSeq(v as i32)
                } else {
                    ValueView::DeltaInt(v as i32)
                },
                rest(s, n as int),
            ),
        }
    } else if kind == 6 {
        if s.len() < 8 {
            OpValueRead::Corrupt
        } else {
            OpValueRead::Value(ValueView::F64(be_word(s)), rest(s, 8))
        }
    } else if kind == 7 {
        match parse_str(s) {
            ValueParse::Value(LoroValueView::String(st), r) => OpValueRead::Value(ValueView::Str(st), r),
            ValueParse::Unreadable => OpValueRead::Unreadable,
            _ => OpValueRead::Corrupt,
        }
    } else if kind == 5 {
        match uleb_read(s) {
            None => OpValueRead::Corrupt,
            Some((v, n)) => OpValueRead::Value(ValueView::ContainerIdx(v as usize), rest(s, n as int)),
        }
    } else if kind == 13 {
        match tree_move_read(s) {
            None => OpValueRead::Corrupt,
            Some((op, n)) => OpValueRead::Value(ValueView::TreeMove(op), rest(s, n)),
        }
    } else if kind == 12 {
        op_mark_read(s, keys, cids)
    } else if kind == 10 {
        match op_array_read(s, keys, cids) {
            OpItemsRead::Items(vs, r) => OpValueRead::Value(ValueView::Array(vs), r),
            OpItemsRead::Corrupt => OpValueRead::Corrupt,
            OpItemsRead::Unreadable => OpValueRead::Unreadable,
        }
    } else {
        match op_map_read(s, keys, cids) {
            OpEntriesRead::Entries(es, r) => OpValueRead::Value(
                ValueView::Mapping(op_map_put_all(Seq::empty(), es)),
                r,
            ),
            OpEntriesRead::Corrupt => OpValueRead::Corrupt,
            OpEntriesRead::Unreadable => OpValueRead::Unreadable,
        }
    }
}

/// Reading an array: its number of items, at most `MAX_COLLECTION_SIZE`,
/// then the items.
pub open spec fn op_array_read(s: Seq<u8>, keys: Seq<Seq<char>>, cids: Seq<ContainerIdView>) -> OpItemsRead
    decreases s.len(), 1nat, 0nat,
{
    match uleb_read(s) {
        None => OpItemsRead::Corrupt,
        Some((len, n)) => if (len as usize) > MAX_COLLECTION_SIZE || n > s.len() {
            OpItemsRead::Corrupt
        } else {
            op_items_read(rest(s, n as int), (len as usize) as nat, keys, cids)
        },
    }
}

/// Reading a map: its number of entries, at most `MAX_COLLECTION_SIZE`, then
/// the entries.
pub open spec fn op_map_read(s: Seq<u8>, keys: Seq<Seq<char>>, cids: Seq<ContainerIdView>) -> OpEntriesRead
    decreases s.len(), 1nat, 0nat,
{
    match uleb_read(s) {
        None => OpEntriesRead::Corrupt,
        Some((len, n)) => if (len as usize) > MAX_COLLECTION_SIZE || n > s.len() {
            OpEntriesRead::Corrupt
        } else {
            op_entries_read(rest(s, n as int), (len as usize) as nat, keys, cids)
        },
    }
}

/// Reading `n` items, each a kind byte and its content.
pub open spec fn op_items_read(s: Seq<u8>, n: nat, keys: Seq<Seq<char>>, cids: Seq<ContainerIdView>) -> OpItemsRead
    decreases s.len(), 0nat, n,
{
    if n == 0 {
        OpItemsRead::Items(Seq::empty(), s)
    } else if s.len() == 0 {
        OpItemsRead::Corrupt
    } else {
        match op_value_read(s[0], s.drop_first(), keys, cids) {
            OpValueRead::Value(v, r) => if r.len() < s.len() {
                match op_items_read(r, (n - 1) as nat, keys, cids) {
                    OpItemsRead::Items(vs, r2) => OpItemsRead::Items(seq![v] + vs, r2),
                    OpItemsRead::Corrupt => OpItemsRead::Corrupt,
                    OpItemsRead::Unreadable => OpItemsRead::Unreadable,
                }
            } else {
                OpItemsRead::Corrupt
            },
            OpValueRead::Corrupt => OpItemsRead::Corrupt,
            OpValueRead::Unreadable => OpItemsRead::Unreadable,
        }
    }
}

/// Reading `n` entries, each a key index into `keys`, checked first, then a
/// kind byte and the value's content.
pub open spec fn op_entries_read(s: Seq<u8>, n: nat, keys: Seq<Seq<char>>, cids: Seq<ContainerIdView>) -> OpEntriesRead
    decreases s.len(), 0nat, n,
{
    if n == 0 {
        OpEntriesRead::Entries(Seq::empty(), s)
    } else {
        match uleb_read(s) {
            None => OpEntriesRead::Corrupt,
            Some((ki, m)) => if m > s.len() || (ki as usize) >= keys.len() {
                OpEntriesRead::Corrupt
            } else {
                let t = rest(s, m as int);
                if t.len() == 0 {
                    OpEntriesRead::Corrupt
                } else {
                    match op_value_read(t[0], t.drop_first(), keys, cids) {
                        OpValueRead::Value(v, r) => if r.len() < s.len() {
                            match op_entries_read(r, (n - 1) as nat, keys, cids) {
                                OpEntriesRead::Entries(es, r2) => OpEntriesRead::Entries(
                                    seq![(keys[(ki as usize) as int], v)] + es,
                                    r2,
                                ),
                                OpEntriesRead::Corrupt => OpEntriesRead::Corrupt,
                                OpEntriesRead::Unreadable => OpEntriesRead::Unreadable,
                            }
                        } else {
                            OpEntriesRead::Corrupt
                        },
                        OpValueRead::Corrupt => OpEntriesRead::Corrupt,
                        OpValueRead::Unreadable => OpEntriesRead::Unreadable,
                    }
                }
            },
        }
    }
}

/// Sets `key` to `value` in a map kept as entries: replaces the entry of the
/// key where there is one, and appends one otherwise.
fn op_map_insert<'a>(map: &mut Vec<(String, Value<'a>)>, key: String, value: Value<'a>)
    ensures
        op_entries_view(final(map)@) == op_map_put(op_entries_view(old(map)@), key@, value@),
{
    let ghost pv = op_entries_view(map@);
    proof {
        lemma_op_entries_view(map@);
    }
    let mut i: usize = map.len();
    assert(pv.take(i as int) =~= pv);
    while i > 0
        invariant
            i <= map@.len(),
            map@ == old(map)@,
            pv == op_entries_view(map@),
            pv.len() == map@.len(),
            forall|j: int| 0 <= j < map@.len() ==> #[trigger] pv[j] == (map@[j].0@, map@[j].1@),
            op_entry_index(pv, key@) == op_entry_index(pv.take(i as int), key@),
        decreases i,
    {
        let ghost t = pv.take(i as int);
        assert(t.last() == pv[i - 1]);
        if map[i - 1].0 == key {
            assert(op_entry_index(t, key@) == i - 1);
            let ghost old_map = map@;
            let ghost kv = key@;
            let ghost vv = value@;
            map.set(i - 1, (key, value));
            proof {
                assert(map@ == old_map.update(i - 1, map@[i - 1]));
                lemma_op_entries_view(map@);
                assert(op_entries_view(map@) =~= pv.update(i - 1, (kv, vv)));
            }
            return ;
        }
        assert(t.drop_last() =~= pv.take(i - 1));
        i -= 1;
    }
    assert(pv.take(0) =~= Seq::<(Seq<char>, ValueView)>::empty());
    map.push((key, value));
    proof {
        lemma_op_entries_view(map@);
        assert(op_entries_view(map@) =~= pv.push((key@, value@)));
    }
}

/// A tree move takes some of the bytes it is read from.
proof fn lemma_tree_move_read_len(s: Seq<u8>)
    ensures
        tree_move_read(s) matches Some((op, n)) ==> 0 < n <= s.len(),
{
    lemma_uleb_read_len(s);
    if let Some((sp, n1)) = uleb_read(s) {
        lemma_uleb_read_len(rest(s, n1 as int));
        if let Some((sc, n2)) = uleb_read(rest(s, n1 as int)) {
            let k: int = n1 as int + n2;
            if k < s.len() {
                lemma_uleb_read_len(rest(s, k + 1));
                if let Some((pp, n3)) = uleb_read(rest(s, k + 1)) {
                    lemma_uleb_read_len(rest(s, k + 1 + n3));
                }
            }
        }
    }
}

proof fn lemma_op_items_step(
    s: Seq<u8>,
    n: nat,
    keys: Seq<Seq<char>>,
    cids: Seq<ContainerIdView>,
    pre: Seq<ValueView>,
    whole: OpValueRead,
    v: ValueView,
    r: Seq<u8>,
)
    requires
        n >= 1,
        s.len() > 0,
        whole == match op_items_read(s, n, keys, cids) {
            OpItemsRead::Items(vs, r2) => OpValueRead::Value(ValueView::Array(pre + vs), r2),
            OpItemsRead::Corrupt => OpValueRead::Corrupt,
            OpItemsRead::Unreadable => OpValueRead::Unreadable,
        },
        op_value_read(s[0], s.drop_first(), keys, cids) == OpValueRead::Value(v, r),
        r.len() < s.len(),
    ensures
        whole == match op_items_read(r, (n - 1) as nat, keys, cids) {
            OpItemsRead::Items(vs, r2) => OpValueRead::Value(ValueView::Array(pre.push(v) + vs), r2),
            OpItemsRead::Corrupt => OpValueRead::Corrupt,
            OpItemsRead::Unreadable => OpValueRead::Unreadable,
        },
{
    if let OpItemsRead::Items(vs, r2) = op_items_read(r, (n - 1) as nat, keys, cids) {
        assert(pre + (seq![v] + vs) =~= pre.push(v) + vs);
    }
}

proof fn lemma_op_entries_step(
    s: Seq<u8>,
    n: nat,
    keys: Seq<Seq<char>>,
    cids: Seq<ContainerIdView>,
    m0: Seq<(Seq<char>, ValueView)>,
    whole: OpValueRead,
    ki: int,
    m: nat,
    v: ValueView,
    r: Seq<u8>,
)
    requires
        n >= 1,
        whole == match op_entries_read(s, n, keys, cids) {
            OpEntriesRead::Entries(es, r2) => OpValueRead::Value(ValueView::Mapping(op_map_put_all(m0, es)), r2),
            OpEntriesRead::Corrupt => OpValueRead::Corrupt,
            OpEntriesRead::Unreadable => OpValueRead::Unreadable,
        },
        uleb_read(s) == Some((ki, m)),
        m <= s.len(),
        (ki as usize) < keys.len(),
        rest(s, m as int).len() > 0,
        op_value_read(rest(s, m as int)[0], rest(s, m as int).drop_first(), keys, cids) == OpValueRead::Value(v, r),
        r.len() < s.len(),
    ensures
        whole == match op_entries_read(r, (n - 1) as nat, keys, cids) {
            OpEntriesRead::Entries(es, r2) => OpValueRead::Value(
                ValueView::Mapping(op_map_put_all(op_map_put(m0, keys[(ki as usize) as int], v), es)),
                r2,
            ),
            OpEntriesRead::Corrupt => OpValueRead::Corrupt,
            OpEntriesRead::Unreadable => OpValueRead::Unreadable,
        },
{
    let k = keys[(ki as usize) as int];
    if let OpEntriesRead::Entries(es, r2) = op_entries_read(r, (n - 1) as nat, keys, cids) {
        assert((seq![(k, v)] + es).drop_first() =~= es);
    }
}

impl<'a> ValueReader<'a> {
    /// Reads a mark start (see `op_mark_read`).
    pub fn read_mark(&mut self, keys: &[String], cids: &[ContainerID]) -> (r: LoroResult<MarkStart>)
        requires
            !(op_mark_read(old(self)@, keys_view(keys@), cids_view(cids@)) is Unreadable),
        ensures
            match op_mark_read(old(self)@, keys_view(keys@), cids_view(cids@)) {
                OpValueRead::Value(v, rest) => r is Ok && v == (ValueView::MarkStart {
                    len: r->Ok_0.len,
                    key_idx: r->Ok_0.key_idx,
                    value: r->Ok_0.value@,
                    info: r->Ok_0.info,
                }) && final(self)@ == rest && rest.len() <= old(self)@.len(),
                OpValueRead::Corrupt => r is Err && r->Err_0 == LoroError::DecodeDataCorruptionError,
                OpValueRead::Unreadable => false,
            },
    {
        let ghost s = self@;
        let info = match self.read_u8() {
            Ok(b) => b,
            Err(e) => return Err(e),
        };
        let ghost t = self@;
        assert(t =~= s.drop_first());
        proof {
            lemma_uleb_read_len(t);
        }
        let len = match self.read_usize() {
            Ok(v) => v,
            Err(e) => return Err(e),
        };
        let ghost n1 = uleb_read(t)->Some_0.1;
        let ghost t2 = self@;
        proof {
            lemma_uleb_read_len(t2);
        }
        let key_idx = match self.read_usize() {
            Ok(v) => v,
            Err(e) => return Err(e),
        };
        let ghost n2 = uleb_read(t2)->Some_0.1;
        assert(self@ =~= rest(t, (n1 + n2) as int));
        let value = match self.read_value_type_and_content(keys, cids) {
            Ok(v) => v,
            Err(e) => return Err(e),
        };
        Ok(MarkStart { len: len as u32, key_idx: key_idx as u32, value, info })
    }

    /// Reads the content of a value of kind `kind` (see `op_value_read`).
    #[verifier::rlimit(80)]
    pub fn read(&mut self, kind: u8, keys: &[String], cids: &[ContainerID]) -> (r: LoroResult<Value<'a>>)
        requires
            !(op_value_read(kind, old(self)@, keys_view(keys@), cids_view(cids@)) is Unreadable),
        ensures
            match op_value_read(kind, old(self)@, keys_view(keys@), cids_view(cids@)) {
                OpValueRead::Value(v, rest) => r is Ok && r->Ok_0@ == v && final(self)@ == rest
                    && rest.len() <= old(self)@.len(),
                OpValueRead::Corrupt => r is Err && r->Err_0 == LoroError::DecodeDataCorruptionError,
                OpValueRead::Unreadable => false,
            },
        decreases old(self)@.len(), 2nat,
    {
        let ghost s = self@;
        proof {
            lemma_uleb_read_len(s);
            lemma_sleb_read_len(s);
            lemma_tree_move_read_len(s);
        }
        let k = match ValueKind::from_u8(kind) {
            Some(k) => k,
            None => {
                assert(kind > 14) by {
                    if kind <= 14 {
                        assert(value_kind_code(crate::encoding::reordered_value::kind_of_code(kind)) == kind as nat);
                    }
                }
                let data = match self.read_binary() {
                    Ok(d) => d,
                    Err(e) => return Err(e),
                };
                return Ok(Value::Unknown { kind, data });
            },
        };
        match k {
            ValueKind::Null => Ok(Value::Null),
            ValueKind::True => Ok(Value::True),
            ValueKind::False => Ok(Value::False),
            ValueKind::DeleteOnce => Ok(Value::DeleteOnce),
            ValueKind::I32 => match self.read_i32() {
                Ok(v) => Ok(Value::I32(v)),
                Err(e) => Err(e),
            },
            ValueKind::F64 => match self.read_f64() {
                Ok(v) => Ok(Value::F64(v)),
                Err(e) => Err(e),
            },
            ValueKind::Str => {
                let st = match self.read_str() {
                    Ok(st) => st,
                    Err(e) => return Err(e),
                };
                proof {
                    encode_utf8_decode_utf8(st@);
                }
                Ok(Value::Str(st))
            },
            ValueKind::DeleteSeq => match self.read_i32() {
                Ok(v) => Ok(Value::DeleteSeq(v)),
                Err(e) => Err(e),
            },
            ValueKind::DeltaInt => match self.read_i32() {
                Ok(v) => Ok(Value::DeltaInt(v)),
                Err(e) => Err(e),
            },
            ValueKind::Array => match self.read_array(keys, cids) {
                Ok(v) => Ok(Value::Array(v)),
                Err(e) => Err(e),
            },
            ValueKind::Mapping => match self.read_map(keys, cids) {
                Ok(v) => Ok(Value::Mapping(v)),
                Err(e) => Err(e),
            },
            ValueKind::Binary => match self.read_binary() {
                Ok(v) => Ok(Value::Binary(v)),
                Err(e) => Err(e),
            },
            ValueKind::MarkStart => match self.read_mark(keys, cids) {
                Ok(v) => Ok(Value::MarkStart(v)),
                Err(e) => Err(e),
            },
            ValueKind::TreeMove => match self.read_tree_move() {
                Ok(v) => Ok(Value::TreeMove(v)),
                Err(e) => Err(e),
            },
            ValueKind::ContainerIdx => match self.read_usize() {
                Ok(v) => Ok(Value::ContainerIdx(v)),
                Err(e) => Err(e),
            },
            ValueKind::Unknown => vstd::pervasive::unreached(),
        }
    }

    /// Reads an array (see `op_array_read`).
    pub fn read_array(&mut self, keys: &[String], cids: &[ContainerID]) -> (r: LoroResult<Vec<Value<'a>>>)
        requires
            !(op_array_read(old(self)@, keys_view(keys@), cids_view(cids@)) is Unreadable),
        ensures
            match op_array_read(old(self)@, keys_view(keys@), cids_view(cids@)) {
                OpItemsRead::Items(vs, rest) => r is Ok && op_values_view(r->Ok_0@) == vs && final(self)@ == rest
                    && rest.len() <= old(self)@.len(),
                OpItemsRead::Corrupt => r is Err && r->Err_0 == LoroError::DecodeDataCorruptionError,
                OpItemsRead::Unreadable => false,
            },
        decreases old(self)@.len(), 1nat,
    {
        let ghost kv = keys_view(keys@);
        let ghost cv = cids_view(cids@);
        proof {
            lemma_uleb_read_len(self@);
        }
        let n = match self.read_usize() {
            Ok(l) => l,
            Err(e) => return Err(e),
        };
        if n > MAX_COLLECTION_SIZE {
            return Err(LoroError::DecodeDataCorruptionError);
        }
        let ghost whole = match op_items_read(self@, n as nat, kv, cv) {
            OpItemsRead::Items(vs, r2) => OpValueRead::Value(ValueView::Array(vs), r2),
            OpItemsRead::Corrupt => OpValueRead::Corrupt,
            OpItemsRead::Unreadable => OpValueRead::Unreadable,
        };
        let ghost start = self@;
        let mut vec: Vec<Value<'a>> = Vec::new();
        let mut i: usize = 0;
        assert(op_values_view(vec@) =~= Seq::<ValueView>::empty());
        assert(whole == match op_items_read(self@, (n - i) as nat, kv, cv) {
            OpItemsRead::Items(vs, r2) => OpValueRead::Value(ValueView::Array(op_values_view(vec@) + vs), r2),
            OpItemsRead::Corrupt => OpValueRead::Corrupt,
            OpItemsRead::Unreadable => OpValueRead::Unreadable,
        }) by {
            if let OpItemsRead::Items(vs, r2) = op_items_read(self@, n as nat, kv, cv) {
                assert(op_values_view(vec@) + vs =~= vs);
            }
        }
        while i < n
            invariant
                kv == keys_view(keys@),
                cv == cids_view(cids@),
                i <= n,
                !(whole is Unreadable),
                self@.len() <= old(self)@.len(),
                op_array_read(old(self)@, kv, cv) == op_items_read(start, n as nat, kv, cv),
                whole == match op_items_read(start, n as nat, kv, cv) {
                    OpItemsRead::Items(vs, r2) => OpValueRead::Value(ValueView::Array(vs), r2),
                    OpItemsRead::Corrupt => OpValueRead::Corrupt,
                    OpItemsRead::Unreadable => OpValueRead::Unreadable,
                },
                whole == match op_items_read(self@, (n - i) as nat, kv, cv) {
                    OpItemsRead::Items(vs, r2) => OpValueRead::Value(ValueView::Array(op_values_view(vec@) + vs), r2),
                    OpItemsRead::Corrupt => OpValueRead::Corrupt,
                    OpItemsRead::Unreadable => OpValueRead::Unreadable,
                },
            decreases n - i,
        {
            let ghost s = self@;
            let kind = match self.read_u8() {
                Ok(b) => b,
                Err(e) => return Err(e),
            };
            assert(self@ =~= s.drop_first());
            let v = match self.read(kind, keys, cids) {
                Ok(v) => v,
                Err(e) => return Err(e),
            };
            proof {
                lemma_op_items_step(s, (n - i) as nat, kv, cv, op_values_view(vec@), whole, v@, self@);
            }
            let ghost old_vec = vec@;
            vec.push(v);
            assert(vec@.drop_last() =~= old_vec);
            i += 1;
        }
        assert(op_values_view(vec@) + Seq::<ValueView>::empty() =~= op_values_view(vec@));
        Ok(vec)
    }

    /// Reads a map (see `op_map_read`); a key that appears twice keeps the
    /// value read last.
    pub fn read_map(&mut self, keys: &[String], cids: &[ContainerID]) -> (r: LoroResult<Vec<(String, Value<'a>)>>)
        requires
            !(op_map_read(old(self)@, keys_view(keys@), cids_view(cids@)) is Unreadable),
        ensures
            match op_map_read(old(self)@, keys_view(keys@), cids_view(cids@)) {
                OpEntriesRead::Entries(es, rest) => r is Ok && op_entries_view(r->Ok_0@) == op_map_put_all(
                    Seq::empty(),
                    es,
                ) && final(self)@ == rest && rest.len() <= old(self)@.len(),
                OpEntriesRead::Corrupt => r is Err && r->Err_0 == LoroError::DecodeDataCorruptionError,
                OpEntriesRead::Unreadable => false,
            },
        decreases old(self)@.len(), 1nat,
    {
        let ghost kv = keys_view(keys@);
        let ghost cv = cids_view(cids@);
        proof {
            lemma_uleb_read_len(self@);
        }
        let n = match self.read_usize() {
            Ok(l) => l,
            Err(e) => return Err(e),
        };
        if n > MAX_COLLECTION_SIZE {
            return Err(LoroError::DecodeDataCorruptionError);
        }
        let ghost start = self@;
        let ghost whole = match op_entries_read(self@, n as nat, kv, cv) {
            OpEntriesRead::Entries(es, r2) => OpValueRead::Value(ValueView::Mapping(op_map_put_all(Seq::empty(), es)), r2),
            OpEntriesRead::Corrupt => OpValueRead::Corrupt,
            OpEntriesRead::Unreadable => OpValueRead::Unreadable,
        };
        let mut map: Vec<(String, Value<'a>)> = Vec::new();
        assert(op_entries_view(map@) =~= Seq::<(Seq<char>, ValueView)>::empty());
        let mut i: usize = 0;
        while i < n
            invariant
                kv == keys_view(keys@),
                cv == cids_view(cids@),
                keys@.len() == kv.len(),
                i <= n,
                !(whole is Unreadable),
                self@.len() <= old(self)@.len(),
                op_map_read(old(self)@, kv, cv) == op_entries_read(start, n as nat, kv, cv),
                whole == match op_entries_read(start, n as nat, kv, cv) {
                    OpEntriesRead::Entries(es, r2) => OpValueRead::Value(
                        ValueView::Mapping(op_map_put_all(Seq::empty(), es)),
                        r2,
                    ),
                    OpEntriesRead::Corrupt => OpValueRead::Corrupt,
                    OpEntriesRead::Unreadable => OpValueRead::Unreadable,
                },
                whole == match op_entries_read(self@, (n - i) as nat, kv, cv) {
                    OpEntriesRead::Entries(es, r2) => OpValueRead::Value(
                        ValueView::Mapping(op_map_put_all(op_entries_view(map@), es)),
                        r2,
                    ),
                    OpEntriesRead::Corrupt => OpValueRead::Corrupt,
                    OpEntriesRead::Unreadable => OpValueRead::Unreadable,
                },
            decreases n - i,
        {
            let ghost s = self@;
            proof {
                lemma_uleb_read_len(s);
            }
            let key_idx = match self.read_usize() {
                Ok(x) => x,
                Err(e) => return Err(e),
            };
            let ghost m = uleb_read(s)->Some_0.1;
            if key_idx >= keys.len() {
                return Err(LoroError::DecodeDataCorruptionError);
            }
            let key = keys[key_idx].clone();
            assert(key@ == kv[key_idx as int]);
            let ghost t = self@;
            let kind = match self.read_u8() {
                Ok(b) => b,
                Err(e) => return Err(e),
            };
            assert(self@ =~= t.drop_first());
            let v = match self.read(kind, keys, cids) {
                Ok(v) => v,
                Err(e) => return Err(e),
            };
            proof {
                lemma_op_entries_step(
                    s,
                    (n - i) as nat,
                    kv,
                    cv,
                    op_entries_view(map@),
                    whole,
                    uleb_read(s)->Some_0.0,
                    m,
                    v@,
                    self@,
                );
            }
            op_map_insert(&mut map, key, v);
            i += 1;
        }
        Ok(map)
    }
}

} // verus!
