//! The values carried by ops in the columnar format. Each value is written
//! as the content of its kind (the kind itself is stored apart), and read
//! back given its kind; mark starts and nested values register their keys.
use vstd::prelude::*;
use vstd::utf8::{decode_utf8, encode_utf8, encode_utf8_decode_utf8, encode_utf8_valid_utf8, valid_utf8};
use crate::common::{ID, LoroError, LoroResult, LoroValue, LoroValueView};
use crate::encoding::leb::{lemma_sleb_roundtrip, lemma_uleb_read_len, lemma_uleb_roundtrip, sleb_encode, sleb_read, uleb_encode, uleb_read};
use crate::encoding::value::{
    EncodedTreeMove, FutureValue, FutureValueKind, MarkStart, OwnedFutureValue, OwnedValue, ValueKind,
    ValueReader, ValueWriter, be_bytes, be_word, lemma_tree_move_roundtrip, rest, str_bytes_valid,
    tree_move_bytes, tree_move_read,
};
use crate::encoding::value_decode::{ValueParse, keys_view, parse_top_value};
use crate::encoding::value_encode::{
    encode_value, keys_cover, lemma_be_roundtrip, lemma_cover_prefix, lemma_encode_value_register,
};
use crate::encoding::value_register::{ValueRegister, lemma_register_key, register_key};
use crate::encoding::value_top::{lemma_top_value_roundtrip, top_value_encodable};

verus! {

/// A value carried by an op, borrowing strings and bytes from the input.
/// A double is held by its IEEE-754 bits.
#[derive(Debug)]
pub enum Value<'a> {
    Null,
    True,
    False,
    I64(i64),
    F64(u64),
    Str(&'a str),
    Binary(&'a [u8]),
    ContainerIdx(usize),
    DeleteOnce,
    DeleteSeq,
    DeltaInt(i32),
    LoroValue(LoroValue),
    MarkStart(MarkStart),
    TreeMove(EncodedTreeMove),
    ListMove { from: usize, from_idx: usize, lamport: usize },
    ListSet { peer_idx: usize, lamport: u32, value: LoroValue },
    Future(FutureValue<'a>),
}

/// The abstract value of a mark start.
pub struct MarkStartView {
    pub len: u32,
    pub key: Seq<char>,
    pub value: LoroValueView,
    pub info: u8,
}

impl View for MarkStart {
    type V = MarkStartView;

    open spec fn view(&self) -> MarkStartView {
        MarkStartView { len: self.len, key: self.key@, value: self.value@, info: self.info }
    }
}

impl MarkStart {
    /// A copy with the same abstract value.
    pub fn duplicate(&self) -> (r: MarkStart)
        ensures
            r@ == self@,
    {
        MarkStart { len: self.len, key: self.key.clone(), value: self.value.duplicate(), info: self.info }
    }
}

/// The abstract value of an op value, borrowed or owned.
pub enum ValueView {
    Null,
    True,
    False,
    I64(i64),
    F64(u64),
    Str(Seq<char>),
    Binary(Seq<u8>),
    ContainerIdx(usize),
    DeleteOnce,
    DeleteSeq,
    DeltaInt(i32),
    LoroValue(LoroValueView),
    MarkStart(MarkStartView),
    TreeMove(EncodedTreeMove),
    ListMove { from: usize, from_idx: usize, lamport: usize },
    ListSet { peer_idx: usize, lamport: u32, value: LoroValueView },
    Future { kind: u8, prop: i32, data: Seq<u8> },
}

impl<'a> View for Value<'a> {
    type V = ValueView;

    open spec fn view(&self) -> ValueView {
        match self {
            Value::Null => ValueView::Null,
            Value::True => ValueView::True,
            Value::False => ValueView::False,
            Value::I64(x) => ValueView::I64(*x),
            Value::F64(x) => ValueView::F64(*x),
            Value::Str(x) => ValueView::Str(x@),
            Value::Binary(x) => ValueView::Binary(x@),
            Value::ContainerIdx(x) => ValueView::ContainerIdx(*x),
            Value::DeleteOnce => ValueView::DeleteOnce,
            Value::DeleteSeq => ValueView::DeleteSeq,
            Value::DeltaInt(x) => ValueView::DeltaInt(*x),
            Value::LoroValue(x) => ValueView::LoroValue(x@),
            Value::MarkStart(x) => ValueView::MarkStart(x@),
            Value::TreeMove(x) => ValueView::TreeMove(*x),
            Value::ListMove { from, from_idx, lamport } => ValueView::ListMove {
                from: *from,
                from_idx: *from_idx,
                lamport: *lamport,
            },
            Value::ListSet { peer_idx, lamport, value } => ValueView::ListSet {
                peer_idx: *peer_idx,
                lamport: *lamport,
                value: value@,
            },
            Value::Future(FutureValue::Unknown { kind, prop, data }) => ValueView::Future {
                kind: *kind,
                prop: *prop,
                data: data@,
            },
        }
    }
}

impl View for OwnedValue {
    type V = ValueView;

    open spec fn view(&self) -> ValueView {
        match self {
            OwnedValue::Null => ValueView::Null,
            OwnedValue::True => ValueView::True,
            OwnedValue::False => ValueView::False,
            OwnedValue::I64(x) => ValueView::I64(*x),
            OwnedValue::F64(x) => ValueView::F64(*x),
            OwnedValue::Str(x) => ValueView::Str(x@),
            OwnedValue::Binary(x) => ValueView::Binary(x@),
            OwnedValue::ContainerIdx(x) => ValueView::ContainerIdx(*x),
            OwnedValue::DeleteOnce => ValueView::DeleteOnce,
            OwnedValue::DeleteSeq => ValueView::DeleteSeq,
            OwnedValue::DeltaInt(x) => ValueView::DeltaInt(*x),
            OwnedValue::LoroValue(x) => ValueView::LoroValue(x@),
            OwnedValue::MarkStart(x) => ValueView::MarkStart(x@),
            OwnedValue::TreeMove(x) => ValueView::TreeMove(*x),
            OwnedValue::ListMove { from, from_idx, lamport } => ValueView::ListMove {
                from: *from,
                from_idx: *from_idx,
                lamport: *lamport,
            },
            OwnedValue::ListSet { peer_idx, lamport, value } => ValueView::ListSet {
                peer_idx: *peer_idx,
                lamport: *lamport,
                value: value@,
            },
            OwnedValue::Future(OwnedFutureValue::Unknown { kind, prop, data }) => ValueView::Future {
                kind: *kind,
                prop: *prop,
                data: data@,
            },
        }
    }
}

/// The kind a value is written with.
pub open spec fn value_kind_view(v: ValueView) -> ValueKind {
    match v {
        ValueView::Null => ValueKind::Null,
        ValueView::True => ValueKind::True,
        ValueView::False => ValueKind::False,
        ValueView::I64(_) => ValueKind::I64,
        ValueView::F64(_) => ValueKind::F64,
        ValueView::Str(_) => ValueKind::Str,
        ValueView::Binary(_) => ValueKind::Binary,
        ValueView::ContainerIdx(_) => ValueKind::ContainerType,
        ValueView::DeleteOnce => ValueKind::DeleteOnce,
        ValueView::DeleteSeq => ValueKind::DeleteSeq,
        ValueView::DeltaInt(_) => ValueKind::DeltaInt,
        ValueView::LoroValue(_) => ValueKind::LoroValue,
        ValueView::MarkStart(_) => ValueKind::MarkStart,
        ValueView::TreeMove(_) => ValueKind::TreeMove,
        ValueView::ListMove { .. } => ValueKind::ListMove,
        ValueView::ListSet { .. } => ValueKind::ListSet,
        ValueView::Future { kind, .. } => ValueKind::Future(FutureValueKind::Unknown(kind)),
    }
}

/// The bytes of a mark start: its info byte, its length, the register index
/// of its key and its value (kind and content); and the key register after.
pub open spec fn mark_bytes(m: MarkStartView, reg: Seq<Seq<char>>) -> (Seq<u8>, Seq<Seq<char>>) {
    let (idx, r1) = register_key(reg, m.key);
    let e = encode_value(m.value, r1);
    (seq![m.info] + uleb_encode(m.len as nat) + uleb_encode(idx) + e.0, e.1)
}

/// The content bytes of a value and the key register after it: nothing
/// for the kinds without content; signed LEB128 for integers; eight
/// big-endian bytes for a double; length and bytes for strings, binaries
/// and future values; unsigned LEB128 for indices; a nested value as its
/// kind and content.
pub open spec fn value_content_bytes(v: ValueView, reg: Seq<Seq<char>>) -> (Seq<u8>, Seq<Seq<char>>) {
    match v {
        ValueView::I64(x) => (sleb_encode(x as int), reg),
        ValueView::F64(x) => (be_bytes(x), reg),
        ValueView::Str(s) => (uleb_encode(encode_utf8(s).len()) + encode_utf8(s), reg),
        ValueView::Binary(b) => (uleb_encode(b.len()) + b, reg),
        ValueView::ContainerIdx(x) => (uleb_encode(x as nat), reg),
        ValueView::DeltaInt(x) => (sleb_encode(x as int), reg),
        ValueView::LoroValue(x) => encode_value(x, reg),
        ValueView::MarkStart(m) => mark_bytes(m, reg),
        ValueView::TreeMove(t) => (tree_move_bytes(t), reg),
        ValueView::ListMove { from, from_idx, lamport } => (
            uleb_encode(from as nat) + uleb_encode(from_idx as nat) + uleb_encode(lamport as nat),
            reg,
        ),
        ValueView::ListSet { peer_idx, lamport, value } => {
            let e = encode_value(value, reg);
            (uleb_encode(peer_idx as nat) + uleb_encode(lamport as nat) + e.0, e.1)
        },
        ValueView::Future { data, .. } => (uleb_encode(data.len()) + data, reg),
        _ => (Seq::empty(), reg),
    }
}

/// The outcome of reading a value of a given kind at the front of some
/// bytes: the value and the bytes after it; corrupt input, reported as an
/// error; or input the reader cannot read at all, on which it stops.
pub enum ValueRead {
    Value(ValueView, Seq<u8>),
    Corrupt,
    Unreadable,
}

/// Reading a nested value at the top level (see `parse_top_value`).
#[verifier::opaque]
pub open spec fn nested_read(s: Seq<u8>, keys: Seq<Seq<char>>, id: ID) -> ValueParse {
    parse_top_value(s, keys, id)
}

/// What the writer writes for a value, the nested reader reads back.
pub proof fn lemma_nested_read(v: LoroValueView, reg: Seq<Seq<char>>, keys: Seq<Seq<char>>, id: ID, tail: Seq<u8>)
    requires
        top_value_encodable(v, id),
        keys_cover(keys, encode_value(v, reg).1),
        keys.len() <= usize::MAX,
    ensures
        nested_read(encode_value(v, reg).0 + tail, keys, id) == ValueParse::Value(v, tail),
{
    reveal(nested_read);
    lemma_top_value_roundtrip(v, reg, keys, id, tail);
}

/// An unsigned LEB128 number read as a `usize`, and the bytes after it.
pub open spec fn usize_read(s: Seq<u8>) -> Option<(usize, Seq<u8>)> {
    match uleb_read(s) {
        Some((v, n)) => Some((v as usize, rest(s, n as int))),
        None => None,
    }
}

/// Reading a mark start: its info byte, length and key index, then its
/// value; the key index must name a key of `keys`.
pub open spec fn mark_read(s: Seq<u8>, keys: Seq<Seq<char>>, id: ID) -> ValueRead {
    if s.len() == 0 {
        ValueRead::Corrupt
    } else {
        match usize_read(rest(s, 1)) {
            None => ValueRead::Corrupt,
            Some((len, s2)) => match usize_read(s2) {
                None => ValueRead::Corrupt,
                Some((ki, s3)) => match nested_read(s3, keys, id) {
                    ValueParse::Value(v, r) => if ki < keys.len() {
                        ValueRead::Value(
                            ValueView::MarkStart(
                                MarkStartView { len: len as u32, key: keys[ki as int], value: v, info: s[0] },
                            ),
                            r,
                        )
                    } else {
                        ValueRead::Corrupt
                    },
                    ValueParse::Corrupt => ValueRead::Corrupt,
                    ValueParse::Unreadable => ValueRead::Unreadable,
                },
            },
        }
    }
}

/// Reading a string: its byte length, then its bytes, which must be UTF-8.
pub open spec fn str_read(s: Seq<u8>) -> ValueRead {
    match uleb_read(s) {
        None => ValueRead::Corrupt,
        Some((len, n)) => {
            let end = n + (len as usize);
            if end > s.len() {
                ValueRead::Corrupt
            } else if !valid_utf8(s.subrange(n as int, end)) {
                ValueRead::Unreadable
            } else {
                ValueRead::Value(ValueView::Str(decode_utf8(s.subrange(n as int, end))), rest(s, end))
            }
        },
    }
}

/// Reading binary data: its length, then its bytes.
pub open spec fn binary_read(s: Seq<u8>) -> ValueRead {
    match uleb_read(s) {
        None => ValueRead::Corrupt,
        Some((len, n)) => {
            let end = n + (len as usize);
            if end > s.len() {
                ValueRead::Corrupt
            } else {
                ValueRead::Value(ValueView::Binary(s.subrange(n as int, end)), rest(s, end))
            }
        },
    }
}

/// Reading the data of a future value: its length, then its bytes, which
/// must all be there.
pub open spec fn future_read(k: u8, s: Seq<u8>, prop: i32) -> ValueRead {
    match uleb_read(s) {
        None => ValueRead::Corrupt,
        Some((len, n)) => {
            let end = n + (len as usize);
            if end > s.len() {
                ValueRead::Unreadable
            } else {
                ValueRead::Value(ValueView::Future { kind: k, prop, data: s.subrange(n as int, end) }, rest(s, end))
            }
        },
    }
}

/// Reading a list move: three indices.
pub open spec fn list_move_read(s: Seq<u8>) -> ValueRead {
    match usize_read(s) {
        None => ValueRead::Corrupt,
        Some((from, s1)) => match usize_read(s1) {
            None => ValueRead::Corrupt,
            Some((from_idx, s2)) => match usize_read(s2) {
                None => ValueRead::Corrupt,
                Some((lamport, s3)) => ValueRead::Value(ValueView::ListMove { from, from_idx, lamport }, s3),
            },
        },
    }
}

/// Reading a list set: the peer index, the lamport timestamp (its low 32
/// bits), then the nested value.
pub open spec fn list_set_read(s: Seq<u8>, keys: Seq<Seq<char>>, id: ID) -> ValueRead {
    match usize_read(s) {
        None => ValueRead::Corrupt,
        Some((peer_idx, s1)) => match usize_read(s1) {
            None => ValueRead::Corrupt,
            Some((lamport, s2)) => match nested_read(s2, keys, id) {
                ValueParse::Value(v, r) => ValueRead::Value(
                    ValueView::ListSet { peer_idx, lamport: lamport as u32, value: v },
                    r,
                ),
                ValueParse::Corrupt => ValueRead::Corrupt,
                ValueParse::Unreadable => ValueRead::Unreadable,
            },
        },
    }
}

/// Reading the content of a value of kind `kind`; nested values are read
/// at the top level with the id `id`, and a future value keeps `prop`. A
/// string that is not UTF-8 and future data running past the end cannot be
/// read.
pub open spec fn value_read(kind: ValueKind, s: Seq<u8>, keys: Seq<Seq<char>>, id: ID, prop: i32) -> ValueRead {
    match kind {
        ValueKind::Null => ValueRead::Value(ValueView::Null, s),
        ValueKind::True => ValueRead::Value(ValueView::True, s),
        ValueKind::False => ValueRead::Value(ValueView::False, s),
        ValueKind::DeleteOnce => ValueRead::Value(ValueView::DeleteOnce, s),
        ValueKind::DeleteSeq => ValueRead::Value(ValueView::DeleteSeq, s),
        ValueKind::I64 => match sleb_read(s) {
            Some((v, n)) => ValueRead::Value(ValueView::I64(v as i64), rest(s, n as int)),
            None => ValueRead::Corrupt,
        },
        ValueKind::DeltaInt => match sleb_read(s) {
            Some((v, n)) => ValueRead::Value(ValueView::DeltaInt(v as i32), rest(s, n as int)),
            None => ValueRead::Corrupt,
        },
        ValueKind::F64 => if s.len() < 8 {
            ValueRead::Corrupt
        } else {
            ValueRead::Value(ValueView::F64(be_word(s)), rest(s, 8))
        },
        ValueKind::Str => str_read(s),
        ValueKind::Binary => binary_read(s),
        ValueKind::ContainerType => match usize_read(s) {
            Some((x, r)) => ValueRead::Value(ValueView::ContainerIdx(x), r),
            None => ValueRead::Corrupt,
        },
        ValueKind::LoroValue => match nested_read(s, keys, id) {
            ValueParse::Value(v, r) => ValueRead::Value(ValueView::LoroValue(v), r),
            ValueParse::Corrupt => ValueRead::Corrupt,
            ValueParse::Unreadable => ValueRead::Unreadable,
        },
        ValueKind::MarkStart => mark_read(s, keys, id),
        ValueKind::TreeMove => match tree_move_read(s) {
            Some((t, n)) => ValueRead::Value(ValueView::TreeMove(t), rest(s, n)),
            None => ValueRead::Corrupt,
        },
        ValueKind::ListMove => list_move_read(s),
        ValueKind::ListSet => list_set_read(s, keys, id),
        ValueKind::Future(FutureValueKind::Unknown(k)) => future_read(k, s, prop),
    }
}

impl ValueWriter {
    /// Writes a mark start (see `mark_bytes`) and returns the number of
    /// bytes written.
    pub fn write_mark(&mut self, mark: MarkStart, registers: &mut ValueRegister) -> (n: usize)
        ensures
            final(self)@ == old(self)@ + mark_bytes(mark@, old(registers)@).0,
            final(registers)@ == mark_bytes(mark@, old(registers)@).1,
            n == mark_bytes(mark@, old(registers)@).0.len(),
    {
        let key_idx = registers.register(&mark.key);
        let len = self.written();
        self.write_u8(mark.info);
        self.write_usize(mark.len as usize);
        self.write_usize(key_idx);
        self.write_value_type_and_content(&mark.value, registers);
        assert(self@ =~= old(self)@ + mark_bytes(mark@, old(registers)@).0);
        self.written() - len
    }
}

impl<'a> ValueReader<'a> {
    /// Reads a mark start (see `mark_read`).
    pub fn read_mark(&mut self, keys: &[String], id: ID) -> (r: LoroResult<MarkStart>)
        requires
            !(mark_read(old(self)@, keys_view(keys@), id) is Unreadable),
        ensures
            match mark_read(old(self)@, keys_view(keys@), id) {
                ValueRead::Value(v, rest) => r is Ok && ValueView::MarkStart(r->Ok_0@) == v
                    && final(self)@ == rest,
                ValueRead::Corrupt => r == Err::<MarkStart, LoroError>(LoroError::DecodeDataCorruptionError),
                ValueRead::Unreadable => false,
            },
    {
        proof {
            reveal(nested_read);
        }
        let ghost s = self@;
        let info = match self.read_u8() {
            Ok(x) => x,
            Err(e) => return Err(e),
        };
        let len = match self.read_usize() {
            Ok(x) => x,
            Err(e) => return Err(e),
        };
        let key_idx = match self.read_usize() {
            Ok(x) => x,
            Err(e) => return Err(e),
        };
        let value = match self.read_value_type_and_content(keys, id) {
            Ok(v) => v,
            Err(e) => return Err(e),
        };
        if key_idx >= keys.len() {
            return Err(LoroError::DecodeDataCorruptionError);
        }
        let key = keys[key_idx].clone();
        Ok(MarkStart { len: len as u32, key, value, info })
    }
}

impl<'a> Value<'a> {
    /// The value borrowing from an owned one.
    pub fn from_owned(owned_value: &'a OwnedValue) -> (r: Value<'a>)
        ensures
            r@ == owned_value@,
    {
        match owned_value {
            OwnedValue::Null => Value::Null,
            OwnedValue::True => Value::True,
            OwnedValue::False => Value::False,
            OwnedValue::DeleteOnce => Value::DeleteOnce,
            OwnedValue::I64(x) => Value::I64(*x),
            OwnedValue::ContainerIdx(x) => Value::ContainerIdx(*x),
            OwnedValue::F64(x) => Value::F64(*x),
            OwnedValue::Str(x) => Value::Str(x.as_str()),
            OwnedValue::DeleteSeq => Value::DeleteSeq,
            OwnedValue::DeltaInt(x) => Value::DeltaInt(*x),
            OwnedValue::LoroValue(x) => Value::LoroValue(x.duplicate()),
            OwnedValue::MarkStart(x) => Value::MarkStart(x.duplicate()),
            OwnedValue::Binary(x) => Value::Binary(x.as_slice()),
            OwnedValue::TreeMove(x) => Value::TreeMove(*x),
            OwnedValue::ListMove { from, from_idx, lamport } => Value::ListMove {
                from: *from,
                from_idx: *from_idx,
                lamport: *lamport,
            },
            OwnedValue::ListSet { peer_idx, lamport, value } => Value::ListSet {
                peer_idx: *peer_idx,
                lamport: *lamport,
                value: value.duplicate(),
            },
            OwnedValue::Future(OwnedFutureValue::Unknown { kind, prop, data }) => Value::Future(
                FutureValue::Unknown { kind: *kind, prop: *prop, data: data.as_slice() },
            ),
        }
    }

    /// The owned value with the same content.
    pub fn into_owned(self) -> (r: OwnedValue)
        ensures
            r@ == self@,
    {
        match self {
            Value::Null => OwnedValue::Null,
            Value::True => OwnedValue::True,
            Value::False => OwnedValue::False,
            Value::DeleteOnce => OwnedValue::DeleteOnce,
            Value::I64(x) => OwnedValue::I64(x),
            Value::ContainerIdx(x) => OwnedValue::ContainerIdx(x),
            Value::F64(x) => OwnedValue::F64(x),
            Value::Str(x) => OwnedValue::Str(x.to_owned()),
            Value::DeleteSeq => OwnedValue::DeleteSeq,
            Value::DeltaInt(x) => OwnedValue::DeltaInt(x),
            Value::LoroValue(x) => OwnedValue::LoroValue(x),
            Value::MarkStart(x) => OwnedValue::MarkStart(x),
            Value::Binary(x) => OwnedValue::Binary(vstd::slice::slice_to_vec(x)),
            Value::TreeMove(x) => OwnedValue::TreeMove(x),
            Value::ListMove { from, from_idx, lamport } => OwnedValue::ListMove { from, from_idx, lamport },
            Value::ListSet { peer_idx, lamport, value } => OwnedValue::ListSet { peer_idx, lamport, value },
            Value::Future(FutureValue::Unknown { kind, prop, data }) => OwnedValue::Future(
                OwnedFutureValue::Unknown { kind, prop, data: vstd::slice::slice_to_vec(data) },
            ),
        }
    }

    /// Reads a value of a future kind: the length of its data, then the data.
    fn decode_without_arena(future_kind: FutureValueKind, value_reader: &mut ValueReader<'a>, prop: i32) -> (r:
        LoroResult<Value<'a>>)
        requires
            !(value_read(ValueKind::Future(future_kind), old(value_reader)@, Seq::empty(), ID { peer: 0, counter: 0 }, prop) is Unreadable),
        ensures
            match value_read(ValueKind::Future(future_kind), old(value_reader)@, Seq::empty(), ID { peer: 0, counter: 0 }, prop) {
                ValueRead::Value(v, rest) => r is Ok && r->Ok_0@ == v && final(value_reader)@ == rest,
                ValueRead::Corrupt => r is Err && r->Err_0 == LoroError::DecodeDataCorruptionError,
                ValueRead::Unreadable => false,
            },
    {
        let ghost s = value_reader@;
        proof {
            lemma_uleb_read_len(s);
        }
        let bytes_length = match value_reader.read_usize() {
            Ok(x) => x,
            Err(e) => return Err(e),
        };
        match future_kind {
            FutureValueKind::Unknown(kind) => {
                let data = value_reader.take_bytes(bytes_length);
                proof {
                    let n = uleb_read(s)->Some_0.1;
                    assert(data@ =~= s.subrange(n as int, n + bytes_length));
                    assert(value_reader@ =~= rest(s, n + bytes_length));
                }
                Ok(Value::Future(FutureValue::Unknown { kind, prop, data }))
            },
        }
    }

    /// Reads the content of a value of kind `kind` (see `value_read`).
    #[verifier::rlimit(80)]
    pub fn decode(kind: ValueKind, value_reader: &mut ValueReader<'a>, keys: &[String], id: ID, prop: i32) -> (r:
        LoroResult<Value<'a>>)
        requires
            !(value_read(kind, old(value_reader)@, keys_view(keys@), id, prop) is Unreadable),
        ensures
            match value_read(kind, old(value_reader)@, keys_view(keys@), id, prop) {
                ValueRead::Value(v, rest) => r is Ok && r->Ok_0@ == v && final(value_reader)@ == rest,
                ValueRead::Corrupt => r is Err && r->Err_0 == LoroError::DecodeDataCorruptionError,
                ValueRead::Unreadable => false,
            },
    {
        proof {
            reveal(nested_read);
        }
        let ghost s = value_reader@;
        match kind {
            ValueKind::Null => Ok(Value::Null),
            ValueKind::True => Ok(Value::True),
            ValueKind::False => Ok(Value::False),
            ValueKind::I64 => match value_reader.read_i64() {
                Ok(x) => Ok(Value::I64(x)),
                Err(e) => Err(e),
            },
            ValueKind::F64 => match value_reader.read_f64() {
                Ok(x) => Ok(Value::F64(x)),
                Err(e) => Err(e),
            },
            ValueKind::Str => {
                match value_reader.read_str() {
                    Ok(x) => {
                        proof {
                            encode_utf8_decode_utf8(x@);
                        }
                        Ok(Value::Str(x))
                    },
                    Err(e) => Err(e),
                }
            },
            ValueKind::Binary => match value_reader.read_binary() {
                Ok(x) => Ok(Value::Binary(x)),
                Err(e) => Err(e),
            },
            ValueKind::ContainerType => match value_reader.read_usize() {
                Ok(x) => Ok(Value::ContainerIdx(x)),
                Err(e) => Err(e),
            },
            ValueKind::DeleteOnce => Ok(Value::DeleteOnce),
            ValueKind::DeleteSeq => Ok(Value::DeleteSeq),
            ValueKind::DeltaInt => match value_reader.read_i32() {
                Ok(x) => Ok(Value::DeltaInt(x)),
                Err(e) => Err(e),
            },
            ValueKind::LoroValue => match value_reader.read_value_type_and_content(keys, id) {
                Ok(x) => Ok(Value::LoroValue(x)),
                Err(e) => Err(e),
            },
            ValueKind::MarkStart => match value_reader.read_mark(keys, id) {
                Ok(x) => Ok(Value::MarkStart(x)),
                Err(e) => Err(e),
            },
            ValueKind::TreeMove => match value_reader.read_tree_move() {
                Ok(x) => Ok(Value::TreeMove(x)),
                Err(e) => Err(e),
            },
            ValueKind::ListMove => {
                let from = match value_reader.read_usize() {
                    Ok(x) => x,
                    Err(e) => return Err(e),
                };
                let from_idx = match value_reader.read_usize() {
                    Ok(x) => x,
                    Err(e) => return Err(e),
                };
                let lamport = match value_reader.read_usize() {
                    Ok(x) => x,
                    Err(e) => return Err(e),
                };
                Ok(Value::ListMove { from, from_idx, lamport })
            },
            ValueKind::ListSet => {
                let peer_idx = match value_reader.read_usize() {
                    Ok(x) => x,
                    Err(e) => return Err(e),
                };
                let lamport = match value_reader.read_usize() {
                    Ok(x) => x as u32,
                    Err(e) => return Err(e),
                };
                let value = match value_reader.read_value_type_and_content(keys, id) {
                    Ok(x) => x,
                    Err(e) => return Err(e),
                };
                Ok(Value::ListSet { peer_idx, lamport, value })
            },
            ValueKind::Future(future_kind) => Self::decode_without_arena(future_kind, value_reader, prop),
        }
    }

    /// Writes the data of a future value (its length, then its bytes) and
    /// returns its kind and the number of bytes written.
    fn encode_without_registers(value: FutureValue, value_writer: &mut ValueWriter) -> (r: (FutureValueKind, usize))
        ensures
            match value {
                FutureValue::Unknown { kind, data, .. } => r.0 == FutureValueKind::Unknown(kind)
                    && final(value_writer)@ == old(value_writer)@ + uleb_encode(data@.len()) + data@
                    && r.1 == uleb_encode(data@.len()).len() + data@.len(),
            },
    {
        match value {
            FutureValue::Unknown { kind, prop: _, data } => (FutureValueKind::Unknown(kind), value_writer.write_binary(data)),
        }
    }

    /// Writes the content of the value (see `value_content_bytes`) and
    /// returns its kind and the number of bytes written.
    pub fn encode(self, value_writer: &mut ValueWriter, registers: &mut ValueRegister) -> (r: (ValueKind, usize))
        ensures
            r.0 == value_kind_view(self@),
            final(value_writer)@ == old(value_writer)@ + value_content_bytes(self@, old(registers)@).0,
            final(registers)@ == value_content_bytes(self@, old(registers)@).1,
            r.1 == value_content_bytes(self@, old(registers)@).0.len(),
    {
        let ghost v = self@;
        let start = value_writer.written();
        let kind = match self {
            Value::Null => ValueKind::Null,
            Value::True => ValueKind::True,
            Value::False => ValueKind::False,
            Value::I64(x) => {
                value_writer.write_i64(x);
                ValueKind::I64
            },
            Value::F64(x) => {
                value_writer.write_f64(x);
                ValueKind::F64
            },
            Value::Str(x) => {
                value_writer.write_str(x);
                ValueKind::Str
            },
            Value::Binary(x) => {
                value_writer.write_binary(x);
                ValueKind::Binary
            },
            Value::ContainerIdx(x) => {
                value_writer.write_usize(x);
                ValueKind::ContainerType
            },
            Value::DeleteOnce => ValueKind::DeleteOnce,
            Value::DeleteSeq => ValueKind::DeleteSeq,
            Value::DeltaInt(x) => {
                value_writer.write_i32(x);
                ValueKind::DeltaInt
            },
            Value::LoroValue(x) => {
                value_writer.write_value_type_and_content(&x, registers);
                ValueKind::LoroValue
            },
            Value::MarkStart(x) => {
                value_writer.write_mark(x, registers);
                ValueKind::MarkStart
            },
            Value::TreeMove(tree) => {
                value_writer.write_tree_move(&tree);
                ValueKind::TreeMove
            },
            Value::ListMove { from, from_idx, lamport } => {
                value_writer.write_usize(from);
                value_writer.write_usize(from_idx);
                value_writer.write_usize(lamport);
                ValueKind::ListMove
            },
            Value::ListSet { peer_idx, lamport, value } => {
                value_writer.write_usize(peer_idx);
                value_writer.write_usize(lamport as usize);
                value_writer.write_value_type_and_content(&value, registers);
                ValueKind::ListSet
            },
            Value::Future(value) => {
                let (k, _) = Self::encode_without_registers(value, value_writer);
                ValueKind::Future(k)
            },
        };
        assert(value_writer@ =~= old(value_writer)@ + value_content_bytes(v, old(registers)@).0);
        (kind, value_writer.written() - start)
    }
}

/// Values the writer and the reader agree on: strings, binaries and future
/// data no longer than a `usize` counts, nested values that the top-level
/// reader reads back with the id `id`, and tree moves without a parent whose
/// parent index (which is not written) is 0.
pub open spec fn value_item_encodable(v: ValueView, id: ID) -> bool {
    match v {
        ValueView::Str(s) => encode_utf8(s).len() <= usize::MAX,
        ValueView::Binary(b) => b.len() <= usize::MAX,
        ValueView::LoroValue(x) => top_value_encodable(x, id),
        ValueView::MarkStart(m) => top_value_encodable(m.value, id),
        ValueView::ListSet { value, .. } => top_value_encodable(value, id),
        ValueView::Future { data, .. } => data.len() <= usize::MAX,
        ValueView::TreeMove(t) => t.is_parent_null ==> t.parent_idx == 0,
        _ => true,
    }
}

/// What `encode` writes for a value, `decode` reads back, given the kind
/// `encode` returned, whatever follows it, with a key arena that holds the
/// keys the writer registered (a future value's property is not written,
/// and comes back as the one the reader is given).
pub proof fn lemma_value_item_roundtrip(
    v: ValueView,
    reg: Seq<Seq<char>>,
    keys: Seq<Seq<char>>,
    id: ID,
    prop: i32,
    tail: Seq<u8>,
)
    requires
        value_item_encodable(v, id),
        keys_cover(keys, value_content_bytes(v, reg).1),
        keys.len() <= usize::MAX,
        v is Future ==> v->Future_prop == prop,
    ensures
        value_read(value_kind_view(v), value_content_bytes(v, reg).0 + tail, keys, id, prop)
            == ValueRead::Value(v, tail),
{
    match v {
        ValueView::Str(str) => lemma_str_roundtrip(str, keys, id, prop, tail),
        ValueView::Binary(b) => lemma_binary_roundtrip(b, keys, id, prop, tail),
        ValueView::Future { kind, prop: p, data } => lemma_future_roundtrip(kind, data, keys, id, prop, tail),
        ValueView::ListMove { from, from_idx, lamport } => lemma_list_move_roundtrip(
            from,
            from_idx,
            lamport,
            keys,
            id,
            prop,
            tail,
        ),
        ValueView::ListSet { peer_idx, lamport, value } => lemma_list_set_roundtrip(
            peer_idx,
            lamport,
            value,
            reg,
            keys,
            id,
            prop,
            tail,
        ),
        ValueView::MarkStart(m) => lemma_mark_roundtrip(m, reg, keys, id, prop, tail),
        ValueView::I64(x) => lemma_i64_roundtrip(x, keys, id, prop, tail),
        ValueView::DeltaInt(x) => lemma_delta_int_roundtrip(x, keys, id, prop, tail),
        ValueView::F64(x) => {
            lemma_be_roundtrip(x, tail);
        },
        ValueView::ContainerIdx(x) => lemma_container_idx_roundtrip(x, keys, id, prop, tail),
        ValueView::LoroValue(x) => {
            lemma_nested_read(x, reg, keys, id, tail);
        },
        ValueView::TreeMove(t) => {
            lemma_tree_move_roundtrip(t, tail);
            let s = tree_move_bytes(t) + tail;
            assert(rest(s, tree_move_bytes(t).len() as int) =~= tail);
        },
        _ => {
            assert(value_content_bytes(v, reg).0 + tail =~= tail);
        },
    }
}

proof fn lemma_i64_roundtrip(x: i64, keys: Seq<Seq<char>>, id: ID, prop: i32, tail: Seq<u8>)
    ensures
        value_read(ValueKind::I64, sleb_encode(x as int) + tail, keys, id, prop) == ValueRead::Value(
            ValueView::I64(x),
            tail,
        ),
{
    let s = sleb_encode(x as int) + tail;
    lemma_sleb_roundtrip(x, tail);
    assert(rest(s, sleb_encode(x as int).len() as int) =~= tail);
}

proof fn lemma_delta_int_roundtrip(x: i32, keys: Seq<Seq<char>>, id: ID, prop: i32, tail: Seq<u8>)
    ensures
        value_read(ValueKind::DeltaInt, sleb_encode(x as int) + tail, keys, id, prop) == ValueRead::Value(
            ValueView::DeltaInt(x),
            tail,
        ),
{
    let s = sleb_encode(x as int) + tail;
    lemma_sleb_roundtrip(x as i64, tail);
    assert(rest(s, sleb_encode(x as int).len() as int) =~= tail);
}

proof fn lemma_container_idx_roundtrip(x: usize, keys: Seq<Seq<char>>, id: ID, prop: i32, tail: Seq<u8>)
    ensures
        value_read(ValueKind::ContainerType, uleb_encode(x as nat) + tail, keys, id, prop)
            == ValueRead::Value(ValueView::ContainerIdx(x), tail),
{
    let s = uleb_encode(x as nat) + tail;
    lemma_uleb_roundtrip(x as u64, tail);
    assert(rest(s, uleb_encode(x as nat).len() as int) =~= tail);
}

proof fn lemma_str_roundtrip(str: Seq<char>, keys: Seq<Seq<char>>, id: ID, prop: i32, tail: Seq<u8>)
    requires
        encode_utf8(str).len() <= usize::MAX,
    ensures
        value_read(
            ValueKind::Str,
            uleb_encode(encode_utf8(str).len()) + encode_utf8(str) + tail,
            keys,
            id,
            prop,
        ) == ValueRead::Value(ValueView::Str(str), tail),
{
    let bytes = encode_utf8(str);
    let s = uleb_encode(bytes.len()) + bytes + tail;
    lemma_uleb_roundtrip(bytes.len() as u64, bytes + tail);
    assert(s =~= uleb_encode(bytes.len() as u64 as nat) + (bytes + tail));
    let n = uleb_encode(bytes.len()).len();
    assert(s.subrange(n as int, (n + bytes.len()) as int) =~= bytes);
    assert(rest(s, (n + bytes.len()) as int) =~= tail);
    encode_utf8_valid_utf8(str);
    encode_utf8_decode_utf8(str);
}

proof fn lemma_binary_roundtrip(data: Seq<u8>, keys: Seq<Seq<char>>, id: ID, prop: i32, tail: Seq<u8>)
    requires
        data.len() <= usize::MAX,
    ensures
        value_read(ValueKind::Binary, uleb_encode(data.len()) + data + tail, keys, id, prop)
            == ValueRead::Value(ValueView::Binary(data), tail),
{
    let s = uleb_encode(data.len()) + data + tail;
    lemma_uleb_roundtrip(data.len() as u64, data + tail);
    assert(s =~= uleb_encode(data.len() as u64 as nat) + (data + tail));
    let n = uleb_encode(data.len()).len();
    assert(s.subrange(n as int, (n + data.len()) as int) =~= data);
    assert(rest(s, (n + data.len()) as int) =~= tail);
}

proof fn lemma_future_roundtrip(kind: u8, data: Seq<u8>, keys: Seq<Seq<char>>, id: ID, prop: i32, tail: Seq<u8>)
    requires
        data.len() <= usize::MAX,
    ensures
        value_read(
            ValueKind::Future(FutureValueKind::Unknown(kind)),
            uleb_encode(data.len()) + data + tail,
            keys,
            id,
            prop,
        ) == ValueRead::Value(ValueView::Future { kind, prop, data }, tail),
{
    let s = uleb_encode(data.len()) + data + tail;
    lemma_uleb_roundtrip(data.len() as u64, data + tail);
    assert(s =~= uleb_encode(data.len() as u64 as nat) + (data + tail));
    let n = uleb_encode(data.len()).len();
    assert(s.subrange(n as int, (n + data.len()) as int) =~= data);
    assert(rest(s, (n + data.len()) as int) =~= tail);
}

/// An index written as unsigned LEB128 reads back, followed by the rest.
proof fn lemma_usize_read(x: usize, tail: Seq<u8>)
    ensures
        usize_read(uleb_encode(x as nat) + tail) == Some((x, tail)),
{
    let s = uleb_encode(x as nat) + tail;
    lemma_uleb_roundtrip(x as u64, tail);
    assert(rest(s, uleb_encode(x as nat).len() as int) =~= tail);
}

#[verifier::rlimit(40)]
proof fn lemma_list_move_roundtrip(
    from: usize,
    from_idx: usize,
    lamport: usize,
    keys: Seq<Seq<char>>,
    id: ID,
    prop: i32,
    tail: Seq<u8>,
)
    ensures
        value_read(
            ValueKind::ListMove,
            uleb_encode(from as nat) + uleb_encode(from_idx as nat) + uleb_encode(lamport as nat) + tail,
            keys,
            id,
            prop,
        ) == ValueRead::Value(ValueView::ListMove { from, from_idx, lamport }, tail),
{
    let e1 = uleb_encode(from as nat);
    let e2 = uleb_encode(from_idx as nat);
    let e3 = uleb_encode(lamport as nat);
    let s = e1 + e2 + e3 + tail;
    assert(s =~= e1 + (e2 + (e3 + tail)));
    lemma_usize_read(from, e2 + (e3 + tail));
    lemma_usize_read(from_idx, e3 + tail);
    lemma_usize_read(lamport, tail);
}

#[verifier::rlimit(40)]
proof fn lemma_list_set_roundtrip(
    peer_idx: usize,
    lamport: u32,
    value: LoroValueView,
    reg: Seq<Seq<char>>,
    keys: Seq<Seq<char>>,
    id: ID,
    prop: i32,
    tail: Seq<u8>,
)
    requires
        top_value_encodable(value, id),
        keys_cover(keys, encode_value(value, reg).1),
        keys.len() <= usize::MAX,
    ensures
        value_read(
            ValueKind::ListSet,
            uleb_encode(peer_idx as nat) + uleb_encode(lamport as nat) + encode_value(value, reg).0 + tail,
            keys,
            id,
            prop,
        ) == ValueRead::Value(ValueView::ListSet { peer_idx, lamport, value }, tail),
{
    let e = encode_value(value, reg);
    let e1 = uleb_encode(peer_idx as nat);
    let e2 = uleb_encode(lamport as nat);
    let s = e1 + e2 + e.0 + tail;
    assert(s =~= e1 + (e2 + (e.0 + tail)));
    lemma_usize_read(peer_idx, e2 + (e.0 + tail));
    lemma_usize_read(lamport as usize, e.0 + tail);
    lemma_nested_read(value, reg, keys, id, tail);
}

#[verifier::rlimit(40)]
proof fn lemma_mark_roundtrip(m: MarkStartView, reg: Seq<Seq<char>>, keys: Seq<Seq<char>>, id: ID, prop: i32, tail: Seq<u8>)
    requires
        top_value_encodable(m.value, id),
        keys_cover(keys, mark_bytes(m, reg).1),
        keys.len() <= usize::MAX,
    ensures
        value_read(ValueKind::MarkStart, mark_bytes(m, reg).0 + tail, keys, id, prop) == ValueRead::Value(
            ValueView::MarkStart(m),
            tail,
        ),
{
    let s = mark_bytes(m, reg).0 + tail;
    let (idx, r1) = register_key(reg, m.key);
    lemma_register_key(reg, m.key);
    let e = encode_value(m.value, r1);
    lemma_encode_value_register(m.value, r1);
    lemma_cover_prefix(keys, r1, e.1);
    assert(keys[idx as int] == m.key);
    let e1 = uleb_encode(m.len as nat);
    let e2 = uleb_encode(idx);
    let t3 = e.0 + tail;
    let t2 = e2 + t3;
    let t1 = e1 + t2;
    assert(s =~= seq![m.info] + t1);
    assert(s[0] == m.info);
    assert(rest(s, 1) =~= t1);
    lemma_uleb_roundtrip(m.len as u64, t2);
    assert(rest(t1, e1.len() as int) =~= t2);
    assert(usize_read(t1) == Some(((m.len as int) as usize, t2)));
    lemma_uleb_roundtrip(idx as u64, t3);
    assert(rest(t2, e2.len() as int) =~= t3);
    assert(usize_read(t2) == Some(((idx as int) as usize, t3)));
    lemma_nested_read(m.value, r1, keys, id, tail);
    assert(nested_read(t3, keys, id) == ValueParse::Value(m.value, tail));
    assert(((m.len as int) as usize) as u32 == m.len);
}

} // verus!
