//! The value encoding of the columnar op format: value kinds and their
//! bytes, and the writer and reader of encoded values.
use vstd::prelude::*;
use vstd::utf8::{valid_utf8, encode_utf8};
use crate::common::{LoroError, LoroValue, LoroValueView, lemma_pairs_view, lemma_values_view, pairs_view, values_view};
use crate::encoding::value_encode::{encode_content, encode_entries, encode_items, encode_value, value_kind_of};
use crate::encoding::value_register::{ValueRegister, register_key};
use crate::encoding::leb::{
    leb_read_signed, leb_read_unsigned, leb_write_signed, leb_write_unsigned, sleb_encode,
    sleb_read, uleb_encode, uleb_read, lemma_uleb_read_len, lemma_uleb_roundtrip,
};

verus! {

/// The kind of a value of a future version of the format, kept by its byte.
#[derive(Debug, Clone, Copy, PartialEq, Eq, Structural)]
pub enum FutureValueKind {
    Unknown(u8),
}

/// The kind of an encoded value.
#[derive(Debug, Clone, Copy, PartialEq, Eq, Structural)]
pub enum ValueKind {
    Null,
    True,
    False,
    I64,
    F64,
    Str,
    Binary,
    ContainerType,
    DeleteOnce,
    DeleteSeq,
    DeltaInt,
    LoroValue,
    MarkStart,
    TreeMove,
    ListMove,
    ListSet,
    Future(FutureValueKind),
}

/// The byte of a value kind; a future kind keeps its byte with the high bit set.
pub open spec fn value_kind_byte(k: ValueKind) -> u8 {
    match k {
        ValueKind::Null => 0,
        ValueKind::True => 1,
        ValueKind::False => 2,
        ValueKind::I64 => 3,
        ValueKind::F64 => 4,
        ValueKind::Str => 5,
        ValueKind::Binary => 6,
        ValueKind::ContainerType => 7,
        ValueKind::DeleteOnce => 8,
        ValueKind::DeleteSeq => 9,
        ValueKind::DeltaInt => 10,
        ValueKind::LoroValue => 11,
        ValueKind::MarkStart => 12,
        ValueKind::TreeMove => 13,
        ValueKind::ListMove => 14,
        ValueKind::ListSet => 15,
        ValueKind::Future(FutureValueKind::Unknown(u)) => u | 0x80,
    }
}

/// The value kind of a byte: its low seven bits select the kind; bytes
/// beyond the known kinds stand for future kinds.
pub open spec fn value_kind_of_byte(b: u8) -> ValueKind {
    let k = b & 0x7f;
    if k == 0 {
        ValueKind::Null
    } else if k == 1 {
        ValueKind::True
    } else if k == 2 {
        ValueKind::False
    } else if k == 3 {
        ValueKind::I64
    } else if k == 4 {
        ValueKind::F64
    } else if k == 5 {
        ValueKind::Str
    } else if k == 6 {
        ValueKind::Binary
    } else if k == 7 {
        ValueKind::ContainerType
    } else if k == 8 {
        ValueKind::DeleteOnce
    } else if k == 9 {
        ValueKind::DeleteSeq
    } else if k == 10 {
        ValueKind::DeltaInt
    } else if k == 11 {
        ValueKind::LoroValue
    } else if k == 12 {
        ValueKind::MarkStart
    } else if k == 13 {
        ValueKind::TreeMove
    } else if k == 14 {
        ValueKind::ListMove
    } else if k == 15 {
        ValueKind::ListSet
    } else {
        ValueKind::Future(FutureValueKind::Unknown(k))
    }
}

impl ValueKind {
    pub fn to_u8(&self) -> (r: u8)
        ensures
            r == value_kind_byte(*self),
    {
        match self {
            ValueKind::Null => 0,
            ValueKind::True => 1,
            ValueKind::False => 2,
            ValueKind::I64 => 3,
            ValueKind::F64 => 4,
            ValueKind::Str => 5,
            ValueKind::Binary => 6,
            ValueKind::ContainerType => 7,
            ValueKind::DeleteOnce => 8,
            ValueKind::DeleteSeq => 9,
            ValueKind::DeltaInt => 10,
            ValueKind::LoroValue => 11,
            ValueKind::MarkStart => 12,
            ValueKind::TreeMove => 13,
            ValueKind::ListMove => 14,
            ValueKind::ListSet => 15,
            ValueKind::Future(future_value_kind) => match future_value_kind {
                FutureValueKind::Unknown(u) => *u | 0x80,
            },
        }
    }

    pub fn from_u8(kind: u8) -> (r: ValueKind)
        ensures
            r == value_kind_of_byte(kind),
    {
        let kind = kind & 0x7F;
        if kind == 0 {
            ValueKind::Null
        } else if kind == 1 {
            ValueKind::True
        } else if kind == 2 {
            ValueKind::False
        } else if kind == 3 {
            ValueKind::I64
        } else if kind == 4 {
            ValueKind::F64
        } else if kind == 5 {
            ValueKind::Str
        } else if kind == 6 {
            ValueKind::Binary
        } else if kind == 7 {
            ValueKind::ContainerType
        } else if kind == 8 {
            ValueKind::DeleteOnce
        } else if kind == 9 {
            ValueKind::DeleteSeq
        } else if kind == 10 {
            ValueKind::DeltaInt
        } else if kind == 11 {
            ValueKind::LoroValue
        } else if kind == 12 {
            ValueKind::MarkStart
        } else if kind == 13 {
            ValueKind::TreeMove
        } else if kind == 14 {
            ValueKind::ListMove
        } else if kind == 15 {
            ValueKind::ListSet
        } else {
            ValueKind::Future(FutureValueKind::Unknown(kind))
        }
    }
}

/// A kind survives the round trip through its byte: every known kind, and
/// every future kind whose byte is one a reader maps back to it (16 to 127).
pub proof fn lemma_value_kind_roundtrip(k: ValueKind)
    requires
        k matches ValueKind::Future(FutureValueKind::Unknown(u)) ==> 16 <= u < 128,
    ensures
        value_kind_of_byte(value_kind_byte(k)) == k,
{
    match k {
        ValueKind::Future(FutureValueKind::Unknown(u)) => {
            assert((u | 0x80) & 0x7f == u) by (bit_vector)
                requires
                    u < 128,
            ;
        },
        _ => {
            assert(0u8 & 0x7f == 0) by (bit_vector);
            assert(1u8 & 0x7f == 1) by (bit_vector);
            assert(2u8 & 0x7f == 2) by (bit_vector);
            assert(3u8 & 0x7f == 3) by (bit_vector);
            assert(4u8 & 0x7f == 4) by (bit_vector);
            assert(5u8 & 0x7f == 5) by (bit_vector);
            assert(6u8 & 0x7f == 6) by (bit_vector);
            assert(7u8 & 0x7f == 7) by (bit_vector);
            assert(8u8 & 0x7f == 8) by (bit_vector);
            assert(9u8 & 0x7f == 9) by (bit_vector);
            assert(10u8 & 0x7f == 10) by (bit_vector);
            assert(11u8 & 0x7f == 11) by (bit_vector);
            assert(12u8 & 0x7f == 12) by (bit_vector);
            assert(13u8 & 0x7f == 13) by (bit_vector);
            assert(14u8 & 0x7f == 14) by (bit_vector);
            assert(15u8 & 0x7f == 15) by (bit_vector);
        },
    }
}

/// A byte read as a kind and written back keeps its low seven bits; the
/// high bit comes back set exactly when the kind is a future one.
pub proof fn lemma_value_kind_byte_roundtrip(b: u8)
    ensures
        value_kind_byte(value_kind_of_byte(b)) == (if b & 0x7f < 16 {
            b & 0x7f
        } else {
            (b & 0x7f) | 0x80
        }),
{
    let k = b & 0x7f;
    assert(k < 128) by (bit_vector)
        requires
            k == b & 0x7f,
    ;
}

/// The kind of a value nested inside another value.
#[derive(Debug, Clone, Copy, PartialEq, Eq, Structural)]
pub enum LoroValueKind {
    Null,
    True,
    False,
    I64,
    F64,
    Binary,
    Str,
    List,
    Mapping,
    ContainerType,
}

pub open spec fn loro_value_kind_byte(k: LoroValueKind) -> u8 {
    match k {
        LoroValueKind::Null => 0,
        LoroValueKind::True => 1,
        LoroValueKind::False => 2,
        LoroValueKind::I64 => 3,
        LoroValueKind::F64 => 4,
        LoroValueKind::Str => 5,
        LoroValueKind::Binary => 6,
        LoroValueKind::List => 7,
        LoroValueKind::Mapping => 8,
        LoroValueKind::ContainerType => 9,
    }
}

impl LoroValueKind {
    /// The kind of a byte; only bytes 0 to 9 name a kind.
    pub fn from_u8(kind: u8) -> (r: LoroValueKind)
        requires
            kind <= 9,
        ensures
            loro_value_kind_byte(r) == kind,
    {
        match kind {
            0 => LoroValueKind::Null,
            1 => LoroValueKind::True,
            2 => LoroValueKind::False,
            3 => LoroValueKind::I64,
            4 => LoroValueKind::F64,
            5 => LoroValueKind::Str,
            6 => LoroValueKind::Binary,
            7 => LoroValueKind::List,
            8 => LoroValueKind::Mapping,
            _ => LoroValueKind::ContainerType,
        }
    }

    pub fn to_u8(&self) -> (r: u8)
        ensures
            r == loro_value_kind_byte(*self),
    {
        match self {
            LoroValueKind::Null => 0,
            LoroValueKind::True => 1,
            LoroValueKind::False => 2,
            LoroValueKind::I64 => 3,
            LoroValueKind::F64 => 4,
            LoroValueKind::Str => 5,
            LoroValueKind::Binary => 6,
            LoroValueKind::List => 7,
            LoroValueKind::Mapping => 8,
            LoroValueKind::ContainerType => 9,
        }
    }
}

/// Distinct nested kinds have distinct bytes.
pub proof fn lemma_loro_value_kind_injective(a: LoroValueKind, b: LoroValueKind)
    ensures
        loro_value_kind_byte(a) == loro_value_kind_byte(b) ==> a == b,
{
}

/// A value of a future version of the format, carried as raw bytes.
#[derive(Debug)]
pub enum FutureValue<'a> {
    Unknown { kind: u8, prop: i32, data: &'a [u8] },
}

/// An owned value of a future version of the format.
#[derive(Debug, Clone, PartialEq, Eq)]
pub enum OwnedFutureValue {
    Unknown { kind: u8, prop: i32, data: Vec<u8> },
}

/// The start of a rich-text mark.
#[derive(Debug)]
pub struct MarkStart {
    pub len: u32,
    pub key: String,
    pub value: LoroValue,
    pub info: u8,
}

/// A decoded value of the columnar format, owning its data. A double is
/// held by its IEEE-754 bits.
#[derive(Debug)]
pub enum OwnedValue {
    Null,
    True,
    False,
    I64(i64),
    F64(u64),
    Str(String),
    Binary(Vec<u8>),
    ContainerIdx(usize),
    DeleteOnce,
    DeleteSeq,
    DeltaInt(i32),
    LoroValue(LoroValue),
    MarkStart(MarkStart),
    TreeMove(EncodedTreeMove),
    ListMove { from: usize, from_idx: usize, lamport: usize },
    ListSet { peer_idx: usize, lamport: u32, value: LoroValue },
    Future(OwnedFutureValue),
}

/// An encoded tree move: indices of the target and parent tree ids and of
/// the position.
#[derive(Debug, Clone, Copy, PartialEq, Eq, Structural)]
pub struct EncodedTreeMove {
    pub subject_idx: usize,
    pub is_parent_null: bool,
    pub parent_idx: usize,
    pub position: usize,
}

/// The bytes `write_tree_move` appends.
pub open spec fn tree_move_bytes(op: EncodedTreeMove) -> Seq<u8> {
    let head = uleb_encode(op.subject_idx as nat) + seq![if op.is_parent_null { 1u8 } else { 0u8 }]
        + uleb_encode(op.position as nat);
    if op.is_parent_null {
        head
    } else {
        head + uleb_encode(op.parent_idx as nat)
    }
}

/// The eight big-endian bytes of a 64-bit word.
pub open spec fn be_bytes(v: u64) -> Seq<u8> {
    seq![
        (v >> 56) as u8,
        (v >> 48) as u8,
        (v >> 40) as u8,
        (v >> 32) as u8,
        (v >> 24) as u8,
        (v >> 16) as u8,
        (v >> 8) as u8,
        v as u8,
    ]
}

/// The word whose big-endian bytes start `s`.
pub open spec fn be_word(s: Seq<u8>) -> u64 {
    ((s[0] as u64) << 56) | ((s[1] as u64) << 48) | ((s[2] as u64) << 40) | ((s[3] as u64) << 32)
        | ((s[4] as u64) << 24) | ((s[5] as u64) << 16) | ((s[6] as u64) << 8) | (s[7] as u64)
}

/// Appends values to a byte buffer.
pub struct ValueWriter {
    buffer: Vec<u8>,
}

impl View for ValueWriter {
    type V = Seq<u8>;

    closed spec fn view(&self) -> Seq<u8> {
        self.buffer@
    }
}

impl ValueWriter {
    /// The number of bytes written so far.
    pub(crate) fn written(&self) -> (r: usize)
        ensures
            r == self@.len(),
    {
        self.buffer.len()
    }

    pub fn new() -> (r: ValueWriter)
        ensures
            r@ == Seq::<u8>::empty(),
    {
        ValueWriter { buffer: Vec::new() }
    }

    pub fn write_i64(&mut self, value: i64) -> (n: usize)
        ensures
            final(self)@ == old(self)@ + sleb_encode(value as int),
            n == sleb_encode(value as int).len(),
    {
        leb_write_signed(&mut self.buffer, value)
    }

    pub fn write_i32(&mut self, value: i32) -> (n: usize)
        ensures
            final(self)@ == old(self)@ + sleb_encode(value as int),
            n == sleb_encode(value as int).len(),
    {
        leb_write_signed(&mut self.buffer, value as i64)
    }

    pub fn write_u64(&mut self, value: u64) -> (n: usize)
        ensures
            final(self)@ == old(self)@ + uleb_encode(value as nat),
            n == uleb_encode(value as nat).len(),
    {
        leb_write_unsigned(&mut self.buffer, value)
    }

    pub fn write_usize(&mut self, value: usize) -> (n: usize)
        ensures
            final(self)@ == old(self)@ + uleb_encode(value as nat),
            n == uleb_encode(value as nat).len(),
    {
        leb_write_unsigned(&mut self.buffer, value as u64)
    }

    /// Writes a double, given by its IEEE-754 bits, as eight big-endian bytes.
    pub fn write_f64(&mut self, value: u64) -> (n: usize)
        ensures
            final(self)@ == old(self)@ + be_bytes(value),
            n == 8,
    {
        self.buffer.push((value >> 56) as u8);
        self.buffer.push((value >> 48) as u8);
        self.buffer.push((value >> 40) as u8);
        self.buffer.push((value >> 32) as u8);
        self.buffer.push((value >> 24) as u8);
        self.buffer.push((value >> 16) as u8);
        self.buffer.push((value >> 8) as u8);
        self.buffer.push(value as u8);
        assert(self.buffer@ =~= old(self)@ + be_bytes(value));
        8
    }

    /// Writes a string: its byte length, then its UTF-8 bytes.
    pub fn write_str(&mut self, value: &str) -> (n: usize)
        ensures
            final(self)@ == old(self)@ + uleb_encode(encode_utf8(value@).len()) + encode_utf8(
                value@,
            ),
            n == uleb_encode(encode_utf8(value@).len()).len() + encode_utf8(value@).len(),
    {
        let bytes = value.as_bytes();
        let start = self.buffer.len();
        self.write_usize(bytes.len());
        self.extend(bytes);
        assert(self.buffer@ =~= old(self)@ + uleb_encode(encode_utf8(value@).len()) + encode_utf8(value@));
        self.buffer.len() - start
    }

    pub fn write_u8(&mut self, value: u8) -> (n: usize)
        ensures
            final(self)@ == old(self)@.push(value),
            n == 1,
    {
        self.buffer.push(value);
        1
    }

    /// Writes the byte of a value kind.
    pub fn write_kind(&mut self, kind: ValueKind)
        ensures
            final(self)@ == old(self)@.push(value_kind_byte(kind)),
    {
        let b = kind.to_u8();
        self.buffer.push(b);
    }

    fn extend(&mut self, bytes: &[u8])
        ensures
            final(self)@ == old(self)@ + bytes@,
    {
        let mut i: usize = 0;
        let ghost start = self.buffer@;
        while i < bytes.len()
            invariant
                i <= bytes.len(),
                self.buffer@ == start + bytes@.take(i as int),
            decreases bytes.len() - i,
        {
            self.buffer.push(bytes[i]);
            i += 1;
            assert(self.buffer@ =~= start + bytes@.take(i as int));
        }
        assert(bytes@.take(bytes.len() as int) =~= bytes@);
    }

    /// Writes binary data: its length, then the bytes.
    pub fn write_binary(&mut self, value: &[u8]) -> (n: usize)
        ensures
            final(self)@ == old(self)@ + uleb_encode(value@.len()) + value@,
            n == uleb_encode(value@.len()).len() + value@.len(),
    {
        let start = self.buffer.len();
        self.write_usize(value.len());
        self.extend(value);
        assert(self.buffer@ =~= old(self)@ + uleb_encode(value@.len()) + value@);
        self.buffer.len() - start
    }

    /// Writes a tree move: subject, whether the parent is null, position,
    /// and the parent unless it is null.
    pub fn write_tree_move(&mut self, op: &EncodedTreeMove) -> (n: usize)
        ensures
            final(self)@ == old(self)@ + tree_move_bytes(*op),
            n == tree_move_bytes(*op).len(),
    {
        let len = self.buffer.len();
        self.write_usize(op.subject_idx);
        self.write_u8(if op.is_parent_null { 1 } else { 0 });
        self.write_usize(op.position);
        if op.is_parent_null {
            assert(self.buffer@ =~= old(self)@ + tree_move_bytes(*op));
            return self.buffer.len() - len;
        }
        self.write_usize(op.parent_idx);
        assert(self.buffer@ =~= old(self)@ + tree_move_bytes(*op));
        self.buffer.len() - len
    }

    pub fn finish(self) -> (r: Vec<u8>)
        ensures
            r@ == self@,
    {
        self.buffer
    }
}

/// Reads values from a byte slice, consuming it from the front.
pub struct ValueReader<'a> {
    raw: &'a [u8],
}

impl<'a> View for ValueReader<'a> {
    type V = Seq<u8>;

    closed spec fn view(&self) -> Seq<u8> {
        self.raw@
    }
}

/// The bytes left after reading a prefix of `n` bytes.
pub open spec fn rest(s: Seq<u8>, n: int) -> Seq<u8> {
    s.subrange(n, s.len() as int)
}

/// `a` is a suffix of `b`.
pub open spec fn is_suffix(a: Seq<u8>, b: Seq<u8>) -> bool {
    a.len() <= b.len() && a == b.subrange(b.len() - a.len(), b.len() as int)
}

/// Calls `std::str::from_utf8`: the string whose UTF-8 bytes are `bytes`,
/// or `None` when they are not valid UTF-8.
#[verifier::external_body]
pub(crate) fn str_from_utf8<'b>(bytes: &'b [u8]) -> (r: Option<&'b str>)
    ensures
        r is Some <==> valid_utf8(bytes@),
        r is Some ==> encode_utf8(r->Some_0@) == bytes@,
{
    std::str::from_utf8(bytes).ok()
}

impl<'a> ValueReader<'a> {
    pub fn new(raw: &'a [u8]) -> (r: ValueReader<'a>)
        ensures
            r@ == raw@,
    {
        ValueReader { raw }
    }

    pub fn read_u8(&mut self) -> (r: Result<u8, LoroError>)
        ensures
            old(self)@.len() == 0 <==> r is Err,
            r is Err ==> r->Err_0 == LoroError::DecodeDataCorruptionError && final(self)@ == old(self)@,
            r is Ok ==> r->Ok_0 == old(self)@[0] && final(self)@ == rest(old(self)@, 1),
    {
        if self.raw.len() == 0 {
            return Err(LoroError::DecodeDataCorruptionError);
        }
        let ans = self.raw[0];
        self.raw = &self.raw[1..self.raw.len()];
        Ok(ans)
    }

    pub fn read_i64(&mut self) -> (r: Result<i64, LoroError>)
        ensures
            match sleb_read(old(self)@) {
                Some((v, n)) => r == Ok::<i64, LoroError>(v as i64) && final(self)@ == rest(old(self)@, n as int),
                None => r == Err::<i64, LoroError>(LoroError::DecodeDataCorruptionError) && is_suffix(final(self)@, old(self)@),
            },
    {
        match leb_read_signed(&mut self.raw) {
            Ok(v) => Ok(v),
            Err(_) => Err(LoroError::DecodeDataCorruptionError),
        }
    }

    pub fn read_u64(&mut self) -> (r: Result<u64, LoroError>)
        ensures
            match uleb_read(old(self)@) {
                Some((v, n)) => r == Ok::<u64, LoroError>(v as u64) && final(self)@ == rest(old(self)@, n as int),
                None => r == Err::<u64, LoroError>(LoroError::DecodeDataCorruptionError) && is_suffix(final(self)@, old(self)@),
            },
    {
        match leb_read_unsigned(&mut self.raw) {
            Ok(v) => Ok(v),
            Err(_) => Err(LoroError::DecodeDataCorruptionError),
        }
    }

    /// Reads a signed LEB128 number and keeps its low 32 bits.
    pub fn read_i32(&mut self) -> (r: Result<i32, LoroError>)
        ensures
            match sleb_read(old(self)@) {
                Some((v, n)) => r == Ok::<i32, LoroError>(v as i32) && final(self)@ == rest(old(self)@, n as int),
                None => r == Err::<i32, LoroError>(LoroError::DecodeDataCorruptionError) && is_suffix(final(self)@, old(self)@),
            },
    {
        match leb_read_signed(&mut self.raw) {
            Ok(v) => Ok(v as i32),
            Err(_) => Err(LoroError::DecodeDataCorruptionError),
        }
    }

    /// Reads an unsigned LEB128 number as a `usize` (truncated where
    /// `usize` is narrower than 64 bits).
    pub fn read_usize(&mut self) -> (r: Result<usize, LoroError>)
        ensures
            match uleb_read(old(self)@) {
                Some((v, n)) => r == Ok::<usize, LoroError>(v as usize) && final(self)@ == rest(old(self)@, n as int),
                None => r == Err::<usize, LoroError>(LoroError::DecodeDataCorruptionError) && is_suffix(final(self)@, old(self)@),
            },
    {
        match leb_read_unsigned(&mut self.raw) {
            Ok(v) => Ok(v as usize),
            Err(_) => Err(LoroError::DecodeDataCorruptionError),
        }
    }

    /// Reads a double as its IEEE-754 bits from eight big-endian bytes.
    pub fn read_f64(&mut self) -> (r: Result<u64, LoroError>)
        ensures
            old(self)@.len() < 8 <==> r is Err,
            r is Err ==> r->Err_0 == LoroError::DecodeDataCorruptionError && final(self)@ == old(self)@,
            r is Ok ==> r->Ok_0 == be_word(old(self)@) && final(self)@ == rest(old(self)@, 8),
    {
        if self.raw.len() < 8 {
            return Err(LoroError::DecodeDataCorruptionError);
        }
        let r = self.raw;
        let v = ((r[0] as u64) << 56) | ((r[1] as u64) << 48) | ((r[2] as u64) << 40) | ((
        r[3] as u64) << 32) | ((r[4] as u64) << 24) | ((r[5] as u64) << 16) | ((r[6] as u64)
            << 8) | (r[7] as u64);
        self.raw = &self.raw[8..self.raw.len()];
        Ok(v)
    }

    /// Reads binary data: a length, then that many bytes.
    pub fn read_binary(&mut self) -> (r: Result<&'a [u8], LoroError>)
        ensures
            match uleb_read(old(self)@) {
                Some((len, n)) => if n + (len as usize) <= old(self)@.len() {
                    r is Ok && r->Ok_0@ == old(self)@.subrange(n as int, n + (len as usize))
                        && final(self)@ == rest(old(self)@, n + (len as usize))
                } else {
                    r == Err::<&'a [u8], LoroError>(LoroError::DecodeDataCorruptionError)
                },
                None => r == Err::<&'a [u8], LoroError>(LoroError::DecodeDataCorruptionError),
            },
    {
        let ghost o = self.raw@;
        proof {
            lemma_uleb_read_len(o);
        }
        let len = match self.read_usize() {
            Ok(l) => l,
            Err(e) => return Err(e),
        };
        if self.raw.len() < len {
            return Err(LoroError::DecodeDataCorruptionError);
        }
        let ans = &self.raw[0..len];
        self.raw = &self.raw[len..self.raw.len()];
        proof {
            let n = uleb_read(o)->Some_0.1;
            assert(ans@ =~= o.subrange(n as int, n + len));
            assert(self.raw@ =~= rest(o, n + len));
        }
        Ok(ans)
    }

    /// Reads a string: a byte length, then that many UTF-8 bytes, which
    /// must be valid UTF-8.
    pub fn read_str(&mut self) -> (r: Result<&'a str, LoroError>)
        requires
            str_bytes_valid(old(self)@),
        ensures
            match uleb_read(old(self)@) {
                Some((len, n)) => if n + (len as usize) <= old(self)@.len() {
                    r is Ok && encode_utf8(r->Ok_0@) == old(self)@.subrange(n as int, n + (len as usize))
                        && final(self)@ == rest(old(self)@, n + (len as usize))
                } else {
                    r == Err::<&'a str, LoroError>(LoroError::DecodeDataCorruptionError)
                },
                None => r == Err::<&'a str, LoroError>(LoroError::DecodeDataCorruptionError),
            },
    {
        let bytes = match self.read_binary() {
            Ok(b) => b,
            Err(e) => return Err(e),
        };
        match str_from_utf8(bytes) {
            Some(s) => Ok(s),
            None => Err(LoroError::DecodeDataCorruptionError),
        }
    }

    /// Takes the next `len` bytes.
    pub fn take_bytes(&mut self, len: usize) -> (r: &'a [u8])
        requires
            len <= old(self)@.len(),
        ensures
            r@ == old(self)@.subrange(0, len as int),
            final(self)@ == rest(old(self)@, len as int),
    {
        let ans = &self.raw[0..len];
        self.raw = &self.raw[len..self.raw.len()];
        ans
    }

    /// Reads a tree move as `write_tree_move` writes it.
    pub fn read_tree_move(&mut self) -> (r: Result<EncodedTreeMove, LoroError>)
        ensures
            match tree_move_read(old(self)@) {
                Some((op, n)) => r == Ok::<EncodedTreeMove, LoroError>(op) && final(self)@ == rest(
                    old(self)@,
                    n,
                ),
                None => r == Err::<EncodedTreeMove, LoroError>(LoroError::DecodeDataCorruptionError),
            },
    {
        let ghost o = self.raw@;
        proof {
            lemma_uleb_read_len(o);
        }
        let subject_idx = match self.read_usize() {
            Ok(v) => v,
            Err(e) => return Err(e),
        };
        let ghost n1: int = uleb_read(o)->Some_0.1 as int;
        let ghost o1 = self.raw@;
        let is_parent_null = match self.read_u8() {
            Ok(v) => v != 0,
            Err(e) => return Err(e),
        };
        let ghost o2 = self.raw@;
        assert(o2 =~= rest(o, n1 + 1));
        proof {
            lemma_uleb_read_len(o2);
        }
        let position = match self.read_usize() {
            Ok(v) => v,
            Err(e) => return Err(e),
        };
        let ghost k: int = n1 + 1 + uleb_read(o2)->Some_0.1;
        assert(self.raw@ =~= rest(o, k));
        let mut parent_idx: usize = 0;
        if !is_parent_null {
            let ghost o3 = self.raw@;
            proof {
                lemma_uleb_read_len(o3);
            }
            parent_idx = match self.read_usize() {
                Ok(v) => v,
                Err(e) => return Err(e),
            };
            assert(self.raw@ =~= rest(o, k + uleb_read(o3)->Some_0.1));
        }
        Ok(EncodedTreeMove { subject_idx, is_parent_null, parent_idx, position })
    }
}

/// What `read_tree_move` reads from the front of `s`, and the number of
/// bytes it takes.
pub open spec fn tree_move_read(s: Seq<u8>) -> Option<(EncodedTreeMove, int)> {
    match uleb_read(s) {
        None => None,
        Some((subject, n1)) => if n1 >= s.len() {
            None
        } else {
            let is_parent_null = s[n1 as int] != 0;
            match uleb_read(rest(s, n1 + 1int)) {
                None => None,
                Some((position, n2)) => {
                    let k: int = n1 + 1int + n2;
                    if is_parent_null {
                        Some((EncodedTreeMove {
                            subject_idx: subject as usize,
                            is_parent_null: true,
                            parent_idx: 0,
                            position: position as usize,
                        }, k))
                    } else {
                        match uleb_read(rest(s, k)) {
                            None => None,
                            Some((parent, n3)) => Some((EncodedTreeMove {
                                subject_idx: subject as usize,
                                is_parent_null: false,
                                parent_idx: parent as usize,
                                position: position as usize,
                            }, k + n3)),
                        }
                    }
                },
            }
        },
    }
}

/// A tree move written by `write_tree_move` reads back whole, whatever
/// follows it (a null parent is read back as index 0).
pub proof fn lemma_tree_move_roundtrip(op: EncodedTreeMove, tail: Seq<u8>)
    requires
        op.is_parent_null ==> op.parent_idx == 0,
    ensures
        tree_move_read(tree_move_bytes(op) + tail) == Some((op, tree_move_bytes(op).len() as int)),
{
    let s = tree_move_bytes(op) + tail;
    let e1 = uleb_encode(op.subject_idx as nat);
    let b: u8 = if op.is_parent_null { 1u8 } else { 0u8 };
    let e2 = uleb_encode(op.position as nat);
    let e3 = uleb_encode(op.parent_idx as nat);
    let after1 = seq![b] + e2 + (if op.is_parent_null { tail } else { e3 + tail });
    assert(s =~= e1 + after1);
    lemma_uleb_roundtrip(op.subject_idx as u64, after1);
    assert(s[e1.len() as int] == b);
    let after2 = if op.is_parent_null { tail } else { e3 + tail };
    assert(rest(s, e1.len() + 1int) =~= e2 + after2);
    lemma_uleb_roundtrip(op.position as u64, after2);
    if !op.is_parent_null {
        assert(rest(s, e1.len() + 1int + e2.len()) =~= e3 + tail);
        lemma_uleb_roundtrip(op.parent_idx as u64, tail);
    }
}

/// The kind of a value.
pub fn get_loro_value_kind(value: &LoroValue) -> (r: LoroValueKind)
    ensures
        loro_value_kind_byte(r) == value_kind_of(value@),
{
    match value {
        LoroValue::Null => LoroValueKind::Null,
        LoroValue::Bool(b) => if *b {
            LoroValueKind::True
        } else {
            LoroValueKind::False
        },
        LoroValue::I64(_) => LoroValueKind::I64,
        LoroValue::Double(_) => LoroValueKind::F64,
        LoroValue::String(_) => LoroValueKind::Str,
        LoroValue::List(_) => LoroValueKind::List,
        LoroValue::Mapping(_) => LoroValueKind::Mapping,
        LoroValue::Binary(_) => LoroValueKind::Binary,
        LoroValue::Container(_) => LoroValueKind::ContainerType,
    }
}

impl ValueWriter {
    /// Writes a value: its kind byte, then its content. Map keys are
    /// written as their indices in `registers`, where new keys are added.
    /// Returns the number of bytes written.
    pub fn write_value_type_and_content(&mut self, value: &LoroValue, registers: &mut ValueRegister) -> (n: usize)
        ensures
            final(self)@ == old(self)@ + encode_value(value@, old(registers)@).0,
            final(registers)@ == encode_value(value@, old(registers)@).1,
            n == encode_value(value@, old(registers)@).0.len(),
        decreases value, 1nat,
    {
        let start = self.buffer.len();
        let kind = get_loro_value_kind(value);
        self.write_u8(kind.to_u8());
        self.write_value_content(value, registers);
        assert(self.buffer@ =~= old(self)@ + encode_value(value@, old(registers)@).0);
        self.buffer.len() - start
    }

    /// Writes the content of a value (see `encode_content`), and returns
    /// its kind and the number of bytes written.
    #[verifier::loop_isolation(false)]
    #[verifier::rlimit(60)]
    pub fn write_value_content(&mut self, value: &LoroValue, registers: &mut ValueRegister) -> (r: (LoroValueKind, usize))
        ensures
            final(self)@ == old(self)@ + encode_content(value@, old(registers)@).0,
            final(registers)@ == encode_content(value@, old(registers)@).1,
            loro_value_kind_byte(r.0) == value_kind_of(value@),
            r.1 == encode_content(value@, old(registers)@).0.len(),
        decreases value, 0nat,
    {
        let start = self.buffer.len();
        let kind = get_loro_value_kind(value);
        match value {
            LoroValue::Null => {
                assert(self.buffer@ =~= old(self)@ + encode_content(value@, old(registers)@).0);
            },
            LoroValue::Bool(_) => {
                assert(self.buffer@ =~= old(self)@ + encode_content(value@, old(registers)@).0);
            },
            LoroValue::I64(v) => {
                self.write_i64(*v);
            },
            LoroValue::Double(v) => {
                self.write_f64(*v);
            },
            LoroValue::String(v) => {
                self.write_str(v.as_str());
            },
            LoroValue::Binary(v) => {
                self.write_binary(v.as_slice());
            },
            LoroValue::List(list) => {
                let ghost vv = values_view(list@);
                let ghost reg0 = registers@;
                let ghost e = encode_items(vv, reg0);
                proof {
                    lemma_values_view(list@);
                }
                self.write_usize(list.len());
                let mut i: usize = 0;
                assert(vv.skip(0) =~= vv);
                while i < list.len()
                    invariant
                        i <= list@.len(),
                        vv.len() == list@.len(),
                        self@ + encode_items(vv.skip(i as int), registers@).0 == old(self)@
                            + uleb_encode(list@.len() as nat) + e.0,
                        encode_items(vv.skip(i as int), registers@).1 == e.1,
                    decreases list.len() - i,
                {
                    proof {
                        assert(decreases_to!(*value => *list));
                        assert(decreases_to!(*list => list@));
                        assert(decreases_to!(list@ => list@[i as int]));
                        let sk = vv.skip(i as int);
                        assert(sk[0] == list@[i as int]@);
                        assert(sk.drop_first() =~= vv.skip(i + 1));
                    }
                    let ghost b0 = self@;
                    let ghost r0 = registers@;
                    self.write_value_type_and_content(&list[i], registers);
                    proof {
                        let a = encode_value(list@[i as int]@, r0);
                        let rest_e = encode_items(vv.skip(i + 1), a.1);
                        assert(encode_items(vv.skip(i as int), r0).0 == a.0 + rest_e.0);
                        assert(self@ + rest_e.0 =~= b0 + (a.0 + rest_e.0));
                    }
                    i += 1;
                }
                assert(vv.skip(i as int) =~= Seq::<LoroValueView>::empty());
                assert(self@ =~= old(self)@ + encode_content(value@, old(registers)@).0);
            },
            LoroValue::Mapping(map) => {
                let ghost pv = pairs_view(map@);
                let ghost reg0 = registers@;
                let ghost e = encode_entries(pv, reg0);
                proof {
                    lemma_pairs_view(map@);
                }
                self.write_usize(map.len());
                let mut i: usize = 0;
                assert(pv.skip(0) =~= pv);
                while i < map.len()
                    invariant
                        i <= map@.len(),
                        pv.len() == map@.len(),
                        self@ + encode_entries(pv.skip(i as int), registers@).0 == old(self)@
                            + uleb_encode(map@.len() as nat) + e.0,
                        encode_entries(pv.skip(i as int), registers@).1 == e.1,
                    decreases map.len() - i,
                {
                    proof {
                        assert(decreases_to!(*value => *map));
                        assert(decreases_to!(*map => map@));
                        assert(decreases_to!(map@ => map@[i as int]));
                        assert(decreases_to!(map@[i as int] => map@[i as int].1));
                        let sk = pv.skip(i as int);
                        assert(sk[0] == (map@[i as int].0@, map@[i as int].1@));
                        assert(sk.drop_first() =~= pv.skip(i + 1));
                    }
                    let ghost b0 = self@;
                    let ghost r0 = registers@;
                    let key_idx = registers.register(&map[i].0);
                    let ghost r1 = registers@;
                    self.write_usize(key_idx);
                    self.write_value_type_and_content(&map[i].1, registers);
                    proof {
                        let a = encode_value(map@[i as int].1@, r1);
                        let rest_e = encode_entries(pv.skip(i + 1), a.1);
                        assert(encode_entries(pv.skip(i as int), r0).0 == uleb_encode(key_idx as nat) + a.0
                            + rest_e.0);
                        assert(self@ + rest_e.0 =~= b0 + (uleb_encode(key_idx as nat) + a.0 + rest_e.0));
                    }
                    i += 1;
                }
                assert(pv.skip(i as int) =~= Seq::<(Seq<char>, LoroValueView)>::empty());
                assert(self@ =~= old(self)@ + encode_content(value@, old(registers)@).0);
            },
            LoroValue::Container(c) => {
                let t = c.container_type();
                self.write_u8(t.to_u8());
                assert(self.buffer@ =~= old(self)@ + encode_content(value@, old(registers)@).0);
            },
        }
        (kind, self.buffer.len() - start)
    }
}

/// The string a reader at `s` would read is valid UTF-8 (where its bytes
/// are all present).
pub open spec fn str_bytes_valid(s: Seq<u8>) -> bool {
    match uleb_read(s) {
        Some((len, n)) => n + (len as usize) <= s.len() ==> valid_utf8(
            s.subrange(n as int, n + (len as usize)),
        ),
        None => true,
    }
}

} // verus!
