//! The value encoding of the reordered (older) binary format: its value
//! kinds, its tree moves, and the writer and reader of its values.
use vstd::prelude::*;
use crate::common::{LoroError, LoroResult};
use crate::encoding::leb::{
    leb_read_signed, leb_read_unsigned, leb_write_signed, leb_write_unsigned, lemma_uleb_read_len,
    lemma_uleb_roundtrip, sleb_encode, sleb_read, uleb_encode, uleb_read,
};
use crate::encoding::value::{be_bytes, be_word, rest, str_bytes_valid};
use vstd::utf8::encode_utf8;

verus! {

/// The kind of a value in the reordered format. `Unknown` stands for a
/// kind this version cannot read and has no byte of its own.
#[derive(Debug, Clone, Copy, PartialEq, Eq, Structural)]
pub enum ValueKind {
    Null,
    True,
    False,
    DeleteOnce,
    I32,
    ContainerIdx,
    F64,
    Str,
    DeleteSeq,
    DeltaInt,
    Array,
    Mapping,
    MarkStart,
    TreeMove,
    Binary,
    Unknown,
}

/// The number of each kind; `Unknown` is numbered past every byte.
pub open spec fn value_kind_code(k: ValueKind) -> nat {
    match k {
        ValueKind::Null => 0,
        ValueKind::True => 1,
        ValueKind::False => 2,
        ValueKind::DeleteOnce => 3,
        ValueKind::I32 => 4,
        ValueKind::ContainerIdx => 5,
        ValueKind::F64 => 6,
        ValueKind::Str => 7,
        ValueKind::DeleteSeq => 8,
        ValueKind::DeltaInt => 9,
        ValueKind::Array => 10,
        ValueKind::Mapping => 11,
        ValueKind::MarkStart => 12,
        ValueKind::TreeMove => 13,
        ValueKind::Binary => 14,
        ValueKind::Unknown => 65536,
    }
}

impl ValueKind {
    /// The byte of the kind, or `None` for `Unknown`, whose number does
    /// not fit a byte.
    pub fn to_u8(&self) -> (r: Option<u8>)
        ensures
            match r {
                Some(b) => b as nat == value_kind_code(*self),
                None => value_kind_code(*self) > 255,
            },
    {
        match self {
            ValueKind::Null => Some(0),
            ValueKind::True => Some(1),
            ValueKind::False => Some(2),
            ValueKind::DeleteOnce => Some(3),
            ValueKind::I32 => Some(4),
            ValueKind::ContainerIdx => Some(5),
            ValueKind::F64 => Some(6),
            ValueKind::Str => Some(7),
            ValueKind::DeleteSeq => Some(8),
            ValueKind::DeltaInt => Some(9),
            ValueKind::Array => Some(10),
            ValueKind::Mapping => Some(11),
            ValueKind::MarkStart => Some(12),
            ValueKind::TreeMove => Some(13),
            ValueKind::Binary => Some(14),
            ValueKind::Unknown => None,
        }
    }

    /// The kind numbered `b`, or `None` when no kind has that number.
    pub fn from_u8(b: u8) -> (r: Option<ValueKind>)
        ensures
            match r {
                Some(k) => value_kind_code(k) == b as nat,
                None => forall|k: ValueKind| value_kind_code(k) != b as nat,
            },
    {
        match b {
            0 => Some(ValueKind::Null),
            1 => Some(ValueKind::True),
            2 => Some(ValueKind::False),
            3 => Some(ValueKind::DeleteOnce),
            4 => Some(ValueKind::I32),
            5 => Some(ValueKind::ContainerIdx),
            6 => Some(ValueKind::F64),
            7 => Some(ValueKind::Str),
            8 => Some(ValueKind::DeleteSeq),
            9 => Some(ValueKind::DeltaInt),
            10 => Some(ValueKind::Array),
            11 => Some(ValueKind::Mapping),
            12 => Some(ValueKind::MarkStart),
            13 => Some(ValueKind::TreeMove),
            14 => Some(ValueKind::Binary),
            _ => {
                assert forall|k: ValueKind| value_kind_code(k) != b as nat by {
                    match k {
                        _ => {},
                    }
                }
                None
            },
        }
    }
}

/// Kinds are told apart by their numbers.
pub proof fn lemma_value_kind_code_injective(a: ValueKind, b: ValueKind)
    ensures
        value_kind_code(a) == value_kind_code(b) ==> a == b,
{
}

/// An encoded tree move: the peer index and counter of the moved node and,
/// unless the parent is null, of its new parent.
#[derive(Debug, Clone, Copy, PartialEq, Eq, Structural)]
pub struct EncodedTreeMove {
    pub subject_peer_idx: usize,
    pub subject_cnt: usize,
    pub is_parent_null: bool,
    pub parent_peer_idx: usize,
    pub parent_cnt: usize,
}

/// The bytes `write_tree_move` appends.
pub open spec fn tree_move_bytes(op: EncodedTreeMove) -> Seq<u8> {
    let head = uleb_encode(op.subject_peer_idx as nat) + uleb_encode(op.subject_cnt as nat) + seq![
        if op.is_parent_null {
            1u8
        } else {
            0u8
        },
    ];
    if op.is_parent_null {
        head
    } else {
        head + uleb_encode(op.parent_peer_idx as nat) + uleb_encode(op.parent_cnt as nat)
    }
}

/// What `read_tree_move` reads from the front of `s`, and the number of
/// bytes it takes.
pub open spec fn tree_move_read(s: Seq<u8>) -> Option<(EncodedTreeMove, int)> {
    match uleb_read(s) {
        None => None,
        Some((sp, n1)) => match uleb_read(rest(s, n1 as int)) {
            None => None,
            Some((sc, n2)) => {
                let k: int = n1 as int + n2;
                if k >= s.len() {
                    None
                } else {
                    let null = s[k] != 0;
                    if null {
                        Some((EncodedTreeMove {
                            subject_peer_idx: sp as usize,
                            subject_cnt: sc as usize,
                            is_parent_null: true,
                            parent_peer_idx: 0,
                            parent_cnt: 0,
                        }, k + 1))
                    } else {
                        match uleb_read(rest(s, k + 1)) {
                            None => None,
                            Some((pp, n3)) => match uleb_read(rest(s, k + 1 + n3)) {
                                None => None,
                                Some((pc, n4)) => Some((EncodedTreeMove {
                                    subject_peer_idx: sp as usize,
                                    subject_cnt: sc as usize,
                                    is_parent_null: false,
                                    parent_peer_idx: pp as usize,
                                    parent_cnt: pc as usize,
                                }, k + 1 + n3 + n4)),
                            },
                        }
                    }
                }
            },
        },
    }
}

/// A tree move written by `write_tree_move` reads back whole, whatever
/// follows it (the parent of a move to a null parent reads back as zeros).
#[verifier::rlimit(60)]
pub proof fn lemma_tree_move_roundtrip(op: EncodedTreeMove, tail: Seq<u8>)
    requires
        op.is_parent_null ==> op.parent_peer_idx == 0 && op.parent_cnt == 0,
    ensures
        tree_move_read(tree_move_bytes(op) + tail) == Some((op, tree_move_bytes(op).len() as int)),
{
    let e1 = uleb_encode(op.subject_peer_idx as nat);
    let e2 = uleb_encode(op.subject_cnt as nat);
    let b: u8 = if op.is_parent_null {
        1u8
    } else {
        0u8
    };
    let after = if op.is_parent_null {
        tail
    } else {
        uleb_encode(op.parent_peer_idx as nat) + uleb_encode(op.parent_cnt as nat) + tail
    };
    let s = tree_move_bytes(op) + tail;
    assert(s =~= e1 + (e2 + (seq![b] + after)));
    lemma_uleb_roundtrip(op.subject_peer_idx as u64, e2 + (seq![b] + after));
    assert(rest(s, e1.len() as int) =~= e2 + (seq![b] + after));
    lemma_uleb_roundtrip(op.subject_cnt as u64, seq![b] + after);
    let k: int = e1.len() + e2.len() as int;
    assert(s[k] == b);
    if op.is_parent_null {
        assert(tree_move_bytes(op).len() == k + 1);
    } else {
        lemma_tree_move_parent(op, tail, s, k);
    }
}

proof fn lemma_tree_move_parent(op: EncodedTreeMove, tail: Seq<u8>, s: Seq<u8>, k: int)
    requires
        !op.is_parent_null,
        s == tree_move_bytes(op) + tail,
        k == uleb_encode(op.subject_peer_idx as nat).len() + uleb_encode(op.subject_cnt as nat).len(),
    ensures
        uleb_read(rest(s, k + 1)) == Some(
            (op.parent_peer_idx as int, uleb_encode(op.parent_peer_idx as nat).len()),
        ),
        uleb_read(rest(s, k + 1 + uleb_encode(op.parent_peer_idx as nat).len())) == Some(
            (op.parent_cnt as int, uleb_encode(op.parent_cnt as nat).len()),
        ),
        tree_move_bytes(op).len() == k + 1 + uleb_encode(op.parent_peer_idx as nat).len()
            + uleb_encode(op.parent_cnt as nat).len(),
{
    let e3 = uleb_encode(op.parent_peer_idx as nat);
    let e4 = uleb_encode(op.parent_cnt as nat);
    assert(rest(s, k + 1) =~= e3 + (e4 + tail));
    lemma_uleb_roundtrip(op.parent_peer_idx as u64, e4 + tail);
    assert(rest(s, k + 1 + e3.len()) =~= e4 + tail);
    lemma_uleb_roundtrip(op.parent_cnt as u64, tail);
}

/// Appends values of the reordered format to a byte buffer.
pub struct ValueWriter {
    buffer: Vec<u8>,
}

impl View for ValueWriter {
    type V = Seq<u8>;

    closed spec fn view(&self) -> Seq<u8> {
        self.buffer@
    }
}

impl ValueWriter {
    pub fn new() -> (r: ValueWriter)
        ensures
            r@ == Seq::<u8>::empty(),
    {
        ValueWriter { buffer: Vec::new() }
    }

    pub fn write_i32(&mut self, value: i32)
        ensures
            final(self)@ == old(self)@ + sleb_encode(value as int),
    {
        leb_write_signed(&mut self.buffer, value as i64);
    }

    pub fn write_usize(&mut self, value: usize)
        ensures
            final(self)@ == old(self)@ + uleb_encode(value as nat),
    {
        leb_write_unsigned(&mut self.buffer, value as u64);
    }

    pub fn write_u8(&mut self, value: u8)
        ensures
            final(self)@ == old(self)@.push(value),
    {
        self.buffer.push(value);
    }

    /// Writes a double, given by its IEEE-754 bits, as eight big-endian bytes.
    pub fn write_f64(&mut self, value: u64)
        ensures
            final(self)@ == old(self)@ + be_bytes(value),
    {
        self.buffer.push((value >> 56) as u8);
        self.buffer.push((value >> 48) as u8);
        self.buffer.push((value >> 40) as u8);
        self.buffer.push((value >> 32) as u8);
        self.buffer.push((value >> 24) as u8);
        self.buffer.push((value >> 16) as u8);
        self.buffer.push((value >> 8) as u8);
        self.buffer.push(value as u8);
        assert(self.buffer@ =~= old(self)@ + be_bytes(value));
    }

    /// Writes a string: its byte length, then its UTF-8 bytes.
    pub fn write_str(&mut self, value: &str)
        ensures
            final(self)@ == old(self)@ + uleb_encode(encode_utf8(value@).len()) + encode_utf8(value@),
    {
        let bytes = value.as_bytes();
        self.write_usize(bytes.len());
        self.extend(bytes);
        assert(self.buffer@ =~= old(self)@ + uleb_encode(encode_utf8(value@).len()) + encode_utf8(value@));
    }

    /// Writes the byte of a kind; `Unknown` has none and cannot be written.
    pub fn write_kind(&mut self, kind: ValueKind)
        requires
            kind != ValueKind::Unknown,
        ensures
            final(self)@ == old(self)@.push(value_kind_code(kind) as u8),
    {
        match kind.to_u8() {
            Some(b) => self.write_u8(b),
            None => {
                assert(false);
            },
        }
    }

    fn extend(&mut self, bytes: &[u8])
        ensures
            final(self)@ == old(self)@ + bytes@,
    {
        let mut i: usize = 0;
        let ghost start = self.buffer@;
        while i < bytes.len()
            invariant
                i <= bytes.len(),
                self.buffer@ == start + bytes@.take(i as int),
            decreases bytes.len() - i,
        {
            self.buffer.push(bytes[i]);
            i += 1;
            assert(self.buffer@ =~= start + bytes@.take(i as int));
        }
        assert(bytes@.take(bytes.len() as int) =~= bytes@);
    }

    /// Writes binary data: its length, then the bytes.
    pub fn write_binary(&mut self, value: &[u8])
        ensures
            final(self)@ == old(self)@ + uleb_encode(value@.len()) + value@,
    {
        self.write_usize(value.len());
        self.extend(value);
        assert(self.buffer@ =~= old(self)@ + uleb_encode(value@.len()) + value@);
    }

    /// Writes a tree move: the moved node, whether the parent is null, and
    /// the parent unless it is null.
    pub fn write_tree_move(&mut self, op: &EncodedTreeMove)
        ensures
            final(self)@ == old(self)@ + tree_move_bytes(*op),
    {
        self.write_usize(op.subject_peer_idx);
        self.write_usize(op.subject_cnt);
        self.write_u8(if op.is_parent_null { 1 } else { 0 });
        if op.is_parent_null {
            assert(self.buffer@ =~= old(self)@ + tree_move_bytes(*op));
            return ;
        }
        self.write_usize(op.parent_peer_idx);
        self.write_usize(op.parent_cnt);
        assert(self.buffer@ =~= old(self)@ + tree_move_bytes(*op));
    }

    pub fn finish(self) -> (r: Vec<u8>)
        ensures
            r@ == self@,
    {
        self.buffer
    }
}

/// Reads values of the reordered format from a byte slice, consuming it
/// from the front.
pub struct ValueReader<'a> {
    raw: &'a [u8],
}

impl<'a> View for ValueReader<'a> {
    type V = Seq<u8>;

    closed spec fn view(&self) -> Seq<u8> {
        self.raw@
    }
}

impl<'a> ValueReader<'a> {
    pub fn new(raw: &'a [u8]) -> (r: ValueReader<'a>)
        ensures
            r@ == raw@,
    {
        ValueReader { raw }
    }

    pub fn read_u8(&mut self) -> (r: Result<u8, LoroError>)
        ensures
            old(self)@.len() == 0 <==> r is Err,
            r is Err ==> r->Err_0 == LoroError::DecodeDataCorruptionError && final(self)@ == old(self)@,
            r is Ok ==> r->Ok_0 == old(self)@[0] && final(self)@ == rest(old(self)@, 1),
    {
        if self.raw.len() == 0 {
            return Err(LoroError::DecodeDataCorruptionError);
        }
        let ans = self.raw[0];
        self.raw = &self.raw[1..self.raw.len()];
        Ok(ans)
    }

    /// Reads a signed LEB128 number and keeps its low 32 bits.
    pub fn read_i32(&mut self) -> (r: Result<i32, LoroError>)
        ensures
            match sleb_read(old(self)@) {
                Some((v, n)) => r == Ok::<i32, LoroError>(v as i32) && final(self)@ == rest(
                    old(self)@,
                    n as int,
                ),
                None => r == Err::<i32, LoroError>(LoroError::DecodeDataCorruptionError),
            },
    {
        match leb_read_signed(&mut self.raw) {
            Ok(v) => Ok(v as i32),
            Err(_) => Err(LoroError::DecodeDataCorruptionError),
        }
    }

    /// Reads an unsigned LEB128 number as a `usize` (truncated where
    /// `usize` is narrower than 64 bits).
    pub fn read_usize(&mut self) -> (r: Result<usize, LoroError>)
        ensures
            match uleb_read(old(self)@) {
                Some((v, n)) => r == Ok::<usize, LoroError>(v as usize) && final(self)@ == rest(
                    old(self)@,
                    n as int,
                ),
                None => r == Err::<usize, LoroError>(LoroError::DecodeDataCorruptionError),
            },
    {
        match leb_read_unsigned(&mut self.raw) {
            Ok(v) => Ok(v as usize),
            Err(_) => Err(LoroError::DecodeDataCorruptionError),
        }
    }

    /// Reads a double as its IEEE-754 bits from eight big-endian bytes.
    pub fn read_f64(&mut self) -> (r: Result<u64, LoroError>)
        ensures
            old(self)@.len() < 8 <==> r is Err,
            r is Err ==> r->Err_0 == LoroError::DecodeDataCorruptionError && final(self)@ == old(self)@,
            r is Ok ==> r->Ok_0 == be_word(old(self)@) && final(self)@ == rest(old(self)@, 8),
    {
        if self.raw.len() < 8 {
            return Err(LoroError::DecodeDataCorruptionError);
        }
        let r = self.raw;
        let v = ((r[0] as u64) << 56) | ((r[1] as u64) << 48) | ((r[2] as u64) << 40) | ((
        r[3] as u64) << 32) | ((r[4] as u64) << 24) | ((r[5] as u64) << 16) | ((r[6] as u64)
            << 8) | (r[7] as u64);
        self.raw = &self.raw[8..self.raw.len()];
        Ok(v)
    }

    /// Reads a string: a byte length, then that many UTF-8 bytes, which
    /// must be valid UTF-8.
    pub fn read_str(&mut self) -> (r: Result<&'a str, LoroError>)
        requires
            str_bytes_valid(old(self)@),
        ensures
            match uleb_read(old(self)@) {
                Some((len, n)) => if n + (len as usize) <= old(self)@.len() {
                    r is Ok && encode_utf8(r->Ok_0@) == old(self)@.subrange(n as int, n + (len as usize))
                        && final(self)@ == rest(old(self)@, n + (len as usize))
                } else {
                    r == Err::<&'a str, LoroError>(LoroError::DecodeDataCorruptionError)
                },
                None => r == Err::<&'a str, LoroError>(LoroError::DecodeDataCorruptionError),
            },
    {
        let bytes = match self.read_binary() {
            Ok(b) => b,
            Err(e) => return Err(e),
        };
        match crate::encoding::value::str_from_utf8(bytes) {
            Some(s) => Ok(s),
            None => Err(LoroError::DecodeDataCorruptionError),
        }
    }

    /// Reads binary data: a length, then that many bytes.
    pub fn read_binary(&mut self) -> (r: Result<&'a [u8], LoroError>)
        ensures
            match uleb_read(old(self)@) {
                Some((len, n)) => if n + (len as usize) <= old(self)@.len() {
                    r is Ok && r->Ok_0@ == old(self)@.subrange(n as int, n + (len as usize))
                        && final(self)@ == rest(old(self)@, n + (len as usize))
                } else {
                    r == Err::<&'a [u8], LoroError>(LoroError::DecodeDataCorruptionError)
                },
                None => r == Err::<&'a [u8], LoroError>(LoroError::DecodeDataCorruptionError),
            },
    {
        let ghost o = self.raw@;
        proof {
            lemma_uleb_read_len(o);
        }
        let len = match self.read_usize() {
            Ok(l) => l,
            Err(e) => return Err(e),
        };
        if self.raw.len() < len {
            return Err(LoroError::DecodeDataCorruptionError);
        }
        let ans = &self.raw[0..len];
        self.raw = &self.raw[len..self.raw.len()];
        proof {
            let n = uleb_read(o)->Some_0.1;
            assert(ans@ =~= o.subrange(n as int, n + len));
            assert(self.raw@ =~= rest(o, n + len));
        }
        Ok(ans)
    }

    /// Reads a tree move as `write_tree_move` writes it.
    pub fn read_tree_move(&mut self) -> (r: Result<EncodedTreeMove, LoroError>)
        ensures
            match tree_move_read(old(self)@) {
                Some((op, n)) => r == Ok::<EncodedTreeMove, LoroError>(op) && final(self)@ == rest(
                    old(self)@,
                    n,
                ),
                None => r == Err::<EncodedTreeMove, LoroError>(LoroError::DecodeDataCorruptionError),
            },
    {
        let ghost o = self.raw@;
        proof {
            lemma_uleb_read_len(o);
        }
        let subject_peer_idx = match self.read_usize() {
            Ok(v) => v,
            Err(e) => return Err(e),
        };
        let ghost n1: int = uleb_read(o)->Some_0.1 as int;
        let ghost o1 = self.raw@;
        proof {
            lemma_uleb_read_len(o1);
        }
        let subject_cnt = match self.read_usize() {
            Ok(v) => v,
            Err(e) => return Err(e),
        };
        let ghost k: int = n1 + uleb_read(o1)->Some_0.1;
        assert(self.raw@ =~= rest(o, k));
        let is_parent_null = match self.read_u8() {
            Ok(v) => v != 0,
            Err(e) => return Err(e),
        };
        assert(self.raw@ =~= rest(o, k + 1));
        let mut parent_peer_idx: usize = 0;
        let mut parent_cnt: usize = 0;
        if !is_parent_null {
            let ghost o3 = self.raw@;
            proof {
                lemma_uleb_read_len(o3);
            }
            parent_peer_idx = match self.read_usize() {
                Ok(v) => v,
                Err(e) => return Err(e),
            };
            let ghost k3: int = k + 1 + uleb_read(o3)->Some_0.1;
            assert(self.raw@ =~= rest(o, k3));
            let ghost o4 = self.raw@;
            proof {
                lemma_uleb_read_len(o4);
            }
            parent_cnt = match self.read_usize() {
                Ok(v) => v,
                Err(e) => return Err(e),
            };
            assert(self.raw@ =~= rest(o, k3 + uleb_read(o4)->Some_0.1));
        }
        Ok(EncodedTreeMove { subject_peer_idx, subject_cnt, is_parent_null, parent_peer_idx, parent_cnt })
    }
}

/// A dependency of a change: the index of its peer and its counter.
#[derive(Debug, Clone, Copy, PartialEq, Eq, Structural)]
pub struct EncodedDep {
    pub peer_idx: usize,
    pub counter: i32,
}

/// The dependencies of the encoded changes, in order.
pub struct DepsArena {
    deps: Vec<EncodedDep>,
}

impl View for DepsArena {
    type V = Seq<EncodedDep>;

    closed spec fn view(&self) -> Seq<EncodedDep> {
        self.deps@
    }
}

impl Default for DepsArena {
    fn default() -> (r: DepsArena)
        ensures
            r@ == Seq::<EncodedDep>::empty(),
    {
        DepsArena { deps: Vec::new() }
    }
}

impl DepsArena {
    /// Appends a dependency.
    pub fn push(&mut self, peer_idx: usize, counter: i32)
        ensures
            final(self)@ == old(self)@.push(EncodedDep { peer_idx, counter }),
    {
        self.deps.push(EncodedDep { peer_idx, counter });
    }

    /// The dependencies pushed so far.
    pub fn deps(&self) -> (r: &Vec<EncodedDep>)
        ensures
            r@ == self@,
    {
        &self.deps
    }
}


/// The largest length a decoded arena may have.
pub const MAX_DECODED_SIZE: usize = 1073741824;

/// The framed bytes of one arena: its length, then its bytes.
pub open spec fn arena_bytes(a: Seq<u8>) -> Seq<u8> {
    uleb_encode(a.len()) + a
}

/// Reads one framed arena from the front of `s`: the arena and what
/// follows it, or `None` when the length cannot be read, is over
/// `MAX_DECODED_SIZE`, or runs past the end.
pub open spec fn arena_read(s: Seq<u8>) -> Option<(Seq<u8>, Seq<u8>)> {
    match uleb_read(s) {
        None => None,
        Some((v, n)) => {
            let len = v as usize;
            if len > MAX_DECODED_SIZE || n + len > s.len() {
                None
            } else {
                Some((s.subrange(n as int, n + len), s.subrange(n + len, s.len() as int)))
            }
        },
    }
}

/// The arenas of an encoded document, as byte runs.
pub struct EncodedArenas<'a> {
    pub peer_id_arena: &'a [u8],
    pub container_arena: &'a [u8],
    pub key_arena: &'a [u8],
    pub deps_arena: &'a [u8],
    pub state_blob_arena: &'a [u8],
}

/// The byte runs of a set of arenas, in their order.
pub struct ArenasView {
    pub peer_id_arena: Seq<u8>,
    pub container_arena: Seq<u8>,
    pub key_arena: Seq<u8>,
    pub deps_arena: Seq<u8>,
    pub state_blob_arena: Seq<u8>,
}

impl<'a> View for EncodedArenas<'a> {
    type V = ArenasView;

    open spec fn view(&self) -> ArenasView {
        ArenasView {
            peer_id_arena: self.peer_id_arena@,
            container_arena: self.container_arena@,
            key_arena: self.key_arena@,
            deps_arena: self.deps_arena@,
            state_blob_arena: self.state_blob_arena@,
        }
    }
}

/// The bytes of a set of arenas: each framed, one after the other.
pub open spec fn arenas_bytes(a: ArenasView) -> Seq<u8> {
    arena_bytes(a.peer_id_arena) + arena_bytes(a.container_arena) + arena_bytes(a.key_arena)
        + arena_bytes(a.deps_arena) + arena_bytes(a.state_blob_arena)
}

/// Reads five framed arenas from the front of `s`; what follows the last
/// one is ignored.
pub open spec fn arenas_read(s: Seq<u8>) -> Option<ArenasView> {
    match arena_read(s) {
        None => None,
        Some((a1, r1)) => match arena_read(r1) {
            None => None,
            Some((a2, r2)) => match arena_read(r2) {
                None => None,
                Some((a3, r3)) => match arena_read(r3) {
                    None => None,
                    Some((a4, r4)) => match arena_read(r4) {
                        None => None,
                        Some((a5, _)) => Some(
                            ArenasView {
                                peer_id_arena: a1,
                                container_arena: a2,
                                key_arena: a3,
                                deps_arena: a4,
                                state_blob_arena: a5,
                            },
                        ),
                    },
                },
            },
        },
    }
}

/// Appends one framed arena.
pub fn write_arena(buffer: &mut Vec<u8>, arena: &[u8])
    ensures
        final(buffer)@ == old(buffer)@ + arena_bytes(arena@),
{
    let ghost start = buffer@;
    leb_write_unsigned(buffer, arena.len() as u64);
    let ghost mid = buffer@;
    let mut i: usize = 0;
    while i < arena.len()
        invariant
            i <= arena.len(),
            buffer@ == mid + arena@.take(i as int),
        decreases arena.len() - i,
    {
        buffer.push(arena[i]);
        i += 1;
        assert(buffer@ =~= mid + arena@.take(i as int));
    }
    assert(arena@.take(arena.len() as int) =~= arena@);
    assert(buffer@ =~= start + arena_bytes(arena@));
}

/// Reads one framed arena: the arena and the bytes after it.
pub fn read_arena<'b>(buffer: &'b [u8]) -> (r: LoroResult<(&'b [u8], &'b [u8])>)
    ensures
        match arena_read(buffer@) {
            Some((a, rest)) => r is Ok && r->Ok_0.0@ == a && r->Ok_0.1@ == rest,
            None => r == Err::<(&'b [u8], &'b [u8]), LoroError>(LoroError::DecodeDataCorruptionError),
        },
{
    let ghost o = buffer@;
    proof {
        lemma_uleb_read_len(o);
    }
    let mut reader: &[u8] = buffer;
    let len = match leb_read_unsigned(&mut reader) {
        Ok(v) => v as usize,
        Err(_) => return Err(LoroError::DecodeDataCorruptionError),
    };
    if len > MAX_DECODED_SIZE {
        return Err(LoroError::DecodeDataCorruptionError);
    }
    if len > reader.len() {
        return Err(LoroError::DecodeDataCorruptionError);
    }
    let arena = &reader[0..len];
    let rest = &reader[len..reader.len()];
    proof {
        let n = uleb_read(o)->Some_0.1;
        assert(arena@ =~= o.subrange(n as int, n + len));
        assert(rest@ =~= o.subrange(n + len, o.len() as int));
    }
    Ok((arena, rest))
}

impl<'a> EncodedArenas<'a> {
    /// The bytes of the arenas: each framed, one after the other.
    pub fn encode_arenas(self) -> (r: Vec<u8>)
        ensures
            r@ == arenas_bytes(self@),
    {
        let mut ans: Vec<u8> = Vec::new();
        write_arena(&mut ans, self.peer_id_arena);
        write_arena(&mut ans, self.container_arena);
        write_arena(&mut ans, self.key_arena);
        write_arena(&mut ans, self.deps_arena);
        write_arena(&mut ans, self.state_blob_arena);
        assert(ans@ =~= arenas_bytes(self@));
        ans
    }

    /// Reads the arenas back from the front of `bytes`.
    pub fn decode_arenas(bytes: &'a [u8]) -> (r: LoroResult<EncodedArenas<'a>>)
        ensures
            match arenas_read(bytes@) {
                Some(a) => r is Ok && r->Ok_0@ == a,
                None => r is Err && r->Err_0 == LoroError::DecodeDataCorruptionError,
            },
    {
        let (peer_id_arena, rest) = match read_arena(bytes) {
            Ok(x) => x,
            Err(e) => return Err(e),
        };
        let (container_arena, rest) = match read_arena(rest) {
            Ok(x) => x,
            Err(e) => return Err(e),
        };
        let (key_arena, rest) = match read_arena(rest) {
            Ok(x) => x,
            Err(e) => return Err(e),
        };
        let (deps_arena, rest) = match read_arena(rest) {
            Ok(x) => x,
            Err(e) => return Err(e),
        };
        let (state_blob_arena, _) = match read_arena(rest) {
            Ok(x) => x,
            Err(e) => return Err(e),
        };
        Ok(EncodedArenas { peer_id_arena, container_arena, key_arena, deps_arena, state_blob_arena })
    }
}

/// A framed arena no longer than `MAX_DECODED_SIZE` reads back, followed by
/// whatever came after it.
pub proof fn lemma_arena_roundtrip(a: Seq<u8>, tail: Seq<u8>)
    requires
        a.len() <= MAX_DECODED_SIZE,
    ensures
        arena_read(arena_bytes(a) + tail) == Some((a, tail)),
{
    let e = uleb_encode(a.len());
    lemma_uleb_roundtrip(a.len() as u64, a + tail);
    assert(arena_bytes(a) + tail =~= e + (a + tail));
    let s = e + (a + tail);
    assert(s.subrange(e.len() as int, (e.len() + a.len()) as int) =~= a);
    assert(s.subrange((e.len() + a.len()) as int, s.len() as int) =~= tail);
}

/// Arenas no longer than `MAX_DECODED_SIZE` each read back from their
/// bytes, whatever follows them.
pub proof fn lemma_arenas_roundtrip(a: ArenasView, tail: Seq<u8>)
    requires
        a.peer_id_arena.len() <= MAX_DECODED_SIZE,
        a.container_arena.len() <= MAX_DECODED_SIZE,
        a.key_arena.len() <= MAX_DECODED_SIZE,
        a.deps_arena.len() <= MAX_DECODED_SIZE,
        a.state_blob_arena.len() <= MAX_DECODED_SIZE,
    ensures
        arenas_read(arenas_bytes(a) + tail) == Some(a),
{
    let b5 = arena_bytes(a.state_blob_arena) + tail;
    let b4 = arena_bytes(a.deps_arena) + b5;
    let b3 = arena_bytes(a.key_arena) + b4;
    let b2 = arena_bytes(a.container_arena) + b3;
    let b1 = arena_bytes(a.peer_id_arena) + b2;
    assert(arenas_bytes(a) + tail =~= b1);
    lemma_arena_roundtrip(a.peer_id_arena, b2);
    lemma_arena_roundtrip(a.container_arena, b3);
    lemma_arena_roundtrip(a.key_arena, b4);
    lemma_arena_roundtrip(a.deps_arena, b5);
    lemma_arena_roundtrip(a.state_blob_arena, tail);
}

} // verus!
