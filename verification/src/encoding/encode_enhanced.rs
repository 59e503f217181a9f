//! Pieces of the enhanced columnar format: the kind byte of a list op and
//! the encoded dependency (peer index and counter).
use vstd::prelude::*;
use crate::common::Counter;

verus! {

/// The kind of a list or text op in the enhanced format.
#[derive(Debug, Clone, Copy, PartialEq, Eq, Structural)]
pub enum Kind {
    Insert,
    Delete,
    TextAnchorStart,
    TextAnchorEnd,
}

/// The byte of a kind.
pub open spec fn kind_byte(k: Kind) -> u8 {
    match k {
        Kind::Insert => 0,
        Kind::Delete => 1,
        Kind::TextAnchorStart => 2,
        Kind::TextAnchorEnd => 3,
    }
}

impl Kind {
    /// The kind of a byte; only the bytes 0 to 3 name a kind.
    pub fn from_byte(byte: u8) -> (r: Kind)
        requires
            byte < 4,
        ensures
            kind_byte(r) == byte,
    {
        if byte == 0 {
            Kind::Insert
        } else if byte == 1 {
            Kind::Delete
        } else if byte == 2 {
            Kind::TextAnchorStart
        } else {
            Kind::TextAnchorEnd
        }
    }

    /// The byte of the kind.
    pub fn to_byte(&self) -> (r: u8)
        ensures
            r == kind_byte(*self),
    {
        match self {
            Kind::Insert => 0,
            Kind::Delete => 1,
            Kind::TextAnchorStart => 2,
            Kind::TextAnchorEnd => 3,
        }
    }
}

/// A kind survives the round trip through its byte, and the bytes 0 to 3
/// survive the round trip through their kind.
pub proof fn lemma_kind_byte_roundtrip(k: Kind, b: u8)
    ensures
        kind_byte(k) < 4,
        b < 4 ==> exists|j: Kind| kind_byte(j) == b,
        forall|j: Kind| kind_byte(j) == kind_byte(k) ==> j == k,
{
    if b < 4 {
        if b == 0 {
            assert(kind_byte(Kind::Insert) == b);
        } else if b == 1 {
            assert(kind_byte(Kind::Delete) == b);
        } else if b == 2 {
            assert(kind_byte(Kind::TextAnchorStart) == b);
        } else {
            assert(kind_byte(Kind::TextAnchorEnd) == b);
        }
    }
}

/// A dependency or tree id in the enhanced format: the index of its peer
/// and its counter.
#[derive(Debug, Clone, Copy, PartialEq, Eq, Structural)]
pub struct DepsEncoding {
    pub client_idx: u32,
    pub counter: Counter,
}

impl DepsEncoding {
    pub fn new(client_idx: u32, counter: Counter) -> (r: DepsEncoding)
        ensures
            r == (DepsEncoding { client_idx, counter }),
    {
        DepsEncoding { client_idx, counter }
    }
}

} // verus!
