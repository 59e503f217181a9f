//! Value kinds of the forward-compatible encoding, and the interface of a
//! value that encodes itself.
use vstd::prelude::*;

verus! {

/// The kinds of values the forward-compatible encoding knows.
#[derive(Debug, Clone, Copy, PartialEq, Eq, Structural)]
pub enum BasicValueKind {
    Null,
    True,
    False,
    I64,
    F64,
    Str,
    DeltaInt,
    Array,
    Mapping,
    Binary,
    ContainerType,
    DeleteOnce,
    DeleteSeq,
    MarkStart,
    TreeMove,
    Unknown,
}

/// The number of each kind: the kinds in order from 0, and `Unknown` past
/// every byte.
pub open spec fn basic_value_kind_code(k: BasicValueKind) -> u32 {
    match k {
        BasicValueKind::Null => 0,
        BasicValueKind::True => 1,
        BasicValueKind::False => 2,
        BasicValueKind::I64 => 3,
        BasicValueKind::F64 => 4,
        BasicValueKind::Str => 5,
        BasicValueKind::DeltaInt => 6,
        BasicValueKind::Array => 7,
        BasicValueKind::Mapping => 8,
        BasicValueKind::Binary => 9,
        BasicValueKind::ContainerType => 10,
        BasicValueKind::DeleteOnce => 11,
        BasicValueKind::DeleteSeq => 12,
        BasicValueKind::MarkStart => 13,
        BasicValueKind::TreeMove => 14,
        BasicValueKind::Unknown => 65536,
    }
}

impl BasicValueKind {
    /// The number of the kind.
    pub fn code(&self) -> (r: u32)
        ensures
            r == basic_value_kind_code(*self),
    {
        match self {
            BasicValueKind::Null => 0,
            BasicValueKind::True => 1,
            BasicValueKind::False => 2,
            BasicValueKind::I64 => 3,
            BasicValueKind::F64 => 4,
            BasicValueKind::Str => 5,
            BasicValueKind::DeltaInt => 6,
            BasicValueKind::Array => 7,
            BasicValueKind::Mapping => 8,
            BasicValueKind::Binary => 9,
            BasicValueKind::ContainerType => 10,
            BasicValueKind::DeleteOnce => 11,
            BasicValueKind::DeleteSeq => 12,
            BasicValueKind::MarkStart => 13,
            BasicValueKind::TreeMove => 14,
            BasicValueKind::Unknown => 65536,
        }
    }
}

/// Kinds beyond the basic ones.
#[derive(Debug, Clone, Copy, PartialEq, Eq, Structural)]
pub enum ExtraValueKind {
    Unknown,
}

/// A value that knows its encoded length and encodes and decodes itself.
pub trait ValueEncode: Sized {
    fn bytes_len(&self) -> usize;

    fn decode(bytes: &[u8]) -> Self;

    fn encode(&self, bytes: &mut Vec<u8>);
}

} // verus!
