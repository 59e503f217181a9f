//! The framing of a fast snapshot: three sections (the op log, the state,
//! and the state at the shallow root), each preceded by its length as a
//! little-endian u32. A missing state is written as the one-byte mark `E`.
use vstd::prelude::*;
use crate::common::{LoroError, LoroResult};

verus! {

/// The mark written in place of a missing state: the byte `E`.
pub open spec fn empty_mark() -> Seq<u8> {
    seq![69u8]
}

/// The sections of a snapshot.
pub struct Snapshot {
    pub oplog_bytes: Vec<u8>,
    pub state_bytes: Option<Vec<u8>>,
    pub shallow_root_state_bytes: Vec<u8>,
}

/// The abstract sections of a snapshot.
pub struct SnapshotView {
    pub oplog_bytes: Seq<u8>,
    pub state_bytes: Option<Seq<u8>>,
    pub shallow_root_state_bytes: Seq<u8>,
}

impl View for Snapshot {
    type V = SnapshotView;

    open spec fn view(&self) -> SnapshotView {
        SnapshotView {
            oplog_bytes: self.oplog_bytes@,
            state_bytes: match &self.state_bytes {
                Some(b) => Some(b@),
                None => None,
            },
            shallow_root_state_bytes: self.shallow_root_state_bytes@,
        }
    }
}

/// The four little-endian bytes of a u32.
pub open spec fn u32_le(v: u32) -> Seq<u8> {
    seq![v as u8, (v >> 8) as u8, (v >> 16) as u8, (v >> 24) as u8]
}

/// The u32 of four little-endian bytes.
pub open spec fn le_word(s: Seq<u8>) -> u32 {
    (s[0] as u32) | ((s[1] as u32) << 8) | ((s[2] as u32) << 16) | ((s[3] as u32) << 24)
}

/// The bytes written for the state section.
pub open spec fn state_section(s: SnapshotView) -> Seq<u8> {
    match s.state_bytes {
        Some(b) => b,
        None => empty_mark(),
    }
}

/// The framed bytes of one section (its length cut to 32 bits).
pub open spec fn section_bytes(b: Seq<u8>) -> Seq<u8> {
    u32_le(b.len() as u32) + b
}

/// The bytes of a snapshot.
pub open spec fn snapshot_bytes(s: SnapshotView) -> Seq<u8> {
    section_bytes(s.oplog_bytes) + section_bytes(state_section(s)) + section_bytes(
        s.shallow_root_state_bytes,
    )
}

/// Reads one framed section from the front of `s`: the section and the
/// bytes after it, or `None` when the length or the section is cut short.
pub open spec fn section_read(s: Seq<u8>) -> Option<(Seq<u8>, Seq<u8>)> {
    if s.len() < 4 {
        None
    } else {
        let len = le_word(s) as usize;
        let r = s.subrange(4, s.len() as int);
        if r.len() < len {
            None
        } else {
            Some((r.subrange(0, len as int), r.subrange(len as int, r.len() as int)))
        }
    }
}

/// Reads a snapshot: three sections and nothing after them; a state
/// section equal to the mark stands for a missing state.
pub open spec fn snapshot_read(s: Seq<u8>) -> Option<SnapshotView> {
    match section_read(s) {
        None => None,
        Some((oplog, r1)) => match section_read(r1) {
            None => None,
            Some((state, r2)) => match section_read(r2) {
                None => None,
                Some((shallow, r3)) => if r3.len() > 0 {
                    None
                } else {
                    Some(
                        SnapshotView {
                            oplog_bytes: oplog,
                            state_bytes: if state == empty_mark() {
                                None
                            } else {
                                Some(state)
                            },
                            shallow_root_state_bytes: shallow,
                        },
                    )
                },
            },
        },
    }
}

/// The length of a snapshot's bytes, when every section's length fits 32
/// bits and the total fits a `usize`.
pub open spec fn snapshot_len(s: SnapshotView) -> Option<usize> {
    let total = 12 + s.oplog_bytes.len() + state_section(s).len() + s.shallow_root_state_bytes.len();
    if s.oplog_bytes.len() > u32::MAX || state_section(s).len() > u32::MAX
        || s.shallow_root_state_bytes.len() > u32::MAX || total > usize::MAX {
        None
    } else {
        Some(total as usize)
    }
}

proof fn lemma_le_roundtrip(v: u32)
    ensures
        le_word(u32_le(v)) == v,
{
    let s = u32_le(v);
    assert(s[0] == v as u8 && s[1] == (v >> 8) as u8 && s[2] == (v >> 16) as u8 && s[3] == (v >> 24) as u8);
    assert(((v as u8) as u32) | ((((v >> 8) as u8) as u32) << 8) | ((((v >> 16) as u8) as u32) << 16) | ((
    ((v >> 24) as u8) as u32) << 24) == v) by (bit_vector);
}

/// Appends four little-endian bytes of `v`.
fn write_u32_le(w: &mut Vec<u8>, v: u32)
    ensures
        final(w)@ == old(w)@ + u32_le(v),
{
    w.push(v as u8);
    w.push((v >> 8) as u8);
    w.push((v >> 16) as u8);
    w.push((v >> 24) as u8);
    assert(w@ =~= old(w)@ + u32_le(v));
}

/// Appends bytes.
fn write_all(w: &mut Vec<u8>, bytes: &[u8])
    ensures
        final(w)@ == old(w)@ + bytes@,
{
    let mut i: usize = 0;
    while i < bytes.len()
        invariant
            i <= bytes.len(),
            w@ == old(w)@ + bytes@.take(i as int),
        decreases bytes.len() - i,
    {
        w.push(bytes[i]);
        i += 1;
        assert(w@ =~= old(w)@ + bytes@.take(i as int));
    }
    assert(bytes@.take(bytes.len() as int) =~= bytes@);
}

impl Snapshot {
    /// The length of the snapshot's bytes, or `None` when a section is too
    /// long for its 32-bit length or the total does not fit a `usize`.
    pub fn encoded_len(&self) -> (r: Option<usize>)
        ensures
            r == snapshot_len(self@),
    {
        let state_len = match &self.state_bytes {
            Some(b) => b.len(),
            None => 1,
        };
        if self.oplog_bytes.len() as u64 > u32::MAX as u64 {
            return None;
        }
        if state_len as u64 > u32::MAX as u64 {
            return None;
        }
        if self.shallow_root_state_bytes.len() as u64 > u32::MAX as u64 {
            return None;
        }
        let a = match 12usize.checked_add(self.oplog_bytes.len()) {
            Some(x) => x,
            None => return None,
        };
        let b = match a.checked_add(state_len) {
            Some(x) => x,
            None => return None,
        };
        b.checked_add(self.shallow_root_state_bytes.len())
    }
}

/// Writes a snapshot's bytes (see `snapshot_bytes`).
pub fn _encode_snapshot(s: &Snapshot, w: &mut Vec<u8>)
    ensures
        final(w)@ == old(w)@ + snapshot_bytes(s@),
{
    write_u32_le(w, s.oplog_bytes.len() as u32);
    write_all(w, s.oplog_bytes.as_slice());
    let mark: [u8; 1] = [69u8];
    let state_bytes: &[u8] = match &s.state_bytes {
        Some(b) => b.as_slice(),
        None => &mark,
    };
    assert(state_bytes@ == state_section(s@)) by {
        if s.state_bytes is None {
            assert(mark@ =~= empty_mark());
        }
    }
    write_u32_le(w, state_bytes.len() as u32);
    write_all(w, state_bytes);
    write_u32_le(w, s.shallow_root_state_bytes.len() as u32);
    write_all(w, s.shallow_root_state_bytes.as_slice());
    assert(w@ =~= old(w)@ + snapshot_bytes(s@));
}

/// Reads a little-endian u32 from the front of `r`; a short input is a
/// framing error.
fn read_u32_le(r: &mut &[u8]) -> (v: LoroResult<u32>)
    ensures
        old(r)@.len() < 4 ==> v == Err::<u32, LoroError>(LoroError::DecodeError),
        old(r)@.len() >= 4 ==> v == Ok::<u32, LoroError>(le_word(old(r)@)) && final(r)@ == old(r)@.subrange(
            4,
            old(r)@.len() as int,
        ),
{
    if r.len() < 4 {
        return Err(LoroError::DecodeError);
    }
    let s: &[u8] = *r;
    let v = (s[0] as u32) | ((s[1] as u32) << 8) | ((s[2] as u32) << 16) | ((s[3] as u32) << 24);
    *r = &s[4..s.len()];
    Ok(v)
}

/// Reads a little-endian u32 from the front of `r`; a short input is
/// corrupted data.
fn read_u32_le_slice(r: &mut &[u8]) -> (v: LoroResult<u32>)
    ensures
        old(r)@.len() < 4 ==> v == Err::<u32, LoroError>(LoroError::DecodeDataCorruptionError),
        old(r)@.len() >= 4 ==> v == Ok::<u32, LoroError>(le_word(old(r)@)) && final(r)@ == old(r)@.subrange(
            4,
            old(r)@.len() as int,
        ),
{
    if r.len() < 4 {
        return Err(LoroError::DecodeDataCorruptionError);
    }
    let s: &[u8] = *r;
    let v = (s[0] as u32) | ((s[1] as u32) << 8) | ((s[2] as u32) << 16) | ((s[3] as u32) << 24);
    *r = &s[4..s.len()];
    Ok(v)
}

/// Reads one framed section for `_decode_snapshot_bytes`.
fn read_section<'b>(r: &mut &'b [u8]) -> (v: LoroResult<&'b [u8]>)
    ensures
        match section_read(old(r)@) {
            Some((b, rest)) => v is Ok && v->Ok_0@ == b && final(r)@ == rest,
            None => v == Err::<&'b [u8], LoroError>(LoroError::DecodeError),
        },
{
    let ghost o = r@;
    let len = match read_u32_le(r) {
        Ok(x) => x as usize,
        Err(e) => return Err(e),
    };
    let s: &'b [u8] = *r;
    if s.len() < len {
        return Err(LoroError::DecodeError);
    }
    let section = &s[0..len];
    *r = &s[len..s.len()];
    Ok(section)
}

/// Reads a snapshot (see `snapshot_read`); broken framing is a
/// `DecodeError`.
pub fn _decode_snapshot_bytes(bytes: &[u8]) -> (r: LoroResult<Snapshot>)
    ensures
        match snapshot_read(bytes@) {
            Some(s) => r is Ok && r->Ok_0@ == s,
            None => r == Err::<Snapshot, LoroError>(LoroError::DecodeError),
        },
{
    let mut r: &[u8] = bytes;
    let oplog = match read_section(&mut r) {
        Ok(x) => x,
        Err(e) => return Err(e),
    };
    let state = match read_section(&mut r) {
        Ok(x) => x,
        Err(e) => return Err(e),
    };
    let shallow = match read_section(&mut r) {
        Ok(x) => x,
        Err(e) => return Err(e),
    };
    if r.len() > 0 {
        return Err(LoroError::DecodeError);
    }
    let is_mark = state.len() == 1 && state[0] == 69u8;
    assert(is_mark == (state@ == empty_mark())) by {
        if state@.len() == 1 && state@[0] == 69u8 {
            assert(state@ =~= empty_mark());
        }
    }
    let state_bytes = if is_mark {
        None
    } else {
        Some(vstd::slice::slice_to_vec(state))
    };
    Ok(Snapshot {
        oplog_bytes: vstd::slice::slice_to_vec(oplog),
        state_bytes,
        shallow_root_state_bytes: vstd::slice::slice_to_vec(shallow),
    })
}

/// Reads just enough of a snapshot to find its op log and whether it has
/// a shallow root state; the framing must be whole, with nothing after it.
pub open spec fn meta_partial_read(s: Seq<u8>) -> Option<(Seq<u8>, bool)> {
    match snapshot_read(s) {
        None => None,
        Some(v) => Some((v.oplog_bytes, v.shallow_root_state_bytes.len() > 0)),
    }
}

/// The op-log section of a snapshot, and whether it has a shallow root
/// state; broken framing is corrupted data.
pub fn _decode_snapshot_meta_partial(bytes: &[u8]) -> (r: LoroResult<(&[u8], bool)>)
    ensures
        match meta_partial_read(bytes@) {
            Some((oplog, has_shallow)) => r is Ok && r->Ok_0.0@ == oplog && r->Ok_0.1 == has_shallow,
            None => r == Err::<(&[u8], bool), LoroError>(LoroError::DecodeDataCorruptionError),
        },
{
    let mut r: &[u8] = bytes;
    let oplog_bytes_len = match read_u32_le_slice(&mut r) {
        Ok(x) => x as usize,
        Err(e) => return Err(e),
    };
    if r.len() < oplog_bytes_len {
        return Err(LoroError::DecodeDataCorruptionError);
    }
    let oplog_bytes = &r[0..oplog_bytes_len];
    r = &r[oplog_bytes_len..r.len()];
    let state_bytes_len = match read_u32_le_slice(&mut r) {
        Ok(x) => x as usize,
        Err(e) => return Err(e),
    };
    if r.len() < state_bytes_len {
        return Err(LoroError::DecodeDataCorruptionError);
    }
    r = &r[state_bytes_len..r.len()];
    let shallow_bytes_len = match read_u32_le_slice(&mut r) {
        Ok(x) => x as usize,
        Err(e) => return Err(e),
    };
    if r.len() < shallow_bytes_len {
        return Err(LoroError::DecodeDataCorruptionError);
    }
    r = &r[shallow_bytes_len..r.len()];
    if r.len() > 0 {
        return Err(LoroError::DecodeDataCorruptionError);
    }
    Ok((oplog_bytes, shallow_bytes_len > 0))
}

/// A section no longer than `u32::MAX` reads back, followed by the rest.
proof fn lemma_section_roundtrip(b: Seq<u8>, tail: Seq<u8>)
    requires
        b.len() <= u32::MAX,
    ensures
        section_read(section_bytes(b) + tail) == Some((b, tail)),
{
    let s = section_bytes(b) + tail;
    lemma_le_roundtrip(b.len() as u32);
    assert(s.subrange(0, 4) =~= u32_le(b.len() as u32));
    assert(le_word(s) == le_word(u32_le(b.len() as u32)));
    let r = s.subrange(4, s.len() as int);
    assert(r =~= b + tail);
    assert(r.subrange(0, b.len() as int) =~= b);
    assert(r.subrange(b.len() as int, r.len() as int) =~= tail);
}

/// A snapshot whose sections fit their 32-bit lengths reads back from its
/// bytes, except that a state equal to the mark reads back as missing; and
/// its encoded length is the length of those bytes.
pub proof fn lemma_snapshot_roundtrip(s: SnapshotView)
    requires
        s.oplog_bytes.len() <= u32::MAX,
        state_section(s).len() <= u32::MAX,
        s.shallow_root_state_bytes.len() <= u32::MAX,
        s.state_bytes != Some(empty_mark()),
    ensures
        snapshot_read(snapshot_bytes(s)) == Some(s),
        meta_partial_read(snapshot_bytes(s)) == Some((s.oplog_bytes, s.shallow_root_state_bytes.len() > 0)),
        snapshot_len(s) is Some ==> snapshot_len(s) == Some(snapshot_bytes(s).len() as usize),
{
    let a = s.oplog_bytes;
    let b = state_section(s);
    let c = s.shallow_root_state_bytes;
    let empty = Seq::<u8>::empty();
    lemma_section_roundtrip(a, section_bytes(b) + section_bytes(c));
    lemma_section_roundtrip(b, section_bytes(c));
    lemma_section_roundtrip(c, empty);
    assert(section_bytes(c) + empty =~= section_bytes(c));
    assert(snapshot_bytes(s) =~= section_bytes(a) + (section_bytes(b) + section_bytes(c)));
    if s.state_bytes is None {
        assert(b == empty_mark());
    }
}

} // verus!
