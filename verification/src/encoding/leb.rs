//! LEB128 variable-length integers: the byte-level meaning of the encodings
//! produced and consumed by the `leb128` crate, and the calls into it.
use vstd::prelude::*;

verus! {

/// Unsigned LEB128 encoding of `v`: seven payload bits per byte, least
/// significant group first, the high bit set on every byte but the last.
pub open spec fn uleb_encode(v: nat) -> Seq<u8>
    decreases v,
{
    if v < 128 {
        seq![v as u8]
    } else {
        seq![((v % 128) + 128) as u8] + uleb_encode(v / 128)
    }
}

/// What `leb128::read::unsigned` yields when the byte at index `k` of `s` is
/// the next one it reads: the value contributed by bytes `k..` (relative to
/// byte `k`) and the index just past the terminating byte, or `None` when
/// the input ends first or the tenth byte would overflow 64 bits.
pub open spec fn uleb_read_from(s: Seq<u8>, k: nat) -> Option<(int, nat)>
    decreases s.len() - k,
{
    if k >= s.len() {
        None
    } else if k == 9 && s[k as int] != 0 && s[k as int] != 1 {
        None
    } else if s[k as int] < 128 {
        Some((s[k as int] as int, k + 1))
    } else {
        match uleb_read_from(s, k + 1) {
            Some((v, n)) => Some(((s[k as int] - 128) + 128 * v, n)),
            None => None,
        }
    }
}

/// Unsigned LEB128 decoding of a prefix of `s`: the value and the number of
/// bytes it occupies.
pub open spec fn uleb_read(s: Seq<u8>) -> Option<(int, nat)> {
    uleb_read_from(s, 0)
}

/// Signed LEB128 encoding of `v` (two's complement, sign carried in bit 6 of
/// the last byte).
pub open spec fn sleb_encode(v: int) -> Seq<u8>
    decreases (if v >= 0 { v } else { -v }),
{
    if v / 64 == 0 || v / 64 == -1 {
        seq![(v % 128) as u8]
    } else {
        proof {
            assert(v >= 64 || v < -64);
        }
        seq![((v % 128) + 128) as u8] + sleb_encode(v / 128)
    }
}

/// The raw payload of a signed LEB128 read starting at byte `k` (before
/// sign extension); the tenth byte must be 0x00 or 0x7f and only its lowest
/// bit lands inside the 64-bit result.
pub open spec fn sleb_raw_from(s: Seq<u8>, k: nat) -> Option<(int, nat)>
    decreases s.len() - k,
{
    if k >= s.len() {
        None
    } else if k == 9 && s[k as int] != 0 && s[k as int] != 0x7f {
        None
    } else if k == 9 {
        Some(((if s[k as int] == 0 { 0int } else { 1int }), k + 1))
    } else if s[k as int] < 128 {
        Some((s[k as int] as int, k + 1))
    } else {
        match sleb_raw_from(s, k + 1) {
            Some((v, n)) => Some(((s[k as int] - 128) + 128 * v, n)),
            None => None,
        }
    }
}

/// 128 to the power `n`.
pub open spec fn pow128(n: nat) -> int
    decreases n,
{
    if n == 0 {
        1
    } else {
        128 * pow128((n - 1) as nat)
    }
}

/// Signed LEB128 decoding of a prefix of `s`: the value and the number of
/// bytes it occupies, as `leb128::read::signed` computes them.
pub open spec fn sleb_read(s: Seq<u8>) -> Option<(int, nat)> {
    match sleb_raw_from(s, 0) {
        Some((raw, n)) => {
            if n < 10 {
                if s[n - 1] & 0x40 != 0 {
                    Some((raw - pow128(n), n))
                } else {
                    Some((raw, n))
                }
            } else if raw >= 0x8000_0000_0000_0000 {
                Some((raw - 0x1_0000_0000_0000_0000, n))
            } else {
                Some((raw, n))
            }
        },
        None => None,
    }
}

/// The error type of the `leb128` readers.
#[verifier::external_type_specification]
#[verifier::external_body]
pub struct ExLebReadError(leb128::read::Error);

/// Calls `leb128::write::unsigned` on a vector, which never fails there: it
/// appends the unsigned LEB128 bytes of `value` and returns their number.
#[verifier::external_body]
pub(crate) fn leb_write_unsigned(buffer: &mut Vec<u8>, value: u64) -> (n: usize)
    ensures
        final(buffer)@ == old(buffer)@ + uleb_encode(value as nat),
        n == uleb_encode(value as nat).len(),
{
    leb128::write::unsigned(buffer, value).unwrap()
}

/// Calls `leb128::write::signed` on a vector, which never fails there: it
/// appends the signed LEB128 bytes of `value` and returns their number.
#[verifier::external_body]
pub(crate) fn leb_write_signed(buffer: &mut Vec<u8>, value: i64) -> (n: usize)
    ensures
        final(buffer)@ == old(buffer)@ + sleb_encode(value as int),
        n == sleb_encode(value as int).len(),
{
    leb128::write::signed(buffer, value).unwrap()
}

/// Calls `leb128::read::unsigned` on a byte slice. On success it returns the
/// decoded value and leaves the slice just past the bytes read; on failure
/// (the input ended, or the number does not fit 64 bits) the slice is left
/// at some suffix of where it started.
#[verifier::external_body]
pub(crate) fn leb_read_unsigned(raw: &mut &[u8]) -> (res: Result<u64, leb128::read::Error>)
    ensures
        match uleb_read(old(raw)@) {
            Some((v, n)) => res is Ok && res->Ok_0 as int == v && final(raw)@ == old(raw)@.subrange(
                n as int,
                old(raw)@.len() as int,
            ),
            None => res is Err && final(raw)@.len() <= old(raw)@.len() && final(raw)@ == old(
                raw,
            )@.subrange(old(raw)@.len() - final(raw)@.len(), old(raw)@.len() as int),
        },
{
    leb128::read::unsigned(raw)
}

/// Calls `leb128::read::signed` on a byte slice, with the same contract as
/// `leb_read_unsigned` over the signed decoding.
#[verifier::external_body]
pub(crate) fn leb_read_signed(raw: &mut &[u8]) -> (res: Result<i64, leb128::read::Error>)
    ensures
        match sleb_read(old(raw)@) {
            Some((v, n)) => res is Ok && res->Ok_0 as int == v && final(raw)@ == old(raw)@.subrange(
                n as int,
                old(raw)@.len() as int,
            ),
            None => res is Err && final(raw)@.len() <= old(raw)@.len() && final(raw)@ == old(
                raw,
            )@.subrange(old(raw)@.len() - final(raw)@.len(), old(raw)@.len() as int),
        },
{
    leb128::read::signed(raw)
}

/// A successful unsigned read starting at byte `k` ends past `k` and
/// within the input.
pub proof fn lemma_uleb_read_from_len(s: Seq<u8>, k: nat)
    ensures
        uleb_read_from(s, k) matches Some((v, n)) ==> k < n <= s.len() && v >= 0,
    decreases s.len() - k,
{
    if k < s.len() && !(k == 9 && s[k as int] != 0 && s[k as int] != 1) && s[k as int] >= 128 {
        lemma_uleb_read_from_len(s, k + 1);
    }
}

/// A successful unsigned read consumes at least one byte of the input.
pub proof fn lemma_uleb_read_len(s: Seq<u8>)
    ensures
        uleb_read(s) matches Some((v, n)) ==> 0 < n <= s.len() && v >= 0,
{
    lemma_uleb_read_from_len(s, 0);
}

proof fn lemma_sleb_raw_from_len(s: Seq<u8>, k: nat)
    ensures
        sleb_raw_from(s, k) matches Some((v, n)) ==> k < n <= s.len(),
    decreases s.len() - k,
{
    if k < s.len() && !(k == 9 && s[k as int] != 0 && s[k as int] != 0x7f) && k != 9 && s[k as int]
        >= 128 {
        lemma_sleb_raw_from_len(s, k + 1);
    }
}

/// A successful signed read consumes at least one byte of the input.
pub proof fn lemma_sleb_read_len(s: Seq<u8>)
    ensures
        sleb_read(s) matches Some((v, n)) ==> 0 < n <= s.len(),
{
    lemma_sleb_raw_from_len(s, 0);
}

/// The largest value whose encoding, started at byte `k`, still fits the
/// ten bytes a reader accepts (plus one).
pub open spec fn uleb_room(k: nat) -> int
    decreases 9 - k,
{
    if k >= 9 {
        2
    } else {
        128 * uleb_room(k + 1)
    }
}

pub proof fn lemma_uleb_room_top()
    ensures
        uleb_room(0) == 0x1_0000_0000_0000_0000,
{
    reveal_with_fuel(uleb_room, 10);
}

/// The encoding of `v` placed at byte `k` of `s` reads back as `v`.
pub proof fn lemma_uleb_read_encode_at(s: Seq<u8>, k: nat, v: nat)
    requires
        k <= 9,
        v < uleb_room(k),
        k + uleb_encode(v).len() <= s.len(),
        s.subrange(k as int, (k + uleb_encode(v).len()) as int) == uleb_encode(v),
    ensures
        uleb_read_from(s, k) == Some((v as int, k + uleb_encode(v).len())),
    decreases v,
{
    let e = uleb_encode(v);
    assert(s[k as int] == s.subrange(k as int, (k + e.len()) as int)[0]);
    if v < 128 {
        assert(e == seq![v as u8]);
        if k == 9 {
            assert(uleb_room(9) == 2);
        }
    } else {
        if k >= 9 {
            assert(uleb_room(k) == 2);
            assert(false);
        }
        assert(uleb_room(k) == 128 * uleb_room(k + 1));
        let tail = uleb_encode(v / 128);
        assert(e == seq![((v % 128) + 128) as u8] + tail);
        assert(v / 128 < uleb_room(k + 1));
        assert(s.subrange((k + 1) as int, (k + 1 + tail.len()) as int) =~= tail) by {
            assert forall|i: int| 0 <= i < tail.len() implies s.subrange(
                (k + 1) as int,
                (k + 1 + tail.len()) as int,
            )[i] == tail[i] by {
                assert(s.subrange(k as int, (k + e.len()) as int)[i + 1] == e[i + 1]);
            }
        }
        lemma_uleb_read_encode_at(s, k + 1, v / 128);
        assert(s[k as int] == ((v % 128) + 128) as u8);
    }
}

/// Reading the unsigned encoding of a 64-bit value, followed by anything,
/// gives back the value and the length of its encoding.
pub proof fn lemma_uleb_roundtrip(v: u64, tail: Seq<u8>)
    ensures
        uleb_read(uleb_encode(v as nat) + tail) == Some((v as int, uleb_encode(v as nat).len())),
{
    lemma_uleb_room_top();
    let e = uleb_encode(v as nat);
    let s = e + tail;
    assert(s.subrange(0, e.len() as int) =~= e);
    lemma_uleb_read_encode_at(s, 0, v as nat);
}

proof fn lemma_pow128_step(n: nat)
    requires
        n >= 1,
    ensures
        pow128(n) == 128 * pow128((n - 1) as nat),
        pow128(n) > 0,
    decreases n,
{
    if n > 1 {
        lemma_pow128_step((n - 1) as nat);
    }
}

proof fn lemma_pow128_pos(n: nat)
    ensures
        pow128(n) >= 1,
    decreases n,
{
    if n > 0 {
        lemma_pow128_pos((n - 1) as nat);
    }
}

/// The signed encoding of `w` placed at byte `k` of `s` reads back as `w`
/// (before sign extension), provided `w` fits what the bytes from `k` on
/// can hold; it ends by the tenth byte, and its last byte carries the sign
/// in bit 6 unless it is the tenth.
proof fn lemma_sleb_read_encode_at(s: Seq<u8>, k: nat, w: int)
    requires
        k <= 9,
        -pow128((9 - k) as nat) <= w < pow128((9 - k) as nat),
        k + sleb_encode(w).len() <= s.len(),
        s.subrange(k as int, (k + sleb_encode(w).len()) as int) == sleb_encode(w),
    ensures
        k + sleb_encode(w).len() <= 10,
        sleb_encode(w).len() >= 1,
        k + sleb_encode(w).len() < 10 ==> sleb_raw_from(s, k) == Some(
            (w + (if w < 0 {
                pow128(sleb_encode(w).len())
            } else {
                0
            }), k + sleb_encode(w).len()),
        ),
        k + sleb_encode(w).len() == 10 ==> sleb_raw_from(s, k) == Some(
            (w + (if w < 0 {
                2 * pow128((sleb_encode(w).len() - 1) as nat)
            } else {
                0
            }), k + sleb_encode(w).len()),
        ),
        k + sleb_encode(w).len() < 10 ==> ((s[k + sleb_encode(w).len() - 1] & 0x40 != 0) <==> w
            < 0),
    decreases 9 - k,
{
    let e = sleb_encode(w);
    lemma_pow128_pos((9 - k) as nat);
    assert(s[k as int] == s.subrange(k as int, (k + e.len()) as int)[0]);
    if w / 64 == 0 || w / 64 == -1 {
        assert(-64 <= w < 64);
        let b: u8 = (w % 128) as u8;
        assert(e == seq![b]);
        if w >= 0 {
            assert(b == w);
            assert(b < 64);
            assert(b & 0x40 == 0) by (bit_vector)
                requires
                    b < 64,
            ;
        } else {
            assert(b == w + 128);
            assert(64 <= b < 128);
            assert(b & 0x40 != 0) by (bit_vector)
                requires
                    64 <= b < 128,
            ;
        }
        if k == 9 {
            assert(pow128(0) == 1);
            assert(-1 <= w < 1);
            assert(pow128(0) == 1);
        } else {
            assert(pow128(1) == 128) by {
                reveal_with_fuel(pow128, 2);
            }
        }
    } else {
        assert(w >= 64 || w < -64);
        if k == 9 {
            assert(pow128(0) == 1);
            assert(false);
        }
        let w2 = w / 128;
        let tail = sleb_encode(w2);
        let b: u8 = ((w % 128) + 128) as u8;
        assert(e == seq![b] + tail);
        lemma_pow128_step((9 - k) as nat);
        assert(-pow128((8 - k) as nat) <= w2 < pow128((8 - k) as nat));
        assert(s.subrange((k + 1) as int, (k + 1 + tail.len()) as int) =~= tail) by {
            assert forall|i: int| 0 <= i < tail.len() implies s.subrange(
                (k + 1) as int,
                (k + 1 + tail.len()) as int,
            )[i] == tail[i] by {
                assert(s.subrange(k as int, (k + e.len()) as int)[i + 1] == e[i + 1]);
            }
        }
        lemma_sleb_read_encode_at(s, k + 1, w2);
        assert(s[k as int] == b);
        assert(b >= 128);
        assert(w == 128 * w2 + w % 128);
        lemma_pow128_step(e.len());
        if k + e.len() == 10 {
            lemma_pow128_step((e.len() - 1) as nat);
        }
        assert(s[k + e.len() - 1] == s[k + 1 + tail.len() - 1]);
    }
}

/// Reading the signed encoding of a 64-bit value, followed by anything,
/// gives back the value and the length of its encoding.
pub proof fn lemma_sleb_roundtrip(v: i64, tail: Seq<u8>)
    ensures
        sleb_read(sleb_encode(v as int) + tail) == Some((v as int, sleb_encode(v as int).len())),
{
    let e = sleb_encode(v as int);
    let s = e + tail;
    assert(pow128(9) == 0x8000_0000_0000_0000) by {
        reveal_with_fuel(pow128, 10);
    }
    assert(s.subrange(0, e.len() as int) =~= e);
    lemma_sleb_read_encode_at(s, 0, v as int);
    let n = e.len();
    if n == 10 {
        assert(pow128(9) == 0x8000_0000_0000_0000);
    } else {
        assert(s[n - 1] == e[n - 1]);
    }
}

} // verus!
