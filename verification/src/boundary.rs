//! Byte boundary sanitizer for streaming UTF-8 output.
//!
//! A reader loop receives raw bytes in arbitrary chunks, so a multi-byte
//! UTF-8 unit may be split across chunks.  [`find_utf8_boundary`] returns
//! the length of the longest prefix of the pending bytes that contains no
//! truncated trailing unit; the remainder is held back until more bytes
//! arrive.

use vstd::prelude::*;
use vstd::utf8::*;

verus! {

/// Number of bytes that a UTF-8 unit beginning with `b` declares through
/// its leading bits.  Bytes that cannot begin a unit (continuation bytes
/// and bytes above 0xf7) count as a single byte.
pub open spec fn declared_unit_len(b: u8) -> int {
    if b < 0x80 {
        1
    } else if b < 0xc0 {
        1
    } else if b < 0xe0 {
        2
    } else if b < 0xf0 {
        3
    } else if b < 0xf8 {
        4
    } else {
        1
    }
}

/// Length of the longest prefix of `s` that is a valid UTF-8 encoding
/// of a sequence of scalars.
pub open spec fn utf8_valid_prefix_len(s: Seq<u8>) -> int
    decreases s.len(),
{
    if s.len() == 0 {
        0
    } else if valid_first_scalar(s) {
        length_of_first_scalar(s) + utf8_valid_prefix_len(s.skip(length_of_first_scalar(s)))
    } else {
        0
    }
}

/// The boundary chosen by the sanitizer: scan back at most three bytes
/// for a unit-start byte; if its declared length is complete, the whole
/// buffer may be emitted, otherwise everything before that start byte.
/// If the window holds only continuation bytes, fall back to the length
/// of the longest valid prefix.
pub open spec fn boundary_of(s: Seq<u8>) -> int {
    let n = s.len() as int;
    if n == 0 {
        0
    } else if !is_continuation_byte(s[n - 1]) {
        if declared_unit_len(s[n - 1]) <= 1 {
            n
        } else {
            n - 1
        }
    } else if n >= 2 && !is_continuation_byte(s[n - 2]) {
        if declared_unit_len(s[n - 2]) <= 2 {
            n
        } else {
            n - 2
        }
    } else if n >= 3 && !is_continuation_byte(s[n - 3]) {
        if declared_unit_len(s[n - 3]) <= 3 {
            n
        } else {
            n - 3
        }
    } else {
        utf8_valid_prefix_len(s)
    }
}

pub proof fn lemma_valid_prefix_len_le(s: Seq<u8>)
    ensures
        0 <= utf8_valid_prefix_len(s) <= s.len(),
    decreases s.len(),
{
    if s.len() != 0 && valid_first_scalar(s) {
        let k = length_of_first_scalar(s);
        lemma_valid_prefix_len_le(s.skip(k));
    }
}

/// The boundary never exceeds the buffer length.
pub proof fn lemma_boundary_in_range(s: Seq<u8>)
    ensures
        0 <= boundary_of(s) <= s.len(),
{
    lemma_valid_prefix_len_le(s);
}

fn is_continuation(b: u8) -> (r: bool)
    ensures
        r == is_continuation_byte(b),
{
    0x80 <= b && b <= 0xbf
}

fn unit_len(b: u8) -> (r: usize)
    ensures
        r as int == declared_unit_len(b),
{
    if b < 0x80 {
        1
    } else if b < 0xc0 {
        1
    } else if b < 0xe0 {
        2
    } else if b < 0xf0 {
        3
    } else if b < 0xf8 {
        4
    } else {
        1
    }
}

/// If the bytes starting at `i` begin with a well-formed encoding of a
/// single scalar, returns its length in bytes and the scalar value;
/// otherwise `None`.
pub(crate) fn scalar_at(bytes: &[u8], i: usize) -> (r: Option<(usize, u32)>)
    requires
        i <= bytes@.len(),
    ensures
        match r {
            Some(kv) => {
                &&& valid_first_scalar(bytes@.skip(i as int))
                &&& kv.0 as int == length_of_first_scalar(bytes@.skip(i as int))
                &&& i + kv.0 <= bytes@.len()
                &&& kv.1 == decode_first_scalar(bytes@.skip(i as int))
                &&& is_scalar(kv.1)
            },
            None => !valid_first_scalar(bytes@.skip(i as int)),
        },
{
    let ghost s = bytes@.skip(i as int);
    let n = bytes.len();
    if i >= n {
        return None;
    }
    let b0 = bytes[i];
    assert(s[0] == b0);
    if b0 < 0x80 {
        let v = b0 as u32;
        assert((b0 & 0x7f) == b0 && b0 < 0x80) by (bit_vector)
            requires
                b0 < 0x80,
        ;
        Some((1, v))
    } else if b0 < 0xc2 {
        if b0 < 0xc0 {
            // continuation byte in leading position
            None
        } else {
            // 0xc0 / 0xc1 would always be an overlong 2-byte encoding
            proof {
                if valid_first_scalar(s) {
                    let b1 = s[1];
                    assert((((b0 & 0x1f) as u32) << 6 | ((b1 & 0x3f) as u32)) < 0x80u32)
                        by (bit_vector)
                        requires
                            0xc0 <= b0 < 0xc2,
                    ;
                }
            }
            None
        }
    } else if b0 < 0xe0 {
        if i + 1 < n && is_continuation(bytes[i + 1]) {
            let b1 = bytes[i + 1];
            let v = ((b0 & 0x1f) as u32) << 6 | ((b1 & 0x3f) as u32);
            proof {
                assert(0x80u32 <= (((b0 & 0x1f) as u32) << 6 | ((b1 & 0x3f) as u32))
                    < 0x800u32) by (bit_vector)
                    requires
                        0xc2 <= b0 < 0xe0,
                ;
            }
            Some((2, v))
        } else {
            None
        }
    } else if b0 < 0xf0 {
        if n - i > 2 && is_continuation(bytes[i + 1]) && is_continuation(bytes[i + 2]) && !(b0
            == 0xe0 && bytes[i + 1] < 0xa0) && !(b0 == 0xed && bytes[i + 1] >= 0xa0) {
            let b1 = bytes[i + 1];
            let b2 = bytes[i + 2];
            let v = (((b0 & 0x0f) as u32) << 12) | (((b1 & 0x3f) as u32) << 6) | ((b2
                & 0x3f) as u32);
            proof {
                assert(0x800 <= v < 0x10000 && !(0xd800 <= v <= 0xdfff)) by (bit_vector)
                    requires
                        0xe0 <= b0 < 0xf0,
                        0x80 <= b1 <= 0xbf,
                        !(b0 == 0xe0 && b1 < 0xa0),
                        !(b0 == 0xed && b1 >= 0xa0),
                        v == (((b0 & 0x0f) as u32) << 12) | (((b1 & 0x3f) as u32) << 6) | ((b2
                            & 0x3f) as u32),
                ;
            }
            Some((3, v))
        } else {
            proof {
                if valid_first_scalar(s) {
                    let b1 = s[1];
                    let b2 = s[2];
                    if n - i > 2 && is_continuation_byte(b1) && is_continuation_byte(b2) {
                        let v = (((b0 & 0x0f) as u32) << 12) | (((b1 & 0x3f) as u32) << 6) | ((b2
                            & 0x3f) as u32);
                        assert(((b0 == 0xe0 && b1 < 0xa0) ==> v < 0x800) && ((b0 == 0xed && b1
                            >= 0xa0 && b1 <= 0xbf) ==> (0xd800 <= v <= 0xdfff))) by (bit_vector)
                            requires
                                0x80 <= b1 <= 0xbf,
                                v == (((b0 & 0x0f) as u32) << 12) | (((b1 & 0x3f) as u32) << 6)
                                    | ((b2 & 0x3f) as u32),
                        ;
                    }
                }
            }
            None
        }
    } else if b0 < 0xf5 {
        if n - i > 3 && is_continuation(bytes[i + 1]) && is_continuation(bytes[i + 2])
            && is_continuation(bytes[i + 3]) && !(b0 == 0xf0 && bytes[i + 1] < 0x90) && !(b0 == 0xf4
            && bytes[i + 1] >= 0x90) {
            let b1 = bytes[i + 1];
            let b2 = bytes[i + 2];
            let b3 = bytes[i + 3];
            let v = (((b0 & 0x07) as u32) << 18) | (((b1 & 0x3f) as u32) << 12) | (((b2
                & 0x3f) as u32) << 6) | ((b3 & 0x3f) as u32);
            proof {
                assert(0x10000 <= v <= 0x10ffff) by (bit_vector)
                    requires
                        0xf0 <= b0 < 0xf5,
                        0x80 <= b1 <= 0xbf,
                        !(b0 == 0xf0 && b1 < 0x90),
                        !(b0 == 0xf4 && b1 >= 0x90),
                        v == (((b0 & 0x07) as u32) << 18) | (((b1 & 0x3f) as u32) << 12) | (((b2
                            & 0x3f) as u32) << 6) | ((b3 & 0x3f) as u32),
                ;
            }
            Some((4, v))
        } else {
            proof {
                if valid_first_scalar(s) {
                    let b1 = s[1];
                    let b2 = s[2];
                    let b3 = s[3];
                    if n - i > 3 && is_continuation_byte(b1) && is_continuation_byte(b2)
                        && is_continuation_byte(b3) {
                        let v = (((b0 & 0x07) as u32) << 18) | (((b1 & 0x3f) as u32) << 12) | (((b2
                            & 0x3f) as u32) << 6) | ((b3 & 0x3f) as u32);
                        assert(((b0 == 0xf0 && b1 < 0x90) ==> v < 0x10000) && ((b0 == 0xf4 && 0x90
                            <= b1 <= 0xbf) ==> v > 0x10ffff)) by (bit_vector)
                            requires
                                0x80 <= b1 <= 0xbf,
                                v == (((b0 & 0x07) as u32) << 18) | (((b1 & 0x3f) as u32) << 12)
                                    | (((b2 & 0x3f) as u32) << 6) | ((b3 & 0x3f) as u32),
                        ;
                    }
                }
            }
            None
        }
    } else {
        // 0xf5..=0xf7 always encode values above 0x10ffff; 0xf8.. cannot lead
        proof {
            if valid_first_scalar(s) {
                let b1 = s[1];
                let b2 = s[2];
                let b3 = s[3];
                if b0 < 0xf8 && s.len() >= 4 && is_continuation_byte(b1) && is_continuation_byte(b2)
                    && is_continuation_byte(b3) {
                    let v = (((b0 & 0x07) as u32) << 18) | (((b1 & 0x3f) as u32) << 12) | (((b2
                        & 0x3f) as u32) << 6) | ((b3 & 0x3f) as u32);
                    assert((0xf5 <= b0 < 0xf8) ==> v > 0x10ffff) by (bit_vector)
                        requires
                            v == (((b0 & 0x07) as u32) << 18) | (((b1 & 0x3f) as u32) << 12) | (((b2
                                & 0x3f) as u32) << 6) | ((b3 & 0x3f) as u32),
                    ;
                }
            }
        }
        None
    }
}

/// Length of the longest prefix of `bytes` that is valid UTF-8.
pub fn valid_prefix_len(bytes: &[u8]) -> (r: usize)
    ensures
        r as int == utf8_valid_prefix_len(bytes@),
{
    let n = bytes.len();
    let mut i: usize = 0;
    proof {
        assert(bytes@.skip(0) =~= bytes@);
    }
    loop
        invariant
            i <= n,
            n == bytes@.len(),
            utf8_valid_prefix_len(bytes@) == i + utf8_valid_prefix_len(bytes@.skip(i as int)),
        decreases n - i,
    {
        match scalar_at(bytes, i) {
            Some((k, _v)) => {
                proof {
                    let s = bytes@.skip(i as int);
                    assert(s.skip(k as int) =~= bytes@.skip(i + k));
                    lemma_valid_prefix_len_le(bytes@.skip(i + k));
                }
                i = i + k;
            },
            None => {
                proof {
                    let s = bytes@.skip(i as int);
                    assert(utf8_valid_prefix_len(s) == 0);
                }
                return i;
            },
        }
    }
}

/// Find the last safe boundary in a byte buffer: the longest prefix that
/// contains no truncated trailing UTF-8 unit.  Never panics, for any
/// input, including empty and fully invalid buffers.
pub fn find_utf8_boundary(bytes: &[u8]) -> (r: usize)
    ensures
        r as int == boundary_of(bytes@),
        r <= bytes@.len(),
{
    proof {
        lemma_boundary_in_range(bytes@);
    }
    let n = bytes.len();
    if n == 0 {
        return 0;
    }
    if !is_continuation(bytes[n - 1]) {
        if unit_len(bytes[n - 1]) <= 1 {
            return n;
        } else {
            return n - 1;
        }
    }
    if n >= 2 && !is_continuation(bytes[n - 2]) {
        if unit_len(bytes[n - 2]) <= 2 {
            return n;
        } else {
            return n - 2;
        }
    }
    if n >= 3 && !is_continuation(bytes[n - 3]) {
        if unit_len(bytes[n - 3]) <= 3 {
            return n;
        } else {
            return n - 3;
        }
    }
    valid_prefix_len(bytes)
}

/// Append a newly read chunk to the pending buffer.
pub fn append_chunk(pending: &mut Vec<u8>, chunk: &[u8])
    ensures
        final(pending)@ == old(pending)@ + chunk@,
{
    let n = chunk.len();
    let mut j: usize = 0;
    while j < n
        invariant
            j <= n,
            n == chunk@.len(),
            pending@ == old(pending)@ + chunk@.take(j as int),
        decreases n - j,
    {
        pending.push(chunk[j]);
        proof {
            assert(old(pending)@ + chunk@.take(j + 1) =~= (old(pending)@ + chunk@.take(
                j as int,
            )).push(chunk@[j as int]));
        }
        j = j + 1;
    }
    proof {
        assert(chunk@.take(n as int) =~= chunk@);
    }
}

/// Split off the emittable prefix of the pending buffer: everything up
/// to the sanitizer boundary is returned, the (possibly incomplete) tail
/// is retained.
pub fn take_complete_prefix(pending: &mut Vec<u8>) -> (out: Vec<u8>)
    ensures
        out@ == old(pending)@.take(boundary_of(old(pending)@)),
        final(pending)@ == old(pending)@.skip(boundary_of(old(pending)@)),
{
    let b = find_utf8_boundary(pending.as_slice());
    let n = pending.len();
    let mut out: Vec<u8> = Vec::new();
    let mut j: usize = 0;
    while j < b
        invariant
            j <= b <= n,
            n == pending@.len(),
            pending@ == old(pending)@,
            b as int == boundary_of(old(pending)@),
            out@ == old(pending)@.take(j as int),
        decreases b - j,
    {
        out.push(pending[j]);
        proof {
            assert(old(pending)@.take(j + 1) =~= old(pending)@.take(j as int).push(
                old(pending)@[j as int],
            ));
        }
        j = j + 1;
    }
    let mut rest: Vec<u8> = Vec::new();
    let mut k: usize = b;
    while k < n
        invariant
            b <= k <= n,
            n == pending@.len(),
            pending@ == old(pending)@,
            b as int == boundary_of(old(pending)@),
            rest@ == old(pending)@.subrange(b as int, k as int),
        decreases n - k,
    {
        rest.push(pending[k]);
        proof {
            assert(old(pending)@.subrange(b as int, k + 1) =~= old(pending)@.subrange(
                b as int,
                k as int,
            ).push(old(pending)@[k as int]));
        }
        k = k + 1;
    }
    proof {
        assert(old(pending)@.subrange(b as int, n as int) =~= old(pending)@.skip(b as int));
    }
    *pending = rest;
    out
}

} // verus!
