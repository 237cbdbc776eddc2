//! Best-effort text decoding and conversions between character buffers
//! and strings.
//!
//! Raw terminal output may contain invalid byte sequences; decoding
//! substitutes the replacement character for each undecodable byte
//! instead of failing, so output processing never stops on bad input.

use vstd::prelude::*;
use vstd::utf8::*;

use crate::boundary::scalar_at;

verus! {

/// Best-effort decoding of a byte sequence: each well-formed scalar
/// encoding becomes its character; every other byte becomes the
/// replacement character.
pub open spec fn lossy_decode(s: Seq<u8>) -> Seq<char>
    decreases s.len(),
{
    if s.len() == 0 {
        seq![]
    } else if valid_first_scalar(s) {
        seq![decode_first_scalar(s) as char] + lossy_decode(
            s.skip(length_of_first_scalar(s)),
        )
    } else {
        seq!['\u{fffd}'] + lossy_decode(s.skip(1))
    }
}

/// Relies on `char::from_u32`: for every Unicode scalar value it
/// returns the character with exactly that value.
#[verifier::external_body]
fn char_from_scalar(v: u32) -> (c: char)
    requires
        is_scalar(v),
    ensures
        c as u32 == v,
{
    char::from_u32(v).unwrap_or('\u{fffd}')
}

/// Relies on `String`'s `FromIterator` impl: collecting characters
/// yields the string of exactly those characters, in order.
#[verifier::external_body]
pub fn chars_to_string(v: &Vec<char>) -> (r: String)
    ensures
        r@ == v@,
{
    v.iter().collect()
}

/// Decode a byte buffer to characters, substituting the replacement
/// character for invalid sequences.  Never fails, for arbitrary input.
pub fn decode_lossy(data: &[u8]) -> (out: Vec<char>)
    ensures
        out@ == lossy_decode(data@),
{
    broadcast use vstd::utf8::char_u32_cast;

    let n = data.len();
    let mut out: Vec<char> = Vec::new();
    let mut i: usize = 0;
    proof {
        assert(data@.skip(0) =~= data@);
    }
    while i < n
        invariant
            i <= n,
            n == data@.len(),
            lossy_decode(data@) == out@ + lossy_decode(data@.skip(i as int)),
        decreases n - i,
    {
        let ghost s = data@.skip(i as int);
        match scalar_at(data, i) {
            Some((k, v)) => {
                let c = char_from_scalar(v);
                proof {
                    assert(c == decode_first_scalar(s) as char);
                    assert(s.skip(k as int) =~= data@.skip(i + k));
                    assert(out@.push(c) + lossy_decode(data@.skip(i + k)) =~= out@
                        + lossy_decode(s));
                }
                out.push(c);
                i = i + k;
            },
            None => {
                proof {
                    assert(s.skip(1) =~= data@.skip(i + 1));
                    assert(out@.push('\u{fffd}') + lossy_decode(data@.skip(i + 1)) =~= out@
                        + lossy_decode(s));
                }
                out.push('\u{fffd}');
                i = i + 1;
            },
        }
    }
    proof {
        assert(out@ + lossy_decode(data@.skip(n as int)) =~= out@);
    }
    out
}

/// Width in bytes of the UTF-8 encoding of one character.
pub open spec fn char_width(c: char) -> int {
    if (c as u32) < 0x80 {
        1
    } else if (c as u32) < 0x800 {
        2
    } else if (c as u32) < 0x10000 {
        3
    } else {
        4
    }
}

/// Total UTF-8 byte length of a character sequence.
pub open spec fn text_width(s: Seq<char>) -> int
    decreases s.len(),
{
    if s.len() == 0 {
        0
    } else {
        char_width(s[0]) + text_width(s.skip(1))
    }
}

pub proof fn lemma_text_width_nonneg(s: Seq<char>)
    ensures
        text_width(s) >= 0,
        s.len() <= text_width(s) <= 4 * s.len(),
    decreases s.len(),
{
    if s.len() != 0 {
        lemma_text_width_nonneg(s.skip(1));
    }
}

/// Byte width of one character's UTF-8 encoding.
pub fn char_width_exec(c: char) -> (r: usize)
    ensures
        r as int == char_width(c),
{
    let v = c as u32;
    if v < 0x80 {
        1
    } else if v < 0x800 {
        2
    } else if v < 0x10000 {
        3
    } else {
        4
    }
}

} // verus!
