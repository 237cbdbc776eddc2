//! Tests of the byte boundary sanitizer and lossy decoding.

use termcore::boundary::{append_chunk, find_utf8_boundary, take_complete_prefix, valid_prefix_len};
use termcore::text::{chars_to_string, decode_lossy};

fn decode_to_string(bytes: &[u8]) -> String {
    chars_to_string(&decode_lossy(bytes))
}

#[test]
fn boundary_empty_input() {
    assert_eq!(find_utf8_boundary(&[]), 0);
}

#[test]
fn boundary_pure_ascii() {
    assert_eq!(find_utf8_boundary(b"hello"), 5);
}

#[test]
fn boundary_complete_two_byte() {
    // "é" is 0xC3 0xA9
    assert_eq!(find_utf8_boundary(&[0x61, 0xc3, 0xa9]), 3);
}

#[test]
fn boundary_split_two_byte() {
    assert_eq!(find_utf8_boundary(&[0x61, 0xc3]), 1);
}

#[test]
fn boundary_split_three_byte_after_two() {
    // U+23FA is 0xE2 0x8F 0xBA; two of its three bytes present
    assert_eq!(find_utf8_boundary(&[0xe2, 0x8f]), 0);
}

#[test]
fn boundary_complete_three_byte() {
    assert_eq!(find_utf8_boundary(&[0xe2, 0x8f, 0xba]), 3);
}

#[test]
fn boundary_split_four_byte() {
    // U+1F600 is 0xF0 0x9F 0x98 0x80
    assert_eq!(find_utf8_boundary(&[0x41, 0xf0, 0x9f, 0x98]), 1);
    assert_eq!(find_utf8_boundary(&[0x41, 0xf0, 0x9f, 0x98, 0x80]), 5);
}

#[test]
fn boundary_all_continuations_falls_back() {
    // no unit-start byte in the lookback window: full validation
    assert_eq!(find_utf8_boundary(&[0x80, 0x80, 0x80, 0x80]), 0);
    // a valid pair followed by stray continuations
    assert_eq!(find_utf8_boundary(&[0xc3, 0xa9, 0x80, 0x80, 0x80]), 2);
}

#[test]
fn boundary_invalid_start_byte_counts_as_single() {
    // 0xff can never begin a unit; it is treated as one byte
    assert_eq!(find_utf8_boundary(&[0x41, 0xff]), 2);
}

#[test]
fn valid_prefix_len_stops_at_first_error() {
    assert_eq!(valid_prefix_len(b"abc"), 3);
    assert_eq!(valid_prefix_len(&[0x61, 0xc3, 0xa9, 0xff, 0x61]), 3);
    assert_eq!(valid_prefix_len(&[0x80]), 0);
}

#[test]
fn split_character_reassembles_across_chunks() {
    // the concrete reconstruction case: a 3-byte character split as
    // [b0, b1] then [b2] yields boundary 0 then boundary 3, and the
    // character appears intact only after the second call
    let mut pending: Vec<u8> = Vec::new();
    append_chunk(&mut pending, &[0xe2, 0x8f]);
    let first = take_complete_prefix(&mut pending);
    assert_eq!(first.len(), 0);
    assert_eq!(pending.len(), 2);
    append_chunk(&mut pending, &[0xba]);
    let second = take_complete_prefix(&mut pending);
    assert_eq!(second, vec![0xe2, 0x8f, 0xba]);
    assert_eq!(pending.len(), 0);
    assert_eq!(decode_to_string(&second), "\u{23fa}");
}

#[test]
fn chunked_emission_equals_whole_decode() {
    let whole: &[u8] = "ab\u{e9}\u{23fa}xyz\u{1f600}tail".as_bytes();
    // feed in awkward 3-byte chunks and concatenate all emissions
    let mut pending: Vec<u8> = Vec::new();
    let mut emitted: Vec<u8> = Vec::new();
    for chunk in whole.chunks(3) {
        append_chunk(&mut pending, chunk);
        let out = take_complete_prefix(&mut pending);
        emitted.extend_from_slice(&out);
    }
    emitted.extend_from_slice(&pending);
    assert_eq!(decode_to_string(&emitted), decode_to_string(whole));
    assert_eq!(decode_to_string(&emitted), "ab\u{e9}\u{23fa}xyz\u{1f600}tail");
}

#[test]
fn lossy_decode_substitutes_replacement() {
    assert_eq!(decode_to_string(&[0x61, 0xff, 0x62]), "a\u{fffd}b");
    assert_eq!(decode_to_string(&[0xe2, 0x8f]), "\u{fffd}\u{fffd}");
    // overlong encoding of '/' is rejected byte by byte
    assert_eq!(decode_to_string(&[0xc0, 0xaf]), "\u{fffd}\u{fffd}");
    // surrogate range is rejected
    assert_eq!(decode_to_string(&[0xed, 0xa0, 0x80]), "\u{fffd}\u{fffd}\u{fffd}");
}

#[test]
fn lossy_decode_handles_all_widths() {
    assert_eq!(decode_to_string("A\u{e9}\u{20ac}\u{1f600}".as_bytes()), "A\u{e9}\u{20ac}\u{1f600}");
}
