//! Streaming laws of the byte boundary sanitizer.
//!
//! Output arrives in arbitrary chunks; the sanitizer emits only the
//! prefix up to a safe boundary and holds the rest back.  The theorems
//! here state that this chunking is lossless: decoding the emitted
//! prefixes in order, with the final tail decoded at end of stream,
//! gives exactly the decoding of the whole byte stream — no codepoint
//! is corrupted at any split point.

use vstd::prelude::*;
use vstd::utf8::*;

use crate::boundary::{boundary_of, declared_unit_len, lemma_boundary_in_range,
    lemma_valid_prefix_len_le, utf8_valid_prefix_len};
use crate::text::lossy_decode;

verus! {

/// The head of `s` is an unfinished unit that more bytes could still
/// complete: a leading byte whose declared length exceeds the bytes
/// available, followed only by continuation bytes.
pub open spec fn head_extensible(s: Seq<u8>) -> bool {
    &&& s.len() >= 1
    &&& s.len() < declared_unit_len(s[0])
    &&& forall|j: int| 1 <= j < s.len() ==> is_continuation_byte(#[trigger] s[j])
}

/// No suffix of `s` is an unfinished unit that future bytes could
/// complete: decoding `s` never depends on what follows it.
pub open spec fn no_dangling_head(s: Seq<u8>) -> bool {
    forall|q: int| 0 <= q < s.len() ==> !head_extensible(#[trigger] s.skip(q))
}

/// A valid first scalar stays the first scalar under any extension:
/// its validity, length and value depend only on its own bytes.
proof fn lemma_first_scalar_extend(u: Seq<u8>, v: Seq<u8>)
    requires
        valid_first_scalar(u),
    ensures
        valid_first_scalar(u + v),
        length_of_first_scalar(u + v) == length_of_first_scalar(u),
        decode_first_scalar(u + v) == decode_first_scalar(u),
{
    let w = u + v;
    assert(w[0] == u[0]);
    if u.len() >= 2 {
        assert(w[1] == u[1]);
    }
    if u.len() >= 3 {
        assert(w[2] == u[2]);
    }
    if u.len() >= 4 {
        assert(w[3] == u[3]);
    }
}

/// When the extension does not begin with a continuation byte, it can
/// neither finish nor disturb the unit at the head: validity, length
/// and value of the first scalar are the same with or without it.
proof fn lemma_first_scalar_prefix(u: Seq<u8>, v: Seq<u8>)
    requires
        u.len() >= 1,
        v.len() == 0 || !is_continuation_byte(v[0]),
    ensures
        valid_first_scalar(u + v) == valid_first_scalar(u),
        valid_first_scalar(u) ==> length_of_first_scalar(u + v) == length_of_first_scalar(u)
            && decode_first_scalar(u + v) == decode_first_scalar(u),
{
    let w = u + v;
    assert(w[0] == u[0]);
    if valid_first_scalar(u) {
        lemma_first_scalar_extend(u, v);
    } else {
        if valid_first_scalar(w) {
            let k = length_of_first_codepoint(w);
            assert(1 <= k <= 4);
            if k <= u.len() {
                assert forall|j: int| 0 <= j < k implies w[j] == u[j] by {}
                assert(valid_leading_and_continuation_bytes_first_codepoint(u));
                assert(decode_first_codepoint(u) == decode_first_codepoint(w));
                assert(length_of_first_codepoint(u) == k);
                assert(valid_first_scalar(u));
            } else {
                // the byte at position `u.len()` would have to be a
                // continuation byte, but it is the head of `v`
                assert(u.len() < k);
                assert(w.len() >= k);
                assert(v.len() > 0);
                assert(w[u.len() as int] == v[0]);
                assert(is_continuation_byte(w[u.len() as int]));
            }
        }
    }
}

/// As above, but for a head that nothing can complete: when the head
/// is not extensible, any extension at all leaves the first scalar
/// unchanged.
proof fn lemma_first_scalar_stable(u: Seq<u8>, v: Seq<u8>)
    requires
        u.len() >= 1,
        !head_extensible(u),
    ensures
        valid_first_scalar(u + v) == valid_first_scalar(u),
        valid_first_scalar(u) ==> length_of_first_scalar(u + v) == length_of_first_scalar(u)
            && decode_first_scalar(u + v) == decode_first_scalar(u),
{
    let w = u + v;
    assert(w[0] == u[0]);
    if valid_first_scalar(u) {
        lemma_first_scalar_extend(u, v);
    } else {
        if valid_first_scalar(w) {
            let k = length_of_first_codepoint(w);
            assert(1 <= k <= 4);
            if k <= u.len() {
                assert forall|j: int| 0 <= j < k implies w[j] == u[j] by {}
                assert(valid_leading_and_continuation_bytes_first_codepoint(u));
                assert(decode_first_codepoint(u) == decode_first_codepoint(w));
                assert(valid_first_scalar(u));
            } else {
                // then `u` would be an extensible head
                assert(declared_unit_len(u[0]) == k);
                assert forall|j: int| 1 <= j < u.len() implies is_continuation_byte(
                    #[trigger] u[j],
                ) by {
                    assert(w[j] == u[j]);
                    assert(j < k);
                }
                assert(head_extensible(u));
            }
        }
    }
}

proof fn lemma_no_dangling_skip(s: Seq<u8>, k: int)
    requires
        no_dangling_head(s),
        0 <= k <= s.len(),
    ensures
        no_dangling_head(s.skip(k)),
{
    assert forall|q: int| 0 <= q < s.skip(k).len() implies !head_extensible(
        #[trigger] s.skip(k).skip(q),
    ) by {
        assert(s.skip(k).skip(q) =~= s.skip(k + q));
        assert(!head_extensible(s.skip(k + q)));
    }
}

/// Decoding splits at the end of a buffer with no dangling head,
/// whatever bytes follow.
proof fn lemma_decode_split_stable(u: Seq<u8>, v: Seq<u8>)
    requires
        no_dangling_head(u),
    ensures
        lossy_decode(u + v) == lossy_decode(u) + lossy_decode(v),
    decreases u.len(),
{
    if u.len() == 0 {
        assert(u + v =~= v);
        assert(lossy_decode(u) + lossy_decode(v) =~= lossy_decode(v));
    } else {
        assert(!head_extensible(u.skip(0))) by {
            assert(0 < u.len());
        }
        assert(u.skip(0) =~= u);
        lemma_first_scalar_stable(u, v);
        if valid_first_scalar(u) {
            let k = length_of_first_scalar(u);
            assert((u + v).skip(k) =~= u.skip(k) + v);
            lemma_no_dangling_skip(u, k);
            lemma_decode_split_stable(u.skip(k), v);
            assert(lossy_decode(u + v) =~= lossy_decode(u) + lossy_decode(v));
        } else {
            assert((u + v).skip(1) =~= u.skip(1) + v);
            lemma_no_dangling_skip(u, 1);
            lemma_decode_split_stable(u.skip(1), v);
            assert(lossy_decode(u + v) =~= lossy_decode(u) + lossy_decode(v));
        }
    }
}

/// Decoding splits before an extension that does not begin with a
/// continuation byte, for any buffer at all.
proof fn lemma_decode_split_noncont(u: Seq<u8>, v: Seq<u8>)
    requires
        v.len() == 0 || !is_continuation_byte(v[0]),
    ensures
        lossy_decode(u + v) == lossy_decode(u) + lossy_decode(v),
    decreases u.len(),
{
    if u.len() == 0 {
        assert(u + v =~= v);
        assert(lossy_decode(u) + lossy_decode(v) =~= lossy_decode(v));
    } else {
        lemma_first_scalar_prefix(u, v);
        if valid_first_scalar(u) {
            let k = length_of_first_scalar(u);
            assert((u + v).skip(k) =~= u.skip(k) + v);
            lemma_decode_split_noncont(u.skip(k), v);
            assert(lossy_decode(u + v) =~= lossy_decode(u) + lossy_decode(v));
        } else {
            assert((u + v).skip(1) =~= u.skip(1) + v);
            lemma_decode_split_noncont(u.skip(1), v);
            assert(lossy_decode(u + v) =~= lossy_decode(u) + lossy_decode(v));
        }
    }
}

/// A buffer that is entirely valid has no dangling head.
proof fn lemma_valid_no_dangling(s: Seq<u8>)
    requires
        valid_utf8(s),
    ensures
        no_dangling_head(s),
    decreases s.len(),
{
    if s.len() == 0 {
    } else {
        let k = length_of_first_scalar(s);
        assert(1 <= k <= s.len());
        assert(pop_first_scalar(s) =~= s.skip(k));
        lemma_valid_no_dangling(s.skip(k));
        assert forall|q: int| 0 <= q < s.len() implies !head_extensible(#[trigger] s.skip(q)) by {
            if q == 0 {
                assert(s.skip(0) =~= s);
                // the first unit is complete: its declared length is
                // within the buffer
                assert(declared_unit_len(s[0]) == length_of_first_codepoint(s));
                assert(s.len() >= k);
            } else if q < k {
                // positions inside the first unit hold continuation
                // bytes, which cannot head a unit
                assert(s.skip(q)[0] == s[q]);
                assert(is_continuation_byte(s[q]));
                assert(declared_unit_len(s.skip(q)[0]) == 1);
            } else {
                assert(s.skip(q) =~= s.skip(k).skip(q - k));
                assert(!head_extensible(s.skip(k).skip(q - k)));
            }
        }
    }
}

/// The longest valid prefix of a buffer is valid.
proof fn lemma_valid_prefix_is_valid(s: Seq<u8>)
    ensures
        valid_utf8(s.take(utf8_valid_prefix_len(s))),
    decreases s.len(),
{
    let b = utf8_valid_prefix_len(s);
    if s.len() == 0 || !valid_first_scalar(s) {
        assert(s.take(0) =~= Seq::<u8>::empty());
    } else {
        let k = length_of_first_scalar(s);
        lemma_valid_prefix_is_valid(s.skip(k));
        let b2 = utf8_valid_prefix_len(s.skip(k));
        lemma_valid_prefix_len_le(s.skip(k));
        let p = s.take(b);
        assert(b == k + b2);
        assert(p[0] == s[0]);
        assert forall|j: int| 0 <= j < k implies p[j] == s[j] by {}
        lemma_first_scalar_extend(s.take(k), p.skip(k));
        assert(s.take(k) + p.skip(k) =~= p);
        assert(s.take(k) + s.skip(k) =~= s);
        lemma_first_scalar_extend(s.take(k), s.skip(k));
        assert(valid_first_scalar(p));
        assert(length_of_first_scalar(p) == k);
        assert(pop_first_scalar(p) =~= s.skip(k).take(b2));
        assert(valid_utf8(p));
    }
}

/// The sanitizer boundary is a clean cut: decoding the whole stream
/// equals decoding the emitted prefix and then the held-back tail with
/// whatever bytes arrive later.  No codepoint is corrupted at the cut.
pub proof fn lemma_boundary_clean_cut(s: Seq<u8>, t: Seq<u8>)
    ensures
        ({
            let b = boundary_of(s);
            lossy_decode(s + t) == lossy_decode(s.take(b)) + lossy_decode(s.skip(b) + t)
        }),
{
    let b = boundary_of(s);
    let n = s.len() as int;
    lemma_boundary_in_range(s);
    assert(s + t =~= s.take(b) + (s.skip(b) + t));
    if n == 0 {
        assert(s.take(0) =~= Seq::<u8>::empty());
        assert(s.skip(0) + t =~= s + t);
        assert(lossy_decode(s.take(b)) + lossy_decode(s.skip(b) + t) =~= lossy_decode(s + t));
    } else if !is_continuation_byte(s[n - 1]) || (n >= 2 && !is_continuation_byte(s[n - 2])) || (n
        >= 3 && !is_continuation_byte(s[n - 3])) {
        // scan-back found a unit-start byte at position p
        let p = if !is_continuation_byte(s[n - 1]) {
            n - 1
        } else if n >= 2 && !is_continuation_byte(s[n - 2]) {
            n - 2
        } else {
            n - 3
        };
        if declared_unit_len(s[p]) <= n - p {
            // the final unit is complete: the whole buffer is emitted
            assert(b == n);
            assert forall|q: int| 0 <= q < s.len() implies !head_extensible(
                #[trigger] s.skip(q),
            ) by {
                if head_extensible(s.skip(q)) {
                    assert(s.skip(q)[0] == s[q]);
                    assert(n - q < declared_unit_len(s[q]) <= 4);
                    if q > p {
                        assert(is_continuation_byte(s[q]));
                        assert(declared_unit_len(s[q]) == 1);
                    } else if q == p {
                    } else {
                        // a non-continuation byte sits between q and
                        // the end, inside the supposed unit
                        assert(p >= q + 1);
                        assert(s.skip(q)[p - q] == s[p]);
                        assert(is_continuation_byte(s[p]));
                    }
                }
            }
            lemma_decode_split_stable(s, t);
            assert(s.take(n) =~= s);
            assert(s.skip(n) + t =~= t);
            assert(lossy_decode(s.take(b)) + lossy_decode(s.skip(b) + t) =~= lossy_decode(s)
                + lossy_decode(t));
        } else {
            // the final unit is incomplete: cut just before its start
            assert(b == p);
            let v = s.skip(p) + t;
            assert(v[0] == s[p]);
            lemma_decode_split_noncont(s.take(p), v);
        }
    } else {
        // only continuation bytes in the window: cut at the end of the
        // longest valid prefix
        assert(b == utf8_valid_prefix_len(s));
        lemma_valid_prefix_is_valid(s);
        lemma_valid_no_dangling(s.take(b));
        lemma_decode_split_stable(s.take(b), s.skip(b) + t);
    }
}

/// All the bytes of a sequence of chunks, in arrival order.
pub open spec fn concat_bytes(chunks: Seq<Seq<u8>>) -> Seq<u8>
    decreases chunks.len(),
{
    if chunks.len() == 0 {
        seq![]
    } else {
        concat_bytes(chunks.drop_last()) + chunks.last()
    }
}

/// The sanitizer fed one chunk at a time: the text emitted so far and
/// the held-back tail.
pub open spec fn feed_chunks(chunks: Seq<Seq<u8>>) -> (Seq<char>, Seq<u8>)
    decreases chunks.len(),
{
    if chunks.len() == 0 {
        (seq![], seq![])
    } else {
        let prev = feed_chunks(chunks.drop_last());
        let pending = prev.1 + chunks.last();
        let b = boundary_of(pending);
        (prev.0 + lossy_decode(pending.take(b)), pending.skip(b))
    }
}

/// Feeding a stream chunk by chunk loses nothing: the text emitted so
/// far, continued by decoding the held-back tail together with any
/// future bytes, is exactly the decoding of all bytes seen so far
/// followed by those future bytes.
pub proof fn lemma_feed_chunks_complete(chunks: Seq<Seq<u8>>, future: Seq<u8>)
    ensures
        ({
            let fed = feed_chunks(chunks);
            fed.0 + lossy_decode(fed.1 + future) == lossy_decode(concat_bytes(chunks) + future)
        }),
    decreases chunks.len(),
{
    let fed = feed_chunks(chunks);
    if chunks.len() == 0 {
        assert(fed.1 + future =~= future);
        assert(concat_bytes(chunks) + future =~= future);
        assert(fed.0 + lossy_decode(future) =~= lossy_decode(future));
    } else {
        let prev = feed_chunks(chunks.drop_last());
        let pending = prev.1 + chunks.last();
        let b = boundary_of(pending);
        lemma_feed_chunks_complete(chunks.drop_last(), chunks.last() + future);
        assert(prev.1 + (chunks.last() + future) =~= pending + future);
        assert(concat_bytes(chunks.drop_last()) + (chunks.last() + future) =~= concat_bytes(
            chunks,
        ) + future);
        lemma_boundary_clean_cut(pending, future);
        lemma_boundary_in_range(pending);
        assert(pending.take(b) + (pending.skip(b) + future) =~= pending + future);
        assert(prev.0 + (lossy_decode(pending.take(b)) + lossy_decode(pending.skip(b) + future))
            =~= (prev.0 + lossy_decode(pending.take(b))) + lossy_decode(
            pending.skip(b) + future,
        ));
    }
}

/// Decoding all chunks' emissions and then the final tail — what the
/// reader loop emits at end of stream — reconstructs the decoding of
/// the entire original byte stream.
pub proof fn lemma_sanitizer_reconstructs(chunks: Seq<Seq<u8>>)
    ensures
        ({
            let fed = feed_chunks(chunks);
            fed.0 + lossy_decode(fed.1) == lossy_decode(concat_bytes(chunks))
        }),
{
    let fed = feed_chunks(chunks);
    lemma_feed_chunks_complete(chunks, seq![]);
    assert(fed.1 + Seq::<u8>::empty() =~= fed.1);
    assert(concat_bytes(chunks) + Seq::<u8>::empty() =~= concat_bytes(chunks));
}

} // verus!
