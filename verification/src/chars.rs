//! Helpers over character sequences: trimming, searching and matching.
//!
//! The output parser works on decoded characters; these are the shared
//! specification functions and verified executable helpers it builds on.

use vstd::prelude::*;
use vstd::std_specs::iter::IteratorSpec;

verus! {

/// Whitespace characters recognised when trimming a line.
pub open spec fn is_space(c: char) -> bool {
    c == ' ' || c == '\t' || c == '\n' || c == '\r'
}

/// `p` occurs in `s` starting at index `i`.
pub open spec fn matches_at(s: Seq<char>, i: int, p: Seq<char>) -> bool {
    0 <= i && i + p.len() <= s.len() && s.subrange(i, i + p.len() as int) == p
}

/// `p` occurs somewhere in `s`.
pub open spec fn has_sub(s: Seq<char>, p: Seq<char>) -> bool {
    exists|i: int| matches_at(s, i, p)
}

/// `c` occurs in `s`.
pub open spec fn has_char(s: Seq<char>, c: char) -> bool {
    exists|i: int| 0 <= i < s.len() && s[i] == c
}

/// `s` begins with `p`.
pub open spec fn starts_with(s: Seq<char>, p: Seq<char>) -> bool {
    p.len() <= s.len() && s.take(p.len() as int) == p
}

/// Index of the first occurrence of `c` in `s`, or `s.len()` if absent.
pub open spec fn first_char_at(s: Seq<char>, c: char) -> int
    decreases s.len(),
{
    if s.len() == 0 {
        0
    } else if s[0] == c {
        0
    } else {
        1 + first_char_at(s.skip(1), c)
    }
}

pub proof fn lemma_first_char_at(s: Seq<char>, c: char)
    ensures
        0 <= first_char_at(s, c) <= s.len(),
        first_char_at(s, c) < s.len() ==> s[first_char_at(s, c)] == c,
        forall|j: int| 0 <= j < first_char_at(s, c) ==> s[j] != c,
        (first_char_at(s, c) == s.len()) == !has_char(s, c),
    decreases s.len(),
{
    if s.len() == 0 {
        assert(!has_char(s, c));
    } else if s[0] == c {
    } else {
        lemma_first_char_at(s.skip(1), c);
        let r = 1 + first_char_at(s.skip(1), c);
        assert(forall|j: int| 1 <= j < r ==> s[j] == s.skip(1)[j - 1]);
        if r == s.len() {
            assert forall|i: int| 0 <= i < s.len() implies s[i] != c by {
                if i >= 1 {
                    assert(s[i] == s.skip(1)[i - 1]);
                }
            }
        } else {
            assert(s[r] == s.skip(1)[r - 1]);
            assert(has_char(s, c));
        }
    }
}

/// Index of the first occurrence of `p` as a subsequence of `s`, or
/// `s.len()` if absent (also when `p` does not fit at any position).
pub open spec fn first_sub_at(s: Seq<char>, p: Seq<char>) -> int
    decreases s.len(),
{
    if matches_at(s, 0, p) {
        0
    } else if s.len() == 0 {
        0
    } else {
        1 + first_sub_at(s.skip(1), p)
    }
}

proof fn lemma_matches_at_shift(s: Seq<char>, p: Seq<char>, i: int)
    requires
        i >= 1,
        s.len() >= 1,
    ensures
        matches_at(s, i, p) == matches_at(s.skip(1), i - 1, p),
{
    if i + p.len() <= s.len() {
        assert(s.subrange(i, i + p.len() as int) =~= s.skip(1).subrange(
            i - 1,
            i - 1 + p.len() as int,
        ));
    }
}

pub proof fn lemma_first_sub_at(s: Seq<char>, p: Seq<char>)
    requires
        p.len() >= 1,
    ensures
        0 <= first_sub_at(s, p) <= s.len(),
        first_sub_at(s, p) < s.len() ==> matches_at(s, first_sub_at(s, p), p),
        forall|j: int| 0 <= j < first_sub_at(s, p) ==> !matches_at(s, j, p),
        (first_sub_at(s, p) == s.len()) == !has_sub(s, p),
    decreases s.len(),
{
    if matches_at(s, 0, p) {
        assert(has_sub(s, p));
    } else if s.len() == 0 {
        assert(forall|i: int| !matches_at(s, i, p));
        assert(!has_sub(s, p));
    } else {
        lemma_first_sub_at(s.skip(1), p);
        let r1 = first_sub_at(s.skip(1), p);
        let r = 1 + r1;
        assert forall|j: int| 0 <= j < r implies !matches_at(s, j, p) by {
            if j >= 1 {
                lemma_matches_at_shift(s, p, j);
            }
        }
        if r1 < s.skip(1).len() {
            assert(matches_at(s.skip(1), r1, p));
            lemma_matches_at_shift(s, p, r);
            assert(matches_at(s, r, p));
            assert(has_sub(s, p));
        } else {
            assert(r == s.len());
            assert forall|i: int| !matches_at(s, i, p) by {
                if i >= 1 && matches_at(s, i, p) {
                    lemma_matches_at_shift(s, p, i);
                    assert(has_sub(s.skip(1), p));
                }
            }
            assert(!has_sub(s, p));
        }
    }
}

/// `s` without leading whitespace.
pub open spec fn trim_start_s(s: Seq<char>) -> Seq<char>
    decreases s.len(),
{
    if s.len() > 0 && is_space(s[0]) {
        trim_start_s(s.skip(1))
    } else {
        s
    }
}

/// `s` without trailing whitespace.
pub open spec fn trim_end_s(s: Seq<char>) -> Seq<char>
    decreases s.len(),
{
    if s.len() > 0 && is_space(s.last()) {
        trim_end_s(s.drop_last())
    } else {
        s
    }
}

/// `s` without leading and trailing whitespace.
pub open spec fn trim_s(s: Seq<char>) -> Seq<char> {
    trim_end_s(trim_start_s(s))
}

/// `s` without every leading occurrence of `c`.
pub open spec fn strip_leading(s: Seq<char>, c: char) -> Seq<char>
    decreases s.len(),
{
    if s.len() > 0 && s[0] == c {
        strip_leading(s.skip(1), c)
    } else {
        s
    }
}

fn is_space_exec(c: char) -> (r: bool)
    ensures
        r == is_space(c),
{
    c == ' ' || c == '\t' || c == '\r' || c == '\n'
}

/// Copy the subrange `[a, b)` of a character buffer.
pub fn slice_chars(s: &Vec<char>, a: usize, b: usize) -> (r: Vec<char>)
    requires
        a <= b <= s@.len(),
    ensures
        r@ == s@.subrange(a as int, b as int),
{
    let mut r: Vec<char> = Vec::new();
    let mut j = a;
    while j < b
        invariant
            a <= j <= b <= s@.len(),
            r@ == s@.subrange(a as int, j as int),
        decreases b - j,
    {
        r.push(s[j]);
        proof {
            assert(s@.subrange(a as int, j + 1) =~= s@.subrange(a as int, j as int).push(
                s@[j as int],
            ));
        }
        j = j + 1;
    }
    r
}

/// Trim whitespace from both ends of a character buffer.
pub fn trim_chars(s: &Vec<char>) -> (r: Vec<char>)
    ensures
        r@ == trim_s(s@),
{
    let n = s.len();
    let mut lo: usize = 0;
    proof {
        assert(s@.skip(0) =~= s@);
    }
    while lo < n && is_space_exec(s[lo])
        invariant
            lo <= n,
            n == s@.len(),
            trim_start_s(s@) == trim_start_s(s@.skip(lo as int)),
        decreases n - lo,
    {
        proof {
            assert(s@.skip(lo as int).skip(1) =~= s@.skip(lo + 1));
        }
        lo = lo + 1;
    }
    let ghost t = s@.skip(lo as int);
    proof {
        assert(trim_start_s(s@) == t);
    }
    let mut hi: usize = n;
    while hi > lo && is_space_exec(s[hi - 1])
        invariant
            lo <= hi <= n,
            n == s@.len(),
            t == s@.skip(lo as int),
            trim_end_s(t) == trim_end_s(s@.subrange(lo as int, hi as int)),
        decreases hi,
    {
        proof {
            let cur = s@.subrange(lo as int, hi as int);
            assert(cur.last() == s@[hi - 1]);
            assert(cur.drop_last() =~= s@.subrange(lo as int, hi - 1));
        }
        hi = hi - 1;
    }
    proof {
        let cur = s@.subrange(lo as int, hi as int);
        if hi > lo {
            assert(cur.last() == s@[hi - 1]);
        }
        assert(trim_end_s(cur) == cur);
        assert(t =~= s@.subrange(lo as int, n as int));
    }
    slice_chars(s, lo, hi)
}

/// Drop every leading occurrence of `c` from a character buffer.
pub fn strip_leading_chars(s: &Vec<char>, c: char) -> (r: Vec<char>)
    ensures
        r@ == strip_leading(s@, c),
{
    let n = s.len();
    let mut i: usize = 0;
    proof {
        assert(s@.skip(0) =~= s@);
    }
    while i < n && s[i] == c
        invariant
            i <= n,
            n == s@.len(),
            strip_leading(s@, c) == strip_leading(s@.skip(i as int), c),
        decreases n - i,
    {
        proof {
            assert(s@.skip(i as int).skip(1) =~= s@.skip(i + 1));
        }
        i = i + 1;
    }
    proof {
        assert(strip_leading(s@.skip(i as int), c) == s@.skip(i as int));
        assert(s@.skip(i as int) =~= s@.subrange(i as int, n as int));
    }
    slice_chars(s, i, n)
}

/// Find the first occurrence of `c` in the buffer.
pub fn find_char(s: &Vec<char>, c: char) -> (r: Option<usize>)
    ensures
        match r {
            Some(i) => i as int == first_char_at(s@, c) && i < s@.len() && s@[i as int] == c,
            None => !has_char(s@, c) && first_char_at(s@, c) == s@.len(),
        },
{
    let n = s.len();
    let mut i: usize = 0;
    proof {
        assert(s@.skip(0) =~= s@);
    }
    while i < n
        invariant
            i <= n,
            n == s@.len(),
            first_char_at(s@, c) == i + first_char_at(s@.skip(i as int), c),
            forall|j: int| 0 <= j < i ==> s@[j] != c,
        decreases n - i,
    {
        if s[i] == c {
            proof {
                assert(s@.skip(i as int)[0] == c);
            }
            return Some(i);
        }
        proof {
            assert(s@.skip(i as int)[0] == s@[i as int]);
            assert(s@.skip(i as int).skip(1) =~= s@.skip(i + 1));
        }
        i = i + 1;
    }
    proof {
        assert(s@.skip(n as int).len() == 0);
        assert(!has_char(s@, c));
    }
    None
}

fn match_at(s: &Vec<char>, i: usize, p: &Vec<char>) -> (r: bool)
    requires
        i + p@.len() <= s@.len(),
    ensures
        r == matches_at(s@, i as int, p@),
{
    let m = p.len();
    let n = s.len();
    let mut j: usize = 0;
    while j < m
        invariant
            j <= m,
            m == p@.len(),
            n == s@.len(),
            i + m <= n,
            forall|k: int| 0 <= k < j ==> s@[i + k] == p@[k],
        decreases m - j,
    {
        if s[i + j] != p[j] {
            proof {
                assert(s@.subrange(i as int, i + m) != p@) by {
                    assert(s@.subrange(i as int, i + m)[j as int] == s@[i + j]);
                }
            }
            return false;
        }
        j = j + 1;
    }
    proof {
        assert(s@.subrange(i as int, i + m) =~= p@);
    }
    true
}

/// Find the first occurrence of `p` as a contiguous run in `s`.
pub fn find_sub(s: &Vec<char>, p: &Vec<char>) -> (r: Option<usize>)
    requires
        p@.len() >= 1,
    ensures
        match r {
            Some(i) => i as int == first_sub_at(s@, p@) && matches_at(s@, i as int, p@),
            None => !has_sub(s@, p@),
        },
{
    let n = s.len();
    let m = p.len();
    proof {
        lemma_first_sub_at(s@, p@);
    }
    if m > n {
        proof {
            assert forall|i: int| !matches_at(s@, i, p@) by {}
        }
        return None;
    }
    let mut i: usize = 0;
    while i <= n - m
        invariant
            1 <= m <= n,
            i <= n - m + 1,
            n == s@.len(),
            m == p@.len(),
            forall|j: int| 0 <= j < i ==> !matches_at(s@, j, p@),
        decreases n - i,
    {
        if match_at(s, i, p) {
            proof {
                lemma_first_sub_at(s@, p@);
                let f = first_sub_at(s@, p@);
                if f < i {
                    assert(matches_at(s@, f, p@));
                }
            }
            return Some(i);
        }
        i = i + 1;
    }
    proof {
        assert forall|j: int| !matches_at(s@, j, p@) by {
            if 0 <= j && j + m <= n {
                assert(j < i);
            }
        }
    }
    None
}

/// `p` occurs somewhere in `s`.
pub fn contains_sub(s: &Vec<char>, p: &Vec<char>) -> (r: bool)
    requires
        p@.len() >= 1,
    ensures
        r == has_sub(s@, p@),
{
    match find_sub(s, p) {
        Some(_) => true,
        None => false,
    }
}

/// `s` begins with `p`.
pub fn starts_with_chars(s: &Vec<char>, p: &Vec<char>) -> (r: bool)
    ensures
        r == starts_with(s@, p@),
{
    let m = p.len();
    if m > s.len() {
        return false;
    }
    let r = match_at(s, 0, p);
    proof {
        assert(s@.subrange(0, m as int) =~= s@.take(m as int));
    }
    r
}

/// The characters of a string, in order.
pub fn str_to_chars(s: &str) -> (r: Vec<char>)
    ensures
        r@ == s@,
{
    broadcast use vstd::string::axiom_spec_iter, vstd::string::next_postcondition;

    let mut it = s.chars();
    let mut r: Vec<char> = Vec::new();
    proof {
        assert(r@ + it.remaining() =~= s@);
    }
    loop
        invariant
            IteratorSpec::obeys_prophetic_iter_laws(&it),
            IteratorSpec::decrease(&it) is Some,
            r@ + IteratorSpec::remaining(&it) == s@,
        decreases IteratorSpec::decrease(&it)->0,
    {
        let ghost prev = it;
        match it.next() {
            Some(c) => {
                proof {
                    assert(r@.push(c) + IteratorSpec::remaining(&it) =~= r@
                        + IteratorSpec::remaining(&prev));
                }
                r.push(c);
            },
            None => {
                proof {
                    assert(r@ + IteratorSpec::remaining(&it) =~= r@);
                }
                return r;
            },
        }
    }
}

} // verus!
