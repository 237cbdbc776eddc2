//! Version-name handling for locating a language runtime: parsing
//! names like `v18.20.8` into numeric keys, ordering them, choosing the
//! version a user's default alias points at, and composing the search
//! path handed to spawned processes.

use vstd::prelude::*;
use vstd::multiset::Multiset;
use vstd::string::StringExecFns;

use crate::chars::{
    first_char_at, lemma_first_char_at, slice_chars, starts_with, starts_with_chars,
    str_to_chars, strip_leading, strip_leading_chars, find_char,
};

verus! {

pub open spec fn is_digit(c: char) -> bool {
    '0' <= c && c <= '9'
}

pub open spec fn digit_val(c: char) -> int {
    c as int - '0' as int
}

/// A numeric segment: nonempty, digits only.
pub open spec fn seg_all_digits(s: Seq<char>) -> bool {
    s.len() > 0 && forall|i: int| 0 <= i < s.len() ==> is_digit(#[trigger] s[i])
}

/// Value of a digit string read in base ten.
pub open spec fn seg_value(s: Seq<char>) -> int
    decreases s.len(),
{
    if s.len() == 0 {
        0
    } else {
        seg_value(s.drop_last()) * 10 + digit_val(s.last())
    }
}

/// A segment parses as a 32-bit number: digits only, value in range.
pub open spec fn seg_ok(s: Seq<char>) -> bool {
    seg_all_digits(s) && seg_value(s) <= 0xffff_ffff
}

proof fn lemma_seg_value_nonneg(s: Seq<char>)
    requires
        forall|i: int| 0 <= i < s.len() ==> is_digit(#[trigger] s[i]),
    ensures
        seg_value(s) >= 0,
    decreases s.len(),
{
    if s.len() > 0 {
        lemma_seg_value_nonneg(s.drop_last());
    }
}

proof fn lemma_seg_value_prefix(s: Seq<char>, i: int)
    requires
        forall|j: int| 0 <= j < s.len() ==> is_digit(#[trigger] s[j]),
        0 <= i <= s.len(),
    ensures
        seg_value(s.take(i)) <= seg_value(s),
    decreases s.len(),
{
    if i < s.len() {
        assert(s.take(i) =~= s.drop_last().take(i));
        lemma_seg_value_prefix(s.drop_last(), i);
        lemma_seg_value_nonneg(s.drop_last());
    } else {
        assert(s.take(i) =~= s);
    }
}

/// Segments of a name split at dots; an empty name has none.
pub open spec fn split_dots(s: Seq<char>) -> Seq<Seq<char>>
    decreases s.len(),
    via split_dots_decreases
{
    if s.len() == 0 {
        seq![]
    } else {
        let i = first_char_at(s, '.');
        if i >= s.len() {
            seq![s]
        } else {
            seq![s.take(i)] + split_dots(s.skip(i + 1))
        }
    }
}

#[via_fn]
proof fn split_dots_decreases(s: Seq<char>) {
    lemma_first_char_at(s, '.');
}

/// The parseable segments' values, in order.
pub open spec fn seg_values(segs: Seq<Seq<char>>) -> Seq<int>
    decreases segs.len(),
{
    if segs.len() == 0 {
        seq![]
    } else {
        (if seg_ok(segs[0]) {
            seq![seg_value(segs[0])]
        } else {
            Seq::<int>::empty()
        }) + seg_values(segs.skip(1))
    }
}

/// Numeric key of a version name: leading `v`s dropped, the first
/// three parseable dot-segments, missing parts read as zero.
pub open spec fn version_key(s: Seq<char>) -> (int, int, int) {
    let vals = seg_values(split_dots(strip_leading(s, 'v')));
    (
        if vals.len() > 0 {
            vals[0]
        } else {
            0
        },
        if vals.len() > 1 {
            vals[1]
        } else {
            0
        },
        if vals.len() > 2 {
            vals[2]
        } else {
            0
        },
    )
}

/// Lexicographic order on version keys.
pub open spec fn key_le(a: Seq<char>, b: Seq<char>) -> bool {
    let ka = version_key(a);
    let kb = version_key(b);
    ||| ka.0 < kb.0
    ||| (ka.0 == kb.0 && ka.1 < kb.1)
    ||| (ka.0 == kb.0 && ka.1 == kb.1 && ka.2 <= kb.2)
}

fn parse_segment(seg: &Vec<char>) -> (r: Option<u32>)
    ensures
        match r {
            Some(v) => seg_ok(seg@) && v as int == seg_value(seg@),
            None => !seg_ok(seg@),
        },
{
    let n = seg.len();
    if n == 0 {
        return None;
    }
    let mut acc: u64 = 0;
    let mut i: usize = 0;
    proof {
        assert(seg@.take(0) =~= Seq::<char>::empty());
    }
    while i < n
        invariant
            i <= n,
            n == seg@.len(),
            acc <= 0xffff_ffff,
            forall|j: int| 0 <= j < i ==> is_digit(#[trigger] seg@[j]),
            acc as int == seg_value(seg@.take(i as int)),
        decreases n - i,
    {
        let c = seg[i];
        if !('0' <= c && c <= '9') {
            return None;
        }
        let d = (c as u32) - ('0' as u32);
        let acc2 = acc * 10 + d as u64;
        proof {
            assert(seg@.take(i + 1).drop_last() =~= seg@.take(i as int));
            assert(seg@.take(i + 1).last() == seg@[i as int]);
        }
        if acc2 > 0xffff_ffff {
            proof {
                if seg_all_digits(seg@) {
                    lemma_seg_value_prefix(seg@, i + 1);
                }
            }
            return None;
        }
        acc = acc2;
        i = i + 1;
    }
    proof {
        assert(seg@.take(n as int) =~= seg@);
    }
    Some(acc as u32)
}

fn split_dots_exec(s: &Vec<char>) -> (r: Vec<Vec<char>>)
    ensures
        r@.map_values(|l: Vec<char>| l@) == split_dots(s@),
{
    let n = s.len();
    let mut r: Vec<Vec<char>> = Vec::new();
    let mut pos: usize = 0;
    proof {
        assert(s@.skip(0) =~= s@);
        assert(r@.map_values(|l: Vec<char>| l@) =~= Seq::<Seq<char>>::empty());
    }
    while pos < n
        invariant
            pos <= n,
            n == s@.len(),
            split_dots(s@) == r@.map_values(|l: Vec<char>| l@) + split_dots(s@.skip(pos as int)),
        decreases n - pos,
    {
        let rest = slice_chars(s, pos, n);
        proof {
            assert(rest@ =~= s@.skip(pos as int));
        }
        match find_char(&rest, '.') {
            Some(i) => {
                let piece = slice_chars(&rest, 0, i);
                proof {
                    let whole = s@.skip(pos as int);
                    lemma_first_char_at(whole, '.');
                    assert(piece@ =~= whole.take(first_char_at(whole, '.')));
                    assert(whole.skip(first_char_at(whole, '.') + 1) =~= s@.skip(pos + i + 1));
                    assert((r@.map_values(|l: Vec<char>| l@).push(piece@)) + split_dots(
                        s@.skip(pos + i + 1),
                    ) =~= r@.map_values(|l: Vec<char>| l@) + (seq![piece@] + split_dots(
                        s@.skip(pos + i + 1),
                    )));
                    assert(r@.push(piece).map_values(|l: Vec<char>| l@) =~= r@.map_values(
                        |l: Vec<char>| l@,
                    ).push(piece@));
                }
                r.push(piece);
                pos = pos + i + 1;
            },
            None => {
                proof {
                    let whole = s@.skip(pos as int);
                    lemma_first_char_at(whole, '.');
                    assert(split_dots(whole) =~= seq![whole]);
                    assert(r@.push(rest).map_values(|l: Vec<char>| l@) =~= r@.map_values(
                        |l: Vec<char>| l@,
                    ).push(rest@));
                    assert(r@.map_values(|l: Vec<char>| l@).push(rest@) =~= r@.map_values(
                        |l: Vec<char>| l@,
                    ) + seq![rest@]);
                }
                r.push(rest);
                pos = n;
                proof {
                    assert(split_dots(s@.skip(n as int)) =~= Seq::<Seq<char>>::empty());
                }
            },
        }
    }
    proof {
        assert(split_dots(s@.skip(pos as int)) =~= Seq::<Seq<char>>::empty());
        assert(r@.map_values(|l: Vec<char>| l@) + Seq::<Seq<char>>::empty() =~= r@.map_values(
            |l: Vec<char>| l@,
        ));
    }
    r
}

/// The numeric key of one version name.
pub fn parse_version(s: &String) -> (r: (u32, u32, u32))
    ensures
        (r.0 as int, r.1 as int, r.2 as int) == version_key(s@),
{
    let cs = str_to_chars(s.as_str());
    let body = strip_leading_chars(&cs, 'v');
    let segs = split_dots_exec(&body);
    let ghost sviews = segs@.map_values(|l: Vec<char>| l@);
    let mut vals: Vec<u32> = Vec::new();
    let ns = segs.len();
    let mut i: usize = 0;
    proof {
        assert(sviews.skip(0) =~= sviews);
        assert(vals@.map_values(|v: u32| v as int) =~= Seq::<int>::empty());
        assert(Seq::<int>::empty() + seg_values(sviews) =~= seg_values(sviews));
    }
    while i < ns
        invariant
            i <= ns,
            ns == segs@.len(),
            sviews == segs@.map_values(|l: Vec<char>| l@),
            seg_values(sviews) == vals@.map_values(|v: u32| v as int) + seg_values(
                sviews.skip(i as int),
            ),
        decreases ns - i,
    {
        proof {
            assert(sviews.skip(i as int)[0] == sviews[i as int]);
            assert(sviews[i as int] == segs@[i as int]@);
            assert(sviews.skip(i as int).skip(1) =~= sviews.skip(i + 1));
        }
        match parse_segment(&segs[i]) {
            Some(v) => {
                proof {
                    assert(vals@.push(v).map_values(|x: u32| x as int) =~= vals@.map_values(
                        |x: u32| x as int,
                    ).push(v as int));
                    assert(vals@.map_values(|x: u32| x as int).push(v as int) + seg_values(
                        sviews.skip(i + 1),
                    ) =~= vals@.map_values(|x: u32| x as int) + (seq![v as int] + seg_values(
                        sviews.skip(i + 1),
                    )));
                }
                vals.push(v);
            },
            None => {
                proof {
                    assert(Seq::<int>::empty() + seg_values(sviews.skip(i + 1)) =~= seg_values(
                        sviews.skip(i + 1),
                    ));
                }
            },
        }
        i = i + 1;
    }
    proof {
        assert(seg_values(sviews.skip(ns as int)) =~= Seq::<int>::empty());
        assert(vals@.map_values(|v: u32| v as int) + Seq::<int>::empty() =~= vals@.map_values(
            |v: u32| v as int,
        ));
    }
    let a = if vals.len() > 0 {
        vals[0]
    } else {
        0
    };
    let b = if vals.len() > 1 {
        vals[1]
    } else {
        0
    };
    let c = if vals.len() > 2 {
        vals[2]
    } else {
        0
    };
    (a, b, c)
}

/// Whether `a` orders at or before `b` by version key.
pub fn key_le_exec(a: &String, b: &String) -> (r: bool)
    ensures
        r == key_le(a@, b@),
{
    let ka = parse_version(a);
    let kb = parse_version(b);
    ka.0 < kb.0 || (ka.0 == kb.0 && ka.1 < kb.1) || (ka.0 == kb.0 && ka.1 == kb.1 && ka.2 <= kb.2)
}

/// Sort version names ascending by numeric key, e.g. `v18.20.8`
/// before `v20.19.5` before `v22.16.0`.  The result holds exactly the
/// same names.
pub fn sort_versions_semver(versions: &mut Vec<String>)
    ensures
        final(versions)@.len() == old(versions)@.len(),
        final(versions)@.map_values(|s: String| s@).to_multiset() == old(versions)@.map_values(
            |s: String| s@,
        ).to_multiset(),
        forall|i: int, j: int|
            0 <= i < j < final(versions)@.len() ==> key_le(
                #[trigger] final(versions)@[i]@,
                #[trigger] final(versions)@[j]@,
            ),
{
    broadcast use vstd::seq_lib::group_to_multiset_ensures;

    let ghost orig = old(versions)@.map_values(|s: String| s@);
    let mut out: Vec<String> = Vec::new();
    proof {
        assert(out@.map_values(|s: String| s@) =~= Seq::<Seq<char>>::empty());
        assert(Seq::<Seq<char>>::empty().to_multiset().add(orig.to_multiset())
            =~= orig.to_multiset());
    }
    loop
        invariant
            orig == old(versions)@.map_values(|s: String| s@),
            out@.len() + versions@.len() == orig.len(),
            out@.map_values(|s: String| s@).to_multiset().add(
                versions@.map_values(|s: String| s@).to_multiset(),
            ) == orig.to_multiset(),
            forall|i: int, j: int|
                0 <= i < j < out@.len() ==> key_le(
                    #[trigger] out@[i]@,
                    #[trigger] out@[j]@,
                ),
            forall|i: int, j: int|
                0 <= i < out@.len() && 0 <= j < versions@.len() ==> key_le(
                    #[trigger] out@[i]@,
                    #[trigger] versions@[j]@,
                ),
        decreases versions@.len(),
    {
        let ghost vv = versions@.map_values(|s: String| s@);
        let ghost ov = out@.map_values(|s: String| s@);
        let m = versions.len();
        if m == 0 {
            proof {
                broadcast use vstd::seq_lib::group_to_multiset_ensures;

                vstd::multiset::lemma_multiset_empty_len::<Seq<char>>(vv.to_multiset());
                assert(vv.to_multiset() =~= Multiset::<Seq<char>>::empty());
                assert(ov.to_multiset().add(Multiset::<Seq<char>>::empty())
                    =~= ov.to_multiset());
            }
            *versions = out;
            return ;
        }
        // first position with the least key, so that equal keys keep
        // their input order
        let mut k: usize = 0;
        let mut b: usize = 1;
        proof {
            assert(vv[0] == versions@[0]@);
        }
        while b < m
            invariant
                1 <= b <= m,
                k < b,
                m == versions@.len(),
                vv == versions@.map_values(|s: String| s@),
                forall|j: int| 0 <= j < b ==> key_le(versions@[k as int]@, #[trigger] versions@[j]@),
            decreases m - b,
        {
            proof {
                assert(vv[b as int] == versions@[b as int]@);
                assert(vv[k as int] == versions@[k as int]@);
            }
            if !key_le_exec(&versions[k], &versions[b]) {
                k = b;
            }
            b = b + 1;
        }
        let e = versions.remove(k);
        out.push(e);
        proof {
            broadcast use vstd::seq_lib::group_to_multiset_ensures;

            let e_v = vv[k as int];
            assert(versions@.map_values(|s: String| s@) =~= vv.remove(k as int));
            assert(out@.map_values(|s: String| s@) =~= ov.push(e_v));
            assert(vv.contains(e_v)) by {
                assert(vv[k as int] == e_v);
            }
            assert(vv.to_multiset().count(e_v) > 0);
            assert(ov.push(e_v).to_multiset() =~= ov.to_multiset().insert(e_v));
            assert(vv.remove(k as int).to_multiset() =~= vv.to_multiset().remove(e_v));
            assert(ov.to_multiset().insert(e_v).add(vv.to_multiset().remove(e_v))
                =~= ov.to_multiset().add(vv.to_multiset()));
            assert forall|i: int, j: int| 0 <= i < j < out@.len() implies key_le(
                #[trigger] out@[i]@,
                #[trigger] out@[j]@,
            ) by {
                if j == out@.len() - 1 {
                    assert(out@[i]@ == ov[i]);
                    assert(out@[j]@ == e_v);
                    assert(key_le(ov[i], e_v));
                } else {
                    assert(out@[i]@ == ov[i] && out@[j]@ == ov[j]);
                }
            }
            assert forall|i: int, j: int|
                0 <= i < out@.len() && 0 <= j < versions@.len() implies key_le(
                #[trigger] out@[i]@,
                #[trigger] versions@[j]@,
            ) by {
                let j1 = if j < k as int {
                    j
                } else {
                    j + 1
                };
                assert(versions@[j]@ == vv.remove(k as int)[j]);
                assert(vv.remove(k as int)[j] == vv[j1]);
                if i == out@.len() - 1 {
                    assert(out@[i]@ == e_v);
                } else {
                    assert(out@[i]@ == ov[i]);
                }
            }
        }
    }
}

/// A version name matches the alias when its number (leading `v`s
/// dropped) starts with or equals the alias text.
pub open spec fn matches_alias(v: Seq<char>, alias: Seq<char>) -> bool {
    let num = strip_leading(v, 'v');
    starts_with(num, alias) || num == alias
}

fn matches_alias_exec(v: &String, alias: &String) -> (r: bool)
    ensures
        r == matches_alias(v@, alias@),
{
    let cs = str_to_chars(v.as_str());
    let num = strip_leading_chars(&cs, 'v');
    let al = str_to_chars(alias.as_str());
    let r = starts_with_chars(&num, &al);
    proof {
        if num@ == al@ {
            assert(num@.take(al@.len() as int) =~= al@);
        }
    }
    r
}

/// Index of the first name matching the alias, or `vs.len()`.
pub open spec fn first_match_at(vs: Seq<Seq<char>>, alias: Seq<char>) -> int
    decreases vs.len(),
{
    if vs.len() == 0 {
        0
    } else if matches_alias(vs[0], alias) {
        0
    } else {
        1 + first_match_at(vs.skip(1), alias)
    }
}

/// Index of the last name with the greatest key.
pub open spec fn argmax_last(vs: Seq<Seq<char>>) -> int
    decreases vs.len(),
{
    if vs.len() <= 1 {
        0
    } else {
        let r = argmax_last(vs.drop_last());
        if key_le(vs[r], vs.last()) {
            vs.len() - 1
        } else {
            r
        }
    }
}

proof fn lemma_argmax_last_bounds(vs: Seq<Seq<char>>)
    requires
        vs.len() > 0,
    ensures
        0 <= argmax_last(vs) < vs.len(),
    decreases vs.len(),
{
    if vs.len() > 1 {
        lemma_argmax_last_bounds(vs.drop_last());
    }
}

/// The version chosen for a session's runtime: the first installed
/// version matching the user's default alias; with no alias or no
/// match, the newest installed version; `None` only when none is
/// installed.
pub open spec fn select_version(vs: Seq<Seq<char>>, alias: Option<Seq<char>>) -> Option<
    Seq<char>,
> {
    if vs.len() == 0 {
        None
    } else {
        match alias {
            Some(a) => {
                let m = first_match_at(vs, a);
                if m < vs.len() {
                    Some(vs[m])
                } else {
                    Some(vs[argmax_last(vs)])
                }
            },
            None => Some(vs[argmax_last(vs)]),
        }
    }
}

fn argmax_exec(versions: &Vec<String>) -> (r: usize)
    requires
        versions@.len() > 0,
    ensures
        r as int == argmax_last(versions@.map_values(|s: String| s@)),
        r < versions@.len(),
{
    let ghost vs = versions@.map_values(|s: String| s@);
    let n = versions.len();
    let mut best: usize = 0;
    let mut i: usize = 1;
    proof {
        assert(vs.take(1) =~= seq![vs[0]]);
        lemma_argmax_last_bounds(vs.take(1));
    }
    while i < n
        invariant
            1 <= i <= n,
            n == versions@.len(),
            vs == versions@.map_values(|s: String| s@),
            best < i,
            best as int == argmax_last(vs.take(i as int)),
        decreases n - i,
    {
        proof {
            assert(vs.take(i + 1).drop_last() =~= vs.take(i as int));
            assert(vs.take(i + 1).last() == vs[i as int]);
            assert(vs.take(i + 1)[best as int] == vs[best as int]);
            assert(vs[best as int] == versions@[best as int]@);
            assert(vs[i as int] == versions@[i as int]@);
        }
        if key_le_exec(&versions[best], &versions[i]) {
            best = i;
        }
        i = i + 1;
    }
    proof {
        assert(vs.take(n as int) =~= vs);
    }
    best
}

/// Choose the node version to use, honouring the default alias when
/// one matches; succeeds exactly when any version is installed.
pub fn select_node_version(versions: &Vec<String>, alias: Option<&String>) -> (r: Option<String>)
    ensures
        ({
            let vs = versions@.map_values(|s: String| s@);
            let al = match alias {
                Some(a) => Some(a@),
                None => None::<Seq<char>>,
            };
            match r {
                Some(v) => select_version(vs, al) == Some(v@),
                None => versions@.len() == 0 && select_version(vs, al) is None,
            }
        }),
        (versions@.len() > 0) == (r is Some),
{
    let ghost vs = versions@.map_values(|s: String| s@);
    let n = versions.len();
    if n == 0 {
        return None;
    }
    match alias {
        Some(a) => {
            let mut i: usize = 0;
            proof {
                assert(vs.skip(0) =~= vs);
            }
            while i < n
                invariant
                    alias == Some(a),
                    i <= n,
                    n == versions@.len(),
                    vs == versions@.map_values(|s: String| s@),
                    first_match_at(vs, a@) == i + first_match_at(vs.skip(i as int), a@),
                decreases n - i,
            {
                proof {
                    assert(vs.skip(i as int)[0] == vs[i as int]);
                    assert(vs[i as int] == versions@[i as int]@);
                    assert(vs.skip(i as int).skip(1) =~= vs.skip(i + 1));
                }
                if matches_alias_exec(&versions[i], a) {
                    let chosen = versions[i].clone();
                    proof {
                        assert(matches_alias(vs.skip(i as int)[0], a@));
                        assert(first_match_at(vs.skip(i as int), a@) == 0);
                        assert(first_match_at(vs, a@) == i);
                        assert(chosen@ == vs[i as int]);
                        assert(select_version(vs, Some(a@)) == Some(chosen@));
                        assert(versions@.map_values(|s: String| s@) =~= vs);
                    }
                    return Some(chosen);
                }
                i = i + 1;
            }
            proof {
                assert(first_match_at(vs.skip(n as int), a@) == 0);
            }
            let best = argmax_exec(versions);
            proof {
                assert(vs[best as int] == versions@[best as int]@);
            }
            Some(versions[best].clone())
        },
        None => {
            let best = argmax_exec(versions);
            proof {
                assert(vs[best as int] == versions@[best as int]@);
            }
            Some(versions[best].clone())
        },
    }
}

/// The search path for shell commands: runtime and package-manager
/// directories first, the user's local binaries, the system
/// directories, then whatever path the process already had.
pub open spec fn extended_path_s(nvm: Option<Seq<char>>, home: Seq<char>, current: Seq<char>)
    -> Seq<char> {
    let base = "/opt/homebrew/bin:/opt/homebrew/sbin:/usr/local/bin:/usr/local/sbin:"@ + home
        + "/.local/bin:/usr/bin:/bin:/usr/sbin:/sbin"@;
    let with_nvm = match nvm {
        Some(nb) => nb + ":"@ + base,
        None => base,
    };
    if current.len() == 0 {
        with_nvm
    } else {
        with_nvm + ":"@ + current
    }
}

/// Build the extended search path handed to shell commands.
pub fn build_extended_path(nvm_bin: Option<&String>, home: &String, current_path: &String) -> (r:
    String)
    ensures
        ({
            let nv = match nvm_bin {
                Some(n) => Some(n@),
                None => None::<Seq<char>>,
            };
            r@ == extended_path_s(nv, home@, current_path@)
        }),
{
    let mut out = String::new();
    match nvm_bin {
        Some(nb) => {
            out.append(nb.as_str());
            out.append(":");
        },
        None => {},
    }
    out.append("/opt/homebrew/bin:/opt/homebrew/sbin:/usr/local/bin:/usr/local/sbin:");
    out.append(home.as_str());
    out.append("/.local/bin:/usr/bin:/bin:/usr/sbin:/sbin");
    if !current_path.as_str().is_empty() {
        out.append(":");
        out.append(current_path.as_str());
    }
    proof {
        let nv = match nvm_bin {
            Some(n) => Some(n@),
            None => None::<Seq<char>>,
        };
        assert(out@ =~= extended_path_s(nv, home@, current_path@));
    }
    out
}

/// The search path given to a spawned terminal session.
pub open spec fn session_path_s(home: Seq<char>, current: Seq<char>) -> Seq<char> {
    "/usr/local/bin:/opt/homebrew/bin:/usr/bin:/bin:"@ + home + "/.local/bin:"@ + current
}

/// Build the search path for a spawned terminal session.
pub fn build_session_path(home: &String, current_path: &String) -> (r: String)
    ensures
        r@ == session_path_s(home@, current_path@),
{
    let mut out = String::new();
    out.append("/usr/local/bin:/opt/homebrew/bin:/usr/bin:/bin:");
    out.append(home.as_str());
    out.append("/.local/bin:");
    out.append(current_path.as_str());
    proof {
        assert(out@ =~= session_path_s(home@, current_path@));
    }
    out
}

} // verus!
