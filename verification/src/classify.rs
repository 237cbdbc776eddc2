//! Line classification rules: control-sequence stripping, junk
//! filtering and extraction of paths and commands from tool lines.

use vstd::prelude::*;

use crate::chars::{find_char, find_sub, contains_sub, starts_with_chars, slice_chars, trim_chars, str_to_chars, first_char_at, first_sub_at, has_char, has_sub, starts_with, trim_s};



verus! {

/// ASCII letter, the final byte of a control sequence.
pub open spec fn is_ascii_alpha(c: char) -> bool {
    ('a' <= c && c <= 'z') || ('A' <= c && c <= 'Z')
}

/// Control character (Unicode category Cc).
pub open spec fn is_control_char(c: char) -> bool {
    (c as u32) < 0x20 || (0x7f <= (c as u32) && (c as u32) <= 0x9f)
}

/// Index just past the end of a CSI control sequence that starts at `i`:
/// everything up to and including the first ASCII letter is consumed.
pub open spec fn csi_end(s: Seq<char>, i: int) -> int
    decreases s.len() - i when 0 <= i <= s.len()
{
    if i >= s.len() {
        s.len() as int
    } else if is_ascii_alpha(s[i]) {
        i + 1
    } else {
        csi_end(s, i + 1)
    }
}

/// Index just past the end of an OSC control sequence that starts at
/// `i`: everything up to and including the terminator is consumed.
pub open spec fn osc_end(s: Seq<char>, i: int) -> int
    decreases s.len() - i when 0 <= i <= s.len()
{
    if i >= s.len() {
        s.len() as int
    } else if s[i] == '\u{7}' || s[i] == '\\' {
        i + 1
    } else {
        osc_end(s, i + 1)
    }
}

pub proof fn lemma_csi_end_bounds(s: Seq<char>, i: int)
    requires
        0 <= i <= s.len(),
    ensures
        i <= csi_end(s, i) <= s.len(),
    decreases s.len() - i,
{
    if i < s.len() && !is_ascii_alpha(s[i]) {
        lemma_csi_end_bounds(s, i + 1);
    }
}

pub proof fn lemma_osc_end_bounds(s: Seq<char>, i: int)
    requires
        0 <= i <= s.len(),
    ensures
        i <= osc_end(s, i) <= s.len(),
    decreases s.len() - i,
{
    if i < s.len() && !(s[i] == '\u{7}' || s[i] == '\\') {
        lemma_osc_end_bounds(s, i + 1);
    }
}

/// Text with terminal control sequences, carriage returns and other
/// control characters removed, keeping newlines and tabs, starting the
/// scan at index `i`.
pub open spec fn strip_from(s: Seq<char>, i: int) -> Seq<char>
    decreases s.len() - i when 0 <= i <= s.len()
    via strip_from_decreases
{
    if i >= s.len() {
        seq![]
    } else if s[i] == '\u{1b}' {
        if i + 1 >= s.len() {
            seq![]
        } else if s[i + 1] == '[' {
            strip_from(s, csi_end(s, i + 2))
        } else if s[i + 1] == ']' {
            strip_from(s, osc_end(s, i + 2))
        } else if s[i + 1] == '(' || s[i + 1] == ')' {
            if i + 3 <= s.len() {
                strip_from(s, i + 3)
            } else {
                seq![]
            }
        } else {
            strip_from(s, i + 2)
        }
    } else if s[i] == '\r' {
        strip_from(s, i + 1)
    } else if is_control_char(s[i]) && s[i] != '\n' && s[i] != '\t' {
        strip_from(s, i + 1)
    } else {
        seq![s[i]] + strip_from(s, i + 1)
    }
}

#[via_fn]
proof fn strip_from_decreases(s: Seq<char>, i: int) {
    if 0 <= i && i < s.len() {
        if i + 2 <= s.len() {
            lemma_csi_end_bounds(s, i + 2);
            lemma_osc_end_bounds(s, i + 2);
        }
    }
}

/// The stripped form of a whole text.
pub open spec fn strip_ansi_s(s: Seq<char>) -> Seq<char> {
    strip_from(s, 0)
}

fn is_ascii_alpha_exec(c: char) -> (r: bool)
    ensures
        r == is_ascii_alpha(c),
{
    ('a' <= c && c <= 'z') || ('A' <= c && c <= 'Z')
}

fn is_control_exec(c: char) -> (r: bool)
    ensures
        r == is_control_char(c),
{
    let v = c as u32;
    v < 0x20 || (0x7f <= v && v <= 0x9f)
}

/// Strip terminal control sequences and control characters from text,
/// keeping newlines and tabs.
pub fn strip_ansi(s: &Vec<char>) -> (out: Vec<char>)
    ensures
        out@ == strip_ansi_s(s@),
{
    let n = s.len();
    let mut out: Vec<char> = Vec::new();
    let mut i: usize = 0;
    while i < n
        invariant
            i <= n,
            n == s@.len(),
            strip_from(s@, 0) == out@ + strip_from(s@, i as int),
        decreases n - i,
    {
        let c = s[i];
        if c == '\u{1b}' {
            if i + 1 >= n {
                i = n;
            } else if s[i + 1] == '[' {
                proof {
                    lemma_csi_end_bounds(s@, i + 2);
                }
                let mut j = i + 2;
                while j < n && !is_ascii_alpha_exec(s[j])
                    invariant
                        i + 2 <= j <= n,
                        n == s@.len(),
                        csi_end(s@, i + 2) == csi_end(s@, j as int),
                    decreases n - j,
                {
                    j = j + 1;
                }
                if j < n {
                    i = j + 1;
                } else {
                    i = n;
                }
            } else if s[i + 1] == ']' {
                proof {
                    lemma_osc_end_bounds(s@, i + 2);
                }
                let mut j = i + 2;
                while j < n && !(s[j] == '\u{7}' || s[j] == '\\')
                    invariant
                        i + 2 <= j <= n,
                        n == s@.len(),
                        osc_end(s@, i + 2) == osc_end(s@, j as int),
                    decreases n - j,
                {
                    j = j + 1;
                }
                if j < n {
                    i = j + 1;
                } else {
                    i = n;
                }
            } else if s[i + 1] == '(' || s[i + 1] == ')' {
                if n - i >= 3 {
                    i = i + 3;
                } else {
                    i = n;
                }
            } else {
                i = i + 2;
            }
        } else if c == '\r' {
            i = i + 1;
        } else if is_control_exec(c) && c != '\n' && c != '\t' {
            i = i + 1;
        } else {
            proof {
                assert((out@ + seq![s@[i as int]]) + strip_from(s@, i + 1) =~= out@ + (seq![
                    s@[i as int],
                ] + strip_from(s@, i + 1)));
            }
            out.push(c);
            i = i + 1;
        }
    }
    out
}

/// Decorative characters at which response text is cut.
pub open spec fn is_decorative(c: char) -> bool {
    ||| c == '\u{2500}'
    ||| c == '\u{2502}'
    ||| c == '\u{250c}'
    ||| c == '\u{2510}'
    ||| c == '\u{2514}'
    ||| c == '\u{2518}'
    ||| c == '\u{251c}'
    ||| c == '\u{2524}'
    ||| c == '\u{252c}'
    ||| c == '\u{2534}'
    ||| c == '\u{253c}'
    ||| c == '\u{2550}'
    ||| c == '\u{2551}'
    ||| c == '\u{2554}'
    ||| c == '\u{2557}'
    ||| c == '\u{255a}'
    ||| c == '\u{255d}'
    ||| c == '\u{2736}'
    ||| c == '\u{2737}'
    ||| c == '\u{2738}'
    ||| c == '\u{2739}'
    ||| c == '\u{273a}'
    ||| c == '\u{273b}'
    ||| c == '\u{273c}'
    ||| c == '\u{273d}'
    ||| c == '\u{273e}'
    ||| c == '\u{273f}'
    ||| c == '\u{b7}'
    ||| c == '\u{2022}'
    ||| c == '\u{25e6}'
    ||| c == '\u{2722}'
    ||| c == '\u{2723}'
    ||| c == '\u{2724}'
    ||| c == '\u{2725}'
    ||| c == '\u{2726}'
    ||| c == '\u{2727}'
    ||| c == '\u{2729}'
    ||| c == '\u{272a}'
    ||| c == '\u{272b}'
    ||| c == '\u{272c}'
    ||| c == '\u{272d}'
    ||| c == '\u{272e}'
    ||| c == '\u{272f}'
    ||| c == '\u{2730}'
    ||| c == '\u{2731}'
    ||| c == '\u{2732}'
    ||| c == '\u{2733}'
    ||| c == '\u{fffd}'
}

/// Characters that mark a line as UI chrome when they lead it.
pub open spec fn is_junk_lead(c: char) -> bool {
    is_decorative(c) || c == '>'
}

fn is_decorative_exec(c: char) -> (r: bool)
    ensures
        r == is_decorative(c),
{
    c == '\u{2500}' || c == '\u{2502}' || c == '\u{250c}' || c == '\u{2510}' || c == '\u{2514}'
        || c == '\u{2518}' || c == '\u{251c}' || c == '\u{2524}' || c == '\u{252c}' || c
        == '\u{2534}' || c == '\u{253c}' || c == '\u{2550}' || c == '\u{2551}' || c == '\u{2554}'
        || c == '\u{2557}' || c == '\u{255a}' || c == '\u{255d}' || c == '\u{2736}' || c
        == '\u{2737}' || c == '\u{2738}' || c == '\u{2739}' || c == '\u{273a}' || c == '\u{273b}'
        || c == '\u{273c}' || c == '\u{273d}' || c == '\u{273e}' || c == '\u{273f}' || c == '\u{b7}'
        || c == '\u{2022}' || c == '\u{25e6}' || c == '\u{2722}' || c == '\u{2723}' || c
        == '\u{2724}' || c == '\u{2725}' || c == '\u{2726}' || c == '\u{2727}' || c == '\u{2729}'
        || c == '\u{272a}' || c == '\u{272b}' || c == '\u{272c}' || c == '\u{272d}' || c
        == '\u{272e}' || c == '\u{272f}' || c == '\u{2730}' || c == '\u{2731}' || c == '\u{2732}'
        || c == '\u{2733}' || c == '\u{fffd}'
}

fn is_junk_lead_exec(c: char) -> (r: bool)
    ensures
        r == is_junk_lead(c),
{
    is_decorative_exec(c) || c == '>'
}

fn is_ascii_digit_exec(c: char) -> (r: bool)
    ensures
        r == ('0' <= c && c <= '9'),
{
    '0' <= c && c <= '9'
}

/// Delimiters that end a file path inside a tool line.
pub open spec fn is_path_end(c: char) -> bool {
    c == ')' || c == '"' || c == '\'' || c == ' '
}

/// Index of the first path delimiter in `t`, or `t.len()`.
pub open spec fn path_end_at(t: Seq<char>) -> int
    decreases t.len(),
{
    if t.len() == 0 {
        0
    } else if is_path_end(t[0]) {
        0
    } else {
        1 + path_end_at(t.skip(1))
    }
}

fn path_end_exec(t: &Vec<char>) -> (r: usize)
    ensures
        r as int == path_end_at(t@),
        r <= t@.len(),
{
    let n = t.len();
    let mut i: usize = 0;
    proof {
        assert(t@.skip(0) =~= t@);
    }
    while i < n
        invariant
            i <= n,
            n == t@.len(),
            path_end_at(t@) == i + path_end_at(t@.skip(i as int)),
        decreases n - i,
    {
        let c = t[i];
        if c == ')' || c == '"' || c == '\'' || c == ' ' {
            proof {
                assert(t@.skip(i as int)[0] == c);
            }
            return i;
        }
        proof {
            assert(t@.skip(i as int)[0] == t@[i as int]);
            assert(t@.skip(i as int).skip(1) =~= t@.skip(i + 1));
        }
        i = i + 1;
    }
    i
}

/// Path extracted from a tool line: the text from the first `/` up to
/// the first delimiter, if the line holds a `/` at all.
pub open spec fn extract_path_s(t: Seq<char>) -> Option<Seq<char>> {
    if has_char(t, '/') {
        let rest = t.skip(first_char_at(t, '/'));
        Some(rest.take(path_end_at(rest)))
    } else {
        None
    }
}

/// Extract a file path from tool output.
pub fn extract_path(t: &Vec<char>) -> (r: Option<Vec<char>>)
    ensures
        match r {
            Some(p) => extract_path_s(t@) == Some(p@),
            None => extract_path_s(t@) is None,
        },
{
    match find_char(t, '/') {
        Some(i) => {
            let rest = slice_chars(t, i, t.len());
            proof {
                assert(rest@ =~= t@.skip(i as int));
            }
            let e = path_end_exec(&rest);
            let out = slice_chars(&rest, 0, e);
            proof {
                assert(out@ =~= rest@.take(path_end_at(rest@)));
            }
            Some(out)
        },
        None => None,
    }
}

/// Command extracted from a tool line: the text inside `Bash(...)`, or
/// after `Running:`.
pub open spec fn extract_command_s(t: Seq<char>) -> Option<Seq<char>> {
    let rest = t.skip(first_sub_at(t, "Bash("@) + 5);
    if has_sub(t, "Bash("@) && has_char(rest, ')') {
        Some(rest.take(first_char_at(rest, ')')))
    } else if has_sub(t, "Running:"@) {
        Some(trim_s(t.skip(first_sub_at(t, "Running:"@) + 8)))
    } else {
        None
    }
}

/// Extract a command from tool output.
pub fn extract_command(t: &Vec<char>) -> (r: Option<Vec<char>>)
    ensures
        match r {
            Some(p) => extract_command_s(t@) == Some(p@),
            None => extract_command_s(t@) is None,
        },
{
    proof {
        reveal_strlit("Bash(");
        reveal_strlit("Running:");
    }
    let n = t.len();
    let bash = str_to_chars("Bash(");
    match find_sub(t, &bash) {
        Some(i) => {
            proof {
                assert(i + bash@.len() <= t@.len());
            }
            let rest = slice_chars(t, i + 5, n);
            proof {
                assert(rest@ =~= t@.skip(first_sub_at(t@, "Bash("@) + 5));
            }
            match find_char(&rest, ')') {
                Some(j) => {
                    let out = slice_chars(&rest, 0, j);
                    proof {
                        assert(out@ =~= rest@.take(first_char_at(rest@, ')')));
                    }
                    return Some(out);
                },
                None => {},
            }
        },
        None => {},
    }
    let running = str_to_chars("Running:");
    match find_sub(t, &running) {
        Some(k) => {
            proof {
                assert(k + running@.len() <= t@.len());
            }
            let rest = slice_chars(t, k + 8, n);
            proof {
                assert(rest@ =~= t@.skip(first_sub_at(t@, "Running:"@) + 8));
            }
            let out = trim_chars(&rest);
            Some(out)
        },
        None => None,
    }
}

/// Total UTF-8 byte length of a character buffer.
pub fn text_width_exec(t: &Vec<char>) -> (w: u128)
    ensures
        w as int == crate::text::text_width(t@),
{
    let n = t.len();
    let mut acc: u128 = 0;
    let mut i: usize = 0;
    proof {
        assert(t@.skip(0) =~= t@);
        crate::text::lemma_text_width_nonneg(t@);
    }
    while i < n
        invariant
            i <= n,
            n == t@.len(),
            crate::text::text_width(t@) == acc + crate::text::text_width(t@.skip(i as int)),
            acc <= 4 * i,
        decreases n - i,
    {
        proof {
            assert(t@.skip(i as int)[0] == t@[i as int]);
            assert(t@.skip(i as int).skip(1) =~= t@.skip(i + 1));
            crate::text::lemma_text_width_nonneg(t@.skip(i + 1));
        }
        let w = crate::text::char_width_exec(t[i]);
        acc = acc + w as u128;
        i = i + 1;
    }
    proof {
        assert(crate::text::text_width(t@.skip(n as int)) == 0);
    }
    acc
}

/// Index of the first decorative character after the leading character,
/// or `t.len()` if there is none.
pub open spec fn decor_cut_at(t: Seq<char>) -> int
    decreases t.len(),
{
    if t.len() <= 1 {
        t.len() as int
    } else if is_decorative(t[1]) {
        1
    } else {
        1 + decor_cut_at(t.skip(1))
    }
}

pub proof fn lemma_decor_cut_at(t: Seq<char>)
    ensures
        (if t.len() == 0 { 0int } else { 1int }) <= decor_cut_at(t) <= t.len(),
        decor_cut_at(t) < t.len() ==> is_decorative(t[decor_cut_at(t)]),
        forall|j: int| 1 <= j < decor_cut_at(t) ==> !is_decorative(t[j]),
    decreases t.len(),
{
    if t.len() <= 1 {
    } else if is_decorative(t[1]) {
    } else {
        lemma_decor_cut_at(t.skip(1));
        let r = 1 + decor_cut_at(t.skip(1));
        assert forall|j: int| 1 <= j < r implies !is_decorative(t[j]) by {
            if j >= 2 {
                assert(t[j] == t.skip(1)[j - 1]);
            }
        }
        if r < t.len() {
            assert(t[r] == t.skip(1)[r - 1]);
        }
    }
}

fn decor_cut_exec(t: &Vec<char>) -> (r: usize)
    ensures
        r as int == decor_cut_at(t@),
{
    proof {
        lemma_decor_cut_at(t@);
    }
    let n = t.len();
    if n == 0 {
        return 0;
    }
    let mut j: usize = 1;
    while j < n
        invariant
            1 <= j <= n,
            n == t@.len(),
            forall|k: int| 1 <= k < j ==> !is_decorative(t@[k]),
        decreases n - j,
    {
        if is_decorative_exec(t[j]) {
            proof {
                lemma_decor_cut_at(t@);
                let r = decor_cut_at(t@);
                if r < j {
                    assert(is_decorative(t@[r]));
                }
            }
            return j;
        }
        j = j + 1;
    }
    proof {
        lemma_decor_cut_at(t@);
        let r = decor_cut_at(t@);
        if r < n {
            assert(is_decorative(t@[r]));
        }
    }
    n
}

/// A line that is terminal UI noise: too short, ruled, leftover control
/// fragments, decorative lead, digit-led control residue, or a known
/// chrome phrase.
pub open spec fn is_junk_line_s(x: Seq<char>) -> bool {
    let t = trim_s(x);
    ||| crate::text::text_width(t) < 3
    ||| has_sub(t, "\u{2500}\u{2500}"@)
    ||| has_sub(t, "\u{2501}\u{2501}"@)
    ||| has_sub(t, "\u{2550}\u{2550}"@)
    ||| has_sub(t, ";231m"@)
    ||| has_sub(t, ";1H"@)
    ||| has_sub(t, ";247m"@)
    ||| (t.len() > 0 && is_junk_lead(t[0]))
    ||| (t.len() >= 2 && '0' <= t[0] && t[0] <= '9' && (t[1] == ';' || t[1] == 'm' || t[1]
        == 'H'))
    ||| has_sub(t, "? for shortcuts"@)
    ||| has_sub(t, "esc to interrupt"@)
    ||| has_sub(t, "ctrl+g"@)
    ||| has_sub(t, "\u{21b5} send"@)
    ||| has_sub(t, "Your rate limits"@)
    ||| starts_with(t, "[one-term]"@)
    ||| starts_with(t, "/model"@)
}

/// Check whether a line is terminal UI junk.
pub fn is_junk_line(x: &Vec<char>) -> (r: bool)
    ensures
        r == is_junk_line_s(x@),
{
    proof {
        reveal_strlit("\u{2500}\u{2500}");
        reveal_strlit("\u{2501}\u{2501}");
        reveal_strlit("\u{2550}\u{2550}");
        reveal_strlit(";231m");
        reveal_strlit(";1H");
        reveal_strlit(";247m");
        reveal_strlit("? for shortcuts");
        reveal_strlit("esc to interrupt");
        reveal_strlit("ctrl+g");
        reveal_strlit("\u{21b5} send");
        reveal_strlit("Your rate limits");
        reveal_strlit("[one-term]");
        reveal_strlit("/model");
    }
    let t = trim_chars(x);
    let w = text_width_exec(&t);
    if w < 3 {
        return true;
    }
    if contains_sub(&t, &str_to_chars("\u{2500}\u{2500}")) || contains_sub(
        &t,
        &str_to_chars("\u{2501}\u{2501}"),
    ) || contains_sub(&t, &str_to_chars("\u{2550}\u{2550}")) {
        return true;
    }
    if contains_sub(&t, &str_to_chars(";231m")) || contains_sub(&t, &str_to_chars(";1H"))
        || contains_sub(&t, &str_to_chars(";247m")) {
        return true;
    }
    if t.len() > 0 {
        let first = t[0];
        if is_junk_lead_exec(first) {
            return true;
        }
        if is_ascii_digit_exec(first) && t.len() >= 2 && (t[1] == ';' || t[1] == 'm' || t[1]
            == 'H') {
            return true;
        }
    }
    contains_sub(&t, &str_to_chars("? for shortcuts")) || contains_sub(
        &t,
        &str_to_chars("esc to interrupt"),
    ) || contains_sub(&t, &str_to_chars("ctrl+g")) || contains_sub(
        &t,
        &str_to_chars("\u{21b5} send"),
    ) || contains_sub(&t, &str_to_chars("Your rate limits")) || starts_with_chars(
        &t,
        &str_to_chars("[one-term]"),
    ) || starts_with_chars(&t, &str_to_chars("/model"))
}

/// Clean response text: `None` for junk lines, otherwise the line cut
/// at the first decorative character and trimmed, kept only when at
/// least two bytes remain.
pub open spec fn extract_clean_response_s(x: Seq<char>) -> Option<Seq<char>> {
    let t = trim_s(x);
    if is_junk_line_s(t) {
        None
    } else {
        let clean = trim_s(t.take(decor_cut_at(t)));
        if crate::text::text_width(clean) >= 2 {
            Some(clean)
        } else {
            None
        }
    }
}

/// Extract clean response text, cutting at the first decorative
/// character.
pub fn extract_clean_response(x: &Vec<char>) -> (r: Option<Vec<char>>)
    ensures
        match r {
            Some(p) => extract_clean_response_s(x@) == Some(p@),
            None => extract_clean_response_s(x@) is None,
        },
{
    let t = trim_chars(x);
    if is_junk_line(&t) {
        return None;
    }
    let cut = decor_cut_exec(&t);
    proof {
        lemma_decor_cut_at(t@);
    }
    let head = slice_chars(&t, 0, cut);
    proof {
        assert(head@ =~= t@.take(decor_cut_at(t@)));
    }
    let clean = trim_chars(&head);
    let w = text_width_exec(&clean);
    if w >= 2 {
        Some(clean)
    } else {
        None
    }
}

} // verus!
