//! Incremental output parser: turns a live terminal byte stream into
//! classified events without re-scanning already-processed text and
//! without unbounded memory growth.

use vstd::prelude::*;

use crate::chars::{
    find_char, contains_sub, starts_with_chars, slice_chars, trim_chars, str_to_chars,
    strip_leading_chars, first_char_at, lemma_first_char_at, has_char, has_sub, starts_with,
    trim_s, strip_leading,
};
use crate::classify::{
    strip_ansi, strip_ansi_s, extract_path, extract_path_s, extract_command, extract_command_s,
    extract_clean_response, extract_clean_response_s, text_width_exec,
};
use crate::events::{ClaudeEvent, EventV, ParserMode, events_view, clone_event, mode_is_idle};
use crate::text::{decode_lossy, lossy_decode, chars_to_string, text_width, char_width,
    char_width_exec, lemma_text_width_nonneg};

verus! {

/// Marker that introduces a response line.
pub open spec fn resp_marker() -> char {
    '\u{23fa}'
}

/// Marker that introduces a tool-result line.
pub open spec fn result_marker() -> char {
    '\u{23bf}'
}

/// The lines of a text: split at newlines, with a trailing fragment
/// counting as a line of its own and an empty text having none.
pub open spec fn split_lines(s: Seq<char>) -> Seq<Seq<char>>
    decreases s.len(),
    via split_lines_decreases
{
    if s.len() == 0 {
        seq![]
    } else {
        let i = first_char_at(s, '\n');
        if i >= s.len() {
            seq![s]
        } else {
            seq![s.take(i)] + split_lines(s.skip(i + 1))
        }
    }
}

#[via_fn]
proof fn split_lines_decreases(s: Seq<char>) {
    lemma_first_char_at(s, '\n');
}

/// Events produced when a pending block is flushed.
pub open spec fn flush_events(mode: ParserMode, block: Seq<char>) -> Seq<EventV> {
    if block.len() == 0 {
        seq![]
    } else {
        match mode {
            ParserMode::InToolCall => seq![
                EventV::ToolCall { name: "unknown"@, content: block },
            ],
            ParserMode::InToolResult => seq![EventV::ToolResult { content: block }],
            ParserMode::InThinking => seq![EventV::Thinking { content: block }],
            _ => seq![],
        }
    }
}

/// Events produced for the text following a response marker.
pub open spec fn marker_events(content: Seq<char>) -> Seq<EventV> {
    if content.len() == 0 {
        seq![]
    } else if has_sub(content, "Read("@) || starts_with(content, "Read "@) {
        match extract_path_s(content) {
            Some(p) => seq![EventV::FileRead { path: p }],
            None => seq![],
        }
    } else if has_sub(content, "Edit("@) || starts_with(content, "Edit "@) {
        match extract_path_s(content) {
            Some(p) => seq![EventV::FileEdit { path: p }],
            None => seq![],
        }
    } else if has_sub(content, "Bash("@) || starts_with(content, "Bash "@) {
        match extract_command_s(content) {
            Some(c) => seq![EventV::CommandExec { command: c }],
            None => seq![],
        }
    } else {
        match extract_clean_response_s(content) {
            Some(c) => seq![EventV::Response { content: c }],
            None => seq![],
        }
    }
}

/// Outcome of classifying one line: the next mode, the pending block,
/// and the events emitted.
pub struct StepResult {
    pub mode: ParserMode,
    pub block: Seq<char>,
    pub events: Seq<EventV>,
}

/// Classification of a single line under the current mode, following
/// the ordered rules: response marker, result marker, thinking,
/// unmarked tool patterns, then mode-dependent accumulation.
pub open spec fn step_line(mode: ParserMode, block: Seq<char>, line: Seq<char>) -> StepResult {
    let t = trim_s(line);
    if t.len() == 0 {
        StepResult { mode: mode, block: block, events: seq![] }
    } else if has_char(t, resp_marker()) {
        let flushing = block.len() > 0 && mode != ParserMode::Idle;
        let flushed = if flushing {
            flush_events(mode, block)
        } else {
            seq![]
        };
        let b1 = if flushing {
            Seq::<char>::empty()
        } else {
            block
        };
        let content = trim_s(t.skip(first_char_at(t, resp_marker()) + 1));
        StepResult {
            mode: ParserMode::InResponse,
            block: b1,
            events: flushed + marker_events(content),
        }
    } else if starts_with(t, seq![result_marker()]) {
        let content = trim_s(strip_leading(t, result_marker()));
        StepResult {
            mode: mode,
            block: block,
            events: if content.len() > 0 {
                seq![EventV::ToolResult { content: content }]
            } else {
                seq![]
            },
        }
    } else if has_sub(t, "Thinking"@) || starts_with(t, "thinking"@) {
        StepResult { mode: ParserMode::InThinking, block: seq![], events: seq![] }
    } else if has_sub(t, "Read("@) || starts_with(t, "Reading"@) {
        StepResult {
            mode: mode,
            block: block,
            events: match extract_path_s(t) {
                Some(p) => seq![EventV::FileRead { path: p }],
                None => seq![],
            },
        }
    } else if has_sub(t, "Edit("@) || starts_with(t, "Editing"@) {
        StepResult {
            mode: mode,
            block: block,
            events: match extract_path_s(t) {
                Some(p) => seq![EventV::FileEdit { path: p }],
                None => seq![],
            },
        }
    } else if has_sub(t, "Bash("@) || starts_with(t, "Running"@) {
        StepResult {
            mode: mode,
            block: block,
            events: match extract_command_s(t) {
                Some(c) => seq![EventV::CommandExec { command: c }],
                None => seq![],
            },
        }
    } else {
        match mode {
            ParserMode::InResponse => StepResult {
                mode: mode,
                block: block,
                events: match extract_clean_response_s(t) {
                    Some(c) => seq![EventV::Response { content: c }],
                    None => seq![],
                },
            },
            ParserMode::InThinking => StepResult {
                mode: mode,
                block: block,
                events: seq![EventV::Thinking { content: t }],
            },
            ParserMode::InToolCall => StepResult {
                mode: mode,
                block: block + t + seq!['\n'],
                events: seq![],
            },
            ParserMode::InToolResult => StepResult {
                mode: mode,
                block: block + t + seq!['\n'],
                events: seq![],
            },
            ParserMode::Idle => StepResult {
                mode: mode,
                block: block,
                // decorative UI noise produces no event even when idle
                events: if crate::classify::is_junk_line_s(t) {
                    seq![]
                } else {
                    seq![EventV::Text { content: t }]
                },
            },
        }
    }
}

/// Classification of a sequence of lines, threading mode and block.
pub open spec fn run_lines(mode: ParserMode, block: Seq<char>, lines: Seq<Seq<char>>) -> StepResult
    decreases lines.len(),
{
    if lines.len() == 0 {
        StepResult { mode: mode, block: block, events: seq![] }
    } else {
        let s1 = step_line(mode, block, lines[0]);
        let s2 = run_lines(s1.mode, s1.block, lines.skip(1));
        StepResult { mode: s2.mode, block: s2.block, events: s1.events + s2.events }
    }
}

/// First index from `i` whose character no longer fits in `rem` bytes:
/// the point where truncation of the buffer head stops.
pub open spec fn trunc_from(b: Seq<char>, i: int, rem: int) -> int
    decreases b.len() - i when 0 <= i <= b.len()
{
    if i >= b.len() {
        i
    } else if char_width(b[i]) <= rem {
        trunc_from(b, i + 1, rem - char_width(b[i]))
    } else {
        i
    }
}

proof fn lemma_trunc_from_bounds(b: Seq<char>, i: int, rem: int)
    requires
        0 <= i <= b.len(),
    ensures
        i <= trunc_from(b, i, rem) <= b.len(),
    decreases b.len() - i,
{
    if i < b.len() && char_width(b[i]) <= rem {
        lemma_trunc_from_bounds(b, i + 1, rem - char_width(b[i]));
    }
}

/// Maximum UTF-8 byte length of the rolling buffer before truncation.
pub open spec fn buffer_cap() -> int {
    10000
}

/// Byte length retained (at most, up to one character's width more)
/// after truncation.
pub open spec fn buffer_keep() -> int {
    5000
}

/// The rolling buffer after the memory bound is applied: once the
/// buffer exceeds the cap, only a trailing portion of at least the keep
/// size remains, cut at a character boundary.
pub open spec fn cap_buffer(b: Seq<char>) -> Seq<char> {
    if text_width(b) > buffer_cap() {
        b.skip(trunc_from(b, 0, text_width(b) - buffer_keep()))
    } else {
        b
    }
}

/// Mathematical model of the parser state.
pub struct ParserV {
    pub buffer: Seq<char>,
    pub cursor: int,
    pub mode: ParserMode,
    pub block: Seq<char>,
    pub events: Seq<EventV>,
}

/// One `process` call on the model: decode, strip control sequences,
/// append to the buffer, classify the unscanned lines, advance the
/// cursor to the end, and apply the memory bound.
pub open spec fn process_spec(p: ParserV, data: Seq<u8>) -> (ParserV, Seq<EventV>) {
    let cleaned = strip_ansi_s(lossy_decode(data));
    let buf1 = p.buffer + cleaned;
    let lines = split_lines(buf1.skip(p.cursor));
    let st = run_lines(p.mode, p.block, lines);
    let buf2 = cap_buffer(buf1);
    (
        ParserV {
            buffer: buf2,
            cursor: buf2.len() as int,
            mode: st.mode,
            block: st.block,
            events: p.events + st.events,
        },
        st.events,
    )
}

/// The parser state after `clear` or at construction.
pub open spec fn initial_parser() -> ParserV {
    ParserV {
        buffer: seq![],
        cursor: 0,
        mode: ParserMode::Idle,
        block: seq![],
        events: seq![],
    }
}

fn push_event(out: &mut Vec<ClaudeEvent>, e: ClaudeEvent)
    ensures
        events_view(final(out)@) == events_view(old(out)@).push(e@),
{
    proof {
        assert(events_view(old(out)@.push(e)) =~= events_view(old(out)@).push(e@));
    }
    out.push(e);
}

/// Append the contents of `src` to `dst`.
fn append_chars(dst: &mut Vec<char>, src: &Vec<char>)
    ensures
        final(dst)@ == old(dst)@ + src@,
{
    let n = src.len();
    let mut j: usize = 0;
    while j < n
        invariant
            j <= n,
            n == src@.len(),
            dst@ == old(dst)@ + src@.take(j as int),
        decreases n - j,
    {
        proof {
            assert((old(dst)@ + src@.take(j as int)).push(src@[j as int]) =~= old(dst)@
                + src@.take(j + 1));
        }
        dst.push(src[j]);
        j = j + 1;
    }
    proof {
        assert(src@.take(n as int) =~= src@);
    }
}

/// Split a text into lines at newline characters.
fn split_lines_exec(s: &Vec<char>) -> (r: Vec<Vec<char>>)
    ensures
        r@.map_values(|l: Vec<char>| l@) == split_lines(s@),
{
    let n = s.len();
    let mut r: Vec<Vec<char>> = Vec::new();
    let mut pos: usize = 0;
    proof {
        assert(s@.skip(0) =~= s@);
        assert(r@.map_values(|l: Vec<char>| l@) =~= Seq::<Seq<char>>::empty());
    }
    while pos < n
        invariant
            pos <= n,
            n == s@.len(),
            split_lines(s@) == r@.map_values(|l: Vec<char>| l@) + split_lines(
                s@.skip(pos as int),
            ),
        decreases n - pos,
    {
        let rest = slice_chars(s, pos, n);
        proof {
            assert(rest@ =~= s@.skip(pos as int));
        }
        match find_char(&rest, '\n') {
            Some(i) => {
                let line = slice_chars(&rest, 0, i);
                proof {
                    let whole = s@.skip(pos as int);
                    lemma_first_char_at(whole, '\n');
                    assert(line@ =~= whole.take(first_char_at(whole, '\n')));
                    assert(whole.skip(first_char_at(whole, '\n') + 1) =~= s@.skip(
                        pos + i + 1,
                    ));
                    assert((r@.map_values(|l: Vec<char>| l@).push(line@)) + split_lines(
                        s@.skip(pos + i + 1),
                    ) =~= r@.map_values(|l: Vec<char>| l@) + (seq![line@] + split_lines(
                        s@.skip(pos + i + 1),
                    )));
                    assert(r@.push(line).map_values(|l: Vec<char>| l@) =~= r@.map_values(
                        |l: Vec<char>| l@,
                    ).push(line@));
                }
                r.push(line);
                pos = pos + i + 1;
            },
            None => {
                proof {
                    let whole = s@.skip(pos as int);
                    lemma_first_char_at(whole, '\n');
                    assert(split_lines(whole) =~= seq![whole]);
                    assert(r@.push(rest).map_values(|l: Vec<char>| l@) =~= r@.map_values(
                        |l: Vec<char>| l@,
                    ).push(rest@));
                    assert(r@.map_values(|l: Vec<char>| l@).push(rest@) =~= r@.map_values(
                        |l: Vec<char>| l@,
                    ) + seq![rest@]);
                    assert(s@.skip(n as int).len() == 0);
                }
                r.push(rest);
                pos = n;
                proof {
                    assert(split_lines(s@.skip(n as int)) =~= Seq::<Seq<char>>::empty());
                }
            },
        }
    }
    proof {
        assert(split_lines(s@.skip(pos as int)) =~= Seq::<Seq<char>>::empty());
        assert(r@.map_values(|l: Vec<char>| l@) + Seq::<Seq<char>>::empty() =~= r@.map_values(
            |l: Vec<char>| l@,
        ));
    }
    r
}

/// Flush the pending block as an event, according to the mode.
fn flush_block(mode: ParserMode, block: &Vec<char>, out: &mut Vec<ClaudeEvent>)
    ensures
        events_view(final(out)@) == events_view(old(out)@) + flush_events(mode, block@),
{
    let ghost pre = out@;
    if block.len() == 0 {
        proof {
            assert(events_view(pre) + flush_events(mode, block@) =~= events_view(pre));
        }
        return ;
    }
    match mode {
        ParserMode::InToolCall => {
            push_event(
                out,
                ClaudeEvent::ToolCall {
                    name: "unknown".to_owned(),
                    content: chars_to_string(block),
                },
            );
            proof {
                assert(events_view(pre).push(
                    EventV::ToolCall { name: "unknown"@, content: block@ },
                ) =~= events_view(pre) + flush_events(mode, block@));
            }
        },
        ParserMode::InToolResult => {
            push_event(out, ClaudeEvent::ToolResult { content: chars_to_string(block) });
            proof {
                assert(events_view(pre).push(EventV::ToolResult { content: block@ })
                    =~= events_view(pre) + flush_events(mode, block@));
            }
        },
        ParserMode::InThinking => {
            push_event(out, ClaudeEvent::Thinking { content: chars_to_string(block) });
            proof {
                assert(events_view(pre).push(EventV::Thinking { content: block@ })
                    =~= events_view(pre) + flush_events(mode, block@));
            }
        },
        _ => {
            proof {
                assert(events_view(pre) + flush_events(mode, block@) =~= events_view(pre));
            }
        },
    }
}

/// Emit the events for the text following a response marker.
fn emit_marker_events(content: &Vec<char>, out: &mut Vec<ClaudeEvent>)
    ensures
        events_view(final(out)@) == events_view(old(out)@) + marker_events(content@),
{
    proof {
        reveal_strlit("Read(");
        reveal_strlit("Read ");
        reveal_strlit("Edit(");
        reveal_strlit("Edit ");
        reveal_strlit("Bash(");
        reveal_strlit("Bash ");
    }
    let ghost pre = out@;
    if content.len() == 0 {
        proof {
            assert(events_view(pre) + marker_events(content@) =~= events_view(pre));
        }
        return ;
    }
    if contains_sub(content, &str_to_chars("Read(")) || starts_with_chars(
        content,
        &str_to_chars("Read "),
    ) {
        match extract_path(content) {
            Some(p) => {
                push_event(out, ClaudeEvent::FileRead { path: chars_to_string(&p) });
                proof {
                    assert(events_view(pre).push(EventV::FileRead { path: p@ }) =~= events_view(
                        pre,
                    ) + marker_events(content@));
                }
            },
            None => {
                proof {
                    assert(events_view(pre) + marker_events(content@) =~= events_view(pre));
                }
            },
        }
    } else if contains_sub(content, &str_to_chars("Edit(")) || starts_with_chars(
        content,
        &str_to_chars("Edit "),
    ) {
        match extract_path(content) {
            Some(p) => {
                push_event(out, ClaudeEvent::FileEdit { path: chars_to_string(&p) });
                proof {
                    assert(events_view(pre).push(EventV::FileEdit { path: p@ }) =~= events_view(
                        pre,
                    ) + marker_events(content@));
                }
            },
            None => {
                proof {
                    assert(events_view(pre) + marker_events(content@) =~= events_view(pre));
                }
            },
        }
    } else if contains_sub(content, &str_to_chars("Bash(")) || starts_with_chars(
        content,
        &str_to_chars("Bash "),
    ) {
        match extract_command(content) {
            Some(c) => {
                push_event(out, ClaudeEvent::CommandExec { command: chars_to_string(&c) });
                proof {
                    assert(events_view(pre).push(EventV::CommandExec { command: c@ })
                        =~= events_view(pre) + marker_events(content@));
                }
            },
            None => {
                proof {
                    assert(events_view(pre) + marker_events(content@) =~= events_view(pre));
                }
            },
        }
    } else {
        match extract_clean_response(content) {
            Some(c) => {
                push_event(out, ClaudeEvent::Response { content: chars_to_string(&c) });
                proof {
                    assert(events_view(pre).push(EventV::Response { content: c@ })
                        =~= events_view(pre) + marker_events(content@));
                }
            },
            None => {
                proof {
                    assert(events_view(pre) + marker_events(content@) =~= events_view(pre));
                }
            },
        }
    }
}

/// Classify one line: may flush or extend the block, and appends the
/// emitted events to `out`; returns the next mode.
fn step_line_exec(
    mode: ParserMode,
    block: &mut Vec<char>,
    line: &Vec<char>,
    out: &mut Vec<ClaudeEvent>,
) -> (m2: ParserMode)
    ensures
        ({
            let st = step_line(mode, old(block)@, line@);
            &&& m2 == st.mode
            &&& final(block)@ == st.block
            &&& events_view(final(out)@) == events_view(old(out)@) + st.events
        }),
{
    proof {
        reveal_strlit("Thinking");
        reveal_strlit("thinking");
        reveal_strlit("Read(");
        reveal_strlit("Reading");
        reveal_strlit("Edit(");
        reveal_strlit("Editing");
        reveal_strlit("Bash(");
        reveal_strlit("Running");
    }
    let ghost pre = out@;
    let ghost st = step_line(mode, block@, line@);
    let t = trim_chars(line);
    if t.len() == 0 {
        proof {
            assert(events_view(pre) + st.events =~= events_view(pre));
        }
        return mode;
    }
    match find_char(&t, '\u{23fa}') {
        Some(pos) => {
            let flushing = block.len() > 0 && !mode_is_idle(mode);
            if flushing {
                flush_block(mode, block, out);
                block.clear();
            } else {
                proof {
                    assert(events_view(out@) =~= events_view(pre) + Seq::<EventV>::empty());
                }
            }
            let ghost mid = out@;
            let after = slice_chars(&t, pos + 1, t.len());
            proof {
                assert(after@ =~= t@.skip(first_char_at(t@, resp_marker()) + 1));
            }
            let content = trim_chars(&after);
            emit_marker_events(&content, out);
            proof {
                let flushed = if block@.len() > 0 && mode != ParserMode::Idle {
                    flush_events(mode, old(block)@)
                } else {
                    Seq::<EventV>::empty()
                };
                assert((events_view(pre) + st.events) =~= events_view(out@));
            }
            return ParserMode::InResponse;
        },
        None => {},
    }
    if t[0] == '\u{23bf}' {
        proof {
            assert(starts_with(t@, seq![result_marker()])) by {
                assert(t@.take(1) =~= seq![t@[0]]);
            }
        }
        let stripped = strip_leading_chars(&t, '\u{23bf}');
        let content = trim_chars(&stripped);
        if content.len() > 0 {
            push_event(out, ClaudeEvent::ToolResult { content: chars_to_string(&content) });
            proof {
                assert(events_view(pre).push(EventV::ToolResult { content: content@ })
                    =~= events_view(pre) + st.events);
            }
        } else {
            proof {
                assert(events_view(pre) + st.events =~= events_view(pre));
            }
        }
        return mode;
    }
    proof {
        assert(!starts_with(t@, seq![result_marker()])) by {
            if starts_with(t@, seq![result_marker()]) {
                assert(t@.take(1)[0] == t@[0]);
            }
        }
    }
    if contains_sub(&t, &str_to_chars("Thinking")) || starts_with_chars(
        &t,
        &str_to_chars("thinking"),
    ) {
        block.clear();
        proof {
            assert(events_view(pre) + st.events =~= events_view(pre));
        }
        return ParserMode::InThinking;
    }
    if contains_sub(&t, &str_to_chars("Read(")) || starts_with_chars(
        &t,
        &str_to_chars("Reading"),
    ) {
        match extract_path(&t) {
            Some(p) => {
                push_event(out, ClaudeEvent::FileRead { path: chars_to_string(&p) });
                proof {
                    assert(events_view(pre).push(EventV::FileRead { path: p@ }) =~= events_view(
                        pre,
                    ) + st.events);
                }
            },
            None => {
                proof {
                    assert(events_view(pre) + st.events =~= events_view(pre));
                }
            },
        }
        return mode;
    }
    if contains_sub(&t, &str_to_chars("Edit(")) || starts_with_chars(
        &t,
        &str_to_chars("Editing"),
    ) {
        match extract_path(&t) {
            Some(p) => {
                push_event(out, ClaudeEvent::FileEdit { path: chars_to_string(&p) });
                proof {
                    assert(events_view(pre).push(EventV::FileEdit { path: p@ }) =~= events_view(
                        pre,
                    ) + st.events);
                }
            },
            None => {
                proof {
                    assert(events_view(pre) + st.events =~= events_view(pre));
                }
            },
        }
        return mode;
    }
    if contains_sub(&t, &str_to_chars("Bash(")) || starts_with_chars(
        &t,
        &str_to_chars("Running"),
    ) {
        match extract_command(&t) {
            Some(c) => {
                push_event(out, ClaudeEvent::CommandExec { command: chars_to_string(&c) });
                proof {
                    assert(events_view(pre).push(EventV::CommandExec { command: c@ })
                        =~= events_view(pre) + st.events);
                }
            },
            None => {
                proof {
                    assert(events_view(pre) + st.events =~= events_view(pre));
                }
            },
        }
        return mode;
    }
    match mode {
        ParserMode::InResponse => {
            match extract_clean_response(&t) {
                Some(c) => {
                    push_event(out, ClaudeEvent::Response { content: chars_to_string(&c) });
                    proof {
                        assert(events_view(pre).push(EventV::Response { content: c@ })
                            =~= events_view(pre) + st.events);
                    }
                },
                None => {
                    proof {
                        assert(events_view(pre) + st.events =~= events_view(pre));
                    }
                },
            }
            mode
        },
        ParserMode::InThinking => {
            push_event(out, ClaudeEvent::Thinking { content: chars_to_string(&t) });
            proof {
                assert(events_view(pre).push(EventV::Thinking { content: t@ }) =~= events_view(
                    pre,
                ) + st.events);
            }
            mode
        },
        ParserMode::InToolCall => {
            append_chars(block, &t);
            block.push('\n');
            proof {
                assert(block@ =~= old(block)@ + t@ + seq!['\n']);
                assert(events_view(pre) + st.events =~= events_view(pre));
            }
            mode
        },
        ParserMode::InToolResult => {
            append_chars(block, &t);
            block.push('\n');
            proof {
                assert(block@ =~= old(block)@ + t@ + seq!['\n']);
                assert(events_view(pre) + st.events =~= events_view(pre));
            }
            mode
        },
        ParserMode::Idle => {
            if !crate::classify::is_junk_line(&t) {
                push_event(out, ClaudeEvent::Text { content: chars_to_string(&t) });
                proof {
                    assert(events_view(pre).push(EventV::Text { content: t@ }) =~= events_view(
                        pre,
                    ) + st.events);
                }
            } else {
                proof {
                    assert(events_view(pre) + st.events =~= events_view(pre));
                }
            }
            mode
        },
    }
}

/// Incremental parser over a terminal byte stream.  It keeps a rolling
/// text buffer with a scan cursor, the current mode, the block being
/// accumulated, and the log of all events emitted so far.
pub struct ClaudeParser {
    buffer: Vec<char>,
    state: ParserMode,
    current_block: Vec<char>,
    events: Vec<ClaudeEvent>,
    last_processed_len: usize,
}

impl View for ClaudeParser {
    type V = ParserV;

    closed spec fn view(&self) -> ParserV {
        ParserV {
            buffer: self.buffer@,
            cursor: self.last_processed_len as int,
            mode: self.state,
            block: self.current_block@,
            events: events_view(self.events@),
        }
    }
}

impl ClaudeParser {
    /// The scan cursor never exceeds the buffer length.
    pub open spec fn wf(&self) -> bool {
        0 <= self@.cursor <= self@.buffer.len()
    }

    /// A fresh parser: empty buffer, idle mode, no events.
    pub fn new() -> (r: Self)
        ensures
            r@ == initial_parser(),
            r.wf(),
    {
        let r = ClaudeParser {
            buffer: Vec::new(),
            state: ParserMode::Idle,
            current_block: Vec::new(),
            events: Vec::new(),
            last_processed_len: 0,
        };
        proof {
            assert(r@ =~= initial_parser()) by {
                assert(events_view(Seq::<ClaudeEvent>::empty()) =~= Seq::<EventV>::empty());
            }
        }
        r
    }

    /// Process incoming terminal data and return the newly classified
    /// events, in input order.
    pub fn process(&mut self, data: &[u8]) -> (r: Vec<ClaudeEvent>)
        requires
            old(self).wf(),
        ensures
            final(self).wf(),
            final(self)@ == process_spec(old(self)@, data@).0,
            events_view(r@) == process_spec(old(self)@, data@).1,
    {
        let decoded = decode_lossy(data);
        let cleaned = strip_ansi(&decoded);
        append_chars(&mut self.buffer, &cleaned);
        let ghost buf1 = self.buffer@;
        let start = self.last_processed_len;
        let n = self.buffer.len();
        let region = slice_chars(&self.buffer, start, n);
        proof {
            assert(region@ =~= buf1.skip(start as int));
        }
        let lines = split_lines_exec(&region);
        let ghost lviews = lines@.map_values(|l: Vec<char>| l@);
        let mut out: Vec<ClaudeEvent> = Vec::new();
        let mut mode = self.state;
        let ghost m0 = self.state;
        let ghost b0 = self.current_block@;
        let nl = lines.len();
        let mut k: usize = 0;
        proof {
            assert(lviews.skip(0) =~= lviews);
            assert(events_view(Seq::<ClaudeEvent>::empty()) =~= Seq::<EventV>::empty());
            assert(Seq::<EventV>::empty() + run_lines(m0, b0, lviews).events =~= run_lines(
                m0,
                b0,
                lviews,
            ).events);
        }
        while k < nl
            invariant
                k <= nl,
                nl == lines@.len(),
                lviews == lines@.map_values(|l: Vec<char>| l@),
                self.buffer@ == buf1,
                n == self.buffer@.len(),
                self.events@ == old(self).events@,
                self.last_processed_len == old(self).last_processed_len,
                run_lines(m0, b0, lviews).mode == run_lines(
                    mode,
                    self.current_block@,
                    lviews.skip(k as int),
                ).mode,
                run_lines(m0, b0, lviews).block == run_lines(
                    mode,
                    self.current_block@,
                    lviews.skip(k as int),
                ).block,
                run_lines(m0, b0, lviews).events == events_view(out@) + run_lines(
                    mode,
                    self.current_block@,
                    lviews.skip(k as int),
                ).events,
            decreases nl - k,
        {
            let ghost mode_pre = mode;
            let ghost block_pre = self.current_block@;
            let ghost out_pre = out@;
            proof {
                assert(lviews.skip(k as int)[0] == lviews[k as int]);
                assert(lviews[k as int] == lines@[k as int]@);
            }
            mode = step_line_exec(mode, &mut self.current_block, &lines[k], &mut out);
            proof {
                let st1 = step_line(mode_pre, block_pre, lviews[k as int]);
                let rest = run_lines(mode, self.current_block@, lviews.skip(k + 1));
                assert(lviews.skip(k as int).skip(1) =~= lviews.skip(k + 1));
                assert(run_lines(mode_pre, block_pre, lviews.skip(k as int)).events == st1.events
                    + rest.events);
                assert(events_view(out_pre) + (st1.events + rest.events) =~= (events_view(out_pre)
                    + st1.events) + rest.events);
            }
            k = k + 1;
        }
        self.state = mode;
        self.last_processed_len = n;
        proof {
            assert(lviews.skip(nl as int) =~= Seq::<Seq<char>>::empty());
            assert(events_view(out@) + Seq::<EventV>::empty() =~= events_view(out@));
        }
        // apply the memory bound, keeping a character-aligned tail
        let w = text_width_exec(&self.buffer);
        if w > 10000 {
            proof {
                lemma_text_width_nonneg(self.buffer@);
            }
            let mut rem: u128 = w - 5000;
            let mut cut: usize = 0;
            let mut stop = false;
            let ghost rem0 = w as int - 5000;
            while cut < n && !stop
                invariant
                    cut <= n,
                    n == self.buffer@.len(),
                    buf1 == self.buffer@,
                    trunc_from(buf1, 0, rem0) == if stop {
                        cut as int
                    } else {
                        trunc_from(buf1, cut as int, rem as int)
                    },
                decreases n - cut, (if stop { 0int } else { 1int }),
            {
                let cw = char_width_exec(self.buffer[cut]);
                if cw as u128 <= rem {
                    rem = rem - cw as u128;
                    cut = cut + 1;
                } else {
                    stop = true;
                }
            }
            proof {
                assert(trunc_from(buf1, 0, rem0) == cut as int);
                lemma_trunc_from_bounds(buf1, 0, rem0);
            }
            let tail = slice_chars(&self.buffer, cut, n);
            proof {
                assert(tail@ =~= buf1.skip(cut as int));
            }
            self.buffer = tail;
            self.last_processed_len = self.buffer.len();
        }
        // record the events in the log
        let ghost log_pre = self.events@;
        let ghost buf2 = self.buffer@;
        let ghost blk2 = self.current_block@;
        let ghost cur2 = self.last_processed_len;
        let ghost mode2 = self.state;
        let no = out.len();
        let mut j: usize = 0;
        while j < no
            invariant
                j <= no,
                no == out@.len(),
                self.buffer@ == buf2,
                self.current_block@ == blk2,
                self.last_processed_len == cur2,
                self.state == mode2,
                events_view(self.events@) == events_view(log_pre) + events_view(
                    out@.take(j as int),
                ),
            decreases no - j,
        {
            let e = clone_event(&out[j]);
            proof {
                assert(events_view(self.events@.push(e)) =~= events_view(self.events@).push(e@));
                assert(events_view(out@.take(j + 1)) =~= events_view(out@.take(j as int)).push(
                    out@[j as int]@,
                ));
                assert(events_view(log_pre) + events_view(out@.take(j as int)).push(
                    out@[j as int]@,
                ) =~= (events_view(log_pre) + events_view(out@.take(j as int))).push(
                    out@[j as int]@,
                ));
            }
            self.events.push(e);
            j = j + 1;
        }
        proof {
            assert(out@.take(no as int) =~= out@);
        }
        out
    }

    /// Snapshot of the rolling text buffer.
    pub fn get_buffer(&self) -> (r: String)
        ensures
            r@ == self@.buffer,
    {
        chars_to_string(&self.buffer)
    }

    /// Snapshot of all events captured so far.
    pub fn get_events(&self) -> (r: Vec<ClaudeEvent>)
        ensures
            events_view(r@) == self@.events,
    {
        let n = self.events.len();
        let mut r: Vec<ClaudeEvent> = Vec::new();
        let mut j: usize = 0;
        proof {
            assert(events_view(Seq::<ClaudeEvent>::empty()) =~= Seq::<EventV>::empty());
            assert(events_view(self.events@.take(0)) =~= Seq::<EventV>::empty());
        }
        while j < n
            invariant
                j <= n,
                n == self.events@.len(),
                events_view(r@) == events_view(self.events@.take(j as int)),
            decreases n - j,
        {
            let e = clone_event(&self.events[j]);
            proof {
                assert(events_view(r@.push(e)) =~= events_view(r@).push(e@));
                assert(events_view(self.events@.take(j + 1)) =~= events_view(
                    self.events@.take(j as int),
                ).push(self.events@[j as int]@));
            }
            r.push(e);
            j = j + 1;
        }
        proof {
            assert(self.events@.take(n as int) =~= self.events@);
        }
        r
    }

    /// Reset buffer, mode, block, event log and cursor, so state from a
    /// previous session cannot leak into a new one.
    pub fn clear(&mut self)
        ensures
            final(self)@ == initial_parser(),
            final(self).wf(),
    {
        self.buffer = Vec::new();
        self.state = ParserMode::Idle;
        self.current_block = Vec::new();
        self.events = Vec::new();
        self.last_processed_len = 0;
        proof {
            assert(self@ =~= initial_parser()) by {
                assert(events_view(Seq::<ClaudeEvent>::empty()) =~= Seq::<EventV>::empty());
            }
        }
    }
}

impl Default for ClaudeParser {
    fn default() -> (r: Self)
        ensures
            r@ == initial_parser(),
            r.wf(),
    {
        ClaudeParser::new()
    }
}

/// Byte widths along a split: the width of a text is the width of any
/// prefix plus the width of the rest.
proof fn lemma_text_width_split(s: Seq<char>, k: int)
    requires
        0 <= k <= s.len(),
    ensures
        text_width(s) == text_width(s.take(k)) + text_width(s.skip(k)),
    decreases k,
{
    if k == 0 {
        assert(s.take(0) =~= Seq::<char>::empty());
        assert(s.skip(0) =~= s);
    } else {
        assert(s.take(k)[0] == s[0]);
        assert(s.take(k).skip(1) =~= s.skip(1).take(k - 1));
        assert(s.skip(k) =~= s.skip(1).skip(k - 1));
        lemma_text_width_split(s.skip(1), k - 1);
    }
}

proof fn lemma_trunc_from_width(b: Seq<char>, i: int, rem: int)
    requires
        0 <= i <= b.len(),
        rem >= 0,
    ensures
        i <= trunc_from(b, i, rem) <= b.len(),
        text_width(b.subrange(i, trunc_from(b, i, rem))) <= rem,
        trunc_from(b, i, rem) < b.len() ==> rem - text_width(
            b.subrange(i, trunc_from(b, i, rem)),
        ) < char_width(b[trunc_from(b, i, rem)]),
    decreases b.len() - i,
{
    let k = trunc_from(b, i, rem);
    if i >= b.len() {
        assert(b.subrange(i, i) =~= Seq::<char>::empty());
    } else if char_width(b[i]) <= rem {
        lemma_trunc_from_width(b, i + 1, rem - char_width(b[i]));
        assert(b.subrange(i, k)[0] == b[i]);
        assert(b.subrange(i, k).skip(1) =~= b.subrange(i + 1, k));
    } else {
        assert(b.subrange(i, i) =~= Seq::<char>::empty());
    }
}

/// The memory bound never splits a character and keeps a tail of
/// bounded, non-trivial size: the capped buffer is a suffix of the
/// original, at most the keep size plus one character's width, and —
/// when truncation fired — at least the keep size.
pub proof fn lemma_cap_buffer_bounds(b: Seq<char>)
    ensures
        ({
            let c = cap_buffer(b);
            &&& c.len() <= b.len()
            &&& c == b.skip(b.len() - c.len())
            &&& text_width(c) <= (if text_width(b) > buffer_cap() {
                buffer_keep() + 3
            } else {
                text_width(b)
            })
            &&& (text_width(b) > buffer_cap() ==> text_width(c) >= buffer_keep())
        }),
{
    let c = cap_buffer(b);
    if text_width(b) > buffer_cap() {
        let d = text_width(b) - buffer_keep();
        lemma_trunc_from_width(b, 0, d);
        let k = trunc_from(b, 0, d);
        assert(b.subrange(0, k) =~= b.take(k));
        lemma_text_width_split(b, k);
        crate::text::lemma_text_width_nonneg(b.skip(k));
        crate::text::lemma_text_width_nonneg(b.take(k));
        assert(c == b.skip(k));
        assert(c.len() == b.len() - k);
        assert(text_width(c) >= buffer_keep());
        if k < b.len() {
            assert(d - text_width(b.take(k)) < char_width(b[k]));
            assert(char_width(b[k]) <= 4);
            assert(text_width(c) <= buffer_keep() + 3);
        } else {
            assert(b.skip(k).len() == 0);
            assert(text_width(c) == 0);
        }
    } else {
        assert(b.skip(0) =~= b);
    }
}

/// Processing empty input is a no-op that emits nothing: once the
/// cursor stands at the end of the buffer — as it does after every
/// `process` call — an empty chunk never re-scans old text.
pub proof fn lemma_process_empty(p: ParserV)
    requires
        p.cursor == p.buffer.len(),
    ensures
        process_spec(p, Seq::<u8>::empty()).1 == Seq::<EventV>::empty(),
        process_spec(p, Seq::<u8>::empty()).0 == (ParserV {
            buffer: cap_buffer(p.buffer),
            cursor: cap_buffer(p.buffer).len() as int,
            mode: p.mode,
            block: p.block,
            events: p.events,
        }),
{
    let data = Seq::<u8>::empty();
    assert(lossy_decode(data) =~= Seq::<char>::empty());
    assert(strip_ansi_s(Seq::<char>::empty()) =~= Seq::<char>::empty());
    let buf1 = p.buffer + strip_ansi_s(lossy_decode(data));
    assert(buf1 =~= p.buffer);
    assert(buf1.skip(p.cursor).len() == 0);
    assert(split_lines(buf1.skip(p.cursor)) =~= Seq::<Seq<char>>::empty());
    assert(p.events + Seq::<EventV>::empty() =~= p.events);
}

/// After any `process` call the cursor stands exactly at the end of
/// the buffer: scanned text is never scanned again and the cursor
/// never regresses.
pub proof fn lemma_cursor_at_end(p: ParserV, data: Seq<u8>)
    ensures
        process_spec(p, data).0.cursor == process_spec(p, data).0.buffer.len(),
{
}

} // verus!
