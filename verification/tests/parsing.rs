//! Tests of the incremental output parser and its classification rules.

use termcore::events::ClaudeEvent;
use termcore::parser::ClaudeParser;

fn process_str(parser: &mut ClaudeParser, s: &str) -> Vec<ClaudeEvent> {
    parser.process(s.as_bytes())
}

#[test]
fn file_read_line_emits_file_read() {
    let mut p = ClaudeParser::new();
    let events = process_str(&mut p, "\u{23fa} Read(/tmp/a.txt)\n");
    assert_eq!(events.len(), 1);
    match &events[0] {
        ClaudeEvent::FileRead { path } => assert_eq!(path, "/tmp/a.txt"),
        _ => panic!("expected a file-read event"),
    }
}

#[test]
fn result_marker_emits_tool_result() {
    let mut p = ClaudeParser::new();
    let events = process_str(&mut p, "\u{23bf} done\n");
    assert_eq!(events.len(), 1);
    match &events[0] {
        ClaudeEvent::ToolResult { content } => assert_eq!(content, "done"),
        _ => panic!("expected a tool-result event"),
    }
}

#[test]
fn decorative_line_emits_nothing() {
    let mut p = ClaudeParser::new();
    let events = process_str(&mut p, "\u{2500}\u{2500}\u{2500}\u{2500}\u{2500}\u{2500}\u{2500}\n");
    assert_eq!(events.len(), 0);
}

#[test]
fn empty_input_after_processing_emits_nothing() {
    let mut p = ClaudeParser::new();
    let first = process_str(&mut p, "plain output line\n");
    assert_eq!(first.len(), 1);
    for _ in 0..3 {
        let again = p.process(b"");
        assert_eq!(again.len(), 0);
    }
    // the log still holds exactly the original event
    assert_eq!(p.get_events().len(), 1);
}

#[test]
fn file_edit_line_emits_file_edit() {
    let mut p = ClaudeParser::new();
    let events = process_str(&mut p, "\u{23fa} Edit(/src/main.rs)\n");
    assert_eq!(events.len(), 1);
    match &events[0] {
        ClaudeEvent::FileEdit { path } => assert_eq!(path, "/src/main.rs"),
        _ => panic!("expected a file-edit event"),
    }
}

#[test]
fn bash_line_emits_command_exec() {
    let mut p = ClaudeParser::new();
    let events = process_str(&mut p, "\u{23fa} Bash(ls -la)\n");
    assert_eq!(events.len(), 1);
    match &events[0] {
        ClaudeEvent::CommandExec { command } => assert_eq!(command, "ls -la"),
        _ => panic!("expected a command event"),
    }
}

#[test]
fn running_line_emits_command_exec() {
    let mut p = ClaudeParser::new();
    let events = process_str(&mut p, "Running: npm test\n");
    assert_eq!(events.len(), 1);
    match &events[0] {
        ClaudeEvent::CommandExec { command } => assert_eq!(command, "npm test"),
        _ => panic!("expected a command event"),
    }
}

#[test]
fn unmarked_read_pattern_is_detected() {
    let mut p = ClaudeParser::new();
    let events = process_str(&mut p, "Reading /etc/hosts now\n");
    assert_eq!(events.len(), 1);
    match &events[0] {
        ClaudeEvent::FileRead { path } => assert_eq!(path, "/etc/hosts"),
        _ => panic!("expected a file-read event"),
    }
}

#[test]
fn response_marker_emits_response_text() {
    let mut p = ClaudeParser::new();
    let events = process_str(&mut p, "\u{23fa} Hello there, I can help\n");
    assert_eq!(events.len(), 1);
    match &events[0] {
        ClaudeEvent::Response { content } => assert_eq!(content, "Hello there, I can help"),
        _ => panic!("expected a response event"),
    }
}

#[test]
fn response_mode_filters_junk_lines() {
    let mut p = ClaudeParser::new();
    let first = process_str(&mut p, "\u{23fa} Starting the work\n");
    assert_eq!(first.len(), 1);
    // junk lines while in response mode are swallowed
    let junk = process_str(&mut p, "? for shortcuts\n");
    assert_eq!(junk.len(), 0);
    let junk2 = process_str(&mut p, "\u{2502} boxed \u{2502}\n");
    assert_eq!(junk2.len(), 0);
    // a clean continuation line is reported
    let cont = process_str(&mut p, "and a second line of answer\n");
    assert_eq!(cont.len(), 1);
    match &cont[0] {
        ClaudeEvent::Response { content } => {
            assert_eq!(content, "and a second line of answer")
        },
        _ => panic!("expected a response event"),
    }
}

#[test]
fn response_text_is_cut_at_decoration() {
    let mut p = ClaudeParser::new();
    let events = process_str(&mut p, "\u{23fa} An answer \u{2502} trailing chrome\n");
    assert_eq!(events.len(), 1);
    match &events[0] {
        ClaudeEvent::Response { content } => assert_eq!(content, "An answer"),
        _ => panic!("expected a response event"),
    }
}

#[test]
fn thinking_mode_reports_following_lines() {
    let mut p = ClaudeParser::new();
    let switch = process_str(&mut p, "Thinking\n");
    assert_eq!(switch.len(), 0);
    let events = process_str(&mut p, "considering the options\n");
    assert_eq!(events.len(), 1);
    match &events[0] {
        ClaudeEvent::Thinking { content } => assert_eq!(content, "considering the options"),
        _ => panic!("expected a thinking event"),
    }
}

#[test]
fn idle_text_lines_are_reported() {
    let mut p = ClaudeParser::new();
    let events = process_str(&mut p, "some ordinary shell output\n");
    assert_eq!(events.len(), 1);
    match &events[0] {
        ClaudeEvent::Text { content } => assert_eq!(content, "some ordinary shell output"),
        _ => panic!("expected a text event"),
    }
}

#[test]
fn ansi_sequences_are_stripped() {
    let mut p = ClaudeParser::new();
    let events = process_str(&mut p, "\x1b[31mred text here\x1b[0m\n");
    assert_eq!(events.len(), 1);
    match &events[0] {
        ClaudeEvent::Text { content } => assert_eq!(content, "red text here"),
        _ => panic!("expected a text event"),
    }
    assert_eq!(p.get_buffer(), "red text here\n");
}

#[test]
fn osc_sequence_and_carriage_returns_are_stripped() {
    let mut p = ClaudeParser::new();
    process_str(&mut p, "\x1b]0;window title\x07line one\r\n");
    assert_eq!(p.get_buffer(), "line one\n");
}

#[test]
fn marker_flushes_pending_block() {
    let mut p = ClaudeParser::new();
    process_str(&mut p, "Thinking\n");
    // no block content yet; switching to a response must not emit a
    // thinking block
    let events = process_str(&mut p, "\u{23fa} Done with that\n");
    assert_eq!(events.len(), 1);
    match &events[0] {
        ClaudeEvent::Response { content } => assert_eq!(content, "Done with that"),
        _ => panic!("expected a response event"),
    }
}

#[test]
fn buffer_truncation_preserves_valid_text() {
    let mut p = ClaudeParser::new();
    // one chunk far past the cap, made of two-byte characters, so the
    // byte threshold falls between the bytes of one character
    let big = "\u{e9}".repeat(6000);
    p.process(big.as_bytes());
    let buffer = p.get_buffer();
    // the retained tail is cut at a character boundary near the keep
    // size and is valid text of the suffix
    assert_eq!(buffer.len(), 5000);
    assert!(buffer.chars().all(|c| c == '\u{e9}'));
    // still parses further input fine afterwards
    let events = p.process("\u{23fa} Read(/tmp/z.txt)\n".as_bytes());
    assert_eq!(events.len(), 1);
}

#[test]
fn buffer_stays_bounded_over_many_calls() {
    let mut p = ClaudeParser::new();
    let line = "\u{e9}\u{20ac}\u{1f600}abcdef\n";
    for _ in 0..1200 {
        p.process(line.as_bytes());
    }
    let buffer = p.get_buffer();
    assert!(buffer.len() <= 10000);
    assert!(buffer.chars().count() > 0);
}

#[test]
fn clear_resets_everything() {
    let mut p = ClaudeParser::new();
    process_str(&mut p, "\u{23fa} Some response\n");
    assert!(p.get_events().len() > 0);
    assert!(p.get_buffer().len() > 0);
    p.clear();
    assert_eq!(p.get_events().len(), 0);
    assert_eq!(p.get_buffer(), "");
    // after clearing, classification starts from idle again
    let events = process_str(&mut p, "fresh output\n");
    assert_eq!(events.len(), 1);
    match &events[0] {
        ClaudeEvent::Text { content } => assert_eq!(content, "fresh output"),
        _ => panic!("expected a text event"),
    }
}

#[test]
fn events_log_accumulates_in_order() {
    let mut p = ClaudeParser::new();
    process_str(&mut p, "\u{23fa} Read(/a)\n");
    process_str(&mut p, "\u{23bf} ok\n");
    let log = p.get_events();
    assert_eq!(log.len(), 2);
    assert!(matches!(&log[0], ClaudeEvent::FileRead { .. }));
    assert!(matches!(&log[1], ClaudeEvent::ToolResult { .. }));
}

#[test]
fn split_utf8_chunks_still_classify() {
    let mut p = ClaudeParser::new();
    // split the response marker's three bytes across two chunks: the
    // parser decodes each chunk on its own, so the split marker decays
    // into replacement characters and no marker is seen; the text is
    // still carried through without a panic
    let bytes = "\u{23fa} Read(/tmp/b.txt)\n".as_bytes();
    let first = p.process(&bytes[..2]);
    let second = p.process(&bytes[2..]);
    assert_eq!(first.len() + second.len(), 1);
}

#[test]
fn incomplete_line_is_classified_immediately() {
    let mut p = ClaudeParser::new();
    // no trailing newline: the fragment is scanned at once
    let events = process_str(&mut p, "\u{23fa} Read(/tmp/c.txt)");
    assert_eq!(events.len(), 1);
    assert!(matches!(&events[0], ClaudeEvent::FileRead { .. }));
}
