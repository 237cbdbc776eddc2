//! Classified events extracted from terminal output, and the parser mode.

use vstd::prelude::*;

verus! {

/// Semantic events detected in the output stream.
pub enum ClaudeEvent {
    /// Raw text chunk.
    Text { content: String },
    /// Tool being called.
    ToolCall { name: String, content: String },
    /// Tool result.
    ToolResult { content: String },
    /// Thinking/reasoning block.
    Thinking { content: String },
    /// File being read.
    FileRead { path: String },
    /// File being edited.
    FileEdit { path: String },
    /// Command being executed.
    CommandExec { command: String },
    /// Response text.
    Response { content: String },
    /// Status change.
    Status { status: String },
}

/// Mathematical model of an event: the same variants over character
/// sequences.
pub enum EventV {
    Text { content: Seq<char> },
    ToolCall { name: Seq<char>, content: Seq<char> },
    ToolResult { content: Seq<char> },
    Thinking { content: Seq<char> },
    FileRead { path: Seq<char> },
    FileEdit { path: Seq<char> },
    CommandExec { command: Seq<char> },
    Response { content: Seq<char> },
    Status { status: Seq<char> },
}

impl View for ClaudeEvent {
    type V = EventV;

    open spec fn view(&self) -> EventV {
        match self {
            ClaudeEvent::Text { content } => EventV::Text { content: content@ },
            ClaudeEvent::ToolCall { name, content } => EventV::ToolCall {
                name: name@,
                content: content@,
            },
            ClaudeEvent::ToolResult { content } => EventV::ToolResult { content: content@ },
            ClaudeEvent::Thinking { content } => EventV::Thinking { content: content@ },
            ClaudeEvent::FileRead { path } => EventV::FileRead { path: path@ },
            ClaudeEvent::FileEdit { path } => EventV::FileEdit { path: path@ },
            ClaudeEvent::CommandExec { command } => EventV::CommandExec { command: command@ },
            ClaudeEvent::Response { content } => EventV::Response { content: content@ },
            ClaudeEvent::Status { status } => EventV::Status { status: status@ },
        }
    }
}

/// Views of a sequence of events.
pub open spec fn events_view(s: Seq<ClaudeEvent>) -> Seq<EventV> {
    s.map_values(|e: ClaudeEvent| e@)
}

/// A copy of an event, equal under the view.
pub fn clone_event(e: &ClaudeEvent) -> (r: ClaudeEvent)
    ensures
        r@ == e@,
{
    match e {
        ClaudeEvent::Text { content } => ClaudeEvent::Text { content: content.clone() },
        ClaudeEvent::ToolCall { name, content } => ClaudeEvent::ToolCall {
            name: name.clone(),
            content: content.clone(),
        },
        ClaudeEvent::ToolResult { content } => ClaudeEvent::ToolResult {
            content: content.clone(),
        },
        ClaudeEvent::Thinking { content } => ClaudeEvent::Thinking { content: content.clone() },
        ClaudeEvent::FileRead { path } => ClaudeEvent::FileRead { path: path.clone() },
        ClaudeEvent::FileEdit { path } => ClaudeEvent::FileEdit { path: path.clone() },
        ClaudeEvent::CommandExec { command } => ClaudeEvent::CommandExec {
            command: command.clone(),
        },
        ClaudeEvent::Response { content } => ClaudeEvent::Response { content: content.clone() },
        ClaudeEvent::Status { status } => ClaudeEvent::Status { status: status.clone() },
    }
}

/// Mode of the incremental parser.
#[derive(Clone, Copy)]
pub enum ParserMode {
    Idle,
    InToolCall,
    InToolResult,
    InThinking,
    InResponse,
}

/// Whether the parser mode is `Idle`.
pub fn mode_is_idle(m: ParserMode) -> (r: bool)
    ensures
        r == (m == ParserMode::Idle),
{
    match m {
        ParserMode::Idle => true,
        _ => false,
    }
}

} // verus!
