//! Shared data types exchanged with the presentation layer.

use vstd::prelude::*;

verus! {

/// Information about one terminal session as shown to the user.
pub struct TerminalSession {
    pub id: String,
    pub title: String,
    pub active: bool,
}

/// Result of running one shell command to completion.
pub struct CommandResult {
    pub output: String,
    pub exit_code: i32,
}

/// Payload reported when a browser tab's location changes.
pub struct UrlChangedPayload {
    pub url: String,
    pub tab_id: String,
}

} // verus!
