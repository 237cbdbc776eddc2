//! Core logic of a desktop terminal application: a byte-boundary sanitizer
//! for streaming UTF-8 output, an incremental parser that classifies
//! terminal output into structured events, a registry of pseudo-terminal
//! sessions, a termination state machine, and small helpers for version
//! selection and path composition.

pub mod boundary;
pub mod browser;
pub mod chars;
pub mod classify;
pub mod events;
pub mod manager;
pub mod models;
pub mod parser;
pub mod stream;
pub mod term;
pub mod text;
pub mod versions;
