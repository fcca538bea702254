//! Core of a terminal AI coding-agent front end.
//!
//! The library holds the verified heart of the application: the streaming
//! response decoder, the turn orchestrator that drives request/decode/tool
//! cycles against a model backend, the shell actor core that multiplexes
//! command execution and interactive input over one interpreter process,
//! and the transcript that records the conversation.  I/O, rendering and
//! process management live outside the library and drive these cores by
//! feeding them events and performing the actions they return.

pub mod commands;
pub mod config;
pub mod decoder;
pub mod orchestrator;
pub mod sessions;
pub mod shell;
pub mod splitter;
pub mod transcript;
pub mod ui_state;
