//! The core of a program launcher: a decaying usage history, the providers
//! that turn directory listings into candidates, the ranking of candidates
//! against a typed query, the interaction state machine, and the decisions of
//! the two consumers that act on the final selection.

pub mod aggregate;
pub mod consumers;
pub mod decay;
pub mod escape;
pub mod format;
pub mod history;
pub mod launch;
pub mod launcher;
pub mod matcher;
pub mod providers;
pub mod ranking;
pub mod sorting;
pub mod text;
