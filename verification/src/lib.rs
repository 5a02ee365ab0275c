//! Verified core of a Windows notification reminder tool: severity levels,
//! the toast payload, a small PNG/ICO encoder, the click-callback store's
//! formats, command-line parsing and the pacing of a run.

pub mod bytes;
pub mod callback;
pub mod cli;
pub mod ico;
pub mod level;
pub mod png;
pub mod schedule;
pub mod stored;
pub mod tags;
pub mod text;
pub mod toast;
