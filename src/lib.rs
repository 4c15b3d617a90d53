//! Caches the output of build-tool invocations, keyed by the command and
//! invalidated by the filesystem operations that the tool's structured log
//! reports.

pub mod cache;
pub mod collector;
pub mod log;
pub mod op;
pub mod runner;
