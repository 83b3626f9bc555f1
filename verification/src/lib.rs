//! Core engine of a live, multi-file log-tailing dashboard.
//!
//! The crate holds the verified logic of the dashboard: the bounded history
//! buffer with overwrite-oldest eviction, the per-file tail cursor and its
//! delta-read line splitting, the command-line argument grammar, and the
//! tab-selection state machine that the render loop drives.  Filesystem
//! watching, terminal handling and the asynchronous plumbing around this
//! engine live outside the library and feed it plain values.

pub mod app;
pub mod args;
pub mod file_watcher;
pub mod ring;
