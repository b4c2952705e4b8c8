//! Persist named environment-variable assignments in a single rc-file and
//! decide how a file watcher wakes the consuming shell session.
//!
//! The store logic works on whole file contents as plain strings: loading
//! (with creation of a fresh header-only file), merging an assignment in,
//! removing one, and serialising the line set back out. The watcher logic is
//! a small decision function from observed events to actions; the process
//! edges (filesystem access, subscriptions, signal delivery) live outside
//! this crate and hand plain values in and out.

pub mod laws;
pub mod lines;
pub mod order;
pub mod store;
pub mod watch;
