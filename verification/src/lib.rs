//! A flight recorder for a directory tree.
//!
//! The daemon turns file system events into an append-only log of operations
//! and keeps file contents in a content-addressed blob store.  Replaying the
//! log rebuilds the state of the tree at any point of the recording.
//!
//! This crate holds what is decided and computed; reading, writing, watching
//! and sleeping are left to the program around it.
pub mod blobs;
pub mod config;
pub mod daemon;
pub mod error;
pub mod json;
pub mod laws;
pub mod log;
pub mod materialize;
pub mod output;
pub mod packages;
pub mod paths;
pub mod progress;
pub mod replay;
pub mod text;
pub mod text_map;
