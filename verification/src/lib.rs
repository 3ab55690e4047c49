//! Watches directory trees and turns raw change hints into settled,
//! debounced file events.
//!
//! This crate is the decision-making core: the canonical path type, the
//! queue of pending changes, the in-memory mirror of the watched tree and the
//! event debouncer. Everything that touches the operating system lives with
//! the caller, which feeds observations in and carries actions out.

pub mod buffer;
pub mod children;
pub mod config;
pub mod events;
pub mod flags;
pub mod index;
pub mod inotify;
pub mod metadata;
pub mod path;
pub mod pending;
pub mod tree;
pub mod worker;

pub use crate::config::Filter;
pub use crate::events::{EventType, Events};
pub use crate::path::{CannonicalPath, CanonicalPathBuf};
