//! Core types of the Ferrum UI framework: entity identities, the style and
//! physics enums shared by every subsystem, CSS hex colour parsing, and the
//! fine-grained reactive signal graph with its Sync Point protocol.

pub mod entity;
pub mod hex;
pub mod physics;
pub mod signal;
pub mod style;
