//! Mount-composition engine for overlaying module file trees onto read-only
//! partition trees.
//!
//! The crate is a pure planner: callers describe the on-disk state (module
//! trees, stock partition trees, the kernel mount table) as plain data, and
//! the engine returns the exact sequence of mount operations to perform.
//! Performing the operations, and reading the on-disk state, is left to the
//! (unverified) binary around the library.

pub mod engine;
pub mod laws;
pub mod model;
pub mod node;
pub mod router;
pub mod overlay;
pub mod plan;
pub mod strutil;
