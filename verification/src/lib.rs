//! An in-memory, typed record store backing an interactive editor.
//!
//! The store keeps heterogeneous record collections ("catalogs") inside a
//! [`library::Library`], stamps every mutation with a globally unique,
//! strictly increasing log sequence number, propagates prototype edits to
//! derived records while preserving local overrides, and exposes each
//! catalog's change log to an undo/redo engine that reconstructs edit
//! history across record types.

pub mod catalog;
pub mod change_log;
pub mod library;
pub mod record;
pub mod undo;
