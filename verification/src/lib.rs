//! A buffer of text organized into lines, equipped with undo, redo, anchors,
//! and syntax-context lookup over an externally maintained parse tree.
//!
//! The buffer is codepoint-indexed: every Unicode scalar value counts as one
//! column, independent of its byte width. Every mutation is decomposed into
//! small, exactly invertible primitives which are grouped into packets for
//! user-level undo granularity; applying a change yields the change that
//! undoes it, and that round trip is proved exact.

pub mod anchors;
pub mod change;
pub mod document;
pub mod indentation;
pub mod language;
pub mod model;
pub mod oops;
pub mod position;
pub mod syntax;
pub mod textops;
mod ts;
pub mod util;
