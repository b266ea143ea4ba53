//! Error infrastructure for the crate.
//!
//! Used throughout this crate to represent failure modes visible
//! outside the crate.

use crate::position::{Position, Range};
use vstd::prelude::*;

verus! {

/// Represents a structured failure type.
/// Typical usage is to return `Result<T, Oops>`.
#[derive(PartialEq, Eq, Clone, Copy, Debug)]
pub enum Oops {
    Ouch(&'static str),
    NonexistentAnchor(u32),
    CannotRemoveAnchor(u32),
    NoMoreUndos(usize),
    NoMoreRedos(usize),
    InvalidIndex(usize, &'static str),
    InvalidPosition(Position, &'static str),
    InvalidRange(Range, &'static str),
    EmptyString(&'static str),
    CannotParse(&'static str),
}

} // verus!
