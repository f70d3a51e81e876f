//! The error reported by the drawing primitives when a requested write
//! would fall outside the framebuffer.

use vstd::prelude::*;

verus! {

/// Error returned by the bounds-checked drawing primitives.
#[derive(Debug, PartialEq, Eq, Clone)]
pub enum BlitError {
    /// A requested write would fall outside the framebuffer.
    BlittingBeyondBoundaries,
}

impl BlitError {
    /// A human-readable description of the error.
    pub fn message(&self) -> (r: &'static str)
        ensures
            r@ == "You are blitting outside the framebuffer !"@,
    {
        "You are blitting outside the framebuffer !"
    }
}

} // verus!
