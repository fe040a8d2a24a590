//! Locates the strongest localized differences between two same-sized images.
//!
//! The core is a difference-peak localization engine: a per-pixel difference
//! map, a multi-resolution aggregate pyramid over it, a coarse-to-fine peak
//! search, a kernel-weighted refinement pass, and an iterative suppression
//! loop that extracts the top-N peaks.  A secondary module composites several
//! images into a trimmed per-pixel average.

use vstd::prelude::*;

pub mod grid;
pub mod pyramid;
pub mod refine;
pub mod hilltop;
pub mod compositor;
pub mod pixel;

verus! {

/// A friendly liveness probe for host bindings.
pub fn demo_py_function() -> (r: String)
    ensures
        r@ == "hello rust ffi!"@,
{
    String::from_str("hello rust ffi!")
}

} // verus!
