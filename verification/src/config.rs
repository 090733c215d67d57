//! What the user can set.

use vstd::prelude::*;

verus! {

/// The settings of one run.
#[derive(Clone, Debug)]
pub struct Config {
    /// A line with more bytes is never rewritten.
    pub max_row_bytes: usize,
    /// The widest an image may be shown, in pixels.
    pub max_pixels_w: Option<u32>,
    /// The highest an image may be shown, in pixels.
    pub max_pixels_h: Option<u32>,
    /// Hand everything on unchanged.
    pub disable: bool,
    /// The pager command that gets the output.
    pub fallback: Option<String>,
}

} // verus!
