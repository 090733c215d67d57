//! The terminal graphics protocols.

use vstd::prelude::*;

verus! {

/// How the terminal takes images.
#[derive(Clone, Copy, Debug, Eq, PartialEq, Structural)]
pub enum Protocol {
    Kitty,
    ITerm2,
    Sixel,
    /// It takes none.
    Plain,
}

} // verus!
