//! The interface's visual identity. The theme's color table is floating
//! point through and through and belongs to the rendering layer; what the
//! library keeps is the theme value itself, which the interface threads
//! through its widgets.

use vstd::prelude::*;

verus! {

/// The neon-on-dark styling the interface runs under. The concrete color
/// channels are the renderer's business; every widget receives one value
/// of this type and derives its palette from it.
#[derive(Debug, Clone, Copy, PartialEq, Eq, Structural)]
pub struct CyberpunkTheme {}

impl CyberpunkTheme {
    /// The theme with its default styling.
    pub fn new() -> (r: CyberpunkTheme)
        ensures
            r == (CyberpunkTheme {}),
    {
        CyberpunkTheme {}
    }
}

impl Default for CyberpunkTheme {
    /// The default theme is the standard styling.
    fn default() -> (r: Self)
        ensures
            r == (CyberpunkTheme {}),
    {
        CyberpunkTheme {}
    }
}

} // verus!
