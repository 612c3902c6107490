//! Colors as callers give and receive them.
use vstd::prelude::*;

verus! {

/// Number of entries of a palette, or an index just past one.
pub type PalLen = u16;

/// The largest number of colors a palette can hold.
pub const MAX_COLORS: usize = 256;

/// A color of four 8-bit channels, alpha included.
#[derive(Clone, Copy, Debug, PartialEq, Eq, Hash, Structural)]
pub struct RGBA {
    /// Red
    pub r: u8,
    /// Green
    pub g: u8,
    /// Blue
    pub b: u8,
    /// Alpha; 0 is fully transparent
    pub a: u8,
}

impl RGBA {
    /// A color from its four channels.
    pub fn new(r: u8, g: u8, b: u8, a: u8) -> (px: RGBA)
        ensures
            px == (RGBA { r, g, b, a }),
    {
        RGBA { r, g, b, a }
    }
}

} // verus!
