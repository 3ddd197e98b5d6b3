//! Colour and coverage types shared by the pixel formats.

use vstd::prelude::*;

verus! {

/// Anti-aliasing coverage of one sub-pixel, 0 (none) to 255 (full).
pub type CoverType = u8;

/// An 8-bit-per-channel RGBA colour.
#[derive(Clone, Copy, Debug, PartialEq, Eq)]
pub struct Rgba8 {
    pub r: u8,
    pub g: u8,
    pub b: u8,
    pub a: u8,
}

impl Rgba8 {
    /// Builds a colour from four channel values, each truncated to its low
    /// eight bits.
    pub fn new(r: u32, g: u32, b: u32, a: u32) -> (c: Rgba8)
        ensures
            c.r == r as u8,
            c.g == g as u8,
            c.b == b as u8,
            c.a == a as u8,
    {
        Rgba8 { r: r as u8, g: g as u8, b: b as u8, a: a as u8 }
    }

    /// The red, green or blue component selected by `channel` (0, 1 or 2).
    pub open spec fn channel_spec(self, channel: int) -> u8 {
        if channel == 0 {
            self.r
        } else if channel == 1 {
            self.g
        } else {
            self.b
        }
    }
}

} // verus!
