//! Plain color and texture-filter values carried through the library.
//!
//! The layout logic never inspects a color: it only attaches one to each
//! glyph it emits. Colors are 8-bit RGBA; a rendering backend converts them
//! to whatever its drawing primitives expect.

use vstd::prelude::*;

verus! {

/// An 8-bit RGBA color.
#[derive(Debug, Copy, Clone, Eq, PartialEq, Structural)]
pub struct Color {
    /// Red channel.
    pub r: u8,
    /// Green channel.
    pub g: u8,
    /// Blue channel.
    pub b: u8,
    /// Alpha channel: 0 is transparent, 255 is opaque.
    pub a: u8,
}

impl Color {
    /// Builds a color from its four channels.
    pub fn from_rgba(r: u8, g: u8, b: u8, a: u8) -> (c: Color)
        ensures
            c == (Color { r, g, b, a }),
    {
        Color { r, g, b, a }
    }
}

/// The texture-sampling filter a rendering backend should use when it
/// magnifies or minifies packed glyphs. It does not affect packing.
#[derive(Debug, Copy, Clone, Eq, PartialEq, Structural)]
pub enum ScalingMode {
    /// Nearest-neighbour sampling: crisp, blocky magnification.
    Nearest,
    /// Linear interpolation: smooth, slightly blurry magnification.
    Linear,
}

} // verus!
