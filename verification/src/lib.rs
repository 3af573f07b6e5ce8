//! Text rendering with multi-font fallback, a lazily filled glyph cache, and a
//! growing texture atlas.
//!
//! A [`Fonts`] value owns an ordered list of fallback fonts, a glyph cache
//! keyed by `(char, pixel size)`, and a single [`atlas::Atlas`] that packs
//! every rasterized glyph into one image. Layout calls (`measure_text`,
//! `draw_text`, ...) populate the cache on demand and report exact integer
//! pixel metrics; draw calls return the quads to hand to a rendering backend.

use vstd::prelude::*;

pub mod atlas;
pub mod color;
pub mod font;
pub mod cache;
pub mod fontdue_spec;
pub mod fonts;
pub mod sfnt;
pub mod text;

pub use atlas::{Image, Rect};
pub use color::{Color, ScalingMode};
pub use cache::{CacheEntry, GlyphCache};
pub use font::{FontModel, LoadedFont, RawGlyph};
pub use fonts::Fonts;
pub use text::{ColorStrIter, ColoredStr, Component};

verus! {

/// Where to draw from on the screen.
///
/// The default is [`DrawFrom::TopLeft`].
#[derive(Debug, Copy, Clone, Eq, PartialEq, Ord, PartialOrd, Structural)]
pub enum DrawFrom {
    /// Starts drawing from the bottom left corner: `y` is the baseline.
    BottomLeft,
    /// Starts drawing from the top left corner: text grows downward from `y`.
    TopLeft,
}

impl Default for DrawFrom {
    fn default() -> (r: Self)
        ensures
            r == DrawFrom::TopLeft,
    {
        Self::TopLeft
    }
}

/// Placement info cached per `(character, pixel size)` key: the atlas slot the
/// glyph bitmap was packed into, its bearing offsets relative to the baseline,
/// and its horizontal advance, all in whole pixels.
#[derive(Debug, Copy, Clone, Eq, PartialEq, Structural)]
pub struct CharacterInfo {
    /// Atlas slot id of the packed glyph bitmap.
    pub id: u64,
    /// Horizontal bearing: offset of the bitmap's left edge from the pen position.
    pub offset_x: i32,
    /// Vertical bearing: offset of the bitmap's bottom edge from the baseline.
    pub offset_y: i32,
    /// Horizontal advance of the pen after this character.
    pub advance: i32,
}

/// Aggregate metrics of one laid-out run of text, in pixels.
///
/// `height` is the tight bounding-box height of the run, not a fixed line
/// height: two different strings at the same size can report different
/// heights. `offset_y` is the distance from the top of that box down to the
/// baseline.
#[derive(Debug, Copy, Clone, Eq, PartialEq, Structural)]
pub struct TextDimensions {
    /// Sum of the advances of the characters.
    pub width: i64,
    /// Height of the tight bounding box over all glyphs.
    pub height: i64,
    /// Distance from the top of the bounding box to the baseline.
    pub offset_y: i64,
}

/// Text parameters for [`Fonts::draw_text_ex`].
#[derive(Debug, Copy, Clone, Eq, PartialEq, Structural)]
pub struct TextParams {
    /// x-coordinate of the text.
    pub x: i32,
    /// y-coordinate of the text.
    pub y: i32,
    /// The size of the text in pixels.
    pub size: u16,
    /// Integer factor the packed glyph bitmaps are magnified by at draw time.
    /// Scaling reuses the cached rasterization, so large factors look blocky.
    pub scale: u16,
    /// The color of the text.
    pub color: Color,
    /// Where to draw from.
    pub draw: DrawFrom,
}

impl Default for TextParams {
    fn default() -> (r: Self)
        ensures
            r.x == 0 && r.y == 0,
            r.size == 22 && r.scale == 1,
            r.color == (Color { r: 255, g: 255, b: 255, a: 255 }),
            r.draw == DrawFrom::TopLeft,
    {
        Self {
            x: 0,
            y: 0,
            size: 22,
            scale: 1,
            color: Color { r: 255, g: 255, b: 255, a: 255 },
            draw: DrawFrom::TopLeft,
        }
    }
}

/// One textured quad to hand to a "draw textured quad" primitive: copy the
/// `source` region of the atlas image to the destination rectangle at
/// `(x, y)` with size `w` x `h`, tinted with `color`.
#[derive(Debug, Copy, Clone, Eq, PartialEq, Structural)]
pub struct DrawCommand {
    /// Destination x, in pixels.
    pub x: i64,
    /// Destination y, in pixels.
    pub y: i64,
    /// Destination width, in pixels.
    pub w: i64,
    /// Destination height, in pixels.
    pub h: i64,
    /// Source region inside the atlas image.
    pub source: Rect,
    /// Tint color of the quad.
    pub color: Color,
}

} // verus!
