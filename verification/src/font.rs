//! One loaded font: a parsed font resource with a name and the
//! pixels-per-em scale its geometry is optimized for.
//!
//! The parsing, glyph lookup and rasterization are done by fontdue. To the
//! rest of the library a font is modelled by the bytes it was parsed from
//! together with that scale: what fontdue computes from a parsed font is a
//! pure function of those, so the model names fontdue's results over them
//! (`glyph_index_of`, `raster_of`) without restating fontdue's algorithms.
//! A `LoadedFont` can only be built through [`LoadedFont::load`], which
//! first scrubs the `name` directory records out of a copy of the caller's
//! bytes (see [`crate::sfnt`]: fontdue's embedded-name decoder reads out
//! of bounds on malformed name records, and the library never uses the
//! embedded name), hands the scrubbed copy to the parser, and records it
//! as the ghost model of the parsed value; every trusted contract below
//! reads the model through that coupling.

use vstd::prelude::*;

use crate::sfnt::{names_scrubbed, scrub_name_records, scrub_names};

verus! {

/// Whether fontdue parses the bytes as a font, reading the first font of a
/// collection: a function of the bytes alone.
pub uninterp spec fn font_parses(data: Seq<u8>) -> bool;

/// The glyph index fontdue's character-to-glyph table gives the character,
/// with 0 for "not present": built from the font data alone at parse time.
pub uninterp spec fn glyph_index_of(data: Seq<u8>, c: char) -> u16;

/// What fontdue rasterizes for one character of one font at one pixel
/// size, after the library's integer conversions: bitmap placement
/// (`xmin`, `ymin`), bitmap dimensions, horizontal advance, and the
/// coverage bitmap itself, one byte per bitmap pixel.
pub struct RasterOut {
    /// Whole-pixel offset of the left edge of the bitmap from the pen.
    pub xmin: int,
    /// Whole-pixel offset of the bottom edge of the bitmap from the baseline.
    pub ymin: int,
    /// Bitmap width in pixels.
    pub width: int,
    /// Bitmap height in pixels.
    pub height: int,
    /// Horizontal advance in pixels.
    pub advance: int,
    /// Coverage bytes, row-major from the top left: 0 is empty, 255 full.
    pub bitmap: Seq<u8>,
}

/// The rasterization result for a character: a function of the font data,
/// the font's pixels-per-em scale, the character and the pixel size.
/// fontdue accumulates float coverage in an order fixed within any one
/// build; a binary built with a different instruction path (scalar versus
/// SIMD) may round a coverage byte differently, so the name is read per
/// build of the library.
pub uninterp spec fn raster_of(data: Seq<u8>, scale: u16, c: char, px: u16) -> RasterOut;

/// The font contains a glyph (other than "missing") for the character.
pub open spec fn has_glyph(data: Seq<u8>, c: char) -> bool {
    glyph_index_of(data, c) != 0
}

/// The metrics and coverage bitmap of one rasterized glyph, as executable
/// values: what [`LoadedFont::rasterize`] hands back.
#[derive(Debug, Clone)]
pub struct RawGlyph {
    /// Whole-pixel offset of the left edge of the bitmap from the pen.
    pub xmin: i32,
    /// Whole-pixel offset of the bottom edge of the bitmap from the baseline.
    pub ymin: i32,
    /// Bitmap width in pixels.
    pub width: usize,
    /// Bitmap height in pixels.
    pub height: usize,
    /// Horizontal advance in pixels.
    pub advance: i32,
    /// Coverage bytes, row-major from the top left, one per bitmap pixel.
    pub bitmap: Vec<u8>,
}

/// The ghost model of a loaded font: its registered name, the bytes it was
/// parsed from, and the pixels-per-em scale it was loaded with.
pub struct FontModel {
    /// The name the font was registered under.
    pub name: Seq<char>,
    /// The raw bytes the font was parsed from.
    pub data: Seq<u8>,
    /// The pixels-per-em scale the font's geometry is optimized for.
    pub scale: u16,
}

/// Relies on fontdue::Font::from_bytes: with the collection index fixed to
/// the first font and substitution loading fixed on, success depends on the
/// bytes alone; the pixels-per-em scale only shapes the parsed geometry.
/// The one input from_bytes does not return on is a font whose `name`
/// table holds a malformed embedded-name record: its UTF-16 decoder
/// indexes past the end of a record of odd length or one truncated inside
/// a surrogate pair. The `requires` leaves those inputs out: with every
/// `name` directory record's length zeroed, the parser sees no name
/// records at all and never decodes one.
#[verifier::external_body]
fn parse_font(data: &[u8], scale: u16) -> (r: Result<fontdue::Font, &'static str>)
    requires
        names_scrubbed(data@),
    ensures
        r is Ok <==> font_parses(data@),
{
    let settings = fontdue::FontSettings {
        collection_index: 0,
        scale: scale.into(),
        load_substitutions: true,
    };
    fontdue::Font::from_bytes(data, settings)
}

/// Relies on fontdue::Font::lookup_glyph_index: the character-to-glyph
/// table is a function of the font data, built once at parse time; 0 means
/// the character is not present. `font.inner` is the parsed form of
/// `font@.data` by construction ([`LoadedFont::load`]).
#[verifier::external_body]
fn lookup_glyph(font: &LoadedFont, c: char) -> (r: u16)
    ensures
        r == glyph_index_of(font@.data, c),
{
    font.inner.lookup_glyph_index(c)
}

/// Relies on fontdue::Font::rasterize: for a parsed font the rasterized
/// metrics and coverage bitmap are a function of the font data, the
/// pixels-per-em scale it was parsed with, the character and the pixel
/// size; the bitmap holds exactly width x height coverage bytes.
/// `font.inner` is the parsed form of `font@.data` ([`LoadedFont::load`]).
#[verifier::external_body]
fn rasterize_glyph(font: &LoadedFont, c: char, px: u16) -> (g: RawGlyph)
    ensures
        g.xmin as int == raster_of(font@.data, font@.scale, c, px).xmin,
        g.ymin as int == raster_of(font@.data, font@.scale, c, px).ymin,
        g.width as int == raster_of(font@.data, font@.scale, c, px).width,
        g.height as int == raster_of(font@.data, font@.scale, c, px).height,
        g.advance as int == raster_of(font@.data, font@.scale, c, px).advance,
        g.bitmap@ == raster_of(font@.data, font@.scale, c, px).bitmap,
        g.bitmap@.len() == (g.width as int) * (g.height as int),
{
    let (m, bitmap) = font.inner.rasterize(c, px.into());
    RawGlyph {
        xmin: m.xmin,
        ymin: m.ymin,
        width: m.width,
        height: m.height,
        advance: m.advance_width as i32,
        bitmap,
    }
}

/// One loaded font: immutable once loaded, identified by its name and by
/// its position in the font list that owns it.
pub struct LoadedFont {
    name: String,
    scale: u16,
    inner: fontdue::Font,
    data: Ghost<Seq<u8>>,
}

impl View for LoadedFont {
    type V = FontModel;

    closed spec fn view(&self) -> FontModel {
        FontModel { name: self.name@, data: self.data@, scale: self.scale }
    }
}

impl LoadedFont {
    /// Parses a font from raw bytes under a registered name, with the
    /// pixels-per-em scale the font's geometry should be optimized for.
    /// The bytes are parsed with their `name` directory records scrubbed
    /// (the embedded name is never used; see [`crate::sfnt`]), and the
    /// scrubbed bytes are the model of the font. On failure nothing is
    /// built and fontdue's message is returned.
    pub fn load(name: String, data: &[u8], scale: u16) -> (r: Result<LoadedFont, &'static str>)
        ensures
            r is Ok <==> font_parses(scrub_names(data@)),
            r matches Ok(f) ==> f@ == (FontModel { name: name@, data: scrub_names(data@), scale }),
    {
        let clean = scrub_name_records(data);
        match parse_font(clean.as_slice(), scale) {
            Ok(inner) => Ok(LoadedFont { name, scale, inner, data: Ghost(clean@) }),
            Err(e) => Err(e),
        }
    }

    /// The name the font was registered under.
    pub fn name(&self) -> (n: &String)
        ensures
            n@ == self@.name,
    {
        &self.name
    }

    /// The pixels-per-em scale the font was loaded with.
    pub fn scale(&self) -> (s: u16)
        ensures
            s == self@.scale,
    {
        self.scale
    }

    /// Checks if this font contains a given character.
    pub fn contains(&self, c: char) -> (r: bool)
        ensures
            r == has_glyph(self@.data, c),
    {
        lookup_glyph(self, c) != 0
    }

    /// Rasterizes the character at the given pixel size: metrics and a
    /// coverage bitmap. A character the font does not contain rasterizes as
    /// the font's "missing glyph" representation.
    pub fn rasterize(&self, c: char, px: u16) -> (g: RawGlyph)
        ensures
            g.xmin as int == raster_of(self@.data, self@.scale, c, px).xmin,
            g.ymin as int == raster_of(self@.data, self@.scale, c, px).ymin,
            g.width as int == raster_of(self@.data, self@.scale, c, px).width,
            g.height as int == raster_of(self@.data, self@.scale, c, px).height,
            g.advance as int == raster_of(self@.data, self@.scale, c, px).advance,
            g.bitmap@ == raster_of(self@.data, self@.scale, c, px).bitmap,
            g.bitmap@.len() == (g.width as int) * (g.height as int),
    {
        rasterize_glyph(self, c, px)
    }
}

} // verus!
