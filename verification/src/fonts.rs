//! The font list and everything it owns: the ordered fallback fonts with
//! name-indexed lookup, the glyph cache, and the texture atlas.
//!
//! Fallback priority is registration order: a character resolves to the
//! first loaded font that contains it, and degrades to the first loaded
//! font when none does. The name-to-index map is derived from the list
//! itself (`name_slot`: for each name the last registered index wins), so
//! loading and unloading can never leave it stale. The glyph cache does
//! survive such a change untouched, and must be rebuilt with
//! [`Fonts::recache_glyphs`] before its entries can again be trusted to
//! match the fonts.

use vstd::prelude::*;
use vstd::pervasive::unreached;

use crate::atlas::{
    ids_increasing, lemma_white_pix, pack_feasible, region_copied, region_holds, Atlas, Image,
    Rect, MAX_DIM,
};
use crate::cache::{CacheEntry, GlyphCache};
use crate::color::{Color, ScalingMode};
use crate::font::{font_parses, has_glyph, raster_of, FontModel, LoadedFont, RasterOut};
use crate::sfnt::scrub_names;
use crate::text::{pairs_of, ColoredStr};
use crate::{CharacterInfo, DrawCommand, DrawFrom, TextDimensions, TextParams};

verus! {

/// Glyph bitmaps wider or taller than this are cached as empty bitmaps:
/// the atlas could not hold them. Unreachable for any realistic font and
/// pixel size.
pub const GLYPH_LIMIT: u32 = 8192;

// --- fallback resolution, modelled over the loaded fonts ---

/// Index of the first font that contains the character; the list's length
/// when none does.
pub open spec fn resolve_at(models: Seq<FontModel>, c: char) -> int
    decreases models.len(),
{
    if models.len() == 0 {
        0
    } else if has_glyph(models[0].data, c) {
        0
    } else {
        1 + resolve_at(models.drop_first(), c)
    }
}

/// Some loaded font contains the character.
pub open spec fn any_contains(models: Seq<FontModel>, c: char) -> bool {
    exists|i: int| 0 <= i < models.len() && has_glyph((#[trigger] models[i]).data, c)
}

/// The font a character is rasterized from: the first font containing it,
/// degrading to the first loaded font when none does.
pub open spec fn fallback_at(models: Seq<FontModel>, c: char) -> int {
    if resolve_at(models, c) < models.len() {
        resolve_at(models, c)
    } else {
        0
    }
}

/// What `resolve_at` returns: the first index whose font contains the
/// character, and the list's length exactly when no font does.
pub proof fn lemma_resolve_at_props(models: Seq<FontModel>, c: char)
    ensures
        0 <= resolve_at(models, c) <= models.len(),
        resolve_at(models, c) < models.len() ==> has_glyph(
            models[resolve_at(models, c)].data,
            c,
        ),
        forall|j: int|
            0 <= j < resolve_at(models, c) ==> !has_glyph((#[trigger] models[j]).data, c),
        (resolve_at(models, c) < models.len()) == any_contains(models, c),
    decreases models.len(),
{
    if models.len() == 0 {
        assert(!any_contains(models, c));
    } else if has_glyph(models[0].data, c) {
        assert(any_contains(models, c));
    } else {
        let rest = models.drop_first();
        lemma_resolve_at_props(rest, c);
        assert(forall|j: int| 0 <= j < rest.len() ==> rest[j] == models[j + 1]);
        let r = resolve_at(models, c);
        assert(r == 1 + resolve_at(rest, c));
        assert forall|j: int| 0 <= j < r implies !has_glyph((#[trigger] models[j]).data, c) by {
            if j > 0 {
                assert(models[j] == rest[j - 1]);
            }
        }
        if resolve_at(rest, c) < rest.len() {
            assert(models[r] == rest[r - 1]);
            assert(any_contains(models, c));
        } else {
            if any_contains(models, c) {
                let w = choose|i: int|
                    0 <= i < models.len() && has_glyph((#[trigger] models[i]).data, c);
                assert(w > 0);
                assert(rest[w - 1] == models[w]);
                assert(any_contains(rest, c));
            }
        }
    }
}

/// Fallback priority: resolution picks the lowest index among the fonts
/// that contain the character, whatever else is loaded and in whatever
/// order the rest was registered.
pub proof fn lemma_fallback_priority(models: Seq<FontModel>, c: char, i: int)
    requires
        0 <= i < models.len(),
        has_glyph(models[i].data, c),
    ensures
        any_contains(models, c),
        resolve_at(models, c) <= i,
        has_glyph(models[resolve_at(models, c)].data, c),
        forall|j: int|
            0 <= j < resolve_at(models, c) ==> !has_glyph((#[trigger] models[j]).data, c),
{
    lemma_resolve_at_props(models, c);
}

// --- the name index, modelled over the loaded fonts ---

/// Some loaded font carries the name.
pub open spec fn has_name(models: Seq<FontModel>, name: Seq<char>) -> bool {
    exists|i: int| 0 <= i < models.len() && (#[trigger] models[i]).name == name
}

/// The index the name maps to: the last font registered under it.
pub open spec fn name_slot(models: Seq<FontModel>, name: Seq<char>) -> int
    decreases models.len(),
{
    if models.len() == 0 {
        0
    } else if models.last().name == name {
        models.len() - 1
    } else {
        name_slot(models.drop_last(), name)
    }
}

/// What `name_slot` returns for a name some font carries: the last index
/// registered under the name.
pub proof fn lemma_name_slot_props(models: Seq<FontModel>, name: Seq<char>)
    ensures
        has_name(models, name) ==> {
            &&& 0 <= name_slot(models, name) < models.len()
            &&& models[name_slot(models, name)].name == name
            &&& forall|k: int|
                name_slot(models, name) < k < models.len() ==> (#[trigger] models[k]).name != name
        },
    decreases models.len(),
{
    if models.len() == 0 {
    } else if models.last().name == name {
    } else {
        let rest = models.drop_last();
        lemma_name_slot_props(rest, name);
        if has_name(models, name) {
            let w = choose|i: int| 0 <= i < models.len() && (#[trigger] models[i]).name == name;
            assert(w < models.len() - 1);
            assert(rest[w] == models[w]);
            assert(has_name(rest, name));
            let s = name_slot(models, name);
            assert(s == name_slot(rest, name));
            assert(models[s] == rest[s]);
            assert forall|k: int| s < k < models.len() implies (#[trigger] models[k]).name
                != name by {
                if k < models.len() - 1 {
                    assert(models[k] == rest[k]);
                }
            }
        }
    }
}

/// Index compaction: unloading one font shifts every later font down one
/// index, so a later font's name (when it names only that font) afterwards
/// maps to its old index minus one.
pub proof fn lemma_unload_compacts_index(models: Seq<FontModel>, i: int, j: int)
    requires
        0 <= i < j < models.len(),
        forall|k: int|
            0 <= k < models.len() && k != j ==> (#[trigger] models[k]).name != models[j].name,
    ensures
        has_name(models.remove(i), models[j].name),
        name_slot(models.remove(i), models[j].name) == j - 1,
{
    let rest = models.remove(i);
    assert(rest[j - 1] == models[j]);
    assert(has_name(rest, models[j].name));
    lemma_name_slot_found(rest, models[j].name, j - 1);
}

/// A name carried by exactly one position from there on maps to that
/// position.
pub proof fn lemma_name_slot_found(models: Seq<FontModel>, name: Seq<char>, m: int)
    requires
        0 <= m < models.len(),
        models[m].name == name,
        forall|k: int| m < k < models.len() ==> (#[trigger] models[k]).name != name,
    ensures
        has_name(models, name),
        name_slot(models, name) == m,
    decreases models.len(),
{
    if m == models.len() - 1 {
    } else {
        let rest = models.drop_last();
        assert(forall|k: int| 0 <= k < rest.len() ==> rest[k] == models[k]);
        lemma_name_slot_found(rest, name, m);
    }
}

// --- what rasterization hands the cache, modelled over the fonts ---

/// The rasterization a character gets at a size: the resolved (or
/// fallback) font's, at that font's pixels-per-em scale.
pub open spec fn glyph_raster(models: Seq<FontModel>, c: char, size: u16) -> RasterOut {
    raster_of(models[fallback_at(models, c)].data, models[fallback_at(models, c)].scale, c, size)
}

/// The bitmap is too large for the atlas and is cached as an empty one.
pub open spec fn oversized(g: RasterOut) -> bool {
    g.width > GLYPH_LIMIT || g.height > GLYPH_LIMIT
}

/// Width of the atlas slot the glyph gets: its bitmap width, or 0 when the
/// bitmap is too large to pack.
pub open spec fn packed_w(g: RasterOut) -> int {
    if oversized(g) {
        0
    } else {
        g.width
    }
}

/// Height of the atlas slot the glyph gets: its bitmap height, or 0 when
/// the bitmap is too large to pack.
pub open spec fn packed_h(g: RasterOut) -> int {
    if oversized(g) {
        0
    } else {
        g.height
    }
}

/// The rectangle of the atlas image holds the glyph's coverage bitmap
/// broadcast into alpha: every pixel is full-intensity white whose alpha
/// is the corresponding coverage byte, so the draw-time tint fully
/// controls the final color.
pub open spec fn glyph_pixels_at(img: Image, r: Rect, g: RasterOut) -> bool {
    &&& r.w as int == packed_w(g)
    &&& r.h as int == packed_h(g)
    &&& forall|i: int, j: int|
        0 <= i < r.w && 0 <= j < r.h ==> #[trigger] img.pix(r.x + i, r.y + j) == seq![
            255u8,
            255u8,
            255u8,
            g.bitmap[j * packed_w(g) + i],
        ]
}

/// The smaller of two values.
pub open spec fn min2(a: int, b: int) -> int {
    if a <= b {
        a
    } else {
        b
    }
}

/// The larger of two values.
pub open spec fn max2(a: int, b: int) -> int {
    if a >= b {
        a
    } else {
        b
    }
}

/// Sum of the advances of the characters, each taken from the font that
/// character resolves to, in pixels (unscaled).
pub open spec fn advance_total(models: Seq<FontModel>, text: Seq<char>, size: u16) -> int
    decreases text.len(),
{
    if text.len() == 0 {
        0
    } else {
        advance_total(models, text.drop_last(), size) + glyph_raster(
            models,
            text.last(),
            size,
        ).advance
    }
}

/// Top of a glyph's box above the baseline: its packed bitmap height plus
/// its vertical bearing.
pub open spec fn glyph_top(models: Seq<FontModel>, c: char, size: u16) -> int {
    packed_h(glyph_raster(models, c, size)) + glyph_raster(models, c, size).ymin
}

/// The least vertical bearing over the characters (the run's lowest point).
pub open spec fn min_offset(models: Seq<FontModel>, text: Seq<char>, size: u16) -> int
    decreases text.len(),
{
    if text.len() <= 1 {
        if text.len() == 1 {
            glyph_raster(models, text[0], size).ymin
        } else {
            0
        }
    } else {
        min2(min_offset(models, text.drop_last(), size), glyph_raster(models, text.last(), size).ymin)
    }
}

/// The greatest glyph top over the characters (the run's highest point).
pub open spec fn max_top(models: Seq<FontModel>, text: Seq<char>, size: u16) -> int
    decreases text.len(),
{
    if text.len() <= 1 {
        if text.len() == 1 {
            glyph_top(models, text[0], size)
        } else {
            0
        }
    } else {
        max2(max_top(models, text.drop_last(), size), glyph_top(models, text.last(), size))
    }
}

/// The width a measurement of the text reports: the advance sum, scaled.
pub open spec fn measured_width(models: Seq<FontModel>, text: Seq<char>, size: u16, scale: u16) -> int {
    advance_total(models, text, size) * scale
}

/// The height a measurement of the text reports: the tight bounding-box
/// height over the characters' glyphs, scaled; 0 for an empty run.
pub open spec fn measured_height(models: Seq<FontModel>, text: Seq<char>, size: u16, scale: u16) -> int {
    if text.len() == 0 {
        0
    } else {
        (max_top(models, text, size) - min_offset(models, text, size)) * scale
    }
}

/// The baseline offset a measurement of the text reports: the distance
/// from the top of the bounding box down to the baseline, scaled.
pub open spec fn measured_offset_y(models: Seq<FontModel>, text: Seq<char>, size: u16, scale: u16) -> int {
    if text.len() == 0 {
        0
    } else {
        max_top(models, text, size) * scale
    }
}

/// The quad a draw of the text emits for its `k`-th character: destination
/// size is the packed bitmap scaled; destination x advances by the scaled
/// advances of the characters before it plus the glyph's horizontal
/// bearing; destination y places the bitmap against the baseline at
/// `params.y`, shifted down by one em when drawing from the top left.
pub open spec fn quad_ok(
    models: Seq<FontModel>,
    text: Seq<char>,
    k: int,
    params: TextParams,
    cmd: DrawCommand,
) -> bool {
    let g = glyph_raster(models, text[k], params.size);
    &&& cmd.w == packed_w(g) * params.scale
    &&& cmd.h == packed_h(g) * params.scale
    &&& cmd.source.w as int == packed_w(g)
    &&& cmd.source.h as int == packed_h(g)
    &&& cmd.x == params.x + advance_total(models, text.take(k), params.size) * params.scale
        + g.xmin * params.scale
    &&& cmd.y == params.y - packed_h(g) * params.scale - g.ymin * params.scale + (
    if params.draw == DrawFrom::TopLeft {
        (params.size as int) * params.scale
    } else {
        0int
    })
}

/// The characters of a sequence of `(character, color)` pairs, in order.
pub open spec fn chars_of(ps: Seq<(char, Option<Color>)>) -> Seq<char> {
    ps.map_values(|p: (char, Option<Color>)| p.0)
}

/// One step of a text fold: measuring one more character extends the
/// advance sum by that character's advance and folds its bearing and top
/// into the running minimum and maximum.
pub proof fn lemma_measure_step(models: Seq<FontModel>, text: Seq<char>, size: u16, k: int)
    requires
        0 <= k < text.len(),
    ensures
        advance_total(models, text.take(k + 1), size) == advance_total(models, text.take(k), size)
            + glyph_raster(models, text[k], size).advance,
        k == 0 ==> min_offset(models, text.take(1), size) == glyph_raster(
            models,
            text[0],
            size,
        ).ymin,
        k == 0 ==> max_top(models, text.take(1), size) == glyph_top(models, text[0], size),
        k >= 1 ==> min_offset(models, text.take(k + 1), size) == min2(
            min_offset(models, text.take(k), size),
            glyph_raster(models, text[k], size).ymin,
        ),
        k >= 1 ==> max_top(models, text.take(k + 1), size) == max2(
            max_top(models, text.take(k), size),
            glyph_top(models, text[k], size),
        ),
{
    assert(text.take(k + 1).drop_last() =~= text.take(k));
    assert(text.take(k + 1).last() == text[k]);
    if k == 0 {
        assert(text.take(1)[0] == text[0]);
    }
}

/// The width a draw call accumulates is the width a measurement reports:
/// the draw pass starts at zero, adds each character's scaled advance in
/// turn, and ends at the measured width of the text.
pub proof fn lemma_draw_width_accumulates(
    models: Seq<FontModel>,
    text: Seq<char>,
    size: u16,
    scale: u16,
)
    ensures
        advance_total(models, text.take(0), size) * scale == 0,
        forall|k: int|
            0 <= k < text.len() ==> advance_total(models, text.take(k + 1), size) * scale
                == advance_total(models, text.take(k), size) * scale + glyph_raster(
                models,
                #[trigger] text[k],
                size,
            ).advance * scale,
        advance_total(models, text.take(text.len() as int), size) * scale == measured_width(
            models,
            text,
            size,
            scale,
        ),
{
    assert(text.take(0) =~= Seq::<char>::empty());
    assert forall|k: int|
        0 <= k < text.len() implies advance_total(models, text.take(k + 1), size) * scale
        == advance_total(models, text.take(k), size) * scale + glyph_raster(
        models,
        #[trigger] text[k],
        size,
    ).advance * scale by {
        lemma_measure_step(models, text, size, k);
        assert((advance_total(models, text.take(k), size) + glyph_raster(
            models,
            text[k],
            size,
        ).advance) * scale == advance_total(models, text.take(k), size) * scale + glyph_raster(
            models,
            text[k],
            size,
        ).advance * scale) by (nonlinear_arith);
    }
    assert(text.take(text.len() as int) =~= text);
}

/// The advance sum is additive over concatenation of runs.
pub proof fn lemma_advance_total_concat(
    models: Seq<FontModel>,
    a: Seq<char>,
    b: Seq<char>,
    size: u16,
)
    ensures
        advance_total(models, a + b, size) == advance_total(models, a, size) + advance_total(
            models,
            b,
            size,
        ),
    decreases b.len(),
{
    if b.len() == 0 {
        assert(a + b =~= a);
    } else {
        assert((a + b).drop_last() =~= a + b.drop_last());
        assert((a + b).last() == b.last());
        lemma_advance_total_concat(models, a, b.drop_last(), size);
    }
}

/// Measured width is additive over concatenation: the width of one run
/// followed by another is the sum of their widths, at any size and scale.
pub proof fn lemma_measured_width_additive(
    models: Seq<FontModel>,
    a: Seq<char>,
    b: Seq<char>,
    size: u16,
    scale: u16,
)
    ensures
        measured_width(models, a + b, size, scale) == measured_width(models, a, size, scale)
            + measured_width(models, b, size, scale),
{
    lemma_advance_total_concat(models, a, b, size);
    assert((advance_total(models, a, size) + advance_total(models, b, size)) * scale
        == advance_total(models, a, size) * scale + advance_total(models, b, size) * scale)
        by (nonlinear_arith);
}

/// A product of a bounded value and a 16-bit factor stays within the
/// scaled bound.
proof fn lemma_mul_range(a: int, s: int, bound: int)
    requires
        -bound <= a <= bound,
        0 <= s <= 0xffff,
        0 <= bound,
    ensures
        -(bound * 0xffff) <= a * s <= bound * 0xffff,
{
    assert(-(bound * 0xffff) <= a * s <= bound * 0xffff) by (nonlinear_arith)
        requires
            -bound <= a <= bound,
            0 <= s <= 0xffff,
            0 <= bound,
    ;
}

/// The cache entry could have been written from the given font list and
/// atlas slots: its bearings and advance are the resolved font's
/// rasterization, and some slot carries its id with that rasterization's
/// (packed) dimensions.
pub open spec fn fresh_in(models: Seq<FontModel>, slots: Seq<(u64, Rect)>, e: CacheEntry) -> bool {
    let g = glyph_raster(models, e.c, e.size);
    &&& e.info.offset_x as int == g.xmin
    &&& e.info.offset_y as int == g.ymin
    &&& e.info.advance as int == g.advance
    &&& exists|j: int|
        0 <= j < slots.len() && (#[trigger] slots[j]).0 == e.info.id && slots[j].1.w as int
            == packed_w(g) && slots[j].1.h as int == packed_h(g)
}

/// A fresh cache entry stays fresh when the atlas grows: every old slot
/// position keeps its id, width and height.
pub proof fn lemma_fresh_kept(
    models: Seq<FontModel>,
    olds: Seq<(u64, Rect)>,
    news: Seq<(u64, Rect)>,
    e: CacheEntry,
)
    requires
        fresh_in(models, olds, e),
        news.len() >= olds.len(),
        forall|i: int|
            0 <= i < olds.len() ==> (#[trigger] news[i]).0 == olds[i].0 && news[i].1.w
                == olds[i].1.w && news[i].1.h == olds[i].1.h,
    ensures
        fresh_in(models, news, e),
{
    let g = glyph_raster(models, e.c, e.size);
    let j = choose|j: int|
        0 <= j < olds.len() && (#[trigger] olds[j]).0 == e.info.id && olds[j].1.w as int
            == packed_w(g) && olds[j].1.h as int == packed_h(g);
    assert(0 <= j < news.len() && news[j].0 == e.info.id && news[j].1.w as int == packed_w(g)
        && news[j].1.h as int == packed_h(g));
}

/// All loaded fonts and their caches: the ordered fallback list with
/// name-indexed lookup over it, the glyph cache and the texture atlas.
pub struct Fonts {
    fonts: Vec<LoadedFont>,
    cache: GlyphCache,
    atlas: Atlas,
}

impl Default for Fonts {
    /// A fresh, empty font list with linear texture sampling: the same as
    /// `Fonts::new(ScalingMode::Linear)`.
    fn default() -> (r: Self)
        ensures
            r.wf(),
            r.coherent(),
            r.models().len() == 0,
            r.cache_seq().len() == 0,
            r.atlas_slots().len() == 0,
            r.filter_mode() == ScalingMode::Linear,
    {
        Fonts::new(ScalingMode::Linear)
    }
}

impl Fonts {
    /// The models of the loaded fonts, in registration order.
    pub closed spec fn models(&self) -> Seq<FontModel> {
        Seq::new(self.fonts@.len() as nat, |i: int| self.fonts@[i]@)
    }

    /// The glyph cache's entries, in insertion order.
    pub closed spec fn cache_seq(&self) -> Seq<CacheEntry> {
        self.cache.entry_seq()
    }

    /// The cache holds the key.
    pub closed spec fn cache_has(&self, c: char, size: u16) -> bool {
        self.cache.has_entry(c, size)
    }

    /// The info the cache holds under the key.
    pub closed spec fn cache_at(&self, c: char, size: u16) -> CharacterInfo {
        self.cache.entry_at(c, size)
    }

    /// The atlas's packed slots, in the order their ids were issued.
    pub closed spec fn atlas_slots(&self) -> Seq<(u64, Rect)> {
        self.atlas.slot_seq()
    }

    /// The rectangle of an atlas slot.
    pub closed spec fn atlas_rect(&self, id: u64) -> Rect {
        self.atlas.slot_rect(id)
    }

    /// The texture-sampling filter the atlas was created with.
    pub closed spec fn filter_mode(&self) -> ScalingMode {
        self.atlas.filter_mode()
    }

    /// The id the atlas will issue to the next packed glyph.
    pub closed spec fn atlas_fresh_id(&self) -> u64 {
        self.atlas.fresh_slot_id()
    }

    /// Whether the atlas image changed since the last
    /// [`Fonts::take_atlas_dirty`].
    pub closed spec fn atlas_dirty(&self) -> bool {
        self.atlas.is_dirty()
    }

    /// The atlas image every cached glyph's bitmap is packed into.
    pub closed spec fn atlas_image(&self) -> Image {
        self.atlas.image_view()
    }

    /// Every cache entry matches the current font list. Loading or
    /// unloading a font can break this; [`Fonts::recache_glyphs`] restores
    /// it.
    pub closed spec fn coherent(&self) -> bool {
        forall|i: int|
            0 <= i < self.cache_seq().len() ==> fresh_in(
                self.models(),
                self.atlas_slots(),
                #[trigger] self.cache_seq()[i],
            )
    }

    /// Internal consistency: the atlas and cache are well formed and every
    /// cached glyph's atlas slot exists.
    pub closed spec fn wf(&self) -> bool {
        &&& self.atlas.wf()
        &&& self.cache.wf()
        &&& ids_increasing(self.atlas_slots())
        &&& forall|i: int|
            0 <= i < self.cache_seq().len() ==> self.atlas.has_slot(
                (#[trigger] self.cache_seq()[i]).info.id,
            )
    }

    /// A fresh, empty font list with the given atlas sampling filter.
    pub fn new(default_sm: ScalingMode) -> (r: Fonts)
        ensures
            r.wf(),
            r.coherent(),
            r.models().len() == 0,
            r.cache_seq().len() == 0,
            r.atlas_slots().len() == 0,
            r.filter_mode() == default_sm,
    {
        let r = Fonts {
            fonts: Vec::new(),
            cache: GlyphCache::new(),
            atlas: Atlas::new(default_sm),
        };
        r
    }

    /// An immutable view of the list of loaded fonts, in registration
    /// order.
    pub fn fonts(&self) -> (r: &Vec<LoadedFont>)
        ensures
            r@.len() == self.models().len(),
            forall|i: int| 0 <= i < r@.len() ==> (#[trigger] r@[i])@ == self.models()[i],
    {
        &self.fonts
    }

    /// Loads a font from raw bytes under a name, with the pixels-per-em
    /// scale the font's geometry should be optimized for, and appends it to
    /// the fallback order. On a parse failure nothing changes and fontdue's
    /// message is returned. The glyph cache is not rebuilt: call
    /// [`Fonts::recache_glyphs`] when entries may already exist.
    pub fn load_font_from_bytes_with_scale(&mut self, name: String, bytes: &[u8], scale: u16) -> (r:
        Result<(), &'static str>)
        requires
            old(self).wf(),
        ensures
            final(self).wf(),
            r is Ok <==> font_parses(scrub_names(bytes@)),
            r is Ok ==> final(self).models() == old(self).models().push(
                FontModel { name: name@, data: scrub_names(bytes@), scale },
            ),
            r is Err ==> *final(self) == *old(self),
            final(self).cache_seq() == old(self).cache_seq(),
            final(self).atlas_slots() == old(self).atlas_slots(),
            final(self).atlas_image() == old(self).atlas_image(),
            final(self).atlas_fresh_id() == old(self).atlas_fresh_id(),
            final(self).filter_mode() == old(self).filter_mode(),
            old(self).cache_seq().len() == 0 ==> final(self).coherent(),
    {
        let ghost old_models = self.models();
        match LoadedFont::load(name, bytes, scale) {
            Ok(font) => {
                let ghost fm = font@;
                self.fonts.push(font);
                proof {
                    assert(self.models() =~= old_models.push(fm));
                    assert forall|i: int| 0 <= i < self.cache_seq().len() implies self
                        .atlas
                        .has_slot((#[trigger] self.cache_seq()[i]).info.id) by {
                        assert(old(self).atlas.has_slot(old(self).cache_seq()[i].info.id));
                    }
                }
                Ok(())
            },
            Err(e) => Err(e),
        }
    }

    /// Loads a font from raw bytes under a name, optimized for a default
    /// scale of 100 pixels per em.
    pub fn load_font_from_bytes(&mut self, name: String, bytes: &[u8]) -> (r: Result<
        (),
        &'static str,
    >)
        requires
            old(self).wf(),
        ensures
            final(self).wf(),
            r is Ok <==> font_parses(scrub_names(bytes@)),
            r is Ok ==> final(self).models() == old(self).models().push(
                FontModel { name: name@, data: scrub_names(bytes@), scale: 100u16 },
            ),
            r is Err ==> *final(self) == *old(self),
            final(self).cache_seq() == old(self).cache_seq(),
            final(self).atlas_slots() == old(self).atlas_slots(),
            final(self).atlas_image() == old(self).atlas_image(),
            final(self).atlas_fresh_id() == old(self).atlas_fresh_id(),
            final(self).filter_mode() == old(self).filter_mode(),
            old(self).cache_seq().len() == 0 ==> final(self).coherent(),
    {
        self.load_font_from_bytes_with_scale(name, bytes, 100)
    }

    /// Unloads the font at an index and re-derives the name index from the
    /// remaining fonts in order; an out-of-range index is a silent no-op.
    /// Cached glyphs are kept but may no longer match the fonts: call
    /// [`Fonts::recache_glyphs`] before trusting them again.
    pub fn unload_font_by_index(&mut self, index: usize)
        requires
            old(self).wf(),
        ensures
            final(self).wf(),
            index < old(self).models().len() ==> final(self).models() == old(
                self,
            ).models().remove(index as int),
            index >= old(self).models().len() ==> *final(self) == *old(self),
            final(self).cache_seq() == old(self).cache_seq(),
            final(self).atlas_slots() == old(self).atlas_slots(),
            final(self).atlas_image() == old(self).atlas_image(),
            final(self).atlas_fresh_id() == old(self).atlas_fresh_id(),
            final(self).filter_mode() == old(self).filter_mode(),
    {
        if self.fonts.len() <= index {
            return ;
        }
        let ghost old_models = self.models();
        self.fonts.remove(index);
        proof {
            assert(self.models() =~= old_models.remove(index as int));
            assert forall|i: int| 0 <= i < self.cache_seq().len() implies self.atlas.has_slot(
                (#[trigger] self.cache_seq()[i]).info.id,
            ) by {
                assert(old(self).atlas.has_slot(old(self).cache_seq()[i].info.id));
            }
        }
    }

    /// Unloads the font the name maps to (the last registered under it);
    /// a name no font carries is a silent no-op, which makes repeated
    /// unload-by-name idempotent.
    pub fn unload_font_by_name(&mut self, name: &String)
        requires
            old(self).wf(),
        ensures
            final(self).wf(),
            has_name(old(self).models(), name@) ==> final(self).models() == old(
                self,
            ).models().remove(name_slot(old(self).models(), name@)),
            !has_name(old(self).models(), name@) ==> *final(self) == *old(self),
            final(self).cache_seq() == old(self).cache_seq(),
            final(self).atlas_slots() == old(self).atlas_slots(),
            final(self).atlas_image() == old(self).atlas_image(),
            final(self).atlas_fresh_id() == old(self).atlas_fresh_id(),
            final(self).filter_mode() == old(self).filter_mode(),
    {
        proof {
            lemma_name_slot_props(self.models(), name@);
        }
        let index = match self.get_index_by_name(name) {
            Some(i) => i,
            None => self.fonts.len(),
        };
        self.unload_font_by_index(index);
    }

    /// The index the name maps to: the last font registered under it, or
    /// nothing when no loaded font carries the name.
    pub fn get_index_by_name(&self, name: &String) -> (r: Option<usize>)
        ensures
            match r {
                Some(i) => has_name(self.models(), name@) && i == name_slot(self.models(), name@),
                None => !has_name(self.models(), name@),
            },
    {
        let ghost models = self.models();
        let mut k: usize = self.fonts.len();
        while k > 0
            invariant
                models == self.models(),
                k <= self.fonts@.len(),
                forall|j: int|
                    k <= j < models.len() ==> (#[trigger] models[j]).name != name@,
            decreases k,
        {
            k = k - 1;
            if str_equal(self.fonts[k].name(), name) {
                proof {
                    lemma_name_slot_found(models, name@, k as int);
                }
                return Some(k);
            }
        }
        proof {
            if has_name(models, name@) {
                let w = choose|i: int|
                    0 <= i < models.len() && (#[trigger] models[i]).name == name@;
                assert(models[w].name != name@);
            }
        }
        None
    }

    /// The font at an index, if the index is in range.
    pub fn get_font_by_index(&self, index: usize) -> (r: Option<&LoadedFont>)
        ensures
            match r {
                Some(f) => index < self.models().len() && f@ == self.models()[index as int],
                None => index >= self.models().len(),
            },
    {
        if index < self.fonts.len() {
            Some(&self.fonts[index])
        } else {
            None
        }
    }

    /// The index of the first loaded font that contains the character, or
    /// nothing when no loaded font does.
    pub fn get_index_by_char(&self, c: char) -> (r: Option<usize>)
        ensures
            match r {
                Some(i) => {
                    &&& i as int == resolve_at(self.models(), c)
                    &&& (i as int) < self.models().len()
                    &&& any_contains(self.models(), c)
                },
                None => !any_contains(self.models(), c),
            },
    {
        let ghost models = self.models();
        let mut k: usize = 0;
        while k < self.fonts.len()
            invariant
                models == self.models(),
                k <= self.fonts@.len(),
                forall|j: int| 0 <= j < k ==> !has_glyph((#[trigger] models[j]).data, c),
            decreases self.fonts@.len() - k,
        {
            let f: &LoadedFont = &self.fonts[k];
            if f.contains(c) {
                proof {
                    lemma_resolve_found(models, c, k as int);
                }
                return Some(k);
            }
            k = k + 1;
        }
        proof {
            lemma_resolve_at_props(models, c);
        }
        None
    }

    /// The font the name maps to (the last registered under it), if any
    /// loaded font carries the name.
    pub fn get_font_by_name(&self, name: &String) -> (r: Option<&LoadedFont>)
        requires
            self.wf(),
        ensures
            match r {
                Some(f) => has_name(self.models(), name@) && f@ == self.models()[name_slot(
                    self.models(),
                    name@,
                )],
                None => !has_name(self.models(), name@),
            },
    {
        proof {
            lemma_name_slot_props(self.models(), name@);
        }
        match self.get_index_by_name(name) {
            Some(i) => self.get_font_by_index(i),
            None => None,
        }
    }

    /// The first loaded font that contains the character, or nothing when
    /// no loaded font does.
    pub fn get_font_by_char(&self, c: char) -> (r: Option<&LoadedFont>)
        ensures
            match r {
                Some(f) => any_contains(self.models(), c) && f@ == self.models()[resolve_at(
                    self.models(),
                    c,
                )],
                None => !any_contains(self.models(), c),
            },
    {
        proof {
            lemma_resolve_at_props(self.models(), c);
        }
        match self.get_index_by_char(c) {
            Some(i) => self.get_font_by_index(i),
            None => None,
        }
    }

    /// The font the character falls back on: the first loaded font that
    /// contains it, else the first loaded font. At least one font must be
    /// loaded; resolving with none is a programmer error.
    pub fn get_font_by_char_or_panic(&self, c: char) -> (r: &LoadedFont)
        requires
            self.models().len() > 0,
        ensures
            r@ == self.models()[fallback_at(self.models(), c)],
    {
        proof {
            lemma_resolve_at_props(self.models(), c);
        }
        match self.get_index_by_char(c) {
            Some(i) => &self.fonts[i],
            None => &self.fonts[0],
        }
    }

    /// Checks if any loaded font contains the character.
    pub fn contains(&self, c: char) -> (r: bool)
        ensures
            r == any_contains(self.models(), c),
    {
        self.get_index_by_char(c).is_some()
    }

    /// A read-only view of the texture atlas every cached glyph is packed
    /// into.
    pub fn atlas(&self) -> (a: &Atlas)
        ensures
            self.wf() ==> a.wf(),
            a.slot_seq() == self.atlas_slots(),
            a.filter_mode() == self.filter_mode(),
            a.fresh_slot_id() == self.atlas_fresh_id(),
    {
        &self.atlas
    }

    /// Reports whether the atlas image changed since the last call, and
    /// resets the flag: a rendering backend re-uploads the atlas image to
    /// its texture exactly when this returns true.
    pub fn take_atlas_dirty(&mut self) -> (was: bool)
        requires
            old(self).wf(),
        ensures
            final(self).wf(),
            was == old(self).atlas_dirty(),
            !final(self).atlas_dirty(),
            final(self).models() == old(self).models(),
            final(self).cache_seq() == old(self).cache_seq(),
            final(self).atlas_slots() == old(self).atlas_slots(),
            final(self).atlas_image() == old(self).atlas_image(),
            final(self).filter_mode() == old(self).filter_mode(),
            old(self).coherent() ==> final(self).coherent(),
    {
        let was = self.atlas.take_dirty();
        proof {
            assert forall|i: int| 0 <= i < self.cache_seq().len() implies self.atlas.has_slot(
                (#[trigger] self.cache_seq()[i]).info.id,
            ) by {
                assert(old(self).atlas.has_slot(old(self).cache_seq()[i].info.id));
            }
        }
        was
    }

    /// The placement info cached under `(c, size)`, if that key was
    /// already cached.
    pub fn glyph_info(&self, c: char, size: u16) -> (r: Option<CharacterInfo>)
        requires
            self.wf(),
        ensures
            match r {
                Some(info) => self.cache_has(c, size) && info == self.cache_at(c, size),
                None => !self.cache_has(c, size),
            },
    {
        self.cache.get(c, size)
    }

    /// Resolves the character, rasterizes it at the pixel size and packs
    /// the bitmap into the atlas; the cache itself is left untouched.
    fn rasterize_and_pack(&mut self, c: char, size: u16) -> (r: Option<CharacterInfo>)
        requires
            old(self).wf(),
            old(self).models().len() > 0,
        ensures
            final(self).wf(),
            final(self).models() == old(self).models(),
            final(self).cache_seq() == old(self).cache_seq(),
            final(self).filter_mode() == old(self).filter_mode(),
            old(self).atlas_image().width <= final(self).atlas_image().width,
            old(self).atlas_image().height <= final(self).atlas_image().height,
            match r {
                Some(info) => {
                    &&& info.id == old(self).atlas_fresh_id()
                    &&& final(self).atlas_fresh_id() == old(self).atlas_fresh_id() + 1
                    &&& fresh_in(
                        final(self).models(),
                        final(self).atlas_slots(),
                        CacheEntry { c, size, info },
                    )
                    &&& final(self).atlas_slots().last().0 == info.id
                    &&& glyph_pixels_at(
                        final(self).atlas_image(),
                        final(self).atlas_slots().last().1,
                        glyph_raster(old(self).models(), c, size),
                    )
                    &&& forall|i: int|
                        0 <= i < old(self).atlas_slots().len() ==> region_copied(
                            final(self).atlas_image(),
                            (#[trigger] final(self).atlas_slots()[i]).1,
                            old(self).atlas_image(),
                            old(self).atlas_slots()[i].1,
                        )
                    &&& final(self).atlas_slots().len() == old(self).atlas_slots().len() + 1
                    &&& forall|i: int|
                        0 <= i < old(self).atlas_slots().len()
                            ==> (#[trigger] final(self).atlas_slots()[i]).0
                            == old(self).atlas_slots()[i].0
                            && final(self).atlas_slots()[i].1.w == old(self).atlas_slots()[i].1.w
                            && final(self).atlas_slots()[i].1.h == old(self).atlas_slots()[i].1.h
                },
                None => *final(self) == *old(self) && (!pack_feasible(
                    old(self).atlas_slots(),
                    GLYPH_LIMIT,
                    GLYPH_LIMIT,
                ) || old(self).atlas_fresh_id() == u64::MAX),
            },
    {
        let ghost models = self.models();
        let g = {
            let font = self.get_font_by_char_or_panic(c);
            font.rasterize(c, size)
        };
        let ghost gr = glyph_raster(models, c, size);
        proof {
            assert(g.xmin as int == gr.xmin && g.ymin as int == gr.ymin && g.advance as int
                == gr.advance && g.width as int == gr.width && g.height as int == gr.height);
        }
        let img: Image = if g.width > GLYPH_LIMIT as usize || g.height > GLYPH_LIMIT as usize {
            let im = Image { width: 0, height: 0, bytes: Vec::new() };
            proof {
                assert(im.wf());
                assert(oversized(gr));
            }
            im
        } else {
            Image::from_coverage(g.width as u32, g.height as u32, &g.bitmap)
        };
        proof {
            assert(img.width as int == packed_w(gr));
            assert(img.height as int == packed_h(gr));
        }
        match self.atlas.pack(&img) {
            Some(id) => {
                let info = CharacterInfo { id, offset_x: g.xmin, offset_y: g.ymin, advance: g.advance };
                proof {
                    let slots = self.atlas_slots();
                    let j = slots.len() - 1;
                    assert(slots[j].0 == id && slots[j].1.w as int == packed_w(gr)
                        && slots[j].1.h as int == packed_h(gr));
                    assert(fresh_in(self.models(), slots, CacheEntry { c, size, info }));
                    let aimg = self.atlas.image_view();
                    let lr = slots.last().1;
                    assert(region_holds(aimg, lr, img));
                    assert forall|i2: int, j2: int|
                        0 <= i2 < lr.w && 0 <= j2 < lr.h implies #[trigger] aimg.pix(
                        lr.x + i2,
                        lr.y + j2,
                    ) == seq![255u8, 255u8, 255u8, gr.bitmap[j2 * packed_w(gr) + i2]] by {
                        lemma_white_pix(img, g.bitmap@, i2, j2);
                        assert(aimg.pix(lr.x + i2, lr.y + j2) == img.pix(i2, j2));
                    }
                    assert(glyph_pixels_at(aimg, lr, gr));
                    assert forall|i2: int|
                        0 <= i2 < old(self).atlas_slots().len() implies region_copied(
                        self.atlas_image(),
                        (#[trigger] self.atlas_slots()[i2]).1,
                        old(self).atlas_image(),
                        old(self).atlas_slots()[i2].1,
                    ) by {
                        assert(region_copied(
                            self.atlas.image_view(),
                            self.atlas.slot_seq()[i2].1,
                            old(self).atlas.image_view(),
                            old(self).atlas.slot_seq()[i2].1,
                        ));
                    }
                    assert forall|i: int| 0 <= i < self.cache_seq().len() implies self
                        .atlas
                        .has_slot((#[trigger] self.cache_seq()[i]).info.id) by {
                        let ghost e2 = old(self).cache_seq()[i];
                        assert(old(self).atlas.has_slot(e2.info.id));
                        let w = choose|w: int|
                            0 <= w < old(self).atlas_slots().len() && (#[trigger] old(
                                self,
                            ).atlas_slots()[w]).0 == e2.info.id;
                        assert(self.atlas_slots()[w].0 == e2.info.id);
                    }
                }
                Some(info)
            },
            None => {
                proof {
                    if pack_feasible(old(self).atlas_slots(), GLYPH_LIMIT, GLYPH_LIMIT)
                        && old(self).atlas_fresh_id() != u64::MAX {
                        assert(pack_feasible(old(self).atlas_slots(), img.width, img.height));
                    }
                }
                None
            },
        }
    }

    /// Ensures `(c, size)` is cached: a no-op when an entry already exists
    /// (the entry, and in particular its atlas slot id, is left exactly as
    /// it was — a hit needs no loaded font), else resolves, rasterizes and
    /// packs the character under the atlas's next fresh id and stores the
    /// resulting info: the new atlas slot then holds the glyph's coverage
    /// bitmap broadcast into alpha. Returns false, changing nothing, only
    /// when the atlas cannot take the glyph.
    pub fn cache_glyph(&mut self, c: char, size: u16) -> (ok: bool)
        requires
            old(self).wf(),
            old(self).models().len() > 0 || old(self).cache_has(c, size),
        ensures
            final(self).wf(),
            final(self).models() == old(self).models(),
            final(self).filter_mode() == old(self).filter_mode(),
            old(self).cache_has(c, size) ==> ok && *final(self) == *old(self),
            ok ==> final(self).cache_has(c, size),
            final(self).cache_seq().len() >= old(self).cache_seq().len(),
            forall|i: int|
                0 <= i < old(self).cache_seq().len()
                    ==> (#[trigger] final(self).cache_seq()[i]) == old(self).cache_seq()[i],
            final(self).atlas_slots().len() >= old(self).atlas_slots().len(),
            forall|i: int|
                0 <= i < old(self).atlas_slots().len()
                    ==> (#[trigger] final(self).atlas_slots()[i]).0
                    == old(self).atlas_slots()[i].0
                    && final(self).atlas_slots()[i].1.w == old(self).atlas_slots()[i].1.w
                    && final(self).atlas_slots()[i].1.h == old(self).atlas_slots()[i].1.h,
            final(self).atlas_fresh_id() >= old(self).atlas_fresh_id(),
            old(self).atlas_image().width <= final(self).atlas_image().width,
            old(self).atlas_image().height <= final(self).atlas_image().height,
            !old(self).cache_has(c, size) && ok ==> final(self).cache_at(c, size).id == old(
                self,
            ).atlas_fresh_id() && final(self).atlas_fresh_id() == old(self).atlas_fresh_id() + 1,
            !old(self).cache_has(c, size) && ok ==> final(self).atlas_slots().len() == old(
                self,
            ).atlas_slots().len() + 1 && final(self).cache_seq() == old(self).cache_seq().push(
                CacheEntry { c, size, info: final(self).cache_at(c, size) },
            ) && fresh_in(
                final(self).models(),
                final(self).atlas_slots(),
                CacheEntry { c, size, info: final(self).cache_at(c, size) },
            ),
            !old(self).cache_has(c, size) && ok
                ==> final(self).atlas_slots().last().0 == final(self).cache_at(c, size).id
                && glyph_pixels_at(
                final(self).atlas_image(),
                final(self).atlas_slots().last().1,
                glyph_raster(old(self).models(), c, size),
            ) && (forall|i: int|
                0 <= i < old(self).atlas_slots().len() ==> region_copied(
                    final(self).atlas_image(),
                    (#[trigger] final(self).atlas_slots()[i]).1,
                    old(self).atlas_image(),
                    old(self).atlas_slots()[i].1,
                )),
            old(self).coherent() ==> final(self).coherent(),
            !ok ==> *final(self) == *old(self) && (!pack_feasible(
                old(self).atlas_slots(),
                GLYPH_LIMIT,
                GLYPH_LIMIT,
            ) || old(self).atlas_fresh_id() == u64::MAX),
    {
        match self.cache.get(c, size) {
            Some(_) => true,
            None => {
                match self.rasterize_and_pack(c, size) {
                    Some(info) => {
                        let e = CacheEntry { c, size, info };
                        self.cache.insert(c, size, info);
                        proof {
                            self.cache.lemma_entry_at_unique(
                                c,
                                size,
                                old(self).cache_seq().len() as int,
                            );
                            assert(self.cache_seq() =~= old(self).cache_seq().push(e));
                            // every cached id has a slot
                            assert forall|i: int| 0 <= i < self.cache_seq().len() implies self
                                .atlas
                                .has_slot((#[trigger] self.cache_seq()[i]).info.id) by {
                                if i < old(self).cache_seq().len() {
                                    let ghost e2 = old(self).cache_seq()[i];
                                    assert(old(self).atlas.has_slot(e2.info.id));
                                    let w = choose|w: int|
                                        0 <= w < old(self).atlas_slots().len() && (#[trigger] old(
                                            self,
                                        ).atlas_slots()[w]).0 == e2.info.id;
                                    assert(self.atlas_slots()[w].0 == e2.info.id);
                                } else {
                                    let g = glyph_raster(self.models(), c, size);
                                    let j = choose|j: int|
                                        0 <= j < self.atlas_slots().len() && (#[trigger] self
                                            .atlas_slots()[j]).0 == e.info.id && self
                                            .atlas_slots()[j].1.w as int == packed_w(g) && self
                                            .atlas_slots()[j].1.h as int == packed_h(g);
                                    assert(self.atlas_slots()[j].0 == e.info.id);
                                }
                            }
                            // coherence is preserved
                            if old(self).coherent() {
                                assert forall|i: int| 0 <= i < self.cache_seq().len() implies
                                    fresh_in(
                                    self.models(),
                                    self.atlas_slots(),
                                    #[trigger] self.cache_seq()[i],
                                ) by {
                                    if i < old(self).cache_seq().len() {
                                        lemma_fresh_kept(
                                            self.models(),
                                            old(self).atlas_slots(),
                                            self.atlas_slots(),
                                            old(self).cache_seq()[i],
                                        );
                                    }
                                }
                            }
                        }
                        true
                    },
                    None => false,
                }
            },
        }
    }

    /// Re-resolves, re-rasterizes and re-packs every cached glyph against
    /// the current font list, replacing each entry's info in place. Call
    /// this after loading or unloading fonts: it is what makes the cache
    /// coherent again, and it is O(cache size), so batch font changes
    /// rather than recaching after each one. Old atlas slots are not
    /// reclaimed; the atlas only grows. Returns false (with some entries
    /// possibly already refreshed) only when the atlas cannot take a
    /// glyph. Every rebuilt entry packs under a fresh slot id, at or above
    /// what the counter stood at when the call began: ids are never
    /// reused.
    pub fn recache_glyphs(&mut self) -> (ok: bool)
        requires
            old(self).wf(),
            old(self).models().len() > 0 || old(self).cache_seq().len() == 0,
        ensures
            final(self).wf(),
            final(self).models() == old(self).models(),
            final(self).filter_mode() == old(self).filter_mode(),
            final(self).cache_seq().len() == old(self).cache_seq().len(),
            forall|i: int|
                0 <= i < old(self).cache_seq().len()
                    ==> (#[trigger] final(self).cache_seq()[i]).c == old(self).cache_seq()[i].c
                    && final(self).cache_seq()[i].size == old(self).cache_seq()[i].size,
            final(self).atlas_fresh_id() >= old(self).atlas_fresh_id(),
            old(self).atlas_image().width <= final(self).atlas_image().width,
            old(self).atlas_image().height <= final(self).atlas_image().height,
            ok ==> final(self).coherent(),
            ok ==> forall|i: int|
                0 <= i < final(self).cache_seq().len()
                    ==> (#[trigger] final(self).cache_seq()[i]).info.id >= old(
                    self,
                ).atlas_fresh_id(),
            !ok ==> !pack_feasible(final(self).atlas_slots(), GLYPH_LIMIT, GLYPH_LIMIT)
                || final(self).atlas_fresh_id() == u64::MAX,
    {
        let ghost models = self.models();
        let n = self.cache.len();
        let mut k: usize = 0;
        while k < n
            invariant
                self.wf(),
                models == self.models(),
                models == old(self).models(),
                models.len() > 0 || n == 0,
                self.filter_mode() == old(self).filter_mode(),
                n == self.cache_seq().len(),
                n == old(self).cache_seq().len(),
                k <= n,
                forall|i: int|
                    0 <= i < n ==> (#[trigger] self.cache_seq()[i]).c == old(self).cache_seq()[i].c
                        && self.cache_seq()[i].size == old(self).cache_seq()[i].size,
                forall|i: int|
                    0 <= i < k ==> fresh_in(
                        self.models(),
                        self.atlas_slots(),
                        #[trigger] self.cache_seq()[i],
                    ),
                self.atlas_fresh_id() >= old(self).atlas_fresh_id(),
                old(self).atlas_image().width <= self.atlas_image().width,
                old(self).atlas_image().height <= self.atlas_image().height,
                forall|i: int|
                    0 <= i < k ==> (#[trigger] self.cache_seq()[i]).info.id >= old(
                        self,
                    ).atlas_fresh_id(),
            decreases n - k,
        {
            let e = self.cache.entry(k);
            let ghost mid = *self;
            match self.rasterize_and_pack(e.c, e.size) {
                Some(info) => {
                    self.cache.set_info(k, info);
                    proof {
                        assert forall|i: int| 0 <= i < k + 1 implies fresh_in(
                            self.models(),
                            self.atlas_slots(),
                            #[trigger] self.cache_seq()[i],
                        ) by {
                            if i < k as int {
                                lemma_fresh_kept(
                                    self.models(),
                                    mid.atlas_slots(),
                                    self.atlas_slots(),
                                    self.cache_seq()[i],
                                );
                            } else {
                                assert(self.cache_seq()[i] == (CacheEntry {
                                    c: e.c,
                                    size: e.size,
                                    info,
                                }));
                            }
                        }
                        assert forall|i: int| 0 <= i < self.cache_seq().len() implies self
                            .atlas
                            .has_slot((#[trigger] self.cache_seq()[i]).info.id) by {
                            if i != k as int {
                                let ghost e2 = mid.cache_seq()[i];
                                let w = choose|w: int|
                                    0 <= w < mid.atlas_slots().len() && (#[trigger] mid
                                        .atlas_slots()[w]).0 == e2.info.id;
                                assert(self.atlas_slots()[w].0 == e2.info.id);
                            } else {
                                let g = glyph_raster(models, e.c, e.size);
                                let j = choose|j: int|
                                    0 <= j < self.atlas_slots().len() && (#[trigger] self
                                        .atlas_slots()[j]).0 == info.id && self
                                        .atlas_slots()[j].1.w as int == packed_w(g) && self
                                        .atlas_slots()[j].1.h as int == packed_h(g);
                                assert(self.atlas_slots()[j].0 == info.id);
                            }
                        }
                    }
                    k = k + 1;
                },
                None => {
                    return false;
                },
            }
        }
        true
    }

    /// Ensures every character of the run is cached at the size. Fails,
    /// mid-way, only when the atlas cannot take a glyph.
    fn cache_all(&mut self, text: &[char], size: u16) -> (ok: bool)
        requires
            old(self).wf(),
            old(self).models().len() > 0,
        ensures
            final(self).wf(),
            final(self).models() == old(self).models(),
            final(self).filter_mode() == old(self).filter_mode(),
            old(self).coherent() ==> final(self).coherent(),
            final(self).cache_seq().len() >= old(self).cache_seq().len(),
            forall|i: int|
                0 <= i < old(self).cache_seq().len()
                    ==> (#[trigger] final(self).cache_seq()[i]) == old(self).cache_seq()[i],
            final(self).atlas_slots().len() >= old(self).atlas_slots().len(),
            forall|i: int|
                0 <= i < old(self).atlas_slots().len()
                    ==> (#[trigger] final(self).atlas_slots()[i]).0
                    == old(self).atlas_slots()[i].0
                    && final(self).atlas_slots()[i].1.w == old(self).atlas_slots()[i].1.w
                    && final(self).atlas_slots()[i].1.h == old(self).atlas_slots()[i].1.h,
            final(self).atlas_fresh_id() >= old(self).atlas_fresh_id(),
            old(self).atlas_image().width <= final(self).atlas_image().width,
            old(self).atlas_image().height <= final(self).atlas_image().height,
            (forall|j: int|
                0 <= j < text@.len() ==> old(self).cache_has(#[trigger] text@[j], size))
                ==> *final(self) == *old(self),
            ok ==> forall|j: int|
                0 <= j < text@.len() ==> final(self).cache_has(#[trigger] text@[j], size),
            !ok ==> !pack_feasible(final(self).atlas_slots(), GLYPH_LIMIT, GLYPH_LIMIT)
                || final(self).atlas_fresh_id() == u64::MAX,
    {
        let n = text.len();
        let mut k: usize = 0;
        while k < n
            invariant
                self.wf(),
                self.models() == old(self).models(),
                self.models().len() > 0,
                self.filter_mode() == old(self).filter_mode(),
                old(self).coherent() ==> self.coherent(),
                self.cache_seq().len() >= old(self).cache_seq().len(),
                forall|i: int|
                    0 <= i < old(self).cache_seq().len()
                        ==> (#[trigger] self.cache_seq()[i]) == old(self).cache_seq()[i],
                self.atlas_slots().len() >= old(self).atlas_slots().len(),
                forall|i: int|
                    0 <= i < old(self).atlas_slots().len()
                        ==> (#[trigger] self.atlas_slots()[i]).0 == old(self).atlas_slots()[i].0
                        && self.atlas_slots()[i].1.w == old(self).atlas_slots()[i].1.w
                        && self.atlas_slots()[i].1.h == old(self).atlas_slots()[i].1.h,
                self.atlas_fresh_id() >= old(self).atlas_fresh_id(),
                old(self).atlas_image().width <= self.atlas_image().width,
                old(self).atlas_image().height <= self.atlas_image().height,
                (forall|j: int|
                    0 <= j < text@.len() ==> old(self).cache_has(#[trigger] text@[j], size))
                    ==> *self == *old(self),
                n == text@.len(),
                k <= n,
                forall|j: int| 0 <= j < k ==> self.cache_has(#[trigger] text@[j], size),
            decreases n - k,
        {
            let c = text[k];
            let ghost mid = *self;
            proof {
                if forall|j: int|
                    0 <= j < text@.len() ==> old(self).cache_has(#[trigger] text@[j], size) {
                    assert(old(self).cache_has(text@[k as int], size));
                    assert(mid.cache_has(c, size));
                }
            }
            if !self.cache_glyph(c, size) {
                return false;
            }
            proof {
                assert forall|i: int| 0 <= i < old(self).atlas_slots().len() implies (
                #[trigger] self.atlas_slots()[i]).0 == old(self).atlas_slots()[i].0 && self
                    .atlas_slots()[i].1.w == old(self).atlas_slots()[i].1.w && self
                    .atlas_slots()[i].1.h == old(self).atlas_slots()[i].1.h by {
                    assert(mid.atlas_slots()[i].0 == old(self).atlas_slots()[i].0
                        && mid.atlas_slots()[i].1.w == old(self).atlas_slots()[i].1.w
                        && mid.atlas_slots()[i].1.h == old(self).atlas_slots()[i].1.h);
                }
                assert forall|j: int| 0 <= j < k + 1 implies self.cache_has(
                    #[trigger] text@[j],
                    size,
                ) by {
                    if j < k as int {
                        let w = choose|w: int|
                            0 <= w < mid.cache_seq().len() && (#[trigger] mid.cache_seq()[w]).c
                                == text@[j] && mid.cache_seq()[w].size == size;
                        assert(self.cache_seq()[w] == mid.cache_seq()[w]);
                    }
                }
                assert forall|i: int| 0 <= i < old(self).cache_seq().len() implies (
                #[trigger] self.cache_seq()[i]) == old(self).cache_seq()[i] by {
                    assert(self.cache_seq()[i] == mid.cache_seq()[i]);
                }
            }
            k = k + 1;
        }
        true
    }

    /// Measures the run at the size with a draw-time magnification: the
    /// scaled advance sum as width, and the scaled tight bounding box over
    /// the glyphs as height with the baseline offset from its top. Caches
    /// missing glyphs on the way; fails only when the atlas cannot take
    /// one of them.
    pub fn measure_scaled_text(&mut self, text: &[char], size: u16, scale: u16) -> (r: Option<
        TextDimensions,
    >)
        requires
            old(self).wf(),
            old(self).models().len() > 0,
            text@.len() <= 0xFFFF,
        ensures
            final(self).wf(),
            final(self).models() == old(self).models(),
            final(self).filter_mode() == old(self).filter_mode(),
            old(self).coherent() ==> final(self).coherent(),
            final(self).cache_seq().len() >= old(self).cache_seq().len(),
            forall|i: int|
                0 <= i < old(self).cache_seq().len()
                    ==> (#[trigger] final(self).cache_seq()[i]) == old(self).cache_seq()[i],
            final(self).atlas_slots().len() >= old(self).atlas_slots().len(),
            forall|i: int|
                0 <= i < old(self).atlas_slots().len()
                    ==> (#[trigger] final(self).atlas_slots()[i]).0
                    == old(self).atlas_slots()[i].0
                    && final(self).atlas_slots()[i].1.w == old(self).atlas_slots()[i].1.w
                    && final(self).atlas_slots()[i].1.h == old(self).atlas_slots()[i].1.h,
            final(self).atlas_fresh_id() >= old(self).atlas_fresh_id(),
            old(self).atlas_image().width <= final(self).atlas_image().width,
            old(self).atlas_image().height <= final(self).atlas_image().height,
            (forall|j: int|
                0 <= j < text@.len() ==> old(self).cache_has(#[trigger] text@[j], size))
                ==> *final(self) == *old(self),
            match r {
                Some(dims) => {
                    &&& forall|j: int|
                        0 <= j < text@.len() ==> final(self).cache_has(#[trigger] text@[j], size)
                    &&& old(self).coherent() ==> dims.width == measured_width(
                        old(self).models(),
                        text@,
                        size,
                        scale,
                    ) && dims.height == measured_height(old(self).models(), text@, size, scale)
                        && dims.offset_y == measured_offset_y(old(self).models(), text@, size, scale)
                },
                None => !pack_feasible(final(self).atlas_slots(), GLYPH_LIMIT, GLYPH_LIMIT)
                    || final(self).atlas_fresh_id() == u64::MAX,
            },
    {
        let n = text.len();
        if n == 0 {
            return Some(TextDimensions { width: 0, height: 0, offset_y: 0 });
        }
        if !self.cache_all(text, size) {
            return None;
        }
        let ghost s1 = *self;
        let ghost models = self.models();
        let mut width_raw: i64 = 0;
        let mut min_y: i64 = 0;
        let mut max_y: i64 = 0;
        let mut k: usize = 0;
        while k < n
            invariant
                *self == s1,
                self.wf(),
                models == self.models(),
                old(self).coherent() ==> self.coherent(),
                n == text@.len(),
                n <= 0xFFFF,
                k <= n,
                forall|j: int| 0 <= j < n ==> self.cache_has(#[trigger] text@[j], size),
                -(0x80000000int) * (k as int) <= width_raw as int <= 0x80000000int * (k as int),
                k >= 1 ==> -(0x80000000int) <= min_y as int <= 0x80004000int,
                k >= 1 ==> -(0x80000000int) <= max_y as int <= 0x80004000int,
                old(self).coherent() ==> width_raw as int == advance_total(
                    models,
                    text@.take(k as int),
                    size,
                ),
                old(self).coherent() && k >= 1 ==> min_y as int == min_offset(
                    models,
                    text@.take(k as int),
                    size,
                ) && max_y as int == max_top(models, text@.take(k as int), size),
            decreases n - k,
        {
            let c = text[k];
            let (info, rect) = self.cached_glyph_box(c, size);
            let adv = info.advance as i64;
            let off = info.offset_y as i64;
            let top = rect.h as i64 + off;
            proof {
                lemma_measure_step(models, text@, size, k as int);
            }
            width_raw = width_raw + adv;
            if k == 0 {
                min_y = off;
                max_y = top;
            } else {
                if off < min_y {
                    min_y = off;
                }
                if top > max_y {
                    max_y = top;
                }
            }
            k = k + 1;
        }
        proof {
            assert(text@.take(n as int) =~= text@);
            lemma_mul_range(width_raw as int, scale as int, 0x80000000int * 0xffff);
            lemma_mul_range((max_y - min_y) as int, scale as int, 0x100008000int);
            lemma_mul_range(max_y as int, scale as int, 0x80004000int);
        }
        let sc = scale as i64;
        let width = width_raw * sc;
        let height = (max_y - min_y) * sc;
        let offset_y = max_y * sc;
        Some(TextDimensions { width, height, offset_y })
    }

    /// Measures the run at the size: the advance sum as width, and the
    /// tight bounding box over the glyphs as height with the baseline
    /// offset from its top. Caches missing glyphs on the way; fails only
    /// when the atlas cannot take one of them.
    pub fn measure_text(&mut self, text: &[char], size: u16) -> (r: Option<TextDimensions>)
        requires
            old(self).wf(),
            old(self).models().len() > 0,
            text@.len() <= 0xFFFF,
        ensures
            final(self).wf(),
            final(self).models() == old(self).models(),
            final(self).filter_mode() == old(self).filter_mode(),
            old(self).coherent() ==> final(self).coherent(),
            final(self).cache_seq().len() >= old(self).cache_seq().len(),
            forall|i: int|
                0 <= i < old(self).cache_seq().len()
                    ==> (#[trigger] final(self).cache_seq()[i]) == old(self).cache_seq()[i],
            final(self).atlas_slots().len() >= old(self).atlas_slots().len(),
            forall|i: int|
                0 <= i < old(self).atlas_slots().len()
                    ==> (#[trigger] final(self).atlas_slots()[i]).0
                    == old(self).atlas_slots()[i].0
                    && final(self).atlas_slots()[i].1.w == old(self).atlas_slots()[i].1.w
                    && final(self).atlas_slots()[i].1.h == old(self).atlas_slots()[i].1.h,
            final(self).atlas_fresh_id() >= old(self).atlas_fresh_id(),
            old(self).atlas_image().width <= final(self).atlas_image().width,
            old(self).atlas_image().height <= final(self).atlas_image().height,
            (forall|j: int|
                0 <= j < text@.len() ==> old(self).cache_has(#[trigger] text@[j], size))
                ==> *final(self) == *old(self),
            match r {
                Some(dims) => {
                    &&& forall|j: int|
                        0 <= j < text@.len() ==> final(self).cache_has(#[trigger] text@[j], size)
                    &&& old(self).coherent() ==> dims.width == measured_width(
                        old(self).models(),
                        text@,
                        size,
                        1,
                    ) && dims.height == measured_height(old(self).models(), text@, size, 1)
                        && dims.offset_y == measured_offset_y(old(self).models(), text@, size, 1)
                },
                None => !pack_feasible(final(self).atlas_slots(), GLYPH_LIMIT, GLYPH_LIMIT)
                    || final(self).atlas_fresh_id() == u64::MAX,
            },
    {
        self.measure_scaled_text(text, size, 1)
    }

    /// The cached info of `(c, size)` and the atlas rectangle of its slot.
    fn cached_glyph_box(&self, c: char, size: u16) -> (r: (CharacterInfo, Rect))
        requires
            self.wf(),
            self.cache_has(c, size),
        ensures
            r.0 == self.cache_at(c, size),
            r.1.w <= MAX_DIM,
            r.1.h <= MAX_DIM,
            self.coherent() ==> {
                let g = glyph_raster(self.models(), c, size);
                r.0.offset_x as int == g.xmin && r.0.offset_y as int == g.ymin && r.0.advance as int
                    == g.advance && r.1.w as int == packed_w(g) && r.1.h as int == packed_h(g)
            },
    {
        proof {
            let w = choose|w: int|
                0 <= w < self.cache_seq().len() && (#[trigger] self.cache_seq()[w]).c == c
                    && self.cache_seq()[w].size == size;
            self.cache.lemma_entry_at_unique(c, size, w);
            assert(self.atlas.has_slot(self.cache_seq()[w].info.id));
        }
        let info = match self.cache.get(c, size) {
            Some(info) => info,
            None => unreached(),
        };
        let ghost g = glyph_raster(self.models(), c, size);
        proof {
            if self.coherent() {
                let w = choose|w: int|
                    0 <= w < self.cache_seq().len() && (#[trigger] self.cache_seq()[w]).c == c
                        && self.cache_seq()[w].size == size;
                self.cache.lemma_entry_at_unique(c, size, w);
                assert(fresh_in(self.models(), self.atlas_slots(), self.cache_seq()[w]));
                assert(self.cache_seq()[w] == (CacheEntry { c, size, info }));
                let j = choose|j: int|
                    0 <= j < self.atlas_slots().len() && (#[trigger] self.atlas_slots()[j]).0
                        == info.id && self.atlas_slots()[j].1.w as int == packed_w(g)
                        && self.atlas_slots()[j].1.h as int == packed_h(g);
                crate::atlas::lemma_rect_of_slot_at(self.atlas_slots(), info.id, j);
            }
        }
        let rect = match self.atlas.get(info.id) {
            Some(rect) => rect,
            None => unreached(),
        };
        (info, rect)
    }

    /// Emits one quad per character of the run, left to right, tinting the
    /// `k`-th quad with the `k`-th color, and returns the run's scaled
    /// measurement with the quads. Caches missing glyphs up front, before
    /// any quad is computed; fails only when the atlas cannot take one.
    fn draw_chars(&mut self, chars: &[char], colors: &[Color], params: &TextParams) -> (r: Option<
        (TextDimensions, Vec<DrawCommand>),
    >)
        requires
            old(self).wf(),
            old(self).models().len() > 0,
            chars@.len() <= 0xFFFF,
            colors@.len() == chars@.len(),
        ensures
            final(self).wf(),
            final(self).models() == old(self).models(),
            final(self).filter_mode() == old(self).filter_mode(),
            old(self).coherent() ==> final(self).coherent(),
            final(self).cache_seq().len() >= old(self).cache_seq().len(),
            forall|i: int|
                0 <= i < old(self).cache_seq().len()
                    ==> (#[trigger] final(self).cache_seq()[i]) == old(self).cache_seq()[i],
            final(self).atlas_slots().len() >= old(self).atlas_slots().len(),
            forall|i: int|
                0 <= i < old(self).atlas_slots().len()
                    ==> (#[trigger] final(self).atlas_slots()[i]).0
                    == old(self).atlas_slots()[i].0
                    && final(self).atlas_slots()[i].1.w == old(self).atlas_slots()[i].1.w
                    && final(self).atlas_slots()[i].1.h == old(self).atlas_slots()[i].1.h,
            final(self).atlas_fresh_id() >= old(self).atlas_fresh_id(),
            old(self).atlas_image().width <= final(self).atlas_image().width,
            old(self).atlas_image().height <= final(self).atlas_image().height,
            (forall|j: int|
                0 <= j < chars@.len() ==> old(self).cache_has(#[trigger] chars@[j], params.size))
                ==> *final(self) == *old(self),
            match r {
                Some((dims, cmds)) => {
                    &&& forall|j: int|
                        0 <= j < chars@.len() ==> final(self).cache_has(
                            #[trigger] chars@[j],
                            params.size,
                        )
                    &&& cmds@.len() == chars@.len()
                    &&& forall|j: int|
                        0 <= j < cmds@.len() ==> (#[trigger] cmds@[j]).color == colors@[j]
                    &&& old(self).coherent() ==> dims.width == measured_width(
                        old(self).models(),
                        chars@,
                        params.size,
                        params.scale,
                    ) && dims.height == measured_height(
                        old(self).models(),
                        chars@,
                        params.size,
                        params.scale,
                    ) && dims.offset_y == measured_offset_y(
                        old(self).models(),
                        chars@,
                        params.size,
                        params.scale,
                    )
                    &&& old(self).coherent() ==> forall|j: int|
                        0 <= j < cmds@.len() ==> quad_ok(
                            old(self).models(),
                            chars@,
                            j,
                            *params,
                            #[trigger] cmds@[j],
                        )
                },
                None => !pack_feasible(final(self).atlas_slots(), GLYPH_LIMIT, GLYPH_LIMIT)
                    || final(self).atlas_fresh_id() == u64::MAX,
            },
    {
        if !self.cache_all(chars, params.size) {
            return None;
        }
        let ghost s1 = *self;
        let ghost models = self.models();
        let size = params.size;
        let scale = params.scale;
        let n = chars.len();
        let mut cmds: Vec<DrawCommand> = Vec::new();
        let mut tw: i64 = 0;
        let mut width_raw: i64 = 0;
        let mut min_y: i64 = 0;
        let mut max_y: i64 = 0;
        let mut k: usize = 0;
        while k < n
            invariant
                *self == s1,
                self.wf(),
                models == self.models(),
                old(self).coherent() ==> self.coherent(),
                n == chars@.len(),
                colors@.len() == n,
                n <= 0xFFFF,
                k <= n,
                size == params.size,
                scale == params.scale,
                k == 0 ==> min_y == 0 && max_y == 0,
                forall|j: int| 0 <= j < n ==> self.cache_has(#[trigger] chars@[j], size),
                cmds@.len() == k,
                forall|j: int| 0 <= j < k ==> (#[trigger] cmds@[j]).color == colors@[j],
                -0x7fff_8000_0000int * (k as int) <= tw as int <= 0x7fff_8000_0000int * (
                k as int),
                -(0x80000000int) * (k as int) <= width_raw as int <= 0x80000000int * (k as int),
                k >= 1 ==> -(0x80000000int) <= min_y as int <= 0x80004000int,
                k >= 1 ==> -(0x80000000int) <= max_y as int <= 0x80004000int,
                old(self).coherent() ==> tw as int == advance_total(models, chars@.take(k as int), size)
                    * scale,
                old(self).coherent() ==> width_raw as int == advance_total(
                    models,
                    chars@.take(k as int),
                    size,
                ),
                old(self).coherent() && k >= 1 ==> min_y as int == min_offset(
                    models,
                    chars@.take(k as int),
                    size,
                ) && max_y as int == max_top(models, chars@.take(k as int), size),
                old(self).coherent() ==> forall|j: int|
                    0 <= j < k ==> quad_ok(models, chars@, j, *params, #[trigger] cmds@[j]),
            decreases n - k,
        {
            let c = chars[k];
            let (info, rect) = self.cached_glyph_box(c, size);
            proof {
                lemma_measure_step(models, chars@, size, k as int);
                lemma_mul_range(info.advance as int, scale as int, 0x80000000int);
                assert(-0x7fff_0000_8000_0000int <= tw as int <= 0x7fff_0000_8000_0000int);
                if old(self).coherent() {
                    assert((advance_total(models, chars@.take(k as int), size) + glyph_raster(
                        models,
                        chars@[k as int],
                        size,
                    ).advance) * scale == advance_total(models, chars@.take(k as int), size) * scale
                        + glyph_raster(models, chars@[k as int], size).advance * scale)
                        by (nonlinear_arith);
                }
            }
            let cmd = char_command(info, rect, tw, colors[k], params);
            cmds.push(cmd);
            let adv_scaled = (info.advance as i64) * (scale as i64);
            tw = tw + adv_scaled;
            let adv = info.advance as i64;
            let off = info.offset_y as i64;
            let top = rect.h as i64 + off;
            width_raw = width_raw + adv;
            if k == 0 {
                min_y = off;
                max_y = top;
            } else {
                if off < min_y {
                    min_y = off;
                }
                if top > max_y {
                    max_y = top;
                }
            }
            k = k + 1;
        }
        proof {
            assert(chars@.take(n as int) =~= chars@);
            lemma_mul_range(width_raw as int, scale as int, 0x80000000int * 0xffff);
            lemma_mul_range((max_y - min_y) as int, scale as int, 0x100008000int);
            lemma_mul_range(max_y as int, scale as int, 0x80004000int);
        }
        let sc = scale as i64;
        let dims = if n == 0 {
            TextDimensions { width: 0, height: 0, offset_y: 0 }
        } else {
            TextDimensions {
                width: width_raw * sc,
                height: (max_y - min_y) * sc,
                offset_y: max_y * sc,
            }
        };
        Some((dims, cmds))
    }

    /// Draws text with given [`TextParams`]: one quad per character, all
    /// tinted with the call's color, and the run's scaled measurement.
    pub fn draw_text_ex(&mut self, text: &[char], params: &TextParams) -> (r: Option<
        (TextDimensions, Vec<DrawCommand>),
    >)
        requires
            old(self).wf(),
            old(self).models().len() > 0,
            text@.len() <= 0xFFFF,
        ensures
            final(self).wf(),
            final(self).models() == old(self).models(),
            final(self).filter_mode() == old(self).filter_mode(),
            old(self).coherent() ==> final(self).coherent(),
            final(self).cache_seq().len() >= old(self).cache_seq().len(),
            forall|i: int|
                0 <= i < old(self).cache_seq().len()
                    ==> (#[trigger] final(self).cache_seq()[i]) == old(self).cache_seq()[i],
            final(self).atlas_slots().len() >= old(self).atlas_slots().len(),
            forall|i: int|
                0 <= i < old(self).atlas_slots().len()
                    ==> (#[trigger] final(self).atlas_slots()[i]).0
                    == old(self).atlas_slots()[i].0
                    && final(self).atlas_slots()[i].1.w == old(self).atlas_slots()[i].1.w
                    && final(self).atlas_slots()[i].1.h == old(self).atlas_slots()[i].1.h,
            final(self).atlas_fresh_id() >= old(self).atlas_fresh_id(),
            old(self).atlas_image().width <= final(self).atlas_image().width,
            old(self).atlas_image().height <= final(self).atlas_image().height,
            (forall|j: int|
                0 <= j < text@.len() ==> old(self).cache_has(#[trigger] text@[j], params.size))
                ==> *final(self) == *old(self),
            match r {
                Some((dims, cmds)) => {
                    &&& forall|j: int|
                        0 <= j < text@.len() ==> final(self).cache_has(
                            #[trigger] text@[j],
                            params.size,
                        )
                    &&& cmds@.len() == text@.len()
                    &&& forall|j: int|
                        0 <= j < cmds@.len() ==> (#[trigger] cmds@[j]).color == params.color
                    &&& old(self).coherent() ==> dims.width == measured_width(
                        old(self).models(),
                        text@,
                        params.size,
                        params.scale,
                    ) && dims.height == measured_height(
                        old(self).models(),
                        text@,
                        params.size,
                        params.scale,
                    ) && dims.offset_y == measured_offset_y(
                        old(self).models(),
                        text@,
                        params.size,
                        params.scale,
                    )
                    &&& old(self).coherent() ==> forall|j: int|
                        0 <= j < cmds@.len() ==> quad_ok(
                            old(self).models(),
                            text@,
                            j,
                            *params,
                            #[trigger] cmds@[j],
                        )
                },
                None => !pack_feasible(final(self).atlas_slots(), GLYPH_LIMIT, GLYPH_LIMIT)
                    || final(self).atlas_fresh_id() == u64::MAX,
            },
    {
        let mut colors: Vec<Color> = Vec::new();
        let mut k: usize = 0;
        while k < text.len()
            invariant
                k <= text@.len(),
                colors@.len() == k,
                forall|j: int| 0 <= j < k ==> (#[trigger] colors@[j]) == params.color,
            decreases text@.len() - k,
        {
            colors.push(params.color);
            k = k + 1;
        }
        self.draw_chars(text, colors.as_slice(), params)
    }

    /// Draws text at a position with a given size and color, from the top
    /// left, unmagnified.
    pub fn draw_text(&mut self, text: &[char], x: i32, y: i32, size: u16, color: Color) -> (r:
        Option<(TextDimensions, Vec<DrawCommand>)>)
        requires
            old(self).wf(),
            old(self).models().len() > 0,
            text@.len() <= 0xFFFF,
        ensures
            final(self).wf(),
            final(self).models() == old(self).models(),
            final(self).filter_mode() == old(self).filter_mode(),
            old(self).coherent() ==> final(self).coherent(),
            final(self).cache_seq().len() >= old(self).cache_seq().len(),
            forall|i: int|
                0 <= i < old(self).cache_seq().len()
                    ==> (#[trigger] final(self).cache_seq()[i]) == old(self).cache_seq()[i],
            final(self).atlas_slots().len() >= old(self).atlas_slots().len(),
            forall|i: int|
                0 <= i < old(self).atlas_slots().len()
                    ==> (#[trigger] final(self).atlas_slots()[i]).0
                    == old(self).atlas_slots()[i].0
                    && final(self).atlas_slots()[i].1.w == old(self).atlas_slots()[i].1.w
                    && final(self).atlas_slots()[i].1.h == old(self).atlas_slots()[i].1.h,
            final(self).atlas_fresh_id() >= old(self).atlas_fresh_id(),
            old(self).atlas_image().width <= final(self).atlas_image().width,
            old(self).atlas_image().height <= final(self).atlas_image().height,
            (forall|j: int|
                0 <= j < text@.len() ==> old(self).cache_has(#[trigger] text@[j], size))
                ==> *final(self) == *old(self),
            match r {
                Some((dims, cmds)) => {
                    &&& forall|j: int|
                        0 <= j < text@.len() ==> final(self).cache_has(#[trigger] text@[j], size)
                    &&& cmds@.len() == text@.len()
                    &&& forall|j: int|
                        0 <= j < cmds@.len() ==> (#[trigger] cmds@[j]).color == color
                    &&& old(self).coherent() ==> dims.width == measured_width(
                        old(self).models(),
                        text@,
                        size,
                        1,
                    ) && dims.height == measured_height(old(self).models(), text@, size, 1)
                        && dims.offset_y == measured_offset_y(old(self).models(), text@, size, 1)
                    &&& old(self).coherent() ==> forall|j: int|
                        0 <= j < cmds@.len() ==> quad_ok(
                            old(self).models(),
                            text@,
                            j,
                            (TextParams {
                                x,
                                y,
                                size,
                                scale: 1,
                                color,
                                draw: DrawFrom::TopLeft,
                            }),
                            #[trigger] cmds@[j],
                        )
                },
                None => !pack_feasible(final(self).atlas_slots(), GLYPH_LIMIT, GLYPH_LIMIT)
                    || final(self).atlas_fresh_id() == u64::MAX,
            },
    {
        let params = TextParams { x, y, size, scale: 1, color, draw: DrawFrom::TopLeft };
        self.draw_text_ex(text, &params)
    }

    /// Draws a colored run with given [`TextParams`]: one quad per yielded
    /// `(character, color)` pair, tinted with the pair's color or, before
    /// any marker, the call's color.
    pub fn draw_colored_text_ex(&mut self, text: &ColoredStr, params: &TextParams) -> (r: Option<
        (TextDimensions, Vec<DrawCommand>),
    >)
        requires
            old(self).wf(),
            old(self).models().len() > 0,
            pairs_of(text@).len() <= 0xFFFF,
        ensures
            final(self).wf(),
            final(self).models() == old(self).models(),
            final(self).filter_mode() == old(self).filter_mode(),
            old(self).coherent() ==> final(self).coherent(),
            final(self).cache_seq().len() >= old(self).cache_seq().len(),
            forall|i: int|
                0 <= i < old(self).cache_seq().len()
                    ==> (#[trigger] final(self).cache_seq()[i]) == old(self).cache_seq()[i],
            final(self).atlas_slots().len() >= old(self).atlas_slots().len(),
            forall|i: int|
                0 <= i < old(self).atlas_slots().len()
                    ==> (#[trigger] final(self).atlas_slots()[i]).0
                    == old(self).atlas_slots()[i].0
                    && final(self).atlas_slots()[i].1.w == old(self).atlas_slots()[i].1.w
                    && final(self).atlas_slots()[i].1.h == old(self).atlas_slots()[i].1.h,
            final(self).atlas_fresh_id() >= old(self).atlas_fresh_id(),
            old(self).atlas_image().width <= final(self).atlas_image().width,
            old(self).atlas_image().height <= final(self).atlas_image().height,
            (forall|j: int|
                0 <= j < pairs_of(text@).len() ==> old(self).cache_has(
                    (#[trigger] pairs_of(text@)[j]).0,
                    params.size,
                )) ==> *final(self) == *old(self),
            match r {
                Some((dims, cmds)) => {
                    &&& forall|j: int|
                        0 <= j < pairs_of(text@).len() ==> final(self).cache_has(
                            (#[trigger] pairs_of(text@)[j]).0,
                            params.size,
                        )
                    &&& cmds@.len() == pairs_of(text@).len()
                    &&& forall|j: int|
                        0 <= j < cmds@.len() ==> (#[trigger] cmds@[j]).color == (match pairs_of(
                            text@,
                        )[j].1 {
                            Some(col) => col,
                            None => params.color,
                        })
                    &&& old(self).coherent() ==> dims.width == measured_width(
                        old(self).models(),
                        chars_of(pairs_of(text@)),
                        params.size,
                        params.scale,
                    ) && dims.height == measured_height(
                        old(self).models(),
                        chars_of(pairs_of(text@)),
                        params.size,
                        params.scale,
                    ) && dims.offset_y == measured_offset_y(
                        old(self).models(),
                        chars_of(pairs_of(text@)),
                        params.size,
                        params.scale,
                    )
                    &&& old(self).coherent() ==> forall|j: int|
                        0 <= j < cmds@.len() ==> quad_ok(
                            old(self).models(),
                            chars_of(pairs_of(text@)),
                            j,
                            *params,
                            #[trigger] cmds@[j],
                        )
                },
                None => !pack_feasible(final(self).atlas_slots(), GLYPH_LIMIT, GLYPH_LIMIT)
                    || final(self).atlas_fresh_id() == u64::MAX,
            },
    {
        let pairs = text.pairs();
        let mut chars: Vec<char> = Vec::new();
        let mut colors: Vec<Color> = Vec::new();
        let mut k: usize = 0;
        while k < pairs.len()
            invariant
                pairs@ == pairs_of(text@),
                k <= pairs@.len(),
                chars@.len() == k,
                colors@.len() == k,
                forall|j: int| 0 <= j < k ==> (#[trigger] chars@[j]) == pairs@[j].0,
                forall|j: int|
                    0 <= j < k ==> (#[trigger] colors@[j]) == (match pairs@[j].1 {
                        Some(col) => col,
                        None => params.color,
                    }),
            decreases pairs@.len() - k,
        {
            let (c, col) = pairs[k];
            chars.push(c);
            match col {
                Some(col) => colors.push(col),
                None => colors.push(params.color),
            }
            k = k + 1;
        }
        proof {
            assert(chars@ =~= chars_of(pairs_of(text@)));
            assert forall|j: int| 0 <= j < chars@.len() implies #[trigger] chars@[j] == pairs_of(
                text@,
            )[j].0 by {}
        }
        let r = self.draw_chars(chars.as_slice(), colors.as_slice(), params);
        proof {
            if forall|j: int|
                0 <= j < pairs_of(text@).len() ==> old(self).cache_has(
                    (#[trigger] pairs_of(text@)[j]).0,
                    params.size,
                ) {
                assert forall|j: int|
                    0 <= j < chars@.len() implies old(self).cache_has(
                    #[trigger] chars@[j],
                    params.size,
                ) by {
                    assert(old(self).cache_has(pairs_of(text@)[j].0, params.size));
                }
            }
            if r is Some {
                assert forall|j: int|
                    0 <= j < pairs_of(text@).len() implies self.cache_has(
                    (#[trigger] pairs_of(text@)[j]).0,
                    params.size,
                ) by {
                    assert(self.cache_has(chars@[j], params.size));
                }
            }
        }
        r
    }

    /// Draws one character at the given running width (the scaled advance
    /// sum of what stands before it) and returns its scaled advance with
    /// its quad. Caches `(c, size)` if missing — an already-cached glyph
    /// leaves the state untouched — and fails only when the atlas cannot
    /// take it.
    pub fn draw_char(&mut self, c: char, current_width: i64, params: &TextParams) -> (r: Option<
        (i64, DrawCommand),
    >)
        requires
            old(self).wf(),
            old(self).models().len() > 0,
            -0x7fff_0000_8000_0000int <= current_width as int <= 0x7fff_0000_8000_0000int,
        ensures
            final(self).wf(),
            final(self).models() == old(self).models(),
            final(self).filter_mode() == old(self).filter_mode(),
            old(self).coherent() ==> final(self).coherent(),
            final(self).cache_seq().len() >= old(self).cache_seq().len(),
            forall|i: int|
                0 <= i < old(self).cache_seq().len()
                    ==> (#[trigger] final(self).cache_seq()[i]) == old(self).cache_seq()[i],
            final(self).atlas_slots().len() >= old(self).atlas_slots().len(),
            forall|i: int|
                0 <= i < old(self).atlas_slots().len()
                    ==> (#[trigger] final(self).atlas_slots()[i]).0
                    == old(self).atlas_slots()[i].0
                    && final(self).atlas_slots()[i].1.w == old(self).atlas_slots()[i].1.w
                    && final(self).atlas_slots()[i].1.h == old(self).atlas_slots()[i].1.h,
            final(self).atlas_fresh_id() >= old(self).atlas_fresh_id(),
            old(self).atlas_image().width <= final(self).atlas_image().width,
            old(self).atlas_image().height <= final(self).atlas_image().height,
            old(self).cache_has(c, params.size) ==> *final(self) == *old(self),
            match r {
                Some((adv, cmd)) => {
                    &&& final(self).cache_has(c, params.size)
                    &&& cmd.color == params.color
                    &&& old(self).coherent() ==> {
                        let g = glyph_raster(old(self).models(), c, params.size);
                        adv == g.advance * params.scale && cmd.w == packed_w(g) * params.scale
                            && cmd.h == packed_h(g) * params.scale && cmd.x == params.x
                            + current_width + g.xmin * params.scale && cmd.y == params.y - packed_h(
                            g,
                        ) * params.scale - g.ymin * params.scale + (
                        if params.draw == DrawFrom::TopLeft {
                            (params.size as int) * params.scale
                        } else {
                            0int
                        })
                    }
                },
                None => !pack_feasible(final(self).atlas_slots(), GLYPH_LIMIT, GLYPH_LIMIT)
                    || final(self).atlas_fresh_id() == u64::MAX,
            },
    {
        if !self.cache_glyph(c, params.size) {
            return None;
        }
        let (info, rect) = self.cached_glyph_box(c, params.size);
        proof {
            lemma_mul_range(info.advance as int, params.scale as int, 0x80000000int);
        }
        let cmd = char_command(info, rect, current_width, params.color, params);
        let adv = (info.advance as i64) * (params.scale as i64);
        Some((adv, cmd))
    }
}

/// The first index whose font contains the character, with none before it,
/// is what resolution returns.
proof fn lemma_resolve_found(models: Seq<FontModel>, c: char, k: int)
    requires
        0 <= k < models.len(),
        has_glyph(models[k].data, c),
        forall|j: int| 0 <= j < k ==> !has_glyph((#[trigger] models[j]).data, c),
    ensures
        resolve_at(models, c) == k,
        any_contains(models, c),
    decreases k,
{
    if k == 0 {
    } else {
        let rest = models.drop_first();
        assert(forall|j: int| 0 <= j < rest.len() ==> rest[j] == models[j + 1]);
        lemma_resolve_found(rest, c, k - 1);
    }
}

/// Slot ids are never reused: any cached glyph's slot id is below the id
/// the atlas will issue next, so whatever is packed later — including a
/// rebuilt entry for the same key — gets a strictly larger id.
pub proof fn lemma_cached_id_below_fresh(s: &Fonts, c: char, size: u16)
    requires
        s.wf(),
        s.cache_has(c, size),
    ensures
        s.cache_at(c, size).id < s.atlas_fresh_id(),
{
    let w = choose|w: int|
        0 <= w < s.cache_seq().len() && (#[trigger] s.cache_seq()[w]).c == c
            && s.cache_seq()[w].size == size;
    s.cache.lemma_entry_at_unique(c, size, w);
    assert(s.atlas.has_slot(s.cache_seq()[w].info.id));
    crate::atlas::lemma_slot_ids_below_fresh(&s.atlas, s.cache_seq()[w].info.id);
}

/// Computes the quad of one character: destination size is the packed
/// rectangle magnified by the scale; destination x is the running width
/// plus the scaled horizontal bearing from `params.x`; destination y
/// places the bitmap against the baseline at `params.y`, shifted down by
/// one scaled em when drawing from the top left.
fn char_command(
    info: CharacterInfo,
    rect: Rect,
    current_width: i64,
    color: Color,
    params: &TextParams,
) -> (cmd: DrawCommand)
    requires
        rect.w <= MAX_DIM,
        rect.h <= MAX_DIM,
        -0x7fff_0000_8000_0000int <= current_width as int <= 0x7fff_0000_8000_0000int,
    ensures
        cmd.color == color,
        cmd.source == rect,
        cmd.w == (rect.w as int) * (params.scale as int),
        cmd.h == (rect.h as int) * (params.scale as int),
        cmd.x == params.x + current_width + (info.offset_x as int) * (params.scale as int),
        cmd.y == params.y - (rect.h as int) * (params.scale as int) - (info.offset_y as int) * (
        params.scale as int) + (if params.draw == DrawFrom::TopLeft {
            (params.size as int) * (params.scale as int)
        } else {
            0int
        }),
{
    proof {
        lemma_mul_range(rect.w as int, params.scale as int, MAX_DIM as int);
        lemma_mul_range(rect.h as int, params.scale as int, MAX_DIM as int);
        lemma_mul_range(info.offset_x as int, params.scale as int, 0x80000000int);
        lemma_mul_range(info.offset_y as int, params.scale as int, 0x80000000int);
        lemma_mul_range(params.size as int, params.scale as int, 0xffffint);
    }
    let sc = params.scale as i64;
    let w = (rect.w as i64) * sc;
    let h = (rect.h as i64) * sc;
    let offx = (info.offset_x as i64) * sc;
    let offy = (info.offset_y as i64) * sc;
    let mut y: i64 = params.y as i64 - h - offy;
    if params.draw == DrawFrom::TopLeft {
        y = y + (params.size as i64) * sc;
    }
    let x = params.x as i64 + current_width + offx;
    DrawCommand { x, y, w, h, source: rect, color }
}

/// Compares two strings by their characters.
fn str_equal(a: &String, b: &String) -> (r: bool)
    ensures
        r == (a@ == b@),
{
    a.eq(b)
}

} // verus!
