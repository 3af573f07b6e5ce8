//! A dynamic texture atlas: one growing RGBA image packed with many small
//! glyph bitmaps.
//!
//! Bitmaps are placed with a shelf (row) strategy: each bitmap is put to the
//! right of the previous one on the current shelf; when the shelf runs out of
//! width a new shelf is started below it; when the image runs out of height
//! the image is doubled in size (up to [`MAX_DIM`]) and every packed bitmap
//! is repacked into the enlarged image. A packed bitmap is identified by a
//! slot id that stays valid, with its width and height unchanged, for the
//! whole life of the atlas: growth may only move a slot's rectangle.

use vstd::prelude::*;

use crate::color::ScalingMode;

verus! {

/// Pixel gap kept on every side of a packed bitmap, so that linear sampling
/// at the edge of a glyph never bleeds into a neighbouring one.
pub const GAP: u32 = 2;

/// Width and height of the image a fresh atlas starts with.
pub const INITIAL_DIM: u32 = 512;

/// The image never grows beyond this width or height.
pub const MAX_DIM: u32 = 16384;

/// A rectangle of whole pixels inside the atlas image.
#[derive(Debug, Copy, Clone, Eq, PartialEq, Structural)]
pub struct Rect {
    /// Left edge, in pixels from the left of the image.
    pub x: u32,
    /// Top edge, in pixels from the top of the image.
    pub y: u32,
    /// Width in pixels.
    pub w: u32,
    /// Height in pixels.
    pub h: u32,
}

/// An RGBA image: `bytes` holds 4 bytes per pixel, rows from the top.
#[derive(Debug, Clone)]
pub struct Image {
    /// Width in pixels.
    pub width: u32,
    /// Height in pixels.
    pub height: u32,
    /// Pixel data: `4 * width * height` bytes, row-major, RGBA per pixel.
    pub bytes: Vec<u8>,
}

/// Pixel `q` of the RGBA buffer is full-intensity white whose alpha is the
/// coverage byte.
pub open spec fn white_with_alpha(bytes: Seq<u8>, coverage: Seq<u8>, q: int) -> bool {
    &&& bytes[4 * q] == 255
    &&& bytes[4 * q + 1] == 255
    &&& bytes[4 * q + 2] == 255
    &&& bytes[4 * q + 3] == coverage[q]
}

impl Image {
    /// The byte buffer holds exactly four bytes for every pixel.
    pub open spec fn wf(&self) -> bool {
        self.bytes@.len() == 4 * ((self.width as int) * (self.height as int))
    }

    /// The four RGBA bytes of the pixel at column `i`, row `j`.
    pub open spec fn pix(&self, i: int, j: int) -> Seq<u8> {
        self.bytes@.subrange(4 * (j * self.width + i), 4 * (j * self.width + i) + 4)
    }

    /// A fully transparent image of the given dimensions.
    pub fn transparent(width: u32, height: u32) -> (im: Image)
        requires
            4 * ((width as int) * (height as int)) <= usize::MAX,
        ensures
            im.wf(),
            im.width == width,
            im.height == height,
            forall|k: int| 0 <= k < im.bytes@.len() ==> im.bytes@[k] == 0u8,
    {
        let area: usize = (width as usize) * (height as usize);
        let len: usize = 4 * area;
        let mut bytes: Vec<u8> = Vec::new();
        bytes.resize(len, 0u8);
        Image { width, height, bytes }
    }

    /// Overwrites the pixel at column `x`, row `y` with the RGBA value `px`.
    pub fn set_pixel(&mut self, x: u32, y: u32, px: (u8, u8, u8, u8))
        requires
            old(self).wf(),
            x < old(self).width,
            y < old(self).height,
        ensures
            final(self).wf(),
            final(self).width == old(self).width,
            final(self).height == old(self).height,
            final(self).pix(x as int, y as int) == seq![px.0, px.1, px.2, px.3],
            forall|i: int, j: int|
                0 <= i < old(self).width && 0 <= j < old(self).height && !(i == x && j == y)
                    ==> final(self).pix(i, j) == old(self).pix(i, j),
    {
        let idx: usize = pix_base(self, x, y);
        self.bytes[idx] = px.0;
        self.bytes[idx + 1] = px.1;
        self.bytes[idx + 2] = px.2;
        self.bytes[idx + 3] = px.3;
        proof {
            assert(self.pix(x as int, y as int) =~= seq![px.0, px.1, px.2, px.3]);
            assert forall|i: int, j: int|
                0 <= i < self.width && 0 <= j < self.height && !(i == x && j == y)
                    implies self.pix(i, j) == old(self).pix(i, j) by {
                lemma_pixel_index_injective(self.width as int, i, j, x as int, y as int);
                lemma_pixel_cell_bound(self.width as int, self.height as int, i, j);
                assert(self.pix(i, j) =~= old(self).pix(i, j));
            }
        }
    }

    /// Reads the RGBA value of the pixel at column `x`, row `y`.
    pub fn get_pixel(&self, x: u32, y: u32) -> (px: (u8, u8, u8, u8))
        requires
            self.wf(),
            x < self.width,
            y < self.height,
        ensures
            seq![px.0, px.1, px.2, px.3] == self.pix(x as int, y as int),
    {
        let idx: usize = pix_base(self, x, y);
        let px = (self.bytes[idx], self.bytes[idx + 1], self.bytes[idx + 2], self.bytes[idx + 3]);
        proof {
            assert(seq![px.0, px.1, px.2, px.3] =~= self.pix(x as int, y as int));
        }
        px
    }

    /// Turns a one-byte-per-pixel coverage bitmap into an RGBA image:
    /// every pixel is full-intensity white whose alpha is its coverage, so
    /// that a draw-time tint color fully controls the final color.
    pub fn from_coverage(width: u32, height: u32, coverage: &Vec<u8>) -> (im: Image)
        requires
            coverage@.len() == (width as int) * (height as int),
        ensures
            im.wf(),
            im.width == width,
            im.height == height,
            forall|p: int|
                0 <= p < coverage@.len() ==> #[trigger] white_with_alpha(
                    im.bytes@,
                    coverage@,
                    p,
                ),
    {
        let mut bytes: Vec<u8> = Vec::new();
        let mut p: usize = 0;
        while p < coverage.len()
            invariant
                p <= coverage@.len(),
                bytes@.len() == 4 * p,
                forall|q: int| 0 <= q < p ==> #[trigger] white_with_alpha(bytes@, coverage@, q),
            decreases coverage@.len() - p,
        {
            let cv = coverage[p];
            let ghost prev = bytes@;
            bytes.push(255);
            bytes.push(255);
            bytes.push(255);
            bytes.push(cv);
            proof {
                assert forall|q: int|
                    0 <= q < p + 1 implies #[trigger] white_with_alpha(
                    bytes@,
                    coverage@,
                    q,
                ) by {
                    if q == p as int {
                        assert(bytes@[4 * q] == 255);
                        assert(bytes@[4 * q + 1] == 255);
                        assert(bytes@[4 * q + 2] == 255);
                        assert(bytes@[4 * q + 3] == cv);
                    } else {
                        assert(white_with_alpha(prev, coverage@, q));
                        assert(4 * q + 3 < prev.len());
                        assert(bytes@[4 * q] == prev[4 * q]);
                        assert(bytes@[4 * q + 1] == prev[4 * q + 1]);
                        assert(bytes@[4 * q + 2] == prev[4 * q + 2]);
                        assert(bytes@[4 * q + 3] == prev[4 * q + 3]);
                    }
                }
            }
            p = p + 1;
        }
        Image { width, height, bytes }
    }
}

/// Byte index of the first of the four bytes of the pixel at `(x, y)`.
fn pix_base(im: &Image, x: u32, y: u32) -> (idx: usize)
    requires
        im.wf(),
        x < im.width,
        y < im.height,
    ensures
        idx == 4 * ((y as int) * (im.width as int) + (x as int)),
        idx + 4 <= im.bytes@.len(),
{
    let n: usize = im.bytes.len();
    proof {
        lemma_pixel_cell_bound(im.width as int, im.height as int, x as int, y as int);
        assert(4 * ((y as int) * (im.width as int) + (x as int)) + 4 <= n);
    }
    4 * ((y as usize) * (im.width as usize) + (x as usize))
}

/// Distinct pixel coordinates have distinct cell numbers `j * w + i`.
proof fn lemma_pixel_index_injective(w: int, i1: int, j1: int, i2: int, j2: int)
    requires
        0 <= i1 < w,
        0 <= i2 < w,
        0 <= j1,
        0 <= j2,
        !(i1 == i2 && j1 == j2),
    ensures
        j1 * w + i1 != j2 * w + i2,
{
    if j1 != j2 {
        assert(j1 * w + i1 != j2 * w + i2) by (nonlinear_arith)
            requires
                0 <= i1 < w,
                0 <= i2 < w,
                j1 != j2,
        ;
    }
}

/// The cell number of an in-bounds pixel is below `w * h`.
proof fn lemma_pixel_cell_bound(w: int, h: int, i: int, j: int)
    requires
        0 <= i < w,
        0 <= j < h,
    ensures
        0 <= j * w,
        j * w + i < w * h,
        4 * (j * w + i) + 4 <= 4 * (w * h),
{
    assert(j * w + i < w * h) by (nonlinear_arith)
        requires 0 <= i < w, 0 <= j < h;
    assert(j * w >= 0) by (nonlinear_arith)
        requires j >= 0, w > 0;
}

/// A buffer whose pixels are all white-with-coverage-alpha reads, pixel
/// by pixel, as the four bytes of that broadcast.
pub proof fn lemma_white_pix(im: Image, cov: Seq<u8>, i: int, j: int)
    requires
        im.wf(),
        cov.len() == (im.width as int) * (im.height as int),
        forall|p: int| 0 <= p < cov.len() ==> #[trigger] white_with_alpha(im.bytes@, cov, p),
        0 <= i < im.width,
        0 <= j < im.height,
    ensures
        im.pix(i, j) == seq![255u8, 255u8, 255u8, cov[j * im.width + i]],
{
    lemma_pixel_cell_bound(im.width as int, im.height as int, i, j);
    assert(white_with_alpha(im.bytes@, cov, j * im.width + i));
    assert(im.pix(i, j) =~= seq![255u8, 255u8, 255u8, cov[j * im.width + i]]);
}

/// Copies `src` into `dst` so that the top-left corner of `src` lands on
/// pixel `(x, y)` of `dst`. Pixels of `dst` outside that region keep their
/// value.
pub fn copy_into(dst: &mut Image, x: u32, y: u32, src: &Image)
    requires
        old(dst).wf(),
        src.wf(),
        x + src.width <= old(dst).width,
        y + src.height <= old(dst).height,
    ensures
        final(dst).wf(),
        final(dst).width == old(dst).width,
        final(dst).height == old(dst).height,
        forall|i: int, j: int|
            0 <= i < src.width && 0 <= j < src.height
                ==> final(dst).pix(x + i, y + j) == src.pix(i, j),
        forall|i: int, j: int|
            0 <= i < old(dst).width && 0 <= j < old(dst).height
                && !(x <= i < x + src.width && y <= j < y + src.height)
                ==> final(dst).pix(i, j) == old(dst).pix(i, j),
{
    let mut row: u32 = 0;
    while row < src.height
        invariant
            dst.wf(),
            src.wf(),
            row <= src.height,
            x + src.width <= dst.width,
            y + src.height <= dst.height,
            dst.width == old(dst).width,
            dst.height == old(dst).height,
            forall|i: int, j: int|
                0 <= i < src.width && 0 <= j < row
                    ==> dst.pix(x + i, y + j) == src.pix(i, j),
            forall|i: int, j: int|
                0 <= i < dst.width && 0 <= j < dst.height
                    && !(x <= i < x + src.width && y <= j < y + row)
                    ==> dst.pix(i, j) == old(dst).pix(i, j),
        decreases src.height - row,
    {
        let mut col: u32 = 0;
        while col < src.width
            invariant
                dst.wf(),
                src.wf(),
                row < src.height,
                col <= src.width,
                x + src.width <= dst.width,
                y + src.height <= dst.height,
                dst.width == old(dst).width,
                dst.height == old(dst).height,
                forall|i: int, j: int|
                    0 <= i < src.width && 0 <= j < row
                        ==> dst.pix(x + i, y + j) == src.pix(i, j),
                forall|i: int| 0 <= i < col ==> dst.pix(x + i, y + row) == src.pix(i, row as int),
                forall|i: int, j: int|
                    0 <= i < dst.width && 0 <= j < dst.height
                        && !(x <= i < x + src.width && y <= j < y + row)
                        && !(x <= i < x + col && j == y + row)
                        ==> dst.pix(i, j) == old(dst).pix(i, j),
            decreases src.width - col,
        {
            let px = src.get_pixel(col, row);
            dst.set_pixel(x + col, y + row, px);
            col = col + 1;
        }
        row = row + 1;
    }
}

/// Extracts a copy of the `r` region of `src` as its own image.
pub fn sub_image(src: &Image, r: Rect) -> (im: Image)
    requires
        src.wf(),
        r.x + r.w <= src.width,
        r.y + r.h <= src.height,
    ensures
        im.wf(),
        im.width == r.w,
        im.height == r.h,
        forall|i: int, j: int|
            0 <= i < r.w && 0 <= j < r.h ==> im.pix(i, j) == src.pix(r.x + i, r.y + j),
{
    let n: usize = src.bytes.len();
    proof {
        lemma_mul_le(r.w as int, r.h as int, src.width as int, src.height as int);
        assert(4 * ((r.w as int) * (r.h as int)) <= n);
    }
    let mut im = Image::transparent(r.w, r.h);
    let mut row: u32 = 0;
    while row < r.h
        invariant
            im.wf(),
            src.wf(),
            im.width == r.w,
            im.height == r.h,
            row <= r.h,
            r.x + r.w <= src.width,
            r.y + r.h <= src.height,
            forall|i: int, j: int|
                0 <= i < r.w && 0 <= j < row ==> im.pix(i, j) == src.pix(r.x + i, r.y + j),
        decreases r.h - row,
    {
        let mut col: u32 = 0;
        while col < r.w
            invariant
                im.wf(),
                src.wf(),
                im.width == r.w,
                im.height == r.h,
                row < r.h,
                col <= r.w,
                r.x + r.w <= src.width,
                r.y + r.h <= src.height,
                forall|i: int, j: int|
                    0 <= i < r.w && 0 <= j < row ==> im.pix(i, j) == src.pix(r.x + i, r.y + j),
                forall|i: int|
                    0 <= i < col ==> im.pix(i, row as int) == src.pix(r.x + i, r.y + row),
            decreases r.w - col,
        {
            let px = src.get_pixel(r.x + col, r.y + row);
            im.set_pixel(col, row, px);
            col = col + 1;
        }
        row = row + 1;
    }
    im
}

/// If `a <= c` and `b <= d` (all non-negative), then `a * b <= c * d`.
proof fn lemma_mul_le(a: int, b: int, c: int, d: int)
    requires
        0 <= a <= c,
        0 <= b <= d,
    ensures
        a * b <= c * d,
{
    assert(a * b <= c * d) by (nonlinear_arith)
        requires
            0 <= a <= c,
            0 <= b <= d,
    ;
}

/// Cursor state of the shelf packer: the current shelf starts at row `y`,
/// is `line_h` rows tall so far, and is filled up to column `x`.
#[derive(Debug, Copy, Clone, Eq, PartialEq, Structural)]
pub(crate) struct Shelf {
    pub(crate) x: u32,
    pub(crate) y: u32,
    pub(crate) line_h: u32,
}

/// The shelf cursor stays inside a `w` x `h` image.
pub(crate) open spec fn shelf_ok(s: Shelf, w: u32, h: u32) -> bool {
    &&& s.x <= w
    &&& s.y + s.line_h <= h
}

/// The rectangle lies inside a `w` x `h` image.
pub open spec fn rect_in(r: Rect, w: u32, h: u32) -> bool {
    &&& r.x + r.w <= w
    &&& r.y + r.h <= h
}

/// The rectangles overlap in no pixel.
pub open spec fn rects_disjoint(a: Rect, b: Rect) -> bool {
    ||| a.x + a.w <= b.x
    ||| b.x + b.w <= a.x
    ||| a.y + a.h <= b.y
    ||| b.y + b.h <= a.y
}

/// The rectangle in `dst` holds exactly the pixels of `src`.
pub open spec fn region_holds(dst: Image, r: Rect, src: Image) -> bool {
    &&& r.w == src.width
    &&& r.h == src.height
    &&& forall|i: int, j: int|
        0 <= i < r.w && 0 <= j < r.h ==> #[trigger] dst.pix(r.x + i, r.y + j) == src.pix(i, j)
}

/// The rectangle `nr` in `dst` holds exactly what the rectangle `or` in
/// `src` held.
pub open spec fn region_copied(dst: Image, nr: Rect, src: Image, or: Rect) -> bool {
    &&& nr.w == or.w
    &&& nr.h == or.h
    &&& forall|i: int, j: int|
        0 <= i < nr.w && 0 <= j < nr.h ==> #[trigger] dst.pix(nr.x + i, nr.y + j) == src.pix(
            or.x + i,
            or.y + j,
        )
}

/// The rectangle is accounted for by the shelf cursor: it lies on a
/// finished shelf above the current one, or on the current shelf left of
/// the cursor, with its gap. A later placement can then never overlap it.
pub(crate) open spec fn rect_done(r: Rect, s: Shelf) -> bool {
    ||| r.y + r.h + GAP <= s.y
    ||| (r.y >= s.y && r.y + r.h + GAP <= s.y + s.line_h && r.x + r.w + GAP <= s.x)
}

/// How a successful placement relates the old shelf cursor, the new one
/// and the placed rectangle: on the current shelf (first case) or on a
/// fresh shelf directly below it (second case).
pub(crate) open spec fn place_ok(s: Shelf, s2: Shelf, r: Rect) -> bool {
    ||| (s2.y == s.y && s.line_h <= s2.line_h && r.x == s.x + GAP && r.y == s.y + GAP && r.h + 2
        * GAP <= s2.line_h && s2.x == s.x + r.w + 2 * GAP)
    ||| (s2.y == s.y + s.line_h && r.x == GAP && r.y == s2.y + GAP && s2.line_h == r.h + 2 * GAP
        && s2.x == r.w + 2 * GAP)
}

/// A placement keeps every accounted rectangle accounted, and disjoint
/// from the placed one.
pub(crate) proof fn lemma_place_keeps(s: Shelf, s2: Shelf, nr: Rect, r: Rect)
    requires
        place_ok(s, s2, nr),
        rect_done(r, s),
    ensures
        rect_done(r, s2),
        rects_disjoint(r, nr),
{
}

/// A placement accounts for the placed rectangle under the new cursor.
pub(crate) proof fn lemma_place_done(s: Shelf, s2: Shelf, nr: Rect)
    requires
        place_ok(s, s2, nr),
    ensures
        rect_done(nr, s2),
{
}

/// Rows a shelf packer needs, in the worst case of one bitmap per shelf:
/// the sum over the packed rectangles of their height plus the gap above
/// and below.
pub open spec fn shelf_demand(s: Seq<(u64, Rect)>) -> int
    decreases s.len(),
{
    if s.len() == 0 {
        0
    } else {
        shelf_demand(s.drop_last()) + s.last().1.h + 2 * GAP
    }
}

/// A `w0` x `h0` bitmap and the already-packed rectangles `s` are sure to
/// fit in a fresh `w` x `h` image: every bitmap fits a shelf of its own.
pub open spec fn repack_fits(s: Seq<(u64, Rect)>, w0: u32, h0: u32, w: u32, h: u32) -> bool {
    &&& forall|i: int| 0 <= i < s.len() ==> (#[trigger] s[i].1.w) + 2 * GAP <= w
    &&& w0 + 2 * GAP <= w
    &&& shelf_demand(s) + h0 + 2 * GAP <= h
}

/// A `w0` x `h0` bitmap still fits this atlas at its maximum image size.
pub open spec fn pack_feasible(s: Seq<(u64, Rect)>, w0: u32, h0: u32) -> bool {
    repack_fits(s, w0, h0, MAX_DIM, MAX_DIM)
}

proof fn lemma_demand_nonneg(s: Seq<(u64, Rect)>)
    ensures
        shelf_demand(s) >= 0,
    decreases s.len(),
{
    if s.len() > 0 {
        lemma_demand_nonneg(s.drop_last());
    }
}

proof fn lemma_demand_take_step(s: Seq<(u64, Rect)>, k: int)
    requires
        0 <= k < s.len(),
    ensures
        shelf_demand(s.take(k + 1)) == shelf_demand(s.take(k)) + s[k].1.h + 2 * GAP,
{
    assert(s.take(k + 1).drop_last() =~= s.take(k));
    assert(s.take(k + 1).last() == s[k]);
}

proof fn lemma_demand_take_le(s: Seq<(u64, Rect)>, k: int)
    requires
        0 <= k <= s.len(),
    ensures
        shelf_demand(s.take(k)) <= shelf_demand(s),
    decreases s.len() - k,
{
    if k == s.len() {
        assert(s.take(k) =~= s);
    } else {
        lemma_demand_take_step(s, k);
        lemma_demand_take_le(s, k + 1);
    }
}

/// Tries to place a `w0` x `h0` bitmap at the shelf cursor `s` of a
/// `tex_w` x `tex_h` image: first on the current shelf, else on a fresh
/// shelf below it. Fails only when a fresh shelf cannot take the bitmap.
fn shelf_place(s: Shelf, w0: u32, h0: u32, tex_w: u32, tex_h: u32) -> (r: Option<(Rect, Shelf)>)
    requires
        shelf_ok(s, tex_w, tex_h),
        tex_w <= MAX_DIM,
        tex_h <= MAX_DIM,
        w0 <= MAX_DIM,
        h0 <= MAX_DIM,
    ensures
        match r {
            Some((rect, s2)) => {
                &&& rect.w == w0
                &&& rect.h == h0
                &&& rect_in(rect, tex_w, tex_h)
                &&& shelf_ok(s2, tex_w, tex_h)
                &&& place_ok(s, s2, rect)
                &&& s2.y + s2.line_h <= s.y + s.line_h + h0 + 2 * GAP
            },
            None => w0 + 2 * GAP > tex_w || s.y + s.line_h + h0 + 2 * GAP > tex_h,
        },
{
    let needed_h: u32 = h0 + 2 * GAP;
    let grown_line: u32 = if needed_h > s.line_h {
        needed_h
    } else {
        s.line_h
    };
    if s.x + w0 + 2 * GAP <= tex_w && s.y + grown_line <= tex_h {
        let rect = Rect { x: s.x + GAP, y: s.y + GAP, w: w0, h: h0 };
        let s2 = Shelf { x: s.x + w0 + 2 * GAP, y: s.y, line_h: grown_line };
        Some((rect, s2))
    } else if w0 + 2 * GAP <= tex_w && s.y + s.line_h + needed_h <= tex_h {
        let rect = Rect { x: GAP, y: s.y + s.line_h + GAP, w: w0, h: h0 };
        let s2 = Shelf { x: w0 + 2 * GAP, y: s.y + s.line_h, line_h: needed_h };
        Some((rect, s2))
    } else {
        None
    }
}

/// Slot ids are strictly increasing along the table.
pub open spec fn ids_increasing(s: Seq<(u64, Rect)>) -> bool {
    forall|i1: int, i2: int|
        0 <= i1 < i2 < s.len() ==> (#[trigger] s[i1]).0 < (#[trigger] s[i2]).0
}

/// Some slot of the table carries the id.
pub open spec fn slot_id_in(s: Seq<(u64, Rect)>, id: u64) -> bool {
    exists|i: int| 0 <= i < s.len() && (#[trigger] s[i]).0 == id
}

/// The rectangle of the slot with the id, if the id is in the table.
pub open spec fn rect_of_slot(s: Seq<(u64, Rect)>, id: u64) -> Rect {
    s[choose|i: int| 0 <= i < s.len() && (#[trigger] s[i]).0 == id].1
}

/// In a table with strictly increasing slot ids, the position holding an id
/// determines the slot's rectangle.
pub proof fn lemma_rect_of_slot_at(s: Seq<(u64, Rect)>, id: u64, i: int)
    requires
        ids_increasing(s),
        0 <= i < s.len(),
        s[i].0 == id,
    ensures
        slot_id_in(s, id),
        rect_of_slot(s, id) == s[i].1,
{
    assert(slot_id_in(s, id));
    let w = choose|k: int| 0 <= k < s.len() && (#[trigger] s[k]).0 == id;
    if w != i {
        if w < i {
            assert(s[w].0 < s[i].0);
        } else {
            assert(s[i].0 < s[w].0);
        }
    }
}

/// A growing shelf-packed texture atlas.
///
/// The atlas owns one RGBA image and a table from slot id to the rectangle
/// the slot's bitmap occupies. Ids are issued in increasing order and are
/// never reused; a slot's width and height never change, though a growth
/// event may move its rectangle.
#[derive(Debug)]
pub struct Atlas {
    pub(crate) image: Image,
    pub(crate) slots: Vec<(u64, Rect)>,
    pub(crate) shelf: Shelf,
    pub(crate) next_id: u64,
    pub(crate) dirty: bool,
    pub(crate) filter: ScalingMode,
}

impl Atlas {
    /// The packed slots, in the order their ids were issued.
    pub closed spec fn slot_seq(&self) -> Seq<(u64, Rect)> {
        self.slots@
    }

    /// The id the next successful [`Atlas::pack`] call will issue.
    pub closed spec fn fresh_slot_id(&self) -> u64 {
        self.next_id
    }

    /// Width of the atlas image, in pixels.
    pub closed spec fn img_width(&self) -> u32 {
        self.image.width
    }

    /// Height of the atlas image, in pixels.
    pub closed spec fn img_height(&self) -> u32 {
        self.image.height
    }

    /// The texture-sampling filter the atlas was created with.
    pub closed spec fn filter_mode(&self) -> ScalingMode {
        self.filter
    }

    /// The atlas image: every packed bitmap's pixels live in it.
    pub closed spec fn image_view(&self) -> Image {
        self.image
    }

    /// Whether the image changed since the last [`Atlas::take_dirty`].
    pub closed spec fn is_dirty(&self) -> bool {
        self.dirty
    }

    /// Some slot carries the id.
    pub open spec fn has_slot(&self, id: u64) -> bool {
        slot_id_in(self.slot_seq(), id)
    }

    /// The rectangle of the slot with the id, if the id was issued.
    pub open spec fn slot_rect(&self, id: u64) -> Rect {
        rect_of_slot(self.slot_seq(), id)
    }

    /// Internal consistency: the image holds four bytes per pixel and stays
    /// between the initial and the maximal dimensions; the shelf cursor and
    /// every slot rectangle lie inside it; slot ids are strictly increasing
    /// and below the next fresh id.
    pub closed spec fn wf(&self) -> bool {
        &&& self.image.wf()
        &&& INITIAL_DIM <= self.image.width <= MAX_DIM
        &&& INITIAL_DIM <= self.image.height <= MAX_DIM
        &&& shelf_ok(self.shelf, self.image.width, self.image.height)
        &&& forall|i: int|
            0 <= i < self.slots@.len() ==> rect_in(
                (#[trigger] self.slots@[i]).1,
                self.image.width,
                self.image.height,
            )
        &&& forall|i: int|
            0 <= i < self.slots@.len() ==> rect_done((#[trigger] self.slots@[i]).1, self.shelf)
        &&& ids_increasing(self.slots@)
        &&& forall|i: int| 0 <= i < self.slots@.len() ==> (#[trigger] self.slots@[i]).0 < self.next_id
        &&& self.next_id >= 1
    }

    /// A fresh atlas: an all-transparent initial image, no slots, the given
    /// sampling filter.
    pub fn new(filter: ScalingMode) -> (a: Atlas)
        ensures
            a.wf(),
            a.slot_seq().len() == 0,
            a.fresh_slot_id() == 1,
            a.img_width() == INITIAL_DIM,
            a.img_height() == INITIAL_DIM,
            a.filter_mode() == filter,
            !a.is_dirty(),
            ids_increasing(a.slot_seq()),
    {
        Atlas {
            image: Image::transparent(INITIAL_DIM, INITIAL_DIM),
            slots: Vec::new(),
            shelf: Shelf { x: 0, y: 0, line_h: 0 },
            next_id: 1,
            dirty: false,
            filter: filter,
        }
    }

    /// The rectangle the slot's bitmap occupies in the atlas image, stable
    /// until a growth event moves it and in size for the atlas's lifetime.
    pub fn get(&self, id: u64) -> (r: Option<Rect>)
        requires
            self.wf(),
        ensures
            match r {
                Some(rect) => {
                    &&& self.has_slot(id)
                    &&& rect == self.slot_rect(id)
                    &&& rect.x + rect.w <= self.img_width()
                    &&& rect.y + rect.h <= self.img_height()
                    &&& self.img_width() <= MAX_DIM
                    &&& self.img_height() <= MAX_DIM
                },
                None => !self.has_slot(id),
            },
    {
        let mut k: usize = 0;
        while k < self.slots.len()
            invariant
                self.wf(),
                k <= self.slots@.len(),
                forall|i: int| 0 <= i < k ==> (#[trigger] self.slots@[i]).0 != id,
            decreases self.slots@.len() - k,
        {
            let (sid, rect) = self.slots[k];
            if sid == id {
                proof {
                    lemma_rect_of_slot_at(self.slot_seq(), id, k as int);
                }
                return Some(rect);
            }
            k = k + 1;
        }
        None
    }

    /// The texture-sampling filter the atlas was created with, for a
    /// rendering backend to apply to the texture.
    pub fn filter(&self) -> (m: ScalingMode)
        ensures
            m == self.filter_mode(),
    {
        self.filter
    }

    /// A read-only view of the atlas image, for uploading to a texture.
    pub fn image(&self) -> (im: &Image)
        ensures
            *im == self.image_view(),
            im.width == self.img_width(),
            im.height == self.img_height(),
            im.wf() <== self.wf(),
    {
        &self.image
    }

    /// Reports whether the image changed since the last call, and resets the
    /// flag: a rendering backend re-uploads the image exactly when this
    /// returns true.
    pub fn take_dirty(&mut self) -> (was: bool)
        ensures
            was == old(self).is_dirty(),
            !final(self).is_dirty(),
            old(self).wf() ==> final(self).wf(),
            final(self).image_view() == old(self).image_view(),
            final(self).slot_seq() == old(self).slot_seq(),
            final(self).fresh_slot_id() == old(self).fresh_slot_id(),
            final(self).img_width() == old(self).img_width(),
            final(self).img_height() == old(self).img_height(),
            final(self).filter_mode() == old(self).filter_mode(),
    {
        let was = self.dirty;
        self.dirty = false;
        was
    }

    /// Packs the bitmap into the atlas and returns its fresh slot id.
    ///
    /// The bitmap is placed on the current shelf, or a new shelf, of the
    /// current image when it fits; otherwise the image is doubled (up to
    /// [`MAX_DIM`] per side) and every packed bitmap is repacked into the
    /// enlarged image before the new one is placed. Every already-issued
    /// slot keeps its id, width and height across the call, and its
    /// rectangle keeps the pixels that were packed under it; only a growth
    /// event may move a slot's rectangle. The new slot's rectangle holds
    /// exactly the bitmap's pixels. Packing fails only when even the
    /// maximal image cannot hold everything, in which case the atlas is
    /// left unchanged.
    pub fn pack(&mut self, img: &Image) -> (r: Option<u64>)
        requires
            old(self).wf(),
            img.wf(),
            img.width <= MAX_DIM,
            img.height <= MAX_DIM,
        ensures
            final(self).wf(),
            final(self).filter_mode() == old(self).filter_mode(),
            old(self).img_width() <= final(self).img_width(),
            old(self).img_height() <= final(self).img_height(),
            old(self).image_view().width <= final(self).image_view().width,
            old(self).image_view().height <= final(self).image_view().height,
            match r {
                Some(id) => {
                    &&& final(self).is_dirty()
                    &&& id == old(self).fresh_slot_id()
                    &&& final(self).fresh_slot_id() == old(self).fresh_slot_id() + 1
                    &&& final(self).slot_seq().len() == old(self).slot_seq().len() + 1
                    &&& forall|i: int|
                        0 <= i < old(self).slot_seq().len() ==> {
                            &&& (#[trigger] final(self).slot_seq()[i]).0 == old(
                                self,
                            ).slot_seq()[i].0
                            &&& final(self).slot_seq()[i].1.w == old(self).slot_seq()[i].1.w
                            &&& final(self).slot_seq()[i].1.h == old(self).slot_seq()[i].1.h
                        }
                    &&& final(self).slot_seq().last().0 == id
                    &&& final(self).slot_seq().last().1.w == img.width
                    &&& final(self).slot_seq().last().1.h == img.height
                    &&& ids_increasing(final(self).slot_seq())
                    &&& region_holds(
                        final(self).image_view(),
                        final(self).slot_seq().last().1,
                        *img,
                    )
                    &&& forall|i: int|
                        0 <= i < old(self).slot_seq().len() ==> region_copied(
                            final(self).image_view(),
                            (#[trigger] final(self).slot_seq()[i]).1,
                            old(self).image_view(),
                            old(self).slot_seq()[i].1,
                        )
                },
                None => *final(self) == *old(self),
            },
            pack_feasible(old(self).slot_seq(), img.width, img.height)
                && old(self).fresh_slot_id() < u64::MAX ==> r is Some,
    {
        if self.next_id == u64::MAX {
            return None;
        }
        let id = self.next_id;
        match shelf_place(self.shelf, img.width, img.height, self.image.width, self.image.height) {
            Some((rect, s2)) => {
                proof {
                    assert forall|i: int|
                        0 <= i < old(self).slot_seq().len() implies rect_done(
                        (#[trigger] old(self).slot_seq()[i]).1,
                        s2,
                    ) && rects_disjoint(old(self).slot_seq()[i].1, rect) by {
                        lemma_place_keeps(self.shelf, s2, rect, old(self).slot_seq()[i].1);
                    }
                    lemma_place_done(self.shelf, s2, rect);
                }
                copy_into(&mut self.image, rect.x, rect.y, img);
                self.slots.push((id, rect));
                self.shelf = s2;
                self.next_id = id + 1;
                self.dirty = true;
                proof {
                    assert(region_holds(self.image, rect, *img));
                    assert forall|i: int|
                        0 <= i < old(self).slot_seq().len() implies region_copied(
                        self.image,
                        (#[trigger] self.slot_seq()[i]).1,
                        old(self).image_view(),
                        old(self).slot_seq()[i].1,
                    ) by {
                        let r = old(self).slot_seq()[i].1;
                        assert(self.slot_seq()[i].1 == r);
                        assert(rects_disjoint(r, rect));
                        assert forall|a: int, b: int|
                            0 <= a < r.w && 0 <= b < r.h implies #[trigger] self.image.pix(
                            r.x + a,
                            r.y + b,
                        ) == old(self).image.pix(r.x + a, r.y + b) by {
                            assert(rect_in(r, old(self).image.width, old(self).image.height));
                        }
                        assert(region_copied(self.image, r, old(self).image_view(), r));
                    }
                }
                return Some(id);
            },
            None => {},
        }
        let mut w: u32 = self.image.width;
        let mut h: u32 = self.image.height;
        loop
            invariant
                *self == *old(self),
                self.wf(),
                img.wf(),
                img.width <= MAX_DIM,
                img.height <= MAX_DIM,
                id == self.next_id,
                id < u64::MAX,
                self.image.width <= w <= MAX_DIM,
                self.image.height <= h <= MAX_DIM,
            decreases (MAX_DIM - w) + (MAX_DIM - h),
        {
            let w2: u32 = if w >= MAX_DIM / 2 {
                MAX_DIM
            } else {
                w * 2
            };
            let h2: u32 = if h >= MAX_DIM / 2 {
                MAX_DIM
            } else {
                h * 2
            };
            match try_repack(w2, h2, &self.image, &self.slots, img) {
                Some((new_image, mut new_slots, s2, rect)) => {
                    let ghost ns = new_slots@;
                    new_slots.push((id, rect));
                    self.image = new_image;
                    self.slots = new_slots;
                    self.shelf = s2;
                    self.next_id = id + 1;
                    self.dirty = true;
                    proof {
                        assert forall|i: int|
                            0 <= i < old(self).slot_seq().len() implies region_copied(
                            self.image,
                            (#[trigger] self.slot_seq()[i]).1,
                            old(self).image_view(),
                            old(self).slot_seq()[i].1,
                        ) by {
                            assert(self.slot_seq()[i] == ns[i]);
                            assert(region_copied(
                                self.image,
                                ns[i].1,
                                old(self).image_view(),
                                old(self).slot_seq()[i].1,
                            ));
                        }
                    }
                    return Some(id);
                },
                None => {
                    if w2 == MAX_DIM && h2 == MAX_DIM {
                        return None;
                    }
                    w = w2;
                    h = h2;
                },
            }
        }
    }
}

/// Packs all of `slots` (copied out of `old_img`), then the `extra` bitmap,
/// into a fresh transparent `new_w` x `new_h` image. Returns the new image,
/// the repacked slots (same ids, same sizes, same order) and the rectangle
/// given to `extra`; fails, leaving nothing changed, only when even a
/// one-bitmap-per-shelf layout cannot fit.
fn try_repack(new_w: u32, new_h: u32, old_img: &Image, slots: &Vec<(u64, Rect)>, extra: &Image) -> (r:
    Option<(Image, Vec<(u64, Rect)>, Shelf, Rect)>)
    requires
        old_img.wf(),
        old_img.width <= MAX_DIM,
        old_img.height <= MAX_DIM,
        forall|i: int|
            0 <= i < slots@.len() ==> rect_in(
                (#[trigger] slots@[i]).1,
                old_img.width,
                old_img.height,
            ),
        INITIAL_DIM <= new_w <= MAX_DIM,
        INITIAL_DIM <= new_h <= MAX_DIM,
        extra.wf(),
        extra.width <= MAX_DIM,
        extra.height <= MAX_DIM,
    ensures
        match r {
            Some((im, ns, sh, rect)) => {
                &&& im.wf()
                &&& im.width == new_w
                &&& im.height == new_h
                &&& ns@.len() == slots@.len()
                &&& forall|i: int|
                    0 <= i < slots@.len() ==> {
                        &&& (#[trigger] ns@[i]).0 == slots@[i].0
                        &&& ns@[i].1.w == slots@[i].1.w
                        &&& ns@[i].1.h == slots@[i].1.h
                        &&& rect_in(ns@[i].1, new_w, new_h)
                    }
                &&& rect.w == extra.width
                &&& rect.h == extra.height
                &&& rect_in(rect, new_w, new_h)
                &&& shelf_ok(sh, new_w, new_h)
                &&& forall|i: int|
                    0 <= i < ns@.len() ==> rect_done((#[trigger] ns@[i]).1, sh)
                &&& rect_done(rect, sh)
                &&& forall|i: int|
                    0 <= i < slots@.len() ==> region_copied(
                        im,
                        (#[trigger] ns@[i]).1,
                        *old_img,
                        slots@[i].1,
                    )
                &&& region_holds(im, rect, *extra)
            },
            None => !repack_fits(slots@, extra.width, extra.height, new_w, new_h),
        },
{
    proof {
        lemma_mul_le(new_w as int, new_h as int, MAX_DIM as int, MAX_DIM as int);
    }
    let mut im = Image::transparent(new_w, new_h);
    let mut sh = Shelf { x: 0, y: 0, line_h: 0 };
    let mut ns: Vec<(u64, Rect)> = Vec::new();
    let mut k: usize = 0;
    while k < slots.len()
        invariant
            im.wf(),
            im.width == new_w,
            im.height == new_h,
            old_img.wf(),
            old_img.width <= MAX_DIM,
            old_img.height <= MAX_DIM,
            forall|i: int|
                0 <= i < slots@.len() ==> rect_in(
                    (#[trigger] slots@[i]).1,
                    old_img.width,
                    old_img.height,
                ),
            INITIAL_DIM <= new_w <= MAX_DIM,
            INITIAL_DIM <= new_h <= MAX_DIM,
            extra.wf(),
            extra.width <= MAX_DIM,
            extra.height <= MAX_DIM,
            k <= slots@.len(),
            ns@.len() == k,
            forall|i: int|
                0 <= i < k ==> {
                    &&& (#[trigger] ns@[i]).0 == slots@[i].0
                    &&& ns@[i].1.w == slots@[i].1.w
                    &&& ns@[i].1.h == slots@[i].1.h
                    &&& rect_in(ns@[i].1, new_w, new_h)
                },
            shelf_ok(sh, new_w, new_h),
            forall|i: int| 0 <= i < k ==> rect_done((#[trigger] ns@[i]).1, sh),
            forall|i: int|
                0 <= i < k ==> region_copied(im, (#[trigger] ns@[i]).1, *old_img, slots@[i].1),
            sh.y + sh.line_h <= shelf_demand(slots@.take(k as int)),
        decreases slots@.len() - k,
    {
        let (sid, r0) = slots[k];
        match shelf_place(sh, r0.w, r0.h, new_w, new_h) {
            Some((rect, s2)) => {
                proof {
                    assert forall|i: int|
                        0 <= i < k implies rect_done((#[trigger] ns@[i]).1, s2) && rects_disjoint(
                        ns@[i].1,
                        rect,
                    ) by {
                        lemma_place_keeps(sh, s2, rect, ns@[i].1);
                    }
                    lemma_place_done(sh, s2, rect);
                }
                let piece = sub_image(old_img, r0);
                let ghost prev = im;
                copy_into(&mut im, rect.x, rect.y, &piece);
                ns.push((sid, rect));
                proof {
                    lemma_demand_take_step(slots@, k as int);
                    assert forall|i: int|
                        0 <= i < k + 1 implies region_copied(
                        im,
                        (#[trigger] ns@[i]).1,
                        *old_img,
                        slots@[i].1,
                    ) by {
                        if i < k as int {
                            let nr = ns@[i].1;
                            assert forall|a: int, b: int|
                                0 <= a < nr.w && 0 <= b < nr.h implies #[trigger] im.pix(
                                nr.x + a,
                                nr.y + b,
                            ) == old_img.pix(slots@[i].1.x + a, slots@[i].1.y + b) by {
                                assert(rects_disjoint(nr, rect));
                                assert(im.pix(nr.x + a, nr.y + b) == prev.pix(nr.x + a, nr.y + b));
                                assert(prev.pix(nr.x + a, nr.y + b) == old_img.pix(
                                    slots@[i].1.x + a,
                                    slots@[i].1.y + b,
                                ));
                            }
                            assert(region_copied(im, ns@[i].1, *old_img, slots@[i].1));
                        } else {
                            assert forall|a: int, b: int|
                                0 <= a < rect.w && 0 <= b < rect.h implies #[trigger] im.pix(
                                rect.x + a,
                                rect.y + b,
                            ) == old_img.pix(r0.x + a, r0.y + b) by {
                                assert(im.pix(rect.x + a, rect.y + b) == piece.pix(a, b));
                                assert(piece.pix(a, b) == old_img.pix(r0.x + a, r0.y + b));
                            }
                            assert(region_copied(im, rect, *old_img, r0));
                        }
                    }
                }
                sh = s2;
                k = k + 1;
            },
            None => {
                proof {
                    lemma_demand_take_step(slots@, k as int);
                    lemma_demand_take_le(slots@, k as int + 1);
                }
                return None;
            },
        }
    }
    proof {
        assert(slots@.take(k as int) =~= slots@);
    }
    match shelf_place(sh, extra.width, extra.height, new_w, new_h) {
        Some((rect, s2)) => {
            proof {
                assert forall|i: int|
                    0 <= i < ns@.len() implies rect_done((#[trigger] ns@[i]).1, s2)
                    && rects_disjoint(ns@[i].1, rect) by {
                    lemma_place_keeps(sh, s2, rect, ns@[i].1);
                }
                lemma_place_done(sh, s2, rect);
            }
            let ghost prev = im;
            copy_into(&mut im, rect.x, rect.y, extra);
            proof {
                assert forall|i: int|
                    0 <= i < slots@.len() implies region_copied(
                    im,
                    (#[trigger] ns@[i]).1,
                    *old_img,
                    slots@[i].1,
                ) by {
                    let nr = ns@[i].1;
                    assert forall|a: int, b: int|
                        0 <= a < nr.w && 0 <= b < nr.h implies #[trigger] im.pix(nr.x + a, nr.y + b)
                        == old_img.pix(slots@[i].1.x + a, slots@[i].1.y + b) by {
                        assert(rects_disjoint(nr, rect));
                        assert(im.pix(nr.x + a, nr.y + b) == prev.pix(nr.x + a, nr.y + b));
                        assert(prev.pix(nr.x + a, nr.y + b) == old_img.pix(
                            slots@[i].1.x + a,
                            slots@[i].1.y + b,
                        ));
                    }
                    assert(region_copied(im, ns@[i].1, *old_img, slots@[i].1));
                }
                assert(region_holds(im, rect, *extra));
            }
            Some((im, ns, s2, rect))
        },
        None => None,
    }
}

/// Every issued slot id is below the id the next pack will issue: ids are
/// handed out in increasing order and never reused.
pub proof fn lemma_slot_ids_below_fresh(a: &Atlas, id: u64)
    requires
        a.wf(),
        a.has_slot(id),
    ensures
        id < a.fresh_slot_id(),
{
    let i = choose|i: int| 0 <= i < a.slot_seq().len() && (#[trigger] a.slot_seq()[i]).0 == id;
    assert(a.slots@[i].0 < a.next_id);
}

/// When a new slot table keeps an old position's id, width and height, the
/// id stays present and its slot keeps its width and height.
pub proof fn lemma_slot_kept(olds: Seq<(u64, Rect)>, news: Seq<(u64, Rect)>, id2: u64)
    requires
        ids_increasing(olds),
        ids_increasing(news),
        news.len() >= olds.len(),
        forall|i: int|
            0 <= i < olds.len() ==> (#[trigger] news[i]).0 == olds[i].0 && news[i].1.w
                == olds[i].1.w && news[i].1.h == olds[i].1.h,
        slot_id_in(olds, id2),
    ensures
        slot_id_in(news, id2),
        rect_of_slot(news, id2).w == rect_of_slot(olds, id2).w,
        rect_of_slot(news, id2).h == rect_of_slot(olds, id2).h,
{
    let i = choose|i: int| 0 <= i < olds.len() && (#[trigger] olds[i]).0 == id2;
    lemma_rect_of_slot_at(olds, id2, i);
    lemma_rect_of_slot_at(news, id2, i);
}

} // verus!
