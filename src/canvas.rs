use vstd::prelude::*;
use crate::pixel::{Pixel, blend_spec, unpack_spec};
use crate::shape::{Shape, double_area, lemma_mul_bound};
use vstd::arithmetic::div_mod::lemma_fundamental_div_mod_converse;

verus! {

/// A rectangular view over a row-major pixel store.
///
/// The store itself is a `Vec<Pixel>` held by the caller and handed to each
/// drawing call, so that several views (a canvas and the sub-canvases carved
/// out of it) can address one store; whatever one view draws is seen through
/// every other view that covers the same cells.
#[derive(Debug, Clone, Copy, PartialEq, Eq, Structural)]
pub struct Canvas {
    /// Store index of the view's local `(0, 0)`.
    pub offset: usize,
    pub width: usize,
    pub height: usize,
    /// Row width of the store: one local row down is `stride` cells further.
    pub stride: usize,
}

impl Canvas {
    /// Store index of the local coordinate `(x, y)`.
    pub open spec fn index_of(self, x: int, y: int) -> int {
        self.offset + y * self.stride + x
    }

    pub open spec fn in_view(self, x: int, y: int) -> bool {
        0 <= x < self.width && 0 <= y < self.height
    }

    /// Number of store cells that the view reaches into: one past its last cell.
    pub open spec fn extent(self) -> int {
        if self.width == 0 || self.height == 0 {
            0
        } else {
            self.offset + (self.height - 1) * self.stride + self.width
        }
    }

    /// Whether the store cell `i` lies inside the view.
    pub open spec fn covers(self, i: int) -> bool {
        &&& 0 < self.width
        &&& self.offset <= i
        &&& (i - self.offset) % (self.stride as int) < self.width
        &&& (i - self.offset) / (self.stride as int) < self.height
    }

    /// Shape of a usable view: rows do not overlap, every coordinate fits an
    /// `i32`, and every index fits a `usize`.
    pub open spec fn wf(self) -> bool {
        &&& self.width <= self.stride
        &&& self.width <= i32::MAX
        &&& self.height <= i32::MAX
        &&& self.extent() <= usize::MAX
    }

    /// The view is usable on a store of `len` cells.
    pub open spec fn fits(self, len: int) -> bool {
        self.wf() && self.extent() <= len
    }

    /// The view that `sub_canvas` derives: the requested rectangle clipped to
    /// this view, or nothing when the clipped rectangle is empty.
    pub open spec fn sub_view(self, x: int, y: int, width: int, height: int) -> Option<Canvas> {
        let x0 = if x < 0 { 0 } else { x };
        let y0 = if y < 0 { 0 } else { y };
        let x1 = if x + width < self.width { x + width } else { self.width as int };
        let y1 = if y + height < self.height { y + height } else { self.height as int };
        if x1 <= x0 || y1 <= y0 {
            None
        } else {
            Some(
                Canvas {
                    offset: (self.offset + y0 * self.stride + x0) as usize,
                    width: (x1 - x0) as usize,
                    height: (y1 - y0) as usize,
                    stride: self.stride,
                },
            )
        }
    }

    /// What drawing `shape` in `color` through this view does to a store:
    /// each pixel of the view that the shape paints gets the shape's ink
    /// blended over it, and every other cell keeps its color.
    pub open spec fn drawn(self, before: Seq<Pixel>, after: Seq<Pixel>, shape: Shape, color: Pixel) -> bool {
        &&& after.len() == before.len()
        &&& forall|x: int, y: int|
            self.in_view(x, y) ==> #[trigger] after[self.index_of(x, y)] == (if shape.paints(x, y) {
                blend_spec(before[self.index_of(x, y)], shape.ink(color, x, y))
            } else {
                before[self.index_of(x, y)]
            })
        &&& forall|i: int| 0 <= i < before.len() && !self.covers(i) ==> #[trigger] after[i] == before[i]
    }

    /// The view's pixels read from `store`, row by row.
    pub open spec fn snapshot(self, store: Seq<Pixel>) -> Seq<Pixel> {
        Seq::new(
            (self.width * self.height) as nat,
            |k: int| store[self.index_of(k % (self.width as int), k / (self.width as int))],
        )
    }
}

proof fn lemma_row_bound(y: int, h: int, s: int)
    requires
        0 <= y < h,
        0 <= s,
    ensures
        y * s <= (h - 1) * s,
{
    assert(y * s <= (h - 1) * s) by (nonlinear_arith)
        requires
            0 <= y <= h - 1,
            0 <= s,
    ;
}

/// Where a local coordinate of a well-formed view lands in the store: inside
/// the view's extent, and the coordinate can be read back from the index.
pub proof fn lemma_index_of(v: Canvas, x: int, y: int)
    requires
        v.wf(),
        v.in_view(x, y),
    ensures
        0 <= v.offset <= v.index_of(x, y) < v.extent(),
        v.covers(v.index_of(x, y)),
        (v.index_of(x, y) - v.offset) % (v.stride as int) == x,
        (v.index_of(x, y) - v.offset) / (v.stride as int) == y,
{
    lemma_row_bound(y, v.height as int, v.stride as int);
    assert(0 <= y * v.stride) by (nonlinear_arith)
        requires
            0 <= y,
            0 <= v.stride,
    ;
    lemma_fundamental_div_mod_converse(y * v.stride + x, v.stride as int, y, x);
}

/// Local coordinates resolve to store indices that are distinct and lie
/// within a store that the view fits.
pub proof fn lemma_resolve_injective(v: Canvas, len: int, x1: int, y1: int, x2: int, y2: int)
    requires
        v.fits(len),
        v.in_view(x1, y1),
        v.in_view(x2, y2),
    ensures
        0 <= v.index_of(x1, y1) < len,
        v.index_of(x1, y1) == v.index_of(x2, y2) ==> x1 == x2 && y1 == y2,
{
    lemma_index_of(v, x1, y1);
    lemma_index_of(v, x2, y2);
}

/// A sub-canvas addresses the very cells of its parent: its local `(dx, dy)`
/// is the parent's `(x0 + dx, y0 + dy)`, where `(x0, y0)` is the requested
/// corner clipped to the parent (the corner itself when it is not negative).
pub proof fn lemma_sub_canvas_aliases(
    parent: Canvas,
    x: int,
    y: int,
    width: int,
    height: int,
    dx: int,
    dy: int,
)
    requires
        parent.wf(),
        parent.sub_view(x, y, width, height) is Some,
        parent.sub_view(x, y, width, height)->Some_0.in_view(dx, dy),
    ensures
        ({
            let sub = parent.sub_view(x, y, width, height)->Some_0;
            let x0 = if x < 0 { 0 } else { x };
            let y0 = if y < 0 { 0 } else { y };
            &&& parent.in_view(x0 + dx, y0 + dy)
            &&& sub.index_of(dx, dy) == parent.index_of(x0 + dx, y0 + dy)
        }),
{
    let x0 = if x < 0 { 0 } else { x };
    let y0 = if y < 0 { 0 } else { y };
    lemma_index_of(parent, x0, y0);
    assert(parent.offset + y0 * parent.stride + x0 + dy * parent.stride + dx == parent.offset + (
    y0 + dy) * parent.stride + (x0 + dx)) by (nonlinear_arith);
}

/// Drawing through a sub-canvas shows through its parent: the parent's pixel
/// `(x0 + dx, y0 + dy)` holds what the sub-canvas drew at its `(dx, dy)`.
pub proof fn lemma_sub_canvas_drawing_shows_in_parent(
    parent: Canvas,
    x: int,
    y: int,
    width: int,
    height: int,
    before: Seq<Pixel>,
    after: Seq<Pixel>,
    shape: Shape,
    color: Pixel,
    dx: int,
    dy: int,
)
    requires
        parent.wf(),
        parent.sub_view(x, y, width, height) is Some,
        parent.sub_view(x, y, width, height)->Some_0.drawn(before, after, shape, color),
        parent.sub_view(x, y, width, height)->Some_0.in_view(dx, dy),
    ensures
        ({
            let x0 = if x < 0 { 0 } else { x };
            let y0 = if y < 0 { 0 } else { y };
            let i = parent.index_of(x0 + dx, y0 + dy);
            after[i] == (if shape.paints(dx, dy) {
                blend_spec(before[i], shape.ink(color, dx, dy))
            } else {
                before[i]
            })
        }),
{
    lemma_sub_canvas_aliases(parent, x, y, width, height, dx, dy);
}

impl Canvas {
    /// A canvas of `width` by `height` pixels with a fresh store of fully
    /// transparent black pixels.
    pub fn new(width: usize, height: usize) -> (r: (Canvas, Vec<Pixel>))
        requires
            width <= i32::MAX,
            height <= i32::MAX,
            width * height <= usize::MAX,
        ensures
            r.0 == (Canvas { offset: 0, width, height, stride: width }),
            r.0.fits(r.1@.len() as int),
            r.1@ == Seq::new((width * height) as nat, |_i: int| Pixel::from_u32_spec(0)),
    {
        let n = width * height;
        let mut pixels: Vec<Pixel> = Vec::with_capacity(n);
        let blank: Pixel = Pixel::from_u32(0);
        let mut i: usize = 0;
        while i < n
            invariant
                i <= n,
                pixels@ == Seq::new(i as nat, |_i: int| Pixel::from_u32_spec(0)),
                blank == Pixel::from_u32_spec(0),
            decreases n - i,
        {
            pixels.push(blank);
            i += 1;
            assert(pixels@ =~= Seq::new(i as nat, |_i: int| Pixel::from_u32_spec(0)));
        }
        let canvas = Canvas { offset: 0, width, height, stride: width };
        proof {
            if width > 0 && height > 0 {
                assert((height - 1) * width + width == width * height) by (nonlinear_arith);
            }
        }
        (canvas, pixels)
    }

    #[inline]
    fn cal_offset(x: usize, y: usize, stride: usize) -> (r: usize)
        requires
            y * stride + x <= usize::MAX,
        ensures
            r == y * stride + x,
    {
        proof {
            assert(0 <= y * stride) by (nonlinear_arith);
        }
        y * stride + x
    }

    /// Store index of the local `(x, y)`, or `None` outside the view.
    #[inline]
    fn resolve_offset(&self, x: i32, y: i32) -> (r: Option<usize>)
        requires
            self.wf(),
        ensures
            r == (if self.in_view(x as int, y as int) {
                Some(self.index_of(x as int, y as int) as usize)
            } else {
                None
            }),
    {
        if x < 0 || y < 0 || x as usize >= self.width || y as usize >= self.height {
            return None;
        }
        proof {
            lemma_index_of(*self, x as int, y as int);
        }
        Some(self.offset + Self::cal_offset(x as usize, y as usize, self.stride))
    }

    /// A view of the rectangle at local `(x, y)` of `width` by `height` pixels,
    /// clipped to this view, over the same store; `None` when the clipped
    /// rectangle is empty.
    pub fn sub_canvas(&self, x: i32, y: i32, width: u32, height: u32) -> (r: Option<Canvas>)
        requires
            self.wf(),
        ensures
            r == self.sub_view(x as int, y as int, width as int, height as int),
            r is None <==> (width == 0 || height == 0 || x + width <= 0 || y + height <= 0
                || x >= self.width || y >= self.height || self.width == 0 || self.height == 0),
            r is Some ==> r->Some_0.wf() && r->Some_0.extent() <= self.extent(),
    {
        let rx: i64 = if (x as i64) + (width as i64) < self.width as i64 {
            (x as i64) + (width as i64)
        } else {
            self.width as i64
        };
        let ly: i64 = if (y as i64) + (height as i64) < self.height as i64 {
            (y as i64) + (height as i64)
        } else {
            self.height as i64
        };
        let x0: i64 = if x < 0 { 0 } else { x as i64 };
        let y0: i64 = if y < 0 { 0 } else { y as i64 };
        if rx <= x0 || ly <= y0 {
            return None;
        }
        let w = (rx - x0) as usize;
        let h = (ly - y0) as usize;
        proof {
            lemma_index_of(*self, x0 as int, y0 as int);
            lemma_index_of(*self, (rx - 1) as int, (ly - 1) as int);
            assert(self.offset + y0 * self.stride + x0 + (h - 1) * self.stride + w == self.offset
                + (ly - 1) * self.stride + rx) by (nonlinear_arith)
                requires
                    h == ly - y0,
                    w == rx - x0,
            ;
        }
        let offset = self.offset + Self::cal_offset(x0 as usize, y0 as usize, self.stride);
        Some(Canvas { offset, width: w, height: h, stride: self.stride })
    }
}

impl Canvas {
    /// The view's pixels, row by row, read from `pixels`.
    pub fn clone_pixels(&self, pixels: &Vec<Pixel>) -> (r: Vec<Pixel>)
        requires
            self.fits(pixels@.len() as int),
        ensures
            r@ == self.snapshot(pixels@),
    {
        let mut out: Vec<Pixel> = Vec::new();
        let w = self.width;
        let mut y: usize = 0;
        while y < self.height
            invariant
                self.fits(pixels@.len() as int),
                w == self.width,
                y <= self.height,
                out@.len() == y * w,
                forall|k: int|
                    0 <= k < out@.len() ==> #[trigger] out@[k] == pixels@[self.index_of(k % (w as int), k / (w as int))],
            decreases self.height - y,
        {
            let mut x: usize = 0;
            while x < w
                invariant
                    self.fits(pixels@.len() as int),
                    w == self.width,
                    y < self.height,
                    x <= w,
                    out@.len() == y * w + x,
                    forall|k: int|
                        0 <= k < out@.len() ==> #[trigger] out@[k] == pixels@[self.index_of(k % (w as int), k / (w as int))],
                decreases w - x,
            {
                proof {
                    lemma_index_of(*self, x as int, y as int);
                    lemma_fundamental_div_mod_converse(y * w + x, w as int, y as int, x as int);
                }
                let i = self.offset + Self::cal_offset(x, y, self.stride);
                out.push(pixels[i]);
                x += 1;
            }
            proof {
                assert((y + 1) * w == y * w + w) by (nonlinear_arith);
            }
            y += 1;
        }
        proof {
            assert(y * w == w * self.height) by (nonlinear_arith)
                requires
                    y == self.height,
            ;
        }
        assert(out@ =~= self.snapshot(pixels@));
        out
    }

    /// Blends `shape` into every pixel of the view that it paints.
    fn paint(&self, pixels: &mut Vec<Pixel>, shape: &Shape, color: Pixel)
        requires
            self.fits(old(pixels)@.len() as int),
        ensures
            self.drawn(old(pixels)@, final(pixels)@, *shape, color),
    {
        let ghost before = pixels@;
        let (cl, ch) = shape.columns();
        let x0: i128 = if cl < 0 { 0 } else { cl };
        let x1: i128 = if ch < self.width as i128 { ch } else { self.width as i128 };
        let mut x: i128 = x0;
        while x < x1
            invariant
                self.fits(before.len() as int),
                pixels@.len() == before.len(),
                0 <= x0 <= x,
                x1 <= self.width,
                x1 < x ==> x == x0,
                forall|px: int, py: int| #[trigger] shape.paints(px, py) ==> cl <= px < ch,
                x0 == 0 || x0 == cl,
                x1 == self.width || x1 == ch,
                forall|px: int, py: int|
                    self.in_view(px, py) ==> #[trigger] pixels@[self.index_of(px, py)] == (if px < x
                        && shape.paints(px, py) {
                        blend_spec(before[self.index_of(px, py)], shape.ink(color, px, py))
                    } else {
                        before[self.index_of(px, py)]
                    }),
                forall|i: int|
                    0 <= i < before.len() && !self.covers(i) ==> #[trigger] pixels@[i] == before[i],
            decreases x1 - x,
        {
            let xi = x as i32;
            let (rl, rh) = shape.rows(xi);
            let y0: i128 = if rl < 0 { 0 } else { rl };
            let y1: i128 = if rh < self.height as i128 { rh } else { self.height as i128 };
            let mut y: i128 = y0;
            while y < y1
                invariant
                    self.fits(before.len() as int),
                    pixels@.len() == before.len(),
                    0 <= x < self.width,
                    xi == x,
                    0 <= y0 <= y,
                    y1 <= self.height,
                    y1 < y ==> y == y0,
                    forall|py: int| #[trigger] shape.paints(x as int, py) ==> rl <= py < rh,
                    y0 == 0 || y0 == rl,
                    y1 == self.height || y1 == rh,
                    forall|px: int, py: int|
                        self.in_view(px, py) ==> #[trigger] pixels@[self.index_of(px, py)] == (if (px
                            < x || (px == x && py < y)) && shape.paints(px, py) {
                            blend_spec(before[self.index_of(px, py)], shape.ink(color, px, py))
                        } else {
                            before[self.index_of(px, py)]
                        }),
                    forall|i: int|
                        0 <= i < before.len() && !self.covers(i) ==> #[trigger] pixels@[i]
                            == before[i],
                decreases y1 - y,
            {
                let yi = y as i32;
                if let Some(ink) = shape.pixel_at(color, xi, yi) {
                    if let Some(i) = self.resolve_offset(xi, yi) {
                        let ghost cur = pixels@;
                        proof {
                            lemma_index_of(*self, x as int, y as int);
                            assert(cur[i as int] == before[i as int]);
                        }
                        let mut p = pixels[i];
                        p.blend(&ink);
                        pixels.set(i, p);
                        proof {
                            assert forall|px: int, py: int|
                                self.in_view(px, py) && !(px == x && py == y) implies pixels@[self.index_of(
                                px,
                                py,
                            )] == cur[self.index_of(px, py)] by {
                                lemma_index_of(*self, px, py);
                            }
                        }
                    }
                }
                y += 1;
            }
            x += 1;
        }
    }

    /// Blends `bg` into every pixel of the view.
    pub fn fill(&self, pixels: &mut Vec<Pixel>, bg: u32)
        requires
            self.fits(old(pixels)@.len() as int),
        ensures
            self.drawn(
                old(pixels)@,
                final(pixels)@,
                Shape::Rect { x: 0, y: 0, width: self.width, height: self.height },
                unpack_spec(bg),
            ),
    {
        let shape = Shape::Rect { x: 0, y: 0, width: self.width, height: self.height };
        self.paint(pixels, &shape, Pixel::from_u32(bg));
    }

    /// Blends `color` into the pixels of the rectangle at `(x, y)` of `width`
    /// by `height` pixels, as far as it lies in the view.
    pub fn fill_rect(&self, pixels: &mut Vec<Pixel>, x: i32, y: i32, width: usize, height: usize, color: u32)
        requires
            self.fits(old(pixels)@.len() as int),
        ensures
            self.drawn(old(pixels)@, final(pixels)@, Shape::Rect { x, y, width, height }, unpack_spec(color)),
    {
        self.paint(pixels, &Shape::Rect { x, y, width, height }, Pixel::from_u32(color));
    }

    /// Draws a disc of radius `r` around `(cx, cy)`; each pixel gets `color`
    /// with its alpha set to the pixel's sampled coverage.
    pub fn fill_circle(&self, pixels: &mut Vec<Pixel>, cx: i32, cy: i32, r: u32, color: u32)
        requires
            self.fits(old(pixels)@.len() as int),
        ensures
            self.drawn(old(pixels)@, final(pixels)@, Shape::Circle { cx, cy, r }, unpack_spec(color)),
    {
        self.paint(pixels, &Shape::Circle { cx, cy, r }, Pixel::from_u32(color));
    }

    /// Twice the area of the triangle with the given vertices, by the cross
    /// product; exact for any vertices in `i32`.
    pub fn double_trangle_area(x1: i32, y1: i32, x2: i32, y2: i32, x3: i32, y3: i32) -> (r: i128)
        ensures
            r == double_area(x1 as int, y1 as int, x2 as int, y2 as int, x3 as int, y3 as int),
            0 <= r <= 0x2_0000_0000_0000_0000,
    {
        let a = x1 as i128 - x3 as i128;
        let b = y2 as i128 - y3 as i128;
        let c = x2 as i128 - x3 as i128;
        let d = y1 as i128 - y3 as i128;
        proof {
            lemma_mul_bound(a as int, b as int, 0x1_0000_0000);
            lemma_mul_bound(c as int, d as int, 0x1_0000_0000);
        }
        let cross = a * b - c * d;
        if cross < 0 {
            -cross
        } else {
            cross
        }
    }

    /// Blends `color` into the pixels of the triangle with the given vertices.
    pub fn fill_triangle(
        &self,
        pixels: &mut Vec<Pixel>,
        x1: i32,
        y1: i32,
        x2: i32,
        y2: i32,
        x3: i32,
        y3: i32,
        color: u32,
    )
        requires
            self.fits(old(pixels)@.len() as int),
        ensures
            self.drawn(
                old(pixels)@,
                final(pixels)@,
                Shape::Triangle { x1, y1, x2, y2, x3, y3 },
                unpack_spec(color),
            ),
    {
        self.paint(pixels, &Shape::Triangle { x1, y1, x2, y2, x3, y3 }, Pixel::from_u32(color));
    }

    /// Blends `color` into the pixels of the line from `(x1, y1)` toward `(x2, y2)`.
    pub fn draw_line(&self, pixels: &mut Vec<Pixel>, x1: i32, y1: i32, x2: i32, y2: i32, color: u32)
        requires
            self.fits(old(pixels)@.len() as int),
        ensures
            self.drawn(old(pixels)@, final(pixels)@, Shape::Line { x1, y1, x2, y2 }, unpack_spec(color)),
    {
        self.paint(pixels, &Shape::Line { x1, y1, x2, y2 }, Pixel::from_u32(color));
    }
}

} // verus!
