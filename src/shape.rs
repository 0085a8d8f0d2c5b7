use vstd::prelude::*;
use crate::pixel::Pixel;
use crate::canvas::Canvas;
use vstd::arithmetic::div_mod::{lemma_fundamental_div_mod, lemma_fundamental_div_mod_converse};

verus! {

/// A primitive to be drawn, in the local coordinates of a view.
#[derive(Debug, Clone, Copy, PartialEq, Eq, Structural)]
pub enum Shape {
    /// The pixels `x <= px < x + width`, `y <= py < y + height`.
    Rect { x: i32, y: i32, width: usize, height: usize },
    /// A disc around `(cx, cy)` of radius `r`, with anti-aliased edges.
    Circle { cx: i32, cy: i32, r: u32 },
    /// The pixels that the unsigned-area test puts inside the triangle.
    Triangle { x1: i32, y1: i32, x2: i32, y2: i32, x3: i32, y3: i32 },
    /// A line from `(x1, y1)` toward `(x2, y2)`, its vertical gaps filled.
    Line { x1: i32, y1: i32, x2: i32, y2: i32 },
}

pub open spec fn min_int(a: int, b: int) -> int {
    if a < b {
        a
    } else {
        b
    }
}

pub open spec fn max_int(a: int, b: int) -> int {
    if a < b {
        b
    } else {
        a
    }
}

pub open spec fn abs_int(a: int) -> int {
    if a < 0 {
        -a
    } else {
        a
    }
}

pub open spec fn rect_covers(x0: int, y0: int, w: int, h: int, x: int, y: int) -> bool {
    x0 <= x < x0 + w && y0 <= y < y0 + h
}

/// Whether the sample `(sx, sy)` of pixel `(x, y)` lies in the circle. The
/// samples sit at a third and two thirds of the pixel on each axis; the center
/// is the middle of pixel `(cx, cy)`. All lengths are scaled by six.
pub open spec fn sample_inside(cx: int, cy: int, r: int, x: int, y: int, sx: int, sy: int) -> bool {
    let u = 6 * (x - cx) + 2 * sx - 1;
    let v = 6 * (y - cy) + 2 * sy - 1;
    u * u + v * v <= 36 * (r * r)
}

pub open spec fn bit(b: bool) -> int {
    if b {
        1
    } else {
        0
    }
}

/// How many of the pixel's two-by-two samples lie in the circle.
pub open spec fn sample_count(cx: int, cy: int, r: int, x: int, y: int) -> int {
    bit(sample_inside(cx, cy, r, x, y, 0, 0)) + bit(sample_inside(cx, cy, r, x, y, 0, 1)) + bit(
        sample_inside(cx, cy, r, x, y, 1, 0),
    ) + bit(sample_inside(cx, cy, r, x, y, 1, 1))
}

/// Alpha for `count` samples out of four, rounded to nearest.
pub open spec fn coverage_alpha(count: int) -> u8 {
    ((count * 255 + 2) / 4) as u8
}

/// Whether the circle draws pixel `(x, y)`: inside the bounding box
/// `[cx - r, cx + r)` on both axes, with the pixel's corner within `r` of the center.
pub open spec fn circle_covers(cx: int, cy: int, r: int, x: int, y: int) -> bool {
    &&& cx - r <= x < cx + r
    &&& cy - r <= y < cy + r
    &&& (x - cx) * (x - cx) + (y - cy) * (y - cy) <= r * r
}

/// Twice the area of the triangle, by the cross product.
pub open spec fn double_area(x1: int, y1: int, x2: int, y2: int, x3: int, y3: int) -> int {
    abs_int((x1 - x3) * (y2 - y3) - (x2 - x3) * (y1 - y3))
}

/// Whether the triangle draws pixel `(x, y)`: inside the half-open bounding box
/// of the vertices, and the three triangles that `(x, y)` forms with the edges
/// add up exactly to the whole.
pub open spec fn triangle_covers(
    x1: int,
    y1: int,
    x2: int,
    y2: int,
    x3: int,
    y3: int,
    x: int,
    y: int,
) -> bool {
    &&& min_int(min_int(x1, x2), x3) <= x < max_int(max_int(x1, x2), x3)
    &&& min_int(min_int(y1, y2), y3) <= y < max_int(max_int(y1, y2), y3)
    &&& double_area(x, y, x2, y2, x3, y3) + double_area(x1, y1, x, y, x3, y3) + double_area(
        x1,
        y1,
        x2,
        y2,
        x,
        y,
    ) == double_area(x1, y1, x2, y2, x3, y3)
}

/// The row of the line at column `x`, rounded down.
pub open spec fn line_row(x1: int, y1: int, x2: int, y2: int, x: int) -> int {
    y1 + (y2 - y1) * (x - x1) / (x2 - x1)
}

/// Whether the line draws pixel `(x, y)`. A vertical line draws the rows from
/// the lower end up to, not including, the upper one. Otherwise each column `x`
/// from `x1` up to, not including, `x2` gets the rows from the lower to, not
/// including, the higher of the line's rows at `x` and `x + 1`; when `x2 < x1`
/// nothing is drawn.
pub open spec fn line_covers(x1: int, y1: int, x2: int, y2: int, x: int, y: int) -> bool {
    if x1 == x2 {
        x == x1 && min_int(y1, y2) <= y < max_int(y1, y2)
    } else {
        let a = line_row(x1, y1, x2, y2, x);
        let b = line_row(x1, y1, x2, y2, x + 1);
        x1 <= x < x2 && min_int(a, b) <= y < max_int(a, b)
    }
}

impl Shape {
    /// Whether the shape draws the pixel `(x, y)`.
    pub open spec fn paints(self, x: int, y: int) -> bool {
        match self {
            Shape::Rect { x: x0, y: y0, width, height } => rect_covers(
                x0 as int,
                y0 as int,
                width as int,
                height as int,
                x,
                y,
            ),
            Shape::Circle { cx, cy, r } => circle_covers(cx as int, cy as int, r as int, x, y),
            Shape::Triangle { x1, y1, x2, y2, x3, y3 } => triangle_covers(
                x1 as int,
                y1 as int,
                x2 as int,
                y2 as int,
                x3 as int,
                y3 as int,
                x,
                y,
            ),
            Shape::Line { x1, y1, x2, y2 } => line_covers(
                x1 as int,
                y1 as int,
                x2 as int,
                y2 as int,
                x,
                y,
            ),
        }
    }

    /// The color blended into a drawn pixel: `color` itself, but for a circle,
    /// whose alpha is its coverage of the pixel.
    pub open spec fn ink(self, color: Pixel, x: int, y: int) -> Pixel {
        match self {
            Shape::Circle { cx, cy, r } => Pixel {
                alpha: coverage_alpha(sample_count(cx as int, cy as int, r as int, x, y)),
                ..color
            },
            _ => color,
        }
    }
}

proof fn lemma_double_area_swaps(x1: int, y1: int, x2: int, y2: int, x3: int, y3: int)
    ensures
        double_area(x1, y1, x2, y2, x3, y3) == double_area(x2, y2, x1, y1, x3, y3),
        double_area(x1, y1, x2, y2, x3, y3) == double_area(x1, y1, x3, y3, x2, y2),
{
    assert((x1 - x3) * (y2 - y3) - (x2 - x3) * (y1 - y3) == -((x2 - x3) * (y1 - y3) - (x1 - x3) * (
    y2 - y3))) by (nonlinear_arith);
    assert((x1 - x3) * (y2 - y3) - (x2 - x3) * (y1 - y3) == -((x1 - x2) * (y3 - y2) - (x3 - x2) * (
    y1 - y2))) by (nonlinear_arith);
}

/// Which pixels a triangle covers does not depend on the order in which its
/// vertices are given.
pub proof fn lemma_triangle_vertex_order(
    x1: int,
    y1: int,
    x2: int,
    y2: int,
    x3: int,
    y3: int,
    x: int,
    y: int,
)
    ensures
        triangle_covers(x1, y1, x2, y2, x3, y3, x, y) == triangle_covers(x2, y2, x1, y1, x3, y3, x, y),
        triangle_covers(x1, y1, x2, y2, x3, y3, x, y) == triangle_covers(x1, y1, x3, y3, x2, y2, x, y),
        triangle_covers(x1, y1, x2, y2, x3, y3, x, y) == triangle_covers(x3, y3, x2, y2, x1, y1, x, y),
        triangle_covers(x1, y1, x2, y2, x3, y3, x, y) == triangle_covers(x2, y2, x3, y3, x1, y1, x, y),
        triangle_covers(x1, y1, x2, y2, x3, y3, x, y) == triangle_covers(x3, y3, x1, y1, x2, y2, x, y),
{
    lemma_double_area_swaps(x1, y1, x2, y2, x3, y3);
    lemma_double_area_swaps(x, y, x2, y2, x3, y3);
    lemma_double_area_swaps(x1, y1, x, y, x3, y3);
    lemma_double_area_swaps(x1, y1, x2, y2, x, y);
    lemma_double_area_swaps(x2, y2, x1, y1, x3, y3);
    lemma_double_area_swaps(x, y, x1, y1, x3, y3);
    lemma_double_area_swaps(x2, y2, x, y, x3, y3);
    lemma_double_area_swaps(x2, y2, x1, y1, x, y);
    lemma_double_area_swaps(x1, y1, x3, y3, x2, y2);
    lemma_double_area_swaps(x, y, x3, y3, x2, y2);
    lemma_double_area_swaps(x1, y1, x, y, x2, y2);
    lemma_double_area_swaps(x1, y1, x3, y3, x, y);
    lemma_double_area_swaps(x3, y3, x2, y2, x1, y1);
    lemma_double_area_swaps(x, y, x2, y2, x1, y1);
    lemma_double_area_swaps(x3, y3, x, y, x1, y1);
    lemma_double_area_swaps(x3, y3, x2, y2, x, y);
    lemma_double_area_swaps(x2, y2, x3, y3, x1, y1);
    lemma_double_area_swaps(x, y, x3, y3, x1, y1);
    lemma_double_area_swaps(x2, y2, x, y, x1, y1);
    lemma_double_area_swaps(x2, y2, x3, y3, x, y);
    lemma_double_area_swaps(x3, y3, x1, y1, x2, y2);
    lemma_double_area_swaps(x, y, x1, y1, x2, y2);
    lemma_double_area_swaps(x3, y3, x, y, x2, y2);
    lemma_double_area_swaps(x3, y3, x1, y1, x, y);
}

/// A circle of radius at least one draws its center pixel fully opaque, and
/// draws nothing whose distance from the center exceeds `r + 1`.
pub proof fn lemma_circle_center_and_reach(cx: i32, cy: i32, r: u32, color: Pixel, x: int, y: int)
    ensures
        r >= 1 ==> (Shape::Circle { cx, cy, r }).paints(cx as int, cy as int),
        r >= 1 ==> (Shape::Circle { cx, cy, r }).ink(color, cx as int, cy as int).alpha == 255,
        (x - cx) * (x - cx) + (y - cy) * (y - cy) > (r + 1) * (r + 1) ==> !(Shape::Circle {
            cx,
            cy,
            r,
        }).paints(x, y),
{
    if r >= 1 {
        assert(2 <= 36 * (r * r)) by (nonlinear_arith)
            requires
                r >= 1,
        ;
        let (c, d, rr) = (cx as int, cy as int, r as int);
        assert(36 * (rr * rr) >= 2 && (-1) * (-1) + (-1) * (-1) == 2 && 1 * 1 + 1 * 1 == 2 && 1 * 1 + (-1) * (-1) == 2) by (nonlinear_arith)
            requires
                rr >= 1,
        ;
        assert(sample_inside(c, d, rr, c, d, 0, 0));
        assert(sample_inside(c, d, rr, c, d, 0, 1));
        assert(sample_inside(c, d, rr, c, d, 1, 0));
        assert(sample_inside(c, d, rr, c, d, 1, 1));
        assert(sample_count(c, d, rr, c, d) == 4);
        assert(coverage_alpha(4) == 255);
    }
    assert((r + 1) * (r + 1) >= r * r) by (nonlinear_arith)
        requires
            r >= 0,
    ;
}

pub(crate) proof fn lemma_mul_bound(a: int, b: int, m: int)
    requires
        -m <= a <= m,
        -m <= b <= m,
    ensures
        -(m * m) <= a * b <= m * m,
{
    assert(-(m * m) <= a * b <= m * m) by (nonlinear_arith)
        requires
            -m <= a <= m,
            -m <= b <= m,
    ;
}

/// `a / d` rounded down.
fn floor_div(a: i128, d: i128) -> (q: i128)
    requires
        0 < d <= 0x1_0000_0000_0000,
        -0x1_0000_0000_0000_0000_0000 <= a <= 0x1_0000_0000_0000_0000_0000,
    ensures
        q == a / d,
        -0x1_0000_0000_0000_0000_0000 <= q <= 0x1_0000_0000_0000_0000_0000,
{
    proof {
        lemma_fundamental_div_mod(a as int, d as int);
        let qq = a / d;
        let rr = a % d;
        assert(a >= 0 ==> 0 <= qq <= a) by (nonlinear_arith)
            requires
                a == d * qq + rr,
                0 <= rr < d,
                1 <= d,
        ;
        assert(a < 0 ==> a <= qq < 0) by (nonlinear_arith)
            requires
                a == d * qq + rr,
                0 <= rr < d,
                1 <= d,
        ;
    }
    if a >= 0 {
        (a as u128 / d as u128) as i128
    } else {
        let n = (d - 1 - a) as u128;
        let m = n / d as u128;
        proof {
            lemma_fundamental_div_mod(a as int, d as int);
            let qq = a / d;
            let rr = a % d;
            assert(n == d * (-qq) + (d - 1 - rr)) by (nonlinear_arith)
                requires
                    a == d * qq + rr,
                    n == d - 1 - a,
            ;
            lemma_fundamental_div_mod_converse(n as int, d as int, -qq, d - 1 - rr);
        }
        -(m as i128)
    }
}

/// The row of the line at column `x`, rounded down.
fn row_at(x1: i32, y1: i32, x2: i32, y2: i32, x: i64) -> (r: i128)
    requires
        x1 < x2,
        x1 <= x <= x2,
    ensures
        r == line_row(x1 as int, y1 as int, x2 as int, y2 as int, x as int),
{
    let dy = y2 as i128 - y1 as i128;
    let t = x as i128 - x1 as i128;
    proof {
        lemma_mul_bound(dy as int, t as int, 0x1_0000_0000);
    }
    y1 as i128 + floor_div(dy * t, x2 as i128 - x1 as i128)
}

fn min_i128(a: i128, b: i128) -> (r: i128)
    ensures
        r == min_int(a as int, b as int),
{
    if a < b {
        a
    } else {
        b
    }
}

fn max_i128(a: i128, b: i128) -> (r: i128)
    ensures
        r == max_int(a as int, b as int),
{
    if a < b {
        b
    } else {
        a
    }
}

/// Whether the sample `(sx, sy)` lies in the circle, for a pixel at
/// `(dx, dy)` from the center.
fn sample_hit(dx: i128, dy: i128, r: u32, sx: i128, sy: i128) -> (b: bool)
    requires
        -0x1_0000_0000 <= dx <= 0x1_0000_0000,
        -0x1_0000_0000 <= dy <= 0x1_0000_0000,
        0 <= sx <= 1,
        0 <= sy <= 1,
    ensures
        b == sample_inside(0, 0, r as int, dx as int, dy as int, sx as int, sy as int),
{
    let u = 6 * dx + 2 * sx - 1;
    let v = 6 * dy + 2 * sy - 1;
    let rr = r as i128;
    proof {
        lemma_mul_bound(u as int, u as int, 0x8_0000_0000);
        lemma_mul_bound(v as int, v as int, 0x8_0000_0000);
        lemma_mul_bound(rr as int, rr as int, 0x1_0000_0000);
    }
    u * u + v * v <= 36 * (rr * rr)
}

impl Shape {
    /// A range of columns outside of which the shape draws nothing.
    pub(crate) fn columns(&self) -> (r: (i128, i128))
        ensures
            forall|x: int, y: int| #[trigger] self.paints(x, y) ==> r.0 <= x < r.1,
    {
        match *self {
            Shape::Rect { x, y: _, width, height: _ } => (x as i128, x as i128 + width as i128),
            Shape::Circle { cx, cy: _, r } => (cx as i128 - r as i128, cx as i128 + r as i128),
            Shape::Triangle { x1, y1: _, x2, y2: _, x3, y3: _ } => {
                let lo = min_i128(min_i128(x1 as i128, x2 as i128), x3 as i128);
                let hi = max_i128(max_i128(x1 as i128, x2 as i128), x3 as i128);
                (lo, hi)
            },
            Shape::Line { x1, y1: _, x2, y2: _ } => {
                if x1 == x2 {
                    (x1 as i128, x1 as i128 + 1)
                } else {
                    (x1 as i128, x2 as i128)
                }
            },
        }
    }

    /// A range of rows outside of which the shape draws nothing in column `x`.
    pub(crate) fn rows(&self, x: i32) -> (r: (i128, i128))
        ensures
            forall|y: int| #[trigger] self.paints(x as int, y) ==> r.0 <= y < r.1,
    {
        match *self {
            Shape::Rect { x: _, y, width: _, height } => (y as i128, y as i128 + height as i128),
            Shape::Circle { cx: _, cy, r } => (cy as i128 - r as i128, cy as i128 + r as i128),
            Shape::Triangle { x1: _, y1, x2: _, y2, x3: _, y3 } => {
                let lo = min_i128(min_i128(y1 as i128, y2 as i128), y3 as i128);
                let hi = max_i128(max_i128(y1 as i128, y2 as i128), y3 as i128);
                (lo, hi)
            },
            Shape::Line { x1, y1, x2, y2 } => {
                if x1 == x2 {
                    if x == x1 {
                        (min_i128(y1 as i128, y2 as i128), max_i128(y1 as i128, y2 as i128))
                    } else {
                        (0, 0)
                    }
                } else if x1 <= x && x < x2 {
                    let a = row_at(x1, y1, x2, y2, x as i64);
                    let b = row_at(x1, y1, x2, y2, x as i64 + 1);
                    (min_i128(a, b), max_i128(a, b))
                } else {
                    (0, 0)
                }
            },
        }
    }

    /// What the shape blends into pixel `(x, y)`, if anything.
    pub(crate) fn pixel_at(&self, color: Pixel, x: i32, y: i32) -> (r: Option<Pixel>)
        ensures
            r == (if self.paints(x as int, y as int) {
                Some(self.ink(color, x as int, y as int))
            } else {
                None
            }),
    {
        match *self {
            Shape::Rect { x: x0, y: y0, width, height } => {
                if x0 as i128 <= x as i128 && (x as i128) < x0 as i128 + width as i128 && y0 as i128
                    <= y as i128 && (y as i128) < y0 as i128 + height as i128 {
                    Some(color)
                } else {
                    None
                }
            },
            Shape::Circle { cx, cy, r } => {
                let dx = x as i128 - cx as i128;
                let dy = y as i128 - cy as i128;
                let rr = r as i128;
                if dx < -rr || dx >= rr || dy < -rr || dy >= rr {
                    return None;
                }
                proof {
                    lemma_mul_bound(dx as int, dx as int, 0x1_0000_0000);
                    lemma_mul_bound(dy as int, dy as int, 0x1_0000_0000);
                    lemma_mul_bound(rr as int, rr as int, 0x1_0000_0000);
                }
                if dx * dx + dy * dy > rr * rr {
                    return None;
                }
                let mut count: u32 = 0;
                if sample_hit(dx, dy, r, 0, 0) {
                    count += 1;
                }
                if sample_hit(dx, dy, r, 0, 1) {
                    count += 1;
                }
                if sample_hit(dx, dy, r, 1, 0) {
                    count += 1;
                }
                if sample_hit(dx, dy, r, 1, 1) {
                    count += 1;
                }
                let alpha = ((count * 255 + 2) / 4) as u8;
                Some(Pixel { alpha, ..color })
            },
            Shape::Triangle { x1, y1, x2, y2, x3, y3 } => {
                let lx = min_i128(min_i128(x1 as i128, x2 as i128), x3 as i128);
                let hx = max_i128(max_i128(x1 as i128, x2 as i128), x3 as i128);
                let ly = min_i128(min_i128(y1 as i128, y2 as i128), y3 as i128);
                let hy = max_i128(max_i128(y1 as i128, y2 as i128), y3 as i128);
                if (x as i128) < lx || x as i128 >= hx || (y as i128) < ly || y as i128 >= hy {
                    return None;
                }
                let s = Canvas::double_trangle_area(x1, y1, x2, y2, x3, y3);
                let s1 = Canvas::double_trangle_area(x, y, x2, y2, x3, y3);
                let s2 = Canvas::double_trangle_area(x1, y1, x, y, x3, y3);
                let s3 = Canvas::double_trangle_area(x1, y1, x2, y2, x, y);
                if s1 + s2 + s3 == s {
                    Some(color)
                } else {
                    None
                }
            },
            Shape::Line { x1, y1, x2, y2 } => {
                if x1 == x2 {
                    let lo = min_i128(y1 as i128, y2 as i128);
                    let hi = max_i128(y1 as i128, y2 as i128);
                    if x == x1 && lo <= y as i128 && (y as i128) < hi {
                        Some(color)
                    } else {
                        None
                    }
                } else if x1 <= x && x < x2 {
                    let a = row_at(x1, y1, x2, y2, x as i64);
                    let b = row_at(x1, y1, x2, y2, x as i64 + 1);
                    if min_i128(a, b) <= y as i128 && (y as i128) < max_i128(a, b) {
                        Some(color)
                    } else {
                        None
                    }
                } else {
                    None
                }
            },
        }
    }
}

} // verus!
