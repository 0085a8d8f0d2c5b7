use vstd::prelude::*;
use crate::pixel::Pixel;
use crate::canvas::{Canvas, lemma_index_of};
use vstd::arithmetic::div_mod::lemma_fundamental_div_mod_converse;

verus! {

/// An image in the binary portable-pixmap layout: `pixels` row by row,
/// `width * height` of them.
pub struct PPM {
    pub width: usize,
    pub height: usize,
    pub max_color: usize,
    pub pixels: Vec<Pixel>,
}

/// The decimal digits of `n` in ASCII, most significant first.
pub open spec fn decimal(n: nat) -> Seq<u8>
    decreases n,
{
    if n < 10 {
        seq![(48 + n) as u8]
    } else {
        decimal(n / 10).push((48 + n % 10) as u8)
    }
}

/// Channel `c` of a pixel: red, green, blue for 0, 1, 2.
pub open spec fn channel(p: Pixel, c: int) -> u8 {
    if c == 0 {
        p.red
    } else if c == 1 {
        p.green
    } else if c == 2 {
        p.blue
    } else {
        p.alpha
    }
}

/// Appends the decimal digits of `n` to `out`.
fn push_decimal(out: &mut Vec<u8>, n: usize)
    ensures
        final(out)@ == old(out)@ + decimal(n as nat),
    decreases n,
{
    if n >= 10 {
        push_decimal(out, n / 10);
    }
    out.push(48u8 + (n % 10) as u8);
    proof {
        assert(final(out)@ =~= old(out)@ + decimal(n as nat));
    }
}

impl PPM {
    pub open spec fn wf(self) -> bool {
        self.pixels@.len() == self.width * self.height
    }

    /// The header line: the magic `P6`, then width, height and largest channel value.
    pub open spec fn header(self) -> Seq<u8> {
        seq![80u8, 54u8, 10u8] + decimal(self.width as nat) + seq![32u8] + decimal(
            self.height as nat,
        ) + seq![32u8] + decimal(self.max_color as nat) + seq![10u8]
    }

    /// The pixel bytes: red, green, blue of each pixel, column by column
    /// (every row of column 0 first, then column 1, and so on).
    pub open spec fn body(self) -> Seq<u8> {
        Seq::new(
            (3 * (self.width * self.height)) as nat,
            |k: int|
                {
                    let j = k / 3;
                    let row = j % (self.height as int);
                    let col = j / (self.height as int);
                    channel(self.pixels@[row * self.width + col], k % 3)
                },
        )
    }

    /// The image of a canvas view: its pixels as they stand in `store`, with
    /// channels up to 255.
    pub fn from_canvas(canvas: &Canvas, store: &Vec<Pixel>) -> (r: PPM)
        requires
            canvas.fits(store@.len() as int),
        ensures
            r.width == canvas.width,
            r.height == canvas.height,
            r.max_color == 255,
            r.pixels@ == canvas.snapshot(store@),
            r.wf(),
    {
        PPM { width: canvas.width, height: canvas.height, max_color: 255, pixels: canvas.clone_pixels(store) }
    }

    /// The file's bytes: the header, then the pixel bytes.
    pub fn encode(&self) -> (r: Vec<u8>)
        requires
            self.wf(),
        ensures
            r@ == self.header() + self.body(),
    {
        let mut out: Vec<u8> = Vec::new();
        out.push(80u8);
        out.push(54u8);
        out.push(10u8);
        push_decimal(&mut out, self.width);
        out.push(32u8);
        push_decimal(&mut out, self.height);
        out.push(32u8);
        push_decimal(&mut out, self.max_color);
        out.push(10u8);
        assert(out@ =~= self.header());
        let ghost hl = out@.len();
        let h = self.height;
        let n = self.pixels.len();
        assert(3 * (0 * h) == 0);
        let mut col: usize = 0;
        while col < self.width
            invariant
                self.wf(),
                h == self.height,
                n == self.pixels@.len(),
                col <= self.width,
                hl == self.header().len(),
                out@.len() == hl + 3 * (col * h),
                out@.subrange(0, hl as int) == self.header(),
                forall|k: int| 0 <= k < 3 * (col * h) ==> #[trigger] out@[hl + k] == self.body()[k],
            decreases self.width - col,
        {
            let mut row: usize = 0;
            while row < h
                invariant
                    self.wf(),
                    h == self.height,
                    n == self.pixels@.len(),
                    col < self.width,
                    row <= h,
                    hl == self.header().len(),
                    out@.len() == hl + 3 * (col * h + row),
                    out@.subrange(0, hl as int) == self.header(),
                    forall|k: int| 0 <= k < 3 * (col * h + row) ==> #[trigger] out@[hl + k] == self.body()[k],
                decreases h - row,
            {
                let ghost j = col * h + row;
                proof {
                    assert(row * self.width + col < self.width * h) by (nonlinear_arith)
                        requires
                            row < h,
                            col < self.width,
                    ;
                    assert(col * h + row < self.width * h) by (nonlinear_arith)
                        requires
                            row < h,
                            col < self.width,
                    ;
                    lemma_fundamental_div_mod_converse(j, h as int, col as int, row as int);
                    lemma_fundamental_div_mod_converse(3 * j, 3, j, 0);
                    lemma_fundamental_div_mod_converse(3 * j + 1, 3, j, 1);
                    lemma_fundamental_div_mod_converse(3 * j + 2, 3, j, 2);
                    assert(3 * j + 2 < 3 * (self.width * self.height));
                }
                let p = self.pixels[row * self.width + col];
                let ghost prev = out@;
                out.push(p.red);
                out.push(p.green);
                out.push(p.blue);
                proof {
                    assert(self.body()[3 * j] == p.red);
                    assert(self.body()[3 * j + 1] == p.green);
                    assert(self.body()[3 * j + 2] == p.blue);
                    assert forall|k: int| 0 <= k < 3 * (col * h + row + 1) implies #[trigger] out@[hl + k] == self.body()[k] by {
                        if k < 3 * j {
                            assert(out@[hl + k] == prev[hl + k]);
                        }
                    }
                }
                row += 1;
            }
            proof {
                assert(col * h + h == (col + 1) * h) by (nonlinear_arith);
            }
            col += 1;
        }
        proof {
            assert forall|i: int| 0 <= i < out@.len() implies #[trigger] out@[i] == (self.header() + self.body())[i] by {
                if i < hl {
                    assert(out@[i] == out@.subrange(0, hl as int)[i]);
                } else {
                    assert(out@[hl + (i - hl)] == self.body()[i - hl]);
                }
            }
        }
        assert(out@ =~= self.header() + self.body());
        out
    }
}

/// Reading a canvas back from its encoded image: after the header, the three
/// bytes at `3 * (x * height + y)` are the red, green and blue of the view's
/// pixel `(x, y)` as it stands in the store.
pub proof fn lemma_encoding_reads_back(canvas: Canvas, store: Seq<Pixel>, image: PPM, x: int, y: int)
    requires
        canvas.fits(store.len() as int),
        canvas.in_view(x, y),
        image.width == canvas.width,
        image.height == canvas.height,
        image.pixels@ == canvas.snapshot(store),
    ensures
        ({
            let bytes = image.header() + image.body();
            let at = image.header().len() + 3 * (x * canvas.height + y);
            let p = store[canvas.index_of(x, y)];
            &&& bytes.subrange(0, image.header().len() as int) == image.header()
            &&& bytes[at] == p.red
            &&& bytes[at + 1] == p.green
            &&& bytes[at + 2] == p.blue
        }),
{
    let h = canvas.height as int;
    let w = canvas.width as int;
    let j = x * h + y;
    lemma_index_of(canvas, x, y);
    assert(y * w + x < w * h && x * h + y < w * h) by (nonlinear_arith)
        requires
            0 <= x < w,
            0 <= y < h,
    ;
    assert(0 <= y * w && 0 <= x * h) by (nonlinear_arith)
        requires
            0 <= x,
            0 <= y,
            0 <= w,
            0 <= h,
    ;
    lemma_fundamental_div_mod_converse(j, h, x, y);
    lemma_fundamental_div_mod_converse(y * w + x, w, y, x);
    lemma_fundamental_div_mod_converse(3 * j, 3, j, 0);
    lemma_fundamental_div_mod_converse(3 * j + 1, 3, j, 1);
    lemma_fundamental_div_mod_converse(3 * j + 2, 3, j, 2);
    assert(3 * j + 2 < 3 * (w * h));
    let bytes = image.header() + image.body();
    assert(bytes.subrange(0, image.header().len() as int) =~= image.header());
}

} // verus!
