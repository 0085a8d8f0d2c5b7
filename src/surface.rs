use vstd::prelude::*;
use crate::pixel::Pixel;
use crate::canvas::Canvas;
use crate::ppm::channel;
use vstd::arithmetic::div_mod::lemma_fundamental_div_mod_converse;

verus! {

/// An image for an 8-bit RGBA encoder: `pixels` row by row.
pub struct Png {
    width: u32,
    height: u32,
    pixels: Vec<Pixel>,
}

impl Png {
    pub closed spec fn width_spec(&self) -> u32 {
        self.width
    }

    pub closed spec fn height_spec(&self) -> u32 {
        self.height
    }

    pub closed spec fn pixels_spec(&self) -> Seq<Pixel> {
        self.pixels@
    }

    /// The image of a canvas view: its pixels as they stand in `store`.
    pub fn from_canvas(canvas: &Canvas, store: &Vec<Pixel>) -> (r: Png)
        requires
            canvas.fits(store@.len() as int),
        ensures
            r.width_spec() == canvas.width,
            r.height_spec() == canvas.height,
            r.pixels_spec() == canvas.snapshot(store@),
    {
        Png { width: canvas.width as u32, height: canvas.height as u32, pixels: canvas.clone_pixels(store) }
    }

    pub fn width(&self) -> (r: u32)
        ensures
            r == self.width_spec(),
    {
        self.width
    }

    pub fn height(&self) -> (r: u32)
        ensures
            r == self.height_spec(),
    {
        self.height
    }

    /// Red, green, blue and alpha of each pixel in turn.
    pub fn rgba_bytes(&self) -> (r: Vec<u8>)
        ensures
            r@ == Seq::new(4 * self.pixels_spec().len(), |k: int| channel(self.pixels_spec()[k / 4], k % 4)),
    {
        let mut out: Vec<u8> = Vec::new();
        let mut i: usize = 0;
        while i < self.pixels.len()
            invariant
                i <= self.pixels@.len(),
                out@.len() == 4 * i,
                forall|k: int| 0 <= k < 4 * i ==> #[trigger] out@[k] == channel(self.pixels@[k / 4], k % 4),
            decreases self.pixels@.len() - i,
        {
            let p = self.pixels[i];
            proof {
                lemma_fundamental_div_mod_converse(4 * i, 4, i as int, 0);
                lemma_fundamental_div_mod_converse(4 * i + 1, 4, i as int, 1);
                lemma_fundamental_div_mod_converse(4 * i + 2, 4, i as int, 2);
                lemma_fundamental_div_mod_converse(4 * i + 3, 4, i as int, 3);
            }
            out.push(p.red);
            out.push(p.green);
            out.push(p.blue);
            out.push(p.alpha);
            i += 1;
        }
        assert(out@ =~= Seq::new(4 * self.pixels@.len(), |k: int| channel(self.pixels@[k / 4], k % 4)));
        out
    }
}

} // verus!
