use vstd::prelude::*;

verus! {

/// One RGBA color cell, eight bits per channel, straight (not premultiplied) alpha.
#[derive(Debug, Clone, Copy, PartialEq, Eq, Structural)]
pub struct Pixel {
    pub red: u8,
    pub green: u8,
    pub blue: u8,
    pub alpha: u8,
}

/// Moves `dst` toward `src` by the weight `alpha / 255`, truncating.
pub open spec fn blend_channel_spec(dst: u8, src: u8, alpha: u8) -> u8 {
    ((dst * (255 - alpha) + src * alpha) / 255) as u8
}

/// The color that blending `src` over `dst` leaves: red, green and blue move
/// toward `src`'s channels, alpha moves toward 255, all at the rate `src.alpha`.
pub open spec fn blend_spec(dst: Pixel, src: Pixel) -> Pixel {
    Pixel {
        red: blend_channel_spec(dst.red, src.red, src.alpha),
        green: blend_channel_spec(dst.green, src.green, src.alpha),
        blue: blend_channel_spec(dst.blue, src.blue, src.alpha),
        alpha: blend_channel_spec(dst.alpha, 255, src.alpha),
    }
}

/// The packed form of a color: red in the lowest byte, alpha in the highest.
pub open spec fn pack_spec(p: Pixel) -> u32 {
    (p.red + 0x100 * p.green + 0x1_0000 * p.blue + 0x100_0000 * p.alpha) as u32
}

/// The color that a packed integer stands for.
pub open spec fn unpack_spec(c: u32) -> Pixel {
    Pixel {
        red: (c % 0x100) as u8,
        green: ((c / 0x100) % 0x100) as u8,
        blue: ((c / 0x1_0000) % 0x100) as u8,
        alpha: (c / 0x100_0000) as u8,
    }
}

proof fn lemma_channel_bound(dst: u8, src: u8, alpha: u8)
    ensures
        0 <= dst * (255 - alpha) + src * alpha <= 255 * 255,
{
    assert(0 <= dst * (255 - alpha) + src * alpha <= 255 * 255) by (nonlinear_arith)
        requires
            0 <= dst <= 255,
            0 <= src <= 255,
            0 <= alpha <= 255,
    ;
}

impl Pixel {
    /// The color that a packed integer stands for.
    pub open spec fn from_u32_spec(color: u32) -> Pixel {
        unpack_spec(color)
    }

    fn blend_channel(val_1: u8, val_2: u8, alpha: u8) -> (r: u8)
        ensures
            r == blend_channel_spec(val_1, val_2, alpha),
    {
        proof {
            lemma_channel_bound(val_1, val_2, alpha);
        }
        let a = alpha as u32;
        let val = (val_1 as u32 * (255 - a) + val_2 as u32 * a) / 255;
        val as u8
    }

    /// Blends `other` over this color in place.
    pub fn blend(&mut self, other: &Pixel)
        ensures
            *final(self) == blend_spec(*old(self), *other),
    {
        self.red = Self::blend_channel(self.red, other.red, other.alpha);
        self.green = Self::blend_channel(self.green, other.green, other.alpha);
        self.blue = Self::blend_channel(self.blue, other.blue, other.alpha);
        self.alpha = Self::blend_channel(self.alpha, 255, other.alpha);
    }

    /// The color that a packed integer stands for.
    pub fn from_u32(color: u32) -> (r: Pixel)
        ensures
            r == unpack_spec(color),
    {
        proof {
            assert(color & 0xff == color % 0x100) by (bit_vector);
            assert((color >> 8) & 0xff == (color / 0x100) % 0x100) by (bit_vector);
            assert((color >> 16) & 0xff == (color / 0x1_0000) % 0x100) by (bit_vector);
            assert((color >> 24) & 0xff == color / 0x100_0000) by (bit_vector);
        }
        Pixel {
            red: (color & 0xff) as u8,
            green: ((color >> 8) & 0xff) as u8,
            blue: ((color >> 16) & 0xff) as u8,
            alpha: ((color >> 24) & 0xff) as u8,
        }
    }

    /// The packed form of this color.
    pub fn to_u32(self) -> (r: u32)
        ensures
            r == pack_spec(self),
    {
        let r = self.red as u32;
        let g = self.green as u32;
        let b = self.blue as u32;
        let a = self.alpha as u32;
        proof {
            assert(r < 0x100 && g < 0x100 && b < 0x100 && a < 0x100 ==> (a << 24) | (b << 16) | (g
                << 8) | r == r + 0x100 * g + 0x1_0000 * b + 0x100_0000 * a) by (bit_vector);
        }
        (a << 24) | (b << 16) | (g << 8) | r
    }
}

impl From<u32> for Pixel {
    fn from(color: u32) -> (r: Pixel)
        ensures
            r == unpack_spec(color),
    {
        Pixel::from_u32(color)
    }
}

impl vstd::std_specs::convert::FromSpecImpl<u32> for Pixel {
    open spec fn obeys_from_spec() -> bool {
        true
    }

    open spec fn from_spec(color: u32) -> Pixel {
        unpack_spec(color)
    }
}

/// Blending a fully opaque color replaces the destination; blending a fully
/// transparent one leaves it as it was.
pub proof fn lemma_blend_opaque_transparent(dst: Pixel, src: Pixel)
    ensures
        src.alpha == 255 ==> blend_spec(dst, src) == src,
        src.alpha == 0 ==> blend_spec(dst, src) == dst,
{
}

/// Packing and unpacking are inverse to each other.
pub proof fn lemma_pack_unpack(p: Pixel, c: u32)
    ensures
        unpack_spec(pack_spec(p)) == p,
        pack_spec(unpack_spec(c)) == c,
{
    let r = p.red as u32;
    let g = p.green as u32;
    let b = p.blue as u32;
    let a = p.alpha as u32;
    assert(r < 0x100 && g < 0x100 && b < 0x100 && a < 0x100 ==> {
        let v = r + 0x100 * g + 0x1_0000 * b + 0x100_0000 * a;
        &&& v % 0x100 == r
        &&& (v / 0x100) % 0x100 == g
        &&& (v / 0x1_0000) % 0x100 == b
        &&& v / 0x100_0000 == a
    }) by (bit_vector);
    assert(c % 0x100 + 0x100 * ((c / 0x100) % 0x100) + 0x1_0000 * ((c / 0x1_0000) % 0x100)
        + 0x100_0000 * (c / 0x100_0000) == c) by (bit_vector);
}

} // verus!
