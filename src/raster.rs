//! Glyph coverage bitmaps and their conversion to flat-coloured RGBA pixels.
use vstd::prelude::*;

verus! {

/// An 8-bit RGBA colour.
#[derive(Clone, Copy, Debug, PartialEq, Eq, Structural)]
pub struct Rgba {
    pub r: u8,
    pub g: u8,
    pub b: u8,
    pub a: u8,
}

/// A rasterised glyph: one coverage (alpha) byte per pixel, row by row from
/// the top, with the bitmap's placement relative to the pen position
/// (`left` to the right, `top` upwards from the baseline), in pixels.
#[derive(Debug)]
pub struct GlyphBitmap {
    pub left: i32,
    pub top: i32,
    pub width: u32,
    pub height: u32,
    pub data: Vec<u8>,
}

impl GlyphBitmap {
    /// One coverage byte for each pixel.
    pub open spec fn wf(&self) -> bool {
        self.data@.len() == self.width as int * self.height as int
    }

    /// A bitmap without ink (zero width or zero height) contributes nothing.
    pub open spec fn is_visible(&self) -> bool {
        self.width > 0 && self.height > 0
    }

    /// Whether the coverage data holds exactly one byte per pixel.
    pub fn is_well_formed(&self) -> (r: bool)
        ensures
            r == self.wf(),
    {
        proof {
            let (w, h) = (self.width as int, self.height as int);
            assert(0 <= w * h <= 0xffff_ffff * 0xffff_ffff) by (nonlinear_arith)
                requires
                    0 <= w <= 0xffff_ffff,
                    0 <= h <= 0xffff_ffff,
            ;
        }
        let n: u64 = self.width as u64 * self.height as u64;
        self.data.len() as u64 == n
    }
}

/// Byte `i` of the RGBA buffer that pairs each coverage byte with `c`'s
/// red, green and blue.
pub open spec fn rgba_byte(alpha: Seq<u8>, c: Rgba, i: int) -> u8 {
    if i % 4 == 0 {
        c.r
    } else if i % 4 == 1 {
        c.g
    } else if i % 4 == 2 {
        c.b
    } else {
        alpha[i / 4]
    }
}

/// The RGBA pixels of a coverage bitmap drawn in the flat colour `c`: the
/// colour's red, green and blue, with the coverage as alpha.
pub open spec fn rgba_of(alpha: Seq<u8>, c: Rgba) -> Seq<u8> {
    Seq::new(4 * alpha.len(), |i: int| rgba_byte(alpha, c, i))
}

/// Pairs every coverage byte with the red, green and blue of `color`.
pub fn alpha_to_rgba(alpha: &Vec<u8>, color: Rgba) -> (r: Vec<u8>)
    requires
        4 * alpha@.len() <= usize::MAX,
    ensures
        r@ == rgba_of(alpha@, color),
{
    let mut out: Vec<u8> = Vec::with_capacity(4 * alpha.len());
    let mut i: usize = 0;
    while i < alpha.len()
        invariant
            i <= alpha@.len(),
            4 * alpha@.len() <= usize::MAX,
            out@.len() == 4 * i,
            forall|j: int| 0 <= j < 4 * i ==> out@[j] == rgba_byte(alpha@, color, j),
        decreases alpha@.len() - i,
    {
        out.push(color.r);
        out.push(color.g);
        out.push(color.b);
        out.push(alpha[i]);
        assert forall|j: int| 0 <= j < 4 * (i + 1) implies out@[j] == rgba_byte(alpha@, color, j) by {
            if j >= 4 * i {
                assert(j / 4 == i as int);
            }
        }
        i = i + 1;
    }
    assert(out@ =~= rgba_of(alpha@, color));
    out
}

} // verus!
