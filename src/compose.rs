//! Composition of the positioned glyph images of one layer into one atlas.
use vstd::prelude::*;
use vstd::arithmetic::div_mod::{lemma_fundamental_div_mod, lemma_fundamental_div_mod_converse};
use crate::layout::{GlyphImage, ImageModel, Layer, FINE_PER_PIXEL, MAX_BITMAP_SIDE};

verus! {

/// The largest magnitude of a glyph image's offset, in fine units.
pub const MAX_OFFSET: i64 = 0x1000_0000_0000_0000;

/// A composed atlas: the RGBA pixels of one layer of one text, row by row
/// from the top, with the position of its bottom-left corner in fine units.
#[derive(Debug)]
pub struct ComposedAtlas {
    pub x: i64,
    pub y: i64,
    pub layer: Layer,
    pub width: u32,
    pub height: u32,
    pub data: Vec<u8>,
}

/// What an atlas holds.
pub struct AtlasModel {
    pub x: int,
    pub y: int,
    pub layer: Layer,
    pub width: nat,
    pub height: nat,
    pub pixels: Seq<u8>,
}

impl View for ComposedAtlas {
    type V = AtlasModel;

    open spec fn view(&self) -> AtlasModel {
        AtlasModel {
            x: self.x as int,
            y: self.y as int,
            layer: self.layer,
            width: self.width as nat,
            height: self.height as nat,
            pixels: self.data@,
        }
    }
}

/// A glyph image that composition accepts: bounded offsets and size, and
/// four bytes for each pixel.
pub open spec fn image_ok(m: ImageModel) -> bool {
    &&& -MAX_OFFSET <= m.x <= MAX_OFFSET
    &&& -MAX_OFFSET <= m.y <= MAX_OFFSET
    &&& m.width <= MAX_BITMAP_SIDE
    &&& m.height <= MAX_BITMAP_SIDE
    &&& m.pixels.len() == 4 * m.width * m.height
}

/// The images of one layer, in order.
pub open spec fn of_layer(s: Seq<ImageModel>, layer: Layer) -> Seq<ImageModel>
    decreases s.len(),
{
    if s.len() == 0 {
        seq![]
    } else if s.last().layer == layer {
        of_layer(s.drop_last(), layer).push(s.last())
    } else {
        of_layer(s.drop_last(), layer)
    }
}

pub open spec fn seq_min(s: Seq<int>) -> int
    decreases s.len(),
{
    if s.len() == 0 {
        0
    } else if s.len() == 1 {
        s[0]
    } else if s.last() < seq_min(s.drop_last()) {
        s.last()
    } else {
        seq_min(s.drop_last())
    }
}

pub open spec fn seq_max(s: Seq<int>) -> int
    decreases s.len(),
{
    if s.len() == 0 {
        0
    } else if s.len() == 1 {
        s[0]
    } else if s.last() > seq_max(s.drop_last()) {
        s.last()
    } else {
        seq_max(s.drop_last())
    }
}

pub open spec fn lefts(g: Seq<ImageModel>) -> Seq<int> {
    g.map_values(|m: ImageModel| m.x)
}

pub open spec fn rights(g: Seq<ImageModel>) -> Seq<int> {
    g.map_values(|m: ImageModel| m.x + m.width * FINE_PER_PIXEL)
}

pub open spec fn bottoms(g: Seq<ImageModel>) -> Seq<int> {
    g.map_values(|m: ImageModel| m.y)
}

pub open spec fn tops(g: Seq<ImageModel>) -> Seq<int> {
    g.map_values(|m: ImageModel| m.y + m.height * FINE_PER_PIXEL)
}

/// `a / d` rounded up, for `a >= 0`.
pub open spec fn ceil_div(a: int, d: int) -> int {
    (a + d - 1) / d
}

/// `a / d` rounded to the nearest integer, halves up, for `a >= 0`.
pub open spec fn round_div(a: int, d: int) -> int {
    (2 * a + d) / (2 * d)
}

/// The atlas's bounding box: its bottom-left corner in fine units, and its
/// size in whole pixels, rounded up.
pub struct Canvas {
    pub x_min: int,
    pub y_min: int,
    pub width: int,
    pub height: int,
}

pub open spec fn canvas(g: Seq<ImageModel>) -> Canvas {
    Canvas {
        x_min: seq_min(lefts(g)),
        y_min: seq_min(bottoms(g)),
        width: ceil_div(seq_max(rights(g)) - seq_min(lefts(g)), FINE_PER_PIXEL as int),
        height: ceil_div(seq_max(tops(g)) - seq_min(bottoms(g)), FINE_PER_PIXEL as int),
    }
}

/// Whether an atlas of that size can be held: each side in 32 bits, and
/// its bytes in memory.
pub open spec fn fits(c: Canvas) -> bool {
    &&& c.width <= u32::MAX
    &&& c.height <= u32::MAX
    &&& 4 * c.width * c.height <= usize::MAX
}

/// The column of the atlas where image `m` starts.
pub open spec fn dest_x(c: Canvas, m: ImageModel) -> int {
    round_div(m.x - c.x_min, FINE_PER_PIXEL as int)
}

/// The row of the atlas where image `m`'s top row lands. Rows count from
/// the top while offsets grow upwards, so the higher an image, the earlier
/// its rows.
pub open spec fn dest_y(c: Canvas, m: ImageModel) -> int {
    c.height - m.height - round_div(m.y - c.y_min, FINE_PER_PIXEL as int)
}

pub open spec fn pixel_x(c: Canvas, i: int) -> int {
    (i / 4) % c.width
}

pub open spec fn pixel_y(c: Canvas, i: int) -> int {
    (i / 4) / c.width
}

/// The index of byte `k` of source pixel `(sx, sy)` of `m`.
pub open spec fn source_byte(m: ImageModel, sx: int, sy: int, k: int) -> int {
    4 * (sy * m.width + sx) + k
}

/// Whether image `m` holds a pixel with non-zero alpha at atlas pixel
/// `(px, py)`.
pub open spec fn covers(c: Canvas, m: ImageModel, px: int, py: int) -> bool {
    let sx = px - dest_x(c, m);
    let sy = py - dest_y(c, m);
    &&& 0 <= sx < m.width
    &&& 0 <= sy < m.height
    &&& m.pixels[source_byte(m, sx, sy, 3)] != 0
}

/// Byte `i` of the atlas: that of the last image that covers its pixel, or
/// 0 (transparent) where none does.
pub open spec fn atlas_byte(g: Seq<ImageModel>, c: Canvas, i: int) -> u8
    decreases g.len(),
{
    if g.len() == 0 {
        0
    } else {
        let m = g.last();
        let px = pixel_x(c, i);
        let py = pixel_y(c, i);
        if covers(c, m, px, py) {
            m.pixels[source_byte(m, px - dest_x(c, m), py - dest_y(c, m), i % 4)]
        } else {
            atlas_byte(g.drop_last(), c, i)
        }
    }
}

pub open spec fn atlas_pixels(g: Seq<ImageModel>, c: Canvas) -> Seq<u8> {
    Seq::new((4 * c.width * c.height) as nat, |i: int| atlas_byte(g, c, i))
}

/// The atlas of the images `g` of one layer.
pub open spec fn atlas_of(g: Seq<ImageModel>, layer: Layer) -> AtlasModel {
    AtlasModel {
        x: canvas(g).x_min,
        y: canvas(g).y_min,
        layer,
        width: canvas(g).width as nat,
        height: canvas(g).height as nat,
        pixels: atlas_pixels(g, canvas(g)),
    }
}

pub open spec fn views(images: Seq<GlyphImage>) -> Seq<ImageModel> {
    images.map_values(|m: GlyphImage| m@)
}

proof fn lemma_of_layer_ok(s: Seq<ImageModel>, layer: Layer)
    requires
        forall|i: int| 0 <= i < s.len() ==> image_ok(#[trigger] s[i]),
    ensures
        of_layer(s, layer).len() <= s.len(),
        forall|j: int|
            0 <= j < of_layer(s, layer).len() ==> image_ok(#[trigger] of_layer(s, layer)[j])
                && of_layer(s, layer)[j].layer == layer,
    decreases s.len(),
{
    if s.len() > 0 {
        let p = s.drop_last();
        assert forall|i: int| 0 <= i < p.len() implies image_ok(#[trigger] p[i]) by {
            assert(p[i] == s[i]);
        }
        lemma_of_layer_ok(p, layer);
        assert(image_ok(s[s.len() - 1]));
    }
}

proof fn lemma_seq_bounds(s: Seq<int>, lo: int, hi: int)
    requires
        s.len() >= 1,
        forall|i: int| 0 <= i < s.len() ==> lo <= #[trigger] s[i] <= hi,
    ensures
        lo <= seq_min(s) <= hi,
        lo <= seq_max(s) <= hi,
        forall|i: int| 0 <= i < s.len() ==> seq_min(s) <= #[trigger] s[i] <= seq_max(s),
    decreases s.len(),
{
    if s.len() > 1 {
        let p = s.drop_last();
        assert forall|i: int| 0 <= i < p.len() implies lo <= #[trigger] p[i] <= hi by {
            assert(p[i] == s[i]);
        }
        lemma_seq_bounds(p, lo, hi);
        assert forall|i: int| 0 <= i < s.len() implies seq_min(s) <= #[trigger] s[i] <= seq_max(s) by {
            if i < p.len() {
                assert(p[i] == s[i]);
            }
        }
    } else {
        assert(s[0] == s[0]);
    }
}

proof fn lemma_round_fits(a: int, w: int, t: int)
    requires
        0 <= a,
        0 <= w,
        a + w * 8192 <= t,
    ensures
        0 <= round_div(a, 8192),
        round_div(a, 8192) + w <= ceil_div(t, 8192),
{
    assert(0 <= (2 * a + 8192) / 16384 <= (a + 8191) / 8192);
    assert((a + 8191) / 8192 + w == (a + w * 8192 + 8191) / 8192) by {
        lemma_fundamental_div_mod_converse(
            a + w * 8192 + 8191,
            8192,
            (a + 8191) / 8192 + w,
            (a + 8191) % 8192,
        );
    }
    assert((a + w * 8192 + 8191) / 8192 <= (t + 8191) / 8192);
}

proof fn lemma_row_major(row: int, col: int, w: int, h: int)
    requires
        0 <= row < h,
        0 <= col < w,
    ensures
        0 <= row * w + col < w * h,
        4 * (row * w + col) + 3 < 4 * w * h,
{
    assert(0 <= row * w + col < w * h && 4 * (row * w + col) + 3 < 4 * w * h) by (nonlinear_arith)
        requires
            0 <= row < h,
            0 <= col < w,
    ;
}

proof fn lemma_pixel_of(c: Canvas, i: int, px: int, py: int)
    requires
        c.width > 0,
        0 <= i,
        0 <= px < c.width,
        0 <= py,
    ensures
        (i / 4 == py * c.width + px) <==> (pixel_x(c, i) == px && pixel_y(c, i) == py),
{
    lemma_fundamental_div_mod(i / 4, c.width);
    assert(py * c.width == c.width * py) by (nonlinear_arith);
    assert(pixel_y(c, i) * c.width == c.width * pixel_y(c, i)) by (nonlinear_arith);
    if i / 4 == py * c.width + px {
        lemma_fundamental_div_mod_converse(i / 4, c.width, py, px);
    }
}

/// Byte `i` of the atlas while image `m` is being copied over `base`: the
/// source rows before `row`, and the first `col` pixels of `row`, are done.
spec fn partially_painted(c: Canvas, m: ImageModel, base: Seq<u8>, row: int, col: int, i: int) -> u8 {
    let sx = pixel_x(c, i) - dest_x(c, m);
    let sy = pixel_y(c, i) - dest_y(c, m);
    if covers(c, m, pixel_x(c, i), pixel_y(c, i)) && (sy < row || (sy == row && sx < col)) {
        m.pixels[source_byte(m, sx, sy, i % 4)]
    } else {
        base[i]
    }
}

/// Copies the pixels of `img` with non-zero alpha into `data`, at the place
/// that `c` gives it.
fn paint(
    data: &mut Vec<u8>,
    img: &GlyphImage,
    dx: usize,
    dy: usize,
    cw: usize,
    ch: usize,
    Ghost(c): Ghost<Canvas>,
)
    requires
        c.width == cw,
        c.height == ch,
        cw > 0,
        old(data)@.len() == 4 * cw * ch,
        4 * cw * ch <= usize::MAX,
        image_ok(img@),
        dx == dest_x(c, img@),
        dy == dest_y(c, img@),
        dx + img.width <= cw,
        dy + img.height <= ch,
    ensures
        final(data)@.len() == old(data)@.len(),
        forall|i: int|
            0 <= i < old(data)@.len() ==> #[trigger] final(data)@[i] == if covers(
                c,
                img@,
                pixel_x(c, i),
                pixel_y(c, i),
            ) {
                img@.pixels[source_byte(
                    img@,
                    pixel_x(c, i) - dest_x(c, img@),
                    pixel_y(c, i) - dest_y(c, img@),
                    i % 4,
                )]
            } else {
                old(data)@[i]
            },
{
    let ghost base = data@;
    let ghost m = img@;
    assert(m.width * m.height <= 0x1000_0000) by (nonlinear_arith)
        requires
            m.width <= 0x4000,
            m.height <= 0x4000,
    ;
    let w = img.width as usize;
    let h = img.height as usize;
    let mut sy: usize = 0;
    while sy < h
        invariant
            data@.len() == base.len(),
            base.len() == 4 * cw * ch,
            4 * cw * ch <= usize::MAX,
            c.width == cw,
            c.height == ch,
            cw > 0,
            m == img@,
            image_ok(m),
            m.width * m.height <= 0x1000_0000,
            w == m.width,
            h == m.height,
            dx == dest_x(c, m),
            dy == dest_y(c, m),
            dx + w <= cw,
            dy + h <= ch,
            sy <= h,
            forall|i: int|
                0 <= i < base.len() ==> #[trigger] data@[i] == partially_painted(
                    c,
                    m,
                    base,
                    sy as int,
                    0,
                    i,
                ),
        decreases h - sy,
    {
        let mut sx: usize = 0;
        while sx < w
            invariant
                data@.len() == base.len(),
                base.len() == 4 * cw * ch,
                4 * cw * ch <= usize::MAX,
                c.width == cw,
                c.height == ch,
                cw > 0,
                m == img@,
                image_ok(m),
                m.width * m.height <= 0x1000_0000,
                w == m.width,
                h == m.height,
                dx == dest_x(c, m),
                dy == dest_y(c, m),
                dx + w <= cw,
                dy + h <= ch,
                sy < h,
                sx <= w,
                forall|i: int|
                    0 <= i < base.len() ==> #[trigger] data@[i] == partially_painted(
                        c,
                        m,
                        base,
                        sy as int,
                        sx as int,
                        i,
                    ),
            decreases w - sx,
        {
            proof {
                lemma_row_major(sy as int, sx as int, w as int, h as int);
                lemma_row_major((dy + sy) as int, (dx + sx) as int, cw as int, ch as int);
            }
            let si = 4 * (sy * w + sx);
            let q = (dy + sy) * cw + dx + sx;
            let di = 4 * q;
            let ghost prev = data@;
            if img.data[si + 3] != 0 {
                data.set(di, img.data[si]);
                data.set(di + 1, img.data[si + 1]);
                data.set(di + 2, img.data[si + 2]);
                data.set(di + 3, img.data[si + 3]);
            }
            assert forall|i: int| 0 <= i < base.len() implies #[trigger] data@[i]
                == partially_painted(c, m, base, sy as int, sx as int + 1, i) by {
                lemma_pixel_of(c, i, (dx + sx) as int, (dy + sy) as int);
                assert(prev[i] == partially_painted(c, m, base, sy as int, sx as int, i));
                if i / 4 == q as int {
                    assert(source_byte(m, sx as int, sy as int, 3) == si + 3);
                    assert(source_byte(m, sx as int, sy as int, i % 4) == si + i % 4);
                }
            }
            sx = sx + 1;
        }
        assert forall|i: int| 0 <= i < base.len() implies #[trigger] data@[i]
            == partially_painted(c, m, base, sy as int + 1, 0, i) by {
            assert(data@[i] == partially_painted(c, m, base, sy as int, w as int, i));
        }
        sy = sy + 1;
    }
    assert forall|i: int| 0 <= i < base.len() implies #[trigger] data@[i] == if covers(
        c,
        m,
        pixel_x(c, i),
        pixel_y(c, i),
    ) {
        m.pixels[source_byte(m, pixel_x(c, i) - dest_x(c, m), pixel_y(c, i) - dest_y(c, m), i % 4)]
    } else {
        base[i]
    } by {
        assert(data@[i] == partially_painted(c, m, base, h as int, 0, i));
    }
}

proof fn lemma_of_layer_index(s: Seq<ImageModel>, layer: Layer, i: int) -> (j: int)
    requires
        0 <= i < s.len(),
        s[i].layer == layer,
    ensures
        0 <= j < of_layer(s, layer).len(),
        of_layer(s, layer)[j] == s[i],
    decreases s.len(),
{
    let p = s.drop_last();
    if i == s.len() - 1 {
        of_layer(p, layer).len() as int
    } else {
        assert(p[i] == s[i]);
        lemma_of_layer_index(p, layer, i)
    }
}

proof fn lemma_of_layer_step(s: Seq<ImageModel>, layer: Layer, k: int)
    requires
        0 <= k < s.len(),
    ensures
        of_layer(s.take(k + 1), layer) == if s[k].layer == layer {
            of_layer(s.take(k), layer).push(s[k])
        } else {
            of_layer(s.take(k), layer)
        },
{
    assert(s.take(k + 1).drop_last() =~= s.take(k));
    assert(s.take(k + 1).last() == s[k]);
}

/// The bounds of a layer's box, as its images are met one by one.
proof fn lemma_box_step(g: Seq<ImageModel>, m: ImageModel)
    requires
        g.len() >= 1,
    ensures
        seq_min(lefts(g.push(m))) == if m.x < seq_min(lefts(g)) {
            m.x
        } else {
            seq_min(lefts(g))
        },
        seq_max(rights(g.push(m))) == if m.x + m.width * FINE_PER_PIXEL > seq_max(rights(g)) {
            m.x + m.width * FINE_PER_PIXEL
        } else {
            seq_max(rights(g))
        },
        seq_min(bottoms(g.push(m))) == if m.y < seq_min(bottoms(g)) {
            m.y
        } else {
            seq_min(bottoms(g))
        },
        seq_max(tops(g.push(m))) == if m.y + m.height * FINE_PER_PIXEL > seq_max(tops(g)) {
            m.y + m.height * FINE_PER_PIXEL
        } else {
            seq_max(tops(g))
        },
{
    assert(lefts(g.push(m)).drop_last() =~= lefts(g));
    assert(rights(g.push(m)).drop_last() =~= rights(g));
    assert(bottoms(g.push(m)).drop_last() =~= bottoms(g));
    assert(tops(g.push(m)).drop_last() =~= tops(g));
}

proof fn lemma_box_first(m: ImageModel)
    ensures
        seq_min(lefts(seq![m])) == m.x,
        seq_max(rights(seq![m])) == m.x + m.width * FINE_PER_PIXEL,
        seq_min(bottoms(seq![m])) == m.y,
        seq_max(tops(seq![m])) == m.y + m.height * FINE_PER_PIXEL,
{
    assert(lefts(seq![m]) =~= seq![m.x]);
    assert(rights(seq![m]) =~= seq![m.x + m.width * FINE_PER_PIXEL]);
    assert(bottoms(seq![m]) =~= seq![m.y]);
    assert(tops(seq![m]) =~= seq![m.y + m.height * FINE_PER_PIXEL]);
}

/// Where in the atlas a member of the layer lands, and that it lies inside.
proof fn lemma_member_inside(g: Seq<ImageModel>, j: int)
    requires
        0 <= j < g.len(),
        forall|i: int| 0 <= i < g.len() ==> image_ok(#[trigger] g[i]),
    ensures
        0 <= dest_x(canvas(g), g[j]),
        dest_x(canvas(g), g[j]) + g[j].width <= canvas(g).width,
        0 <= dest_y(canvas(g), g[j]),
        dest_y(canvas(g), g[j]) + g[j].height <= canvas(g).height,
        0 <= g[j].x - canvas(g).x_min,
        0 <= g[j].y - canvas(g).y_min,
{
    let m = g[j];
    let bound = MAX_OFFSET + MAX_BITMAP_SIDE * FINE_PER_PIXEL;
    assert forall|i: int| 0 <= i < g.len() implies -bound <= #[trigger] lefts(g)[i] <= bound by {
        assert(image_ok(g[i]));
    }
    assert forall|i: int| 0 <= i < g.len() implies -bound <= #[trigger] rights(g)[i] <= bound by {
        assert(image_ok(g[i]));
    }
    assert forall|i: int| 0 <= i < g.len() implies -bound <= #[trigger] bottoms(g)[i] <= bound by {
        assert(image_ok(g[i]));
    }
    assert forall|i: int| 0 <= i < g.len() implies -bound <= #[trigger] tops(g)[i] <= bound by {
        assert(image_ok(g[i]));
    }
    lemma_seq_bounds(lefts(g), -bound, bound);
    lemma_seq_bounds(rights(g), -bound, bound);
    lemma_seq_bounds(bottoms(g), -bound, bound);
    lemma_seq_bounds(tops(g), -bound, bound);
    assert(lefts(g)[j] == m.x);
    assert(rights(g)[j] == m.x + m.width * FINE_PER_PIXEL);
    assert(bottoms(g)[j] == m.y);
    assert(tops(g)[j] == m.y + m.height * FINE_PER_PIXEL);
    lemma_round_fits(
        m.x - canvas(g).x_min,
        m.width as int,
        seq_max(rights(g)) - seq_min(lefts(g)),
    );
    lemma_round_fits(
        m.y - canvas(g).y_min,
        m.height as int,
        seq_max(tops(g)) - seq_min(bottoms(g)),
    );
}

/// Composes the images of `layer` among `images` into one atlas: their
/// bounding box, rounded out to whole pixels, and over a transparent buffer
/// the pixels with non-zero alpha of each image, later images over earlier
/// ones. `None` where the layer has no image, or its atlas cannot be held.
pub fn compose_glyph_images(images: &Vec<GlyphImage>, layer: Layer) -> (r: Option<ComposedAtlas>)
    requires
        forall|i: int| 0 <= i < images@.len() ==> image_ok(#[trigger] images@[i]@),
    ensures
        ({
            let g = of_layer(views(images@), layer);
            match r {
                None => g.len() == 0 || !fits(canvas(g)),
                Some(a) => g.len() > 0 && fits(canvas(g)) && a@ == atlas_of(g, layer),
            }
        }),
{
    let ghost all = views(images@);
    assert forall|i: int| 0 <= i < all.len() implies image_ok(#[trigger] all[i]) by {
        assert(all[i] == images@[i]@);
    }
    let mut found = false;
    let mut x_min: i64 = 0;
    let mut x_max: i64 = 0;
    let mut y_min: i64 = 0;
    let mut y_max: i64 = 0;
    let mut k: usize = 0;
    assert(all.take(0) =~= Seq::<ImageModel>::empty());
    while k < images.len()
        invariant
            all == views(images@),
            forall|i: int| 0 <= i < all.len() ==> image_ok(#[trigger] all[i]),
            k <= images@.len(),
            found == (of_layer(all.take(k as int), layer).len() > 0),
            found ==> x_min == seq_min(lefts(of_layer(all.take(k as int), layer))),
            found ==> x_max == seq_max(rights(of_layer(all.take(k as int), layer))),
            found ==> y_min == seq_min(bottoms(of_layer(all.take(k as int), layer))),
            found ==> y_max == seq_max(tops(of_layer(all.take(k as int), layer))),
            -MAX_OFFSET <= x_min <= MAX_OFFSET,
            -MAX_OFFSET <= y_min <= MAX_OFFSET,
            -MAX_OFFSET <= x_max <= MAX_OFFSET + 0x800_0000,
            -MAX_OFFSET <= y_max <= MAX_OFFSET + 0x800_0000,
        decreases images@.len() - k,
    {
        let img = &images[k];
        proof {
            lemma_of_layer_step(all, layer, k as int);
            assert(all[k as int] == img@);
            assert(image_ok(all[k as int]));
        }
        if img.layer == layer {
            let ghost gk = of_layer(all.take(k as int), layer);
            let right = img.offset_x + img.width as i64 * FINE_PER_PIXEL;
            let top = img.offset_y + img.height as i64 * FINE_PER_PIXEL;
            if !found {
                x_min = img.offset_x;
                x_max = right;
                y_min = img.offset_y;
                y_max = top;
                found = true;
                proof {
                    assert(gk.push(img@) =~= seq![img@]);
                    lemma_box_first(img@);
                }
            } else {
                if img.offset_x < x_min {
                    x_min = img.offset_x;
                }
                if right > x_max {
                    x_max = right;
                }
                if img.offset_y < y_min {
                    y_min = img.offset_y;
                }
                if top > y_max {
                    y_max = top;
                }
                proof {
                    lemma_box_step(gk, img@);
                }
            }
        }
        k = k + 1;
    }
    assert(all.take(images@.len() as int) =~= all);
    let ghost g = of_layer(all, layer);
    if !found {
        return None;
    }
    let ghost c = canvas(g);
    proof {
        lemma_of_layer_ok(all, layer);
        lemma_member_inside(g, 0);
    }
    let span_x = x_max - x_min;
    let span_y = y_max - y_min;
    let cw64 = (span_x + FINE_PER_PIXEL - 1) / FINE_PER_PIXEL;
    let ch64 = (span_y + FINE_PER_PIXEL - 1) / FINE_PER_PIXEL;
    if cw64 > 0xFFFF_FFFF || ch64 > 0xFFFF_FFFF {
        return None;
    }
    proof {
        assert(cw64 * ch64 <= 0xFFFF_FFFF * 0xFFFF_FFFF) by (nonlinear_arith)
            requires
                0 <= cw64 <= 0xFFFF_FFFF,
                0 <= ch64 <= 0xFFFF_FFFF,
        ;
    }
    let n_bytes: u128 = 4 * ((cw64 as u128) * (ch64 as u128));
    assert(4 * (cw64 * ch64) == 4 * cw64 * ch64) by (nonlinear_arith);
    if n_bytes > usize::MAX as u128 {
        return None;
    }
    let cw = cw64 as usize;
    let ch = ch64 as usize;
    let n = n_bytes as usize;
    assert(n == 4 * c.width * c.height);
    let mut data: Vec<u8> = Vec::with_capacity(n);
    let mut z: usize = 0;
    while z < n
        invariant
            z <= n,
            data@.len() == z,
            forall|i: int| 0 <= i < z ==> #[trigger] data@[i] == 0u8,
        decreases n - z,
    {
        data.push(0);
        z = z + 1;
    }
    assert(data@ =~= atlas_pixels(of_layer(all.take(0), layer), c));
    if cw > 0 && ch > 0 {
        k = 0;
        while k < images.len()
            invariant
                all == views(images@),
                forall|i: int| 0 <= i < all.len() ==> image_ok(#[trigger] all[i]),
                forall|j: int| 0 <= j < g.len() ==> image_ok(#[trigger] g[j]),
                g == of_layer(all, layer),
                c == canvas(g),
                c.x_min == x_min,
                c.y_min == y_min,
                -MAX_OFFSET <= x_min <= MAX_OFFSET,
                -MAX_OFFSET <= y_min <= MAX_OFFSET,
                c.width == cw,
                c.height == ch,
                cw > 0,
                n == 4 * cw * ch,
                n <= usize::MAX,
                k <= images@.len(),
                data@ == atlas_pixels(of_layer(all.take(k as int), layer), c),
            decreases images@.len() - k,
        {
            let img = &images[k];
            proof {
                lemma_of_layer_step(all, layer, k as int);
                assert(all[k as int] == img@);
            }
            if img.layer == layer {
                let ghost gk = of_layer(all.take(k as int), layer);
                let ghost before = data@;
                proof {
                    let j = lemma_of_layer_index(all, layer, k as int);
                    lemma_member_inside(g, j);
                }
                let dx = ((2 * (img.offset_x - x_min) + FINE_PER_PIXEL) / (2 * FINE_PER_PIXEL)) as usize;
                let rise = ((2 * (img.offset_y - y_min) + FINE_PER_PIXEL) / (2 * FINE_PER_PIXEL)) as usize;
                let dy = ch - img.height as usize - rise;
                paint(&mut data, img, dx, dy, cw, ch, Ghost(c));
                proof {
                    assert forall|i: int| 0 <= i < n implies #[trigger] data@[i] == atlas_byte(
                        gk.push(img@),
                        c,
                        i,
                    ) by {
                        assert(gk.push(img@).drop_last() =~= gk);
                    }
                    assert(data@ =~= atlas_pixels(gk.push(img@), c));
                }
            }
            k = k + 1;
        }
        assert(all.take(images@.len() as int) =~= all);
    } else {
        assert(4 * c.width * c.height == 0) by (nonlinear_arith)
            requires
                c.width == 0 || c.height == 0,
        ;
        assert(data@ =~= atlas_pixels(g, c));
    }
    Some(ComposedAtlas { x: x_min, y: y_min, layer, width: cw as u32, height: ch as u32, data })
}

/// A layer of a single image: its atlas has that image's corner and exactly
/// its size.
pub proof fn lemma_single_image_atlas(m: ImageModel, layer: Layer)
    requires
        m.layer == layer,
    ensures
        of_layer(seq![m], layer) == seq![m],
        atlas_of(seq![m], layer).x == m.x,
        atlas_of(seq![m], layer).y == m.y,
        atlas_of(seq![m], layer).width == m.width,
        atlas_of(seq![m], layer).height == m.height,
{
    assert(seq![m].drop_last() =~= Seq::<ImageModel>::empty());
    assert(of_layer(seq![m].drop_last(), layer) =~= Seq::<ImageModel>::empty());
    assert(of_layer(seq![m], layer) =~= seq![m]);
    lemma_box_first(m);
    lemma_fundamental_div_mod_converse(m.width as int * 8192 + 8191, 8192, m.width as int, 8191);
    lemma_fundamental_div_mod_converse(m.height as int * 8192 + 8191, 8192, m.height as int, 8191);
}

} // verus!
