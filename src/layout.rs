//! Line layout: places the rasterised glyphs of a shaped, multi-section text
//! on lines, justifies each line and offsets the whole box by its anchor.
//!
//! Lengths that come from shaping (advances, font metrics) are in subpixels,
//! `SUBPIXELS_PER_PIXEL` to a pixel; glyph placements are in whole pixels.
//! Anchors are in units of `1 / ANCHOR_ONE`. The positions produced here are
//! exact, in fine units: `FINE_PER_SUBPIXEL` to a subpixel, so that halving a
//! width and scaling it by an anchor never rounds.
use vstd::prelude::*;
use crate::raster::{Rgba, GlyphBitmap, rgba_of, alpha_to_rgba};
use crate::compose::image_ok;

verus! {

pub const SUBPIXELS_PER_PIXEL: i64 = 64;

/// The anchor value that stands for 1.
pub const ANCHOR_ONE: i64 = 64;

/// Fine units to a subpixel: twice `ANCHOR_ONE`.
pub const FINE_PER_SUBPIXEL: i64 = 128;

/// Fine units to a pixel.
pub const FINE_PER_PIXEL: i64 = 8192;

/// The largest number of layout items one text may hold.
pub const MAX_ITEMS: usize = 1048576;

/// The largest magnitude of an advance or of a font metric, in subpixels.
pub const MAX_LENGTH: i64 = 16777216;

/// The largest width or height of one glyph bitmap, in pixels.
pub const MAX_BITMAP_SIDE: u32 = 16384;

/// How a section's glyphs are outlined. The stroke width is in subpixels.
#[derive(Clone, Copy, Debug, PartialEq, Eq, Structural)]
pub enum OutlineStyle {
    NoOutline,
    Outline { width: u32, color: Rgba },
}

/// A run of text that shares one fill colour and one outline style.
#[derive(Debug)]
pub struct OutlinedTextSection {
    pub value: String,
    pub color: Rgba,
    pub outline: OutlineStyle,
}

/// Horizontal alignment of each line within the text's width.
#[derive(Clone, Copy, Debug, PartialEq, Eq, Structural)]
pub enum JustifyOutlinedText {
    Left,
    Center,
    Right,
}

/// A multi-section styled text.
#[derive(Debug)]
pub struct OutlinedText {
    pub sections: Vec<OutlinedTextSection>,
    pub justify: JustifyOutlinedText,
}

/// One shaped glyph: the section it belongs to, its advance in subpixels,
/// and its rasterised fill and stroked outline (`None` where the rasteriser
/// produced nothing for it).
#[derive(Debug)]
pub struct ShapedGlyph {
    pub section: usize,
    pub advance: i64,
    pub fill: Option<GlyphBitmap>,
    pub outline: Option<GlyphBitmap>,
}

/// The shaped stream, in shaping order: a newline cluster is a `LineBreak`
/// followed by that cluster's glyphs.
#[derive(Debug)]
pub enum LayoutItem {
    LineBreak,
    Glyph(ShapedGlyph),
}

/// Vertical font metrics at the shaped size, in subpixels.
#[derive(Clone, Copy, Debug, PartialEq, Eq, Structural)]
pub struct FontMetrics {
    pub ascent: i64,
    pub descent: i64,
    pub leading: i64,
}

/// Which point of the text's box sits at the entity's position, each axis
/// from `-ANCHOR_ONE` to `ANCHOR_ONE`; `(0, 0)` is the centre.
#[derive(Clone, Copy, Debug, PartialEq, Eq, Structural)]
pub struct TextAnchor {
    pub x: i64,
    pub y: i64,
}

/// The z-layer of a glyph image: fills are drawn over outlines.
#[derive(Clone, Copy, Debug, PartialEq, Eq, Structural)]
pub enum Layer {
    Fill,
    Outline,
}

impl Layer {
    pub open spec fn spec_z(self) -> int {
        match self {
            Layer::Fill => 0,
            Layer::Outline => -1,
        }
    }

    /// The layer's depth: 0 for fills, below 0 for outlines.
    pub fn z_layer(&self) -> (r: i32)
        ensures
            r == self.spec_z(),
    {
        match self {
            Layer::Fill => 0,
            Layer::Outline => -1,
        }
    }
}

/// A positioned RGBA glyph image; the offset is that of its bottom-left
/// corner, in fine units.
#[derive(Debug)]
pub struct GlyphImage {
    pub offset_x: i64,
    pub offset_y: i64,
    pub layer: Layer,
    pub width: u32,
    pub height: u32,
    pub data: Vec<u8>,
}

/// What a glyph image holds.
pub struct ImageModel {
    pub x: int,
    pub y: int,
    pub layer: Layer,
    pub width: nat,
    pub height: nat,
    pub pixels: Seq<u8>,
}

impl View for GlyphImage {
    type V = ImageModel;

    open spec fn view(&self) -> ImageModel {
        ImageModel {
            x: self.offset_x as int,
            y: self.offset_y as int,
            layer: self.layer,
            width: self.width as nat,
            height: self.height as nat,
            pixels: self.data@,
        }
    }
}

pub open spec fn is_break(item: LayoutItem) -> bool {
    item is LineBreak
}

pub open spec fn advance_of(item: LayoutItem) -> int {
    match item {
        LayoutItem::Glyph(g) => g.advance as int,
        LayoutItem::LineBreak => 0,
    }
}

/// The width of each line of the stream: the sum of the advances since the
/// previous line break. There is always a last line, possibly empty.
pub open spec fn line_widths(items: Seq<LayoutItem>) -> Seq<int>
    decreases items.len(),
{
    if items.len() == 0 {
        seq![0int]
    } else {
        let prev = line_widths(items.drop_last());
        if is_break(items.last()) {
            prev.push(0)
        } else {
            prev.update(prev.len() - 1, prev.last() + advance_of(items.last()))
        }
    }
}

/// The largest of the widths, and 0 if none is positive.
pub open spec fn widest(ws: Seq<int>) -> int
    decreases ws.len(),
{
    if ws.len() == 0 {
        0
    } else if ws.last() > widest(ws.drop_last()) {
        ws.last()
    } else {
        widest(ws.drop_last())
    }
}

/// The pen position before item `k`.
pub open spec fn cursor(items: Seq<LayoutItem>, k: int) -> int {
    line_widths(items.take(k)).last()
}

/// The line that item `k` stands on, counted from the first.
pub open spec fn line_of(items: Seq<LayoutItem>, k: int) -> int {
    line_widths(items.take(k)).len() - 1
}

pub open spec fn text_width(items: Seq<LayoutItem>) -> int {
    widest(line_widths(items))
}

pub open spec fn line_height(m: FontMetrics) -> int {
    m.ascent + m.descent + m.leading
}

pub open spec fn text_height(items: Seq<LayoutItem>, m: FontMetrics) -> int {
    m.ascent + m.descent + (line_widths(items).len() - 1) * line_height(m)
}

/// The anchor's offset of the box along one axis, in fine units:
/// `-a * extent - extent / 2` with `a = anchor / ANCHOR_ONE`.
pub open spec fn anchor_offset(anchor: int, extent: int) -> int {
    -((2 * anchor + ANCHOR_ONE) * extent)
}

/// A line's justification padding, in fine units.
pub open spec fn padding(justify: JustifyOutlinedText, text_w: int, line_w: int) -> int {
    match justify {
        JustifyOutlinedText::Left => 0,
        JustifyOutlinedText::Center => (text_w - line_w) * ANCHOR_ONE,
        JustifyOutlinedText::Right => (text_w - line_w) * FINE_PER_SUBPIXEL,
    }
}

/// What the placement of every glyph of one text depends on.
pub struct Frame {
    pub widths: Seq<int>,
    pub text_width: int,
    pub line_height: int,
    pub descent: int,
    pub anchor_x: int,
    pub anchor_y: int,
    pub justify: JustifyOutlinedText,
}

pub open spec fn frame(
    items: Seq<LayoutItem>,
    m: FontMetrics,
    anchor: TextAnchor,
    justify: JustifyOutlinedText,
) -> Frame {
    Frame {
        widths: line_widths(items),
        text_width: text_width(items),
        line_height: line_height(m),
        descent: m.descent as int,
        anchor_x: anchor_offset(anchor.x as int, text_width(items)),
        anchor_y: anchor_offset(anchor.y as int, text_height(items, m)),
        justify,
    }
}

/// The final horizontal position, in fine units, of a bitmap placed `left`
/// pixels right of the pen at `x` on line `line`.
pub open spec fn final_x(f: Frame, x: int, left: int, line: int) -> int {
    (x + left * SUBPIXELS_PER_PIXEL) * FINE_PER_SUBPIXEL + f.anchor_x + padding(
        f.justify,
        f.text_width,
        f.widths[line],
    )
}

/// The final vertical position, in fine units, of the bottom of a bitmap of
/// `height` pixels whose top is `top` pixels above the baseline, on line
/// `line`; the first line is the highest.
pub open spec fn final_y(f: Frame, top: int, height: int, line: int) -> int {
    (f.descent - height * SUBPIXELS_PER_PIXEL + top * SUBPIXELS_PER_PIXEL) * FINE_PER_SUBPIXEL
        + f.anchor_y + (f.widths.len() - 1 - line) * f.line_height * FINE_PER_SUBPIXEL
}

pub open spec fn placed(
    b: GlyphBitmap,
    layer: Layer,
    color: Rgba,
    f: Frame,
    x: int,
    line: int,
) -> ImageModel {
    ImageModel {
        x: final_x(f, x, b.left as int, line),
        y: final_y(f, b.top as int, b.height as int, line),
        layer,
        width: b.width as nat,
        height: b.height as nat,
        pixels: rgba_of(b.data@, color),
    }
}

/// The stroked outline of glyph `g`, where its section asks for one and the
/// bitmap has ink.
pub open spec fn outline_images(
    g: ShapedGlyph,
    sections: Seq<OutlinedTextSection>,
    f: Frame,
    x: int,
    line: int,
) -> Seq<ImageModel> {
    match sections[g.section as int].outline {
        OutlineStyle::Outline { width, color } => match g.outline {
            Some(b) => if b.is_visible() {
                seq![placed(b, Layer::Outline, color, f, x, line)]
            } else {
                seq![]
            },
            None => seq![],
        },
        OutlineStyle::NoOutline => seq![],
    }
}

/// The fill of glyph `g`, where the bitmap has ink.
pub open spec fn fill_images(
    g: ShapedGlyph,
    sections: Seq<OutlinedTextSection>,
    f: Frame,
    x: int,
    line: int,
) -> Seq<ImageModel> {
    match g.fill {
        Some(b) => if b.is_visible() {
            seq![placed(b, Layer::Fill, sections[g.section as int].color, f, x, line)]
        } else {
            seq![]
        },
        None => seq![],
    }
}

pub open spec fn item_images(
    item: LayoutItem,
    sections: Seq<OutlinedTextSection>,
    f: Frame,
    x: int,
    line: int,
) -> Seq<ImageModel> {
    match item {
        LayoutItem::Glyph(g) => outline_images(g, sections, f, x, line) + fill_images(
            g,
            sections,
            f,
            x,
            line,
        ),
        LayoutItem::LineBreak => seq![],
    }
}

/// The images of the first `k` items, in glyph order.
pub open spec fn images_upto(
    items: Seq<LayoutItem>,
    sections: Seq<OutlinedTextSection>,
    f: Frame,
    k: int,
) -> Seq<ImageModel>
    decreases k,
{
    if k <= 0 {
        seq![]
    } else {
        images_upto(items, sections, f, k - 1) + item_images(
            items[k - 1],
            sections,
            f,
            cursor(items, k - 1),
            line_of(items, k - 1),
        )
    }
}

/// Every positioned glyph image of a text, outline before fill for each glyph.
pub open spec fn laid_out(
    sections: Seq<OutlinedTextSection>,
    justify: JustifyOutlinedText,
    items: Seq<LayoutItem>,
    m: FontMetrics,
    anchor: TextAnchor,
) -> Seq<ImageModel> {
    images_upto(items, sections, frame(items, m, anchor, justify), items.len() as int)
}

pub open spec fn bitmap_ok(b: GlyphBitmap) -> bool {
    &&& b.wf()
    &&& b.width <= MAX_BITMAP_SIDE
    &&& b.height <= MAX_BITMAP_SIDE
}

pub open spec fn item_ok(item: LayoutItem, n_sections: int) -> bool {
    match item {
        LayoutItem::Glyph(g) => {
            &&& g.section < n_sections
            &&& -MAX_LENGTH <= g.advance <= MAX_LENGTH
            &&& (g.fill matches Some(b) ==> bitmap_ok(b))
            &&& (g.outline matches Some(b) ==> bitmap_ok(b))
        },
        LayoutItem::LineBreak => true,
    }
}

/// What layout asks of its inputs: glyphs of existing sections, well-formed
/// bitmaps, and lengths that keep every position within 64 bits.
pub open spec fn layout_input_ok(
    n_sections: int,
    items: Seq<LayoutItem>,
    m: FontMetrics,
    anchor: TextAnchor,
) -> bool {
    &&& items.len() <= MAX_ITEMS
    &&& forall|k: int| 0 <= k < items.len() ==> item_ok(#[trigger] items[k], n_sections)
    &&& -MAX_LENGTH <= m.ascent <= MAX_LENGTH
    &&& -MAX_LENGTH <= m.descent <= MAX_LENGTH
    &&& -MAX_LENGTH <= m.leading <= MAX_LENGTH
    &&& -ANCHOR_ONE <= anchor.x <= ANCHOR_ONE
    &&& -ANCHOR_ONE <= anchor.y <= ANCHOR_ONE
}

fn bitmap_valid(b: &Option<GlyphBitmap>) -> (r: bool)
    ensures
        r == (*b matches Some(bm) ==> bitmap_ok(bm)),
{
    match b {
        Some(bm) => bm.width <= MAX_BITMAP_SIDE && bm.height <= MAX_BITMAP_SIDE
            && bm.is_well_formed(),
        None => true,
    }
}

/// Whether layout accepts the item, in a text of `n_sections` sections.
pub fn item_valid(item: &LayoutItem, n_sections: usize) -> (r: bool)
    ensures
        r == item_ok(*item, n_sections as int),
{
    match item {
        LayoutItem::Glyph(g) => g.section < n_sections && -MAX_LENGTH <= g.advance && g.advance
            <= MAX_LENGTH && bitmap_valid(&g.fill) && bitmap_valid(&g.outline),
        LayoutItem::LineBreak => true,
    }
}

/// Whether layout accepts these inputs, for a text of `n_sections` sections.
pub fn layout_input_valid(
    n_sections: usize,
    items: &Vec<LayoutItem>,
    m: &FontMetrics,
    anchor: &TextAnchor,
) -> (r: bool)
    ensures
        r == layout_input_ok(n_sections as int, items@, *m, *anchor),
{
    let in_range = items.len() <= MAX_ITEMS && -MAX_LENGTH <= m.ascent && m.ascent <= MAX_LENGTH
        && -MAX_LENGTH <= m.descent && m.descent <= MAX_LENGTH && -MAX_LENGTH <= m.leading
        && m.leading <= MAX_LENGTH && -ANCHOR_ONE <= anchor.x && anchor.x <= ANCHOR_ONE
        && -ANCHOR_ONE <= anchor.y && anchor.y <= ANCHOR_ONE;
    if !in_range {
        return false;
    }
    let mut k: usize = 0;
    while k < items.len()
        invariant
            k <= items@.len(),
            forall|j: int| 0 <= j < k ==> item_ok(#[trigger] items@[j], n_sections as int),
        decreases items@.len() - k,
    {
        if !item_valid(&items[k], n_sections) {
            return false;
        }
        k = k + 1;
    }
    true
}

pub proof fn lemma_line_widths_bounded(items: Seq<LayoutItem>, n_sections: int)
    requires
        forall|k: int| 0 <= k < items.len() ==> item_ok(#[trigger] items[k], n_sections),
    ensures
        1 <= line_widths(items).len() <= items.len() + 1,
        forall|j: int|
            0 <= j < line_widths(items).len() ==> -items.len() * MAX_LENGTH <= #[trigger] line_widths(
                items,
            )[j] <= items.len() * MAX_LENGTH,
    decreases items.len(),
{
    if items.len() > 0 {
        let prev = items.drop_last();
        assert forall|k: int| 0 <= k < prev.len() implies item_ok(#[trigger] prev[k], n_sections) by {
            assert(prev[k] == items[k]);
        }
        lemma_line_widths_bounded(prev, n_sections);
        assert(item_ok(items[items.len() - 1], n_sections));
    }
}

pub proof fn lemma_widest_bounded(ws: Seq<int>, bound: int)
    requires
        0 <= bound,
        forall|j: int| 0 <= j < ws.len() ==> -bound <= #[trigger] ws[j] <= bound,
    ensures
        0 <= widest(ws) <= bound,
        forall|j: int| 0 <= j < ws.len() ==> #[trigger] ws[j] <= widest(ws),
    decreases ws.len(),
{
    if ws.len() > 0 {
        let prev = ws.drop_last();
        assert forall|j: int| 0 <= j < prev.len() implies -bound <= #[trigger] prev[j] <= bound by {
            assert(prev[j] == ws[j]);
        }
        lemma_widest_bounded(prev, bound);
        assert forall|j: int| 0 <= j < ws.len() implies #[trigger] ws[j] <= widest(ws) by {
            if j < prev.len() {
                assert(prev[j] == ws[j]);
            }
        }
    }
}

/// A bound on every line width of a text within `MAX_ITEMS` items.
pub open spec fn width_bound() -> int {
    0x1000_0000_0000
}

/// A bound on the height of such a text.
pub open spec fn height_bound() -> int {
    0x4000_0000_0000
}

pub open spec fn frame_bounded(f: Frame) -> bool {
    &&& 1 <= f.widths.len() <= MAX_ITEMS + 1
    &&& forall|j: int|
        0 <= j < f.widths.len() ==> -width_bound() <= #[trigger] f.widths[j] <= width_bound()
    &&& 0 <= f.text_width <= width_bound()
    &&& -3 * MAX_LENGTH <= f.line_height <= 3 * MAX_LENGTH
    &&& -MAX_LENGTH <= f.descent <= MAX_LENGTH
    &&& -0xC_0000_0000_0000 <= f.anchor_x <= 0xC_0000_0000_0000
    &&& -0x30_0000_0000_0000 <= f.anchor_y <= 0x30_0000_0000_0000
}

/// The frame of one text, as computed.
struct LayoutFrame {
    widths: Vec<i64>,
    text_width: i64,
    line_height: i64,
    descent: i64,
    anchor_x: i64,
    anchor_y: i64,
    justify: JustifyOutlinedText,
}

impl View for LayoutFrame {
    type V = Frame;

    closed spec fn view(&self) -> Frame {
        Frame {
            widths: self.widths@.map_values(|w: i64| w as int),
            text_width: self.text_width as int,
            line_height: self.line_height as int,
            descent: self.descent as int,
            anchor_x: self.anchor_x as int,
            anchor_y: self.anchor_y as int,
            justify: self.justify,
        }
    }
}

proof fn lemma_mul_bounded(a: int, b: int, ba: int, bb: int)
    requires
        -ba <= a <= ba,
        -bb <= b <= bb,
    ensures
        -(ba * bb) <= a * b <= ba * bb,
{
    assert(-(ba * bb) <= a * b <= ba * bb) by (nonlinear_arith)
        requires
            -ba <= a <= ba,
            -bb <= b <= bb,
    ;
}

proof fn lemma_take_ok(items: Seq<LayoutItem>, k: int, n_sections: int)
    requires
        0 <= k <= items.len(),
        forall|j: int| 0 <= j < items.len() ==> item_ok(#[trigger] items[j], n_sections),
    ensures
        forall|j: int| 0 <= j < k ==> item_ok(#[trigger] items.take(k)[j], n_sections),
{
    assert forall|j: int| 0 <= j < k implies item_ok(#[trigger] items.take(k)[j], n_sections) by {
        assert(items.take(k)[j] == items[j]);
    }
}

proof fn lemma_lines_grow(items: Seq<LayoutItem>, k: int)
    requires
        0 <= k <= items.len(),
    ensures
        line_widths(items.take(k)).len() <= line_widths(items).len(),
    decreases items.len() - k,
{
    if k < items.len() {
        lemma_lines_grow(items, k + 1);
        assert(items.take(k + 1).drop_last() =~= items.take(k));
    } else {
        assert(items.take(k) =~= items);
    }
}

proof fn lemma_bitmap_size(b: GlyphBitmap)
    requires
        bitmap_ok(b),
    ensures
        4 * b.data@.len() <= usize::MAX,
{
    lemma_mul_bounded(b.width as int, b.height as int, 0x4000, 0x4000);
}

fn place(b: &GlyphBitmap, layer: Layer, color: Rgba, lf: &LayoutFrame, x: i64, line: usize) -> (r:
    GlyphImage)
    requires
        bitmap_ok(*b),
        frame_bounded(lf@),
        line < lf.widths@.len(),
        -width_bound() <= x <= width_bound(),
    ensures
        r@ == placed(*b, layer, color, lf@, x as int, line as int),
        image_ok(r@),
{
    let line_w = lf.widths[line];
    assert(lf@.widths[line as int] == line_w);
    let pad: i64 = match lf.justify {
        JustifyOutlinedText::Left => 0,
        JustifyOutlinedText::Center => (lf.text_width - line_w) * ANCHOR_ONE,
        JustifyOutlinedText::Right => (lf.text_width - line_w) * FINE_PER_SUBPIXEL,
    };
    let ox = (x + b.left as i64 * SUBPIXELS_PER_PIXEL) * FINE_PER_SUBPIXEL + lf.anchor_x + pad;
    let above = (lf.widths.len() - 1 - line) as i64;
    proof {
        lemma_mul_bounded(above as int, lf.line_height as int, 0x10_0000, 0x300_0000);
    }
    let shift = above * lf.line_height * FINE_PER_SUBPIXEL;
    let local_y = (lf.descent - b.height as i64 * SUBPIXELS_PER_PIXEL + b.top as i64
        * SUBPIXELS_PER_PIXEL) * FINE_PER_SUBPIXEL;
    let oy = (lf.descent - b.height as i64 * SUBPIXELS_PER_PIXEL + b.top as i64
        * SUBPIXELS_PER_PIXEL) * FINE_PER_SUBPIXEL + lf.anchor_y + shift;
    proof {
        lemma_bitmap_size(*b);
    }
    let data = alpha_to_rgba(&b.data, color);
    assert(4 * (b.width * b.height) == 4 * b.width * b.height) by (nonlinear_arith);
    GlyphImage { offset_x: ox, offset_y: oy, layer, width: b.width, height: b.height, data }
}

fn compute_frame(
    n_sections: usize,
    items: &Vec<LayoutItem>,
    m: &FontMetrics,
    anchor: &TextAnchor,
    justify: JustifyOutlinedText,
) -> (lf: LayoutFrame)
    requires
        layout_input_ok(n_sections as int, items@, *m, *anchor),
    ensures
        lf@ == frame(items@, *m, *anchor, justify),
        frame_bounded(lf@),
{
    let mut widths: Vec<i64> = Vec::new();
    widths.push(0);
    let mut k: usize = 0;
    assert(items@.take(0) =~= Seq::<LayoutItem>::empty());
    assert(widths@.map_values(|w: i64| w as int) =~= line_widths(items@.take(0)));
    while k < items.len()
        invariant
            layout_input_ok(n_sections as int, items@, *m, *anchor),
            k <= items@.len(),
            widths@.map_values(|w: i64| w as int) == line_widths(items@.take(k as int)),
        decreases items@.len() - k,
    {
        proof {
            lemma_take_ok(items@, k as int + 1, n_sections as int);
            lemma_line_widths_bounded(items@.take(k as int + 1), n_sections as int);
            lemma_take_ok(items@, k as int, n_sections as int);
            lemma_line_widths_bounded(items@.take(k as int), n_sections as int);
            assert(items@.take(k as int + 1).drop_last() =~= items@.take(k as int));
            assert(items@.take(k as int + 1).last() == items@[k as int]);
            assert(item_ok(items@[k as int], n_sections as int));
        }
        let ghost prev = widths@.map_values(|w: i64| w as int);
        match &items[k] {
            LayoutItem::LineBreak => {
                widths.push(0);
                assert(widths@.map_values(|w: i64| w as int) =~= prev.push(0));
            },
            LayoutItem::Glyph(g) => {
                let last = widths.len() - 1;
                assert(prev[last as int] == widths@[last as int]);
                let w = widths[last] + g.advance;
                widths.set(last, w);
                assert(widths@.map_values(|w: i64| w as int) =~= prev.update(
                    last as int,
                    prev.last() + g.advance,
                ));
            },
        }
        k = k + 1;
    }
    assert(items@.take(items@.len() as int) =~= items@);
    let ghost ws = line_widths(items@);
    proof {
        lemma_line_widths_bounded(items@, n_sections as int);
        lemma_widest_bounded(ws, width_bound());
    }
    let mut text_w: i64 = 0;
    let mut j: usize = 0;
    assert(ws.take(0) =~= Seq::<int>::empty());
    while j < widths.len()
        invariant
            j <= widths@.len(),
            ws == widths@.map_values(|w: i64| w as int),
            text_w == widest(ws.take(j as int)),
        decreases widths@.len() - j,
    {
        assert(ws.take(j as int + 1).drop_last() =~= ws.take(j as int));
        assert(ws[j as int] == widths@[j as int]);
        if widths[j] > text_w {
            text_w = widths[j];
        }
        j = j + 1;
    }
    assert(ws.take(widths@.len() as int) =~= ws);
    let line_h = m.ascent + m.descent + m.leading;
    let n_lines = widths.len();
    proof {
        lemma_mul_bounded(n_lines as int - 1, line_h as int, 0x10_0000, 0x300_0000);
    }
    let text_h = m.ascent + m.descent + (n_lines - 1) as i64 * line_h;
    proof {
        lemma_mul_bounded(
            2 * anchor.x + ANCHOR_ONE,
            text_w as int,
            192,
            0x1000_0000_0000,
        );
        lemma_mul_bounded(
            2 * anchor.y + ANCHOR_ONE,
            text_h as int,
            192,
            0x4000_0000_0000,
        );
    }
    let anchor_x = -((2 * anchor.x + ANCHOR_ONE) * text_w);
    let anchor_y = -((2 * anchor.y + ANCHOR_ONE) * text_h);
    let lf = LayoutFrame {
        widths,
        text_width: text_w,
        line_height: line_h,
        descent: m.descent,
        anchor_x,
        anchor_y,
        justify,
    };
    assert(lf@.widths == ws);
    assert(lf@.text_width == text_width(items@));
    assert(lf@.line_height == line_height(*m));
    assert(text_h == text_height(items@, *m));
    assert(lf@.anchor_x == anchor_offset(anchor.x as int, text_width(items@)));
    assert(lf@.anchor_y == anchor_offset(anchor.y as int, text_height(items@, *m)));
    lf
}

/// Lays out a shaped text: each visible glyph bitmap, coloured by its
/// section, at its final position, outline before fill for each glyph, in
/// shaping order.
pub fn create_glyph_images(
    text: &OutlinedText,
    items: &Vec<LayoutItem>,
    metrics: &FontMetrics,
    anchor: &TextAnchor,
) -> (r: Vec<GlyphImage>)
    requires
        layout_input_ok(text.sections@.len() as int, items@, *metrics, *anchor),
    ensures
        r@.map_values(|g: GlyphImage| g@) == laid_out(
            text.sections@,
            text.justify,
            items@,
            *metrics,
            *anchor,
        ),
        forall|i: int| 0 <= i < r@.len() ==> image_ok(#[trigger] r@[i]@),
{
    let ghost sections = text.sections@;
    let lf = compute_frame(text.sections.len(), items, metrics, anchor, text.justify);
    let mut out: Vec<GlyphImage> = Vec::new();
    let mut x: i64 = 0;
    let mut line: usize = 0;
    let mut k: usize = 0;
    assert(items@.take(0) =~= Seq::<LayoutItem>::empty());
    while k < items.len()
        invariant
            layout_input_ok(text.sections@.len() as int, items@, *metrics, *anchor),
            sections == text.sections@,
            lf@ == frame(items@, *metrics, *anchor, text.justify),
            frame_bounded(lf@),
            k <= items@.len(),
            x == cursor(items@, k as int),
            line == line_of(items@, k as int),
            out@.map_values(|g: GlyphImage| g@) == images_upto(items@, sections, lf@, k as int),
            forall|i: int| 0 <= i < out@.len() ==> image_ok(#[trigger] out@[i]@),
        decreases items@.len() - k,
    {
        proof {
            lemma_take_ok(items@, k as int, sections.len() as int);
            lemma_line_widths_bounded(items@.take(k as int), sections.len() as int);
            lemma_take_ok(items@, k as int + 1, sections.len() as int);
            lemma_line_widths_bounded(items@.take(k as int + 1), sections.len() as int);
            lemma_lines_grow(items@, k as int);
            lemma_lines_grow(items@, k as int + 1);
            assert(items@.take(k as int + 1).drop_last() =~= items@.take(k as int));
            assert(items@.take(k as int + 1).last() == items@[k as int]);
            assert(item_ok(items@[k as int], sections.len() as int));
        }
        let ghost before = out@.map_values(|g: GlyphImage| g@);
        match &items[k] {
            LayoutItem::LineBreak => {
                x = 0;
                line = line + 1;
                assert(images_upto(items@, sections, lf@, k as int + 1) =~= before);
            },
            LayoutItem::Glyph(g) => {
                let style = text.sections[g.section].outline;
                match style {
                    OutlineStyle::Outline { width: _, color } => match &g.outline {
                        Some(b) => {
                            if b.width > 0 && b.height > 0 {
                                let img = place(b, Layer::Outline, color, &lf, x, line);
                                out.push(img);
                            }
                        },
                        None => {},
                    },
                    OutlineStyle::NoOutline => {},
                }
                let ghost mid = out@.map_values(|g: GlyphImage| g@);
                assert(mid =~= before + outline_images(*g, sections, lf@, x as int, line as int));
                match &g.fill {
                    Some(b) => {
                        if b.width > 0 && b.height > 0 {
                            let img = place(b, Layer::Fill, text.sections[g.section].color, &lf, x, line);
                            out.push(img);
                        }
                    },
                    None => {},
                }
                assert(out@.map_values(|g: GlyphImage| g@) =~= mid + fill_images(
                    *g,
                    sections,
                    lf@,
                    x as int,
                    line as int,
                ));
                assert(images_upto(items@, sections, lf@, k as int + 1) =~= before + outline_images(
                    *g,
                    sections,
                    lf@,
                    x as int,
                    line as int,
                ) + fill_images(*g, sections, lf@, x as int, line as int));
                x = x + g.advance;
            },
        }
        k = k + 1;
    }
    out
}

/// The line of each image of the first `k` items, in image order.
pub open spec fn image_lines(
    items: Seq<LayoutItem>,
    sections: Seq<OutlinedTextSection>,
    f: Frame,
    k: int,
) -> Seq<int>
    decreases k,
{
    if k <= 0 {
        seq![]
    } else {
        image_lines(items, sections, f, k - 1) + Seq::new(
            item_images(items[k - 1], sections, f, cursor(items, k - 1), line_of(items, k - 1)).len(),
            |i: int| line_of(items, k - 1),
        )
    }
}

/// How far the images of line `line` move horizontally from frame `f1` to
/// frame `f2`.
pub open spec fn shift_x(f1: Frame, f2: Frame, line: int) -> int {
    f2.anchor_x - f1.anchor_x + padding(f2.justify, f2.text_width, f2.widths[line]) - padding(
        f1.justify,
        f1.text_width,
        f1.widths[line],
    )
}

pub open spec fn moved(m: ImageModel, dx: int, dy: int) -> ImageModel {
    ImageModel { x: m.x + dx, y: m.y + dy, ..m }
}

/// Two frames that differ only in anchor and justification place the same
/// images, each moved by its line's horizontal shift and by the change of
/// the vertical anchor offset.
pub proof fn lemma_frames_shift(
    items: Seq<LayoutItem>,
    sections: Seq<OutlinedTextSection>,
    f1: Frame,
    f2: Frame,
    k: int,
)
    requires
        0 <= k <= items.len(),
        f1.widths == f2.widths,
        f1.text_width == f2.text_width,
        f1.line_height == f2.line_height,
        f1.descent == f2.descent,
    ensures
        images_upto(items, sections, f2, k).len() == images_upto(items, sections, f1, k).len(),
        image_lines(items, sections, f1, k).len() == images_upto(items, sections, f1, k).len(),
        forall|j: int|
            0 <= j < images_upto(items, sections, f1, k).len() ==> #[trigger] images_upto(
                items,
                sections,
                f2,
                k,
            )[j] == moved(
                images_upto(items, sections, f1, k)[j],
                shift_x(f1, f2, image_lines(items, sections, f1, k)[j]),
                f2.anchor_y - f1.anchor_y,
            ),
    decreases k,
{
    if k > 0 {
        lemma_frames_shift(items, sections, f1, f2, k - 1);
        let a = images_upto(items, sections, f1, k - 1);
        let b = images_upto(items, sections, f2, k - 1);
        let ls = image_lines(items, sections, f1, k - 1);
        let x = cursor(items, k - 1);
        let line = line_of(items, k - 1);
        let ia = item_images(items[k - 1], sections, f1, x, line);
        let ib = item_images(items[k - 1], sections, f2, x, line);
        assert(ib.len() == ia.len());
        assert forall|j: int| 0 <= j < ia.len() implies #[trigger] ib[j] == moved(
            ia[j],
            shift_x(f1, f2, line),
            f2.anchor_y - f1.anchor_y,
        ) by {}
        let a2 = images_upto(items, sections, f1, k);
        let b2 = images_upto(items, sections, f2, k);
        let ls2 = image_lines(items, sections, f1, k);
        assert(a2 == a + ia);
        assert(b2 == b + ib);
        assert forall|j: int| 0 <= j < a2.len() implies #[trigger] b2[j] == moved(
            a2[j],
            shift_x(f1, f2, ls2[j]),
            f2.anchor_y - f1.anchor_y,
        ) by {
            if j < a.len() {
                assert(b2[j] == b[j]);
                assert(a2[j] == a[j]);
                assert(ls2[j] == ls[j]);
            } else {
                assert(b2[j] == ib[j - a.len()]);
                assert(a2[j] == ia[j - a.len()]);
                assert(ls2[j] == line);
            }
        }
    }
}

/// Centring moves each image of a line right by exactly half of what the
/// line lacks of the text's width, and nothing else: twice the shift, in
/// fine units, is that difference.
pub proof fn lemma_center_justification(
    sections: Seq<OutlinedTextSection>,
    items: Seq<LayoutItem>,
    m: FontMetrics,
    anchor: TextAnchor,
)
    ensures
        ({
            let left = laid_out(sections, JustifyOutlinedText::Left, items, m, anchor);
            let center = laid_out(sections, JustifyOutlinedText::Center, items, m, anchor);
            let lines = image_lines(
                items,
                sections,
                frame(items, m, anchor, JustifyOutlinedText::Left),
                items.len() as int,
            );
            &&& center.len() == left.len()
            &&& lines.len() == left.len()
            &&& forall|j: int|
                0 <= j < left.len() ==> {
                    &&& 2 * (#[trigger] center[j].x - left[j].x) == (text_width(items)
                        - line_widths(items)[lines[j]]) * FINE_PER_SUBPIXEL
                    &&& center[j] == moved(left[j], center[j].x - left[j].x, 0)
                }
        }),
{
    let f1 = frame(items, m, anchor, JustifyOutlinedText::Left);
    let f2 = frame(items, m, anchor, JustifyOutlinedText::Center);
    lemma_frames_shift(items, sections, f1, f2, items.len() as int);
}

/// Moving the anchor moves every image by the same amount: by the change
/// of each anchor axis, in units of `ANCHOR_ONE`, times the text's width or
/// height, the other way.
pub proof fn lemma_anchor_shift(
    sections: Seq<OutlinedTextSection>,
    justify: JustifyOutlinedText,
    items: Seq<LayoutItem>,
    m: FontMetrics,
    a1: TextAnchor,
    a2: TextAnchor,
)
    ensures
        ({
            let before = laid_out(sections, justify, items, m, a1);
            let after = laid_out(sections, justify, items, m, a2);
            &&& after.len() == before.len()
            &&& forall|j: int|
                0 <= j < before.len() ==> #[trigger] after[j] == moved(
                    before[j],
                    -2 * (a2.x - a1.x) * text_width(items),
                    -2 * (a2.y - a1.y) * text_height(items, m),
                )
        }),
{
    let f1 = frame(items, m, a1, justify);
    let f2 = frame(items, m, a2, justify);
    lemma_frames_shift(items, sections, f1, f2, items.len() as int);
    let tw = text_width(items);
    let th = text_height(items, m);
    assert(-((2 * a2.x + ANCHOR_ONE) * tw) - -((2 * a1.x + ANCHOR_ONE) * tw) == -2 * (a2.x - a1.x)
        * tw) by (nonlinear_arith);
    assert(-((2 * a2.y + ANCHOR_ONE) * th) - -((2 * a1.y + ANCHOR_ONE) * th) == -2 * (a2.y - a1.y)
        * th) by (nonlinear_arith);
}

/// From the bottom-left anchor `(-1/2, -1/2)` to the top-right `(1/2, 1/2)`,
/// every image moves by exactly minus the text's width and height.
pub proof fn lemma_opposite_corners(
    sections: Seq<OutlinedTextSection>,
    justify: JustifyOutlinedText,
    items: Seq<LayoutItem>,
    m: FontMetrics,
)
    ensures
        ({
            let bottom_left = TextAnchor { x: -32i64, y: -32i64 };
            let top_right = TextAnchor { x: 32, y: 32 };
            let before = laid_out(sections, justify, items, m, bottom_left);
            let after = laid_out(sections, justify, items, m, top_right);
            &&& after.len() == before.len()
            &&& forall|j: int|
                0 <= j < before.len() ==> #[trigger] after[j] == moved(
                    before[j],
                    -text_width(items) * FINE_PER_SUBPIXEL,
                    -text_height(items, m) * FINE_PER_SUBPIXEL,
                )
        }),
{
    let bottom_left = TextAnchor { x: -32i64, y: -32i64 };
    let top_right = TextAnchor { x: 32, y: 32 };
    lemma_anchor_shift(sections, justify, items, m, bottom_left, top_right);
    let tw = text_width(items);
    let th = text_height(items, m);
    assert(-2 * (top_right.x - bottom_left.x) * tw == -tw * FINE_PER_SUBPIXEL) by (nonlinear_arith)
        requires
            top_right.x - bottom_left.x == 64,
    ;
    assert(-2 * (top_right.y - bottom_left.y) * th == -th * FINE_PER_SUBPIXEL) by (nonlinear_arith)
        requires
            top_right.y - bottom_left.y == 64,
    ;
}

} // verus!
