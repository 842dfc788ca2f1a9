use outlined_text::layout::{
    create_glyph_images, item_valid, layout_input_valid, FontMetrics, GlyphImage,
    JustifyOutlinedText, Layer, LayoutItem, OutlineStyle, OutlinedText, OutlinedTextSection,
    ShapedGlyph, TextAnchor, ANCHOR_ONE, FINE_PER_SUBPIXEL,
};
use outlined_text::raster::{GlyphBitmap, Rgba};

fn bitmap(left: i32, top: i32, width: u32, height: u32) -> GlyphBitmap {
    GlyphBitmap { left, top, width, height, data: vec![255u8; (width * height) as usize] }
}

fn glyph(section: usize, advance: i64, fill: Option<GlyphBitmap>, outline: Option<GlyphBitmap>) -> LayoutItem {
    LayoutItem::Glyph(ShapedGlyph { section, advance, fill, outline })
}

fn white() -> Rgba {
    Rgba { r: 255, g: 255, b: 255, a: 255 }
}

fn plain_text(justify: JustifyOutlinedText) -> OutlinedText {
    OutlinedText {
        sections: vec![OutlinedTextSection {
            value: "AA\nB".to_string(),
            color: white(),
            outline: OutlineStyle::NoOutline,
        }],
        justify,
    }
}

// "AA\nB": two glyphs of 10 px, a newline cluster, then a glyph of 9 px.
fn aa_newline_b() -> Vec<LayoutItem> {
    vec![
        glyph(0, 640, Some(bitmap(0, 10, 10, 10)), None),
        glyph(0, 640, Some(bitmap(0, 10, 10, 10)), None),
        LayoutItem::LineBreak,
        glyph(0, 0, None, None),
        glyph(0, 576, Some(bitmap(1, 10, 8, 10)), None),
    ]
}

fn metrics() -> FontMetrics {
    FontMetrics { ascent: 640, descent: 128, leading: 64 }
}

fn offsets(images: &[GlyphImage]) -> Vec<(i64, i64)> {
    images.iter().map(|g| (g.offset_x, g.offset_y)).collect()
}

#[test]
fn single_glyph_is_placed_at_its_bearing() {
    let text = plain_text(JustifyOutlinedText::Left);
    let items = vec![glyph(0, 512, Some(bitmap(1, 9, 6, 9)), None)];
    let m = FontMetrics { ascent: 640, descent: 128, leading: 0 };
    let anchor = TextAnchor { x: -ANCHOR_ONE / 2, y: -ANCHOR_ONE / 2 };
    let images = create_glyph_images(&text, &items, &m, &anchor);
    assert_eq!(images.len(), 1);
    assert_eq!(images[0].offset_x, 64 * FINE_PER_SUBPIXEL);
    assert_eq!(images[0].offset_y, 128 * FINE_PER_SUBPIXEL);
    assert_eq!(images[0].width, 6);
    assert_eq!(images[0].height, 9);
    assert_eq!(images[0].layer, Layer::Fill);
    assert_eq!(images[0].data.len(), 6 * 9 * 4);
    assert_eq!(&images[0].data[0..4], &[255, 255, 255, 255]);
}

#[test]
fn centered_short_line_is_padded_by_half_the_difference() {
    let items = aa_newline_b();
    let anchor = TextAnchor { x: 0, y: 0 };
    let left = create_glyph_images(&plain_text(JustifyOutlinedText::Left), &items, &metrics(), &anchor);
    let center = create_glyph_images(&plain_text(JustifyOutlinedText::Center), &items, &metrics(), &anchor);
    assert_eq!(left.len(), 3);
    assert_eq!(center.len(), 3);
    // The first line is the widest: it does not move.
    assert_eq!(offsets(&center[0..2]), offsets(&left[0..2]));
    // width("AA") - width("B") = 1280 - 576 subpixels; half of it is 352.
    assert_eq!(center[2].offset_x - left[2].offset_x, 352 * FINE_PER_SUBPIXEL);
    assert_eq!(center[2].offset_y, left[2].offset_y);
}

#[test]
fn right_justified_short_line_is_padded_by_the_difference() {
    let items = aa_newline_b();
    let anchor = TextAnchor { x: 0, y: 0 };
    let left = create_glyph_images(&plain_text(JustifyOutlinedText::Left), &items, &metrics(), &anchor);
    let right = create_glyph_images(&plain_text(JustifyOutlinedText::Right), &items, &metrics(), &anchor);
    assert_eq!(right[2].offset_x - left[2].offset_x, 704 * FINE_PER_SUBPIXEL);
    assert_eq!(right[0].offset_x, left[0].offset_x);
}

#[test]
fn lines_stack_downwards_and_anchor_centers_the_box() {
    let items = aa_newline_b();
    let anchor = TextAnchor { x: 0, y: 0 };
    let images = create_glyph_images(&plain_text(JustifyOutlinedText::Left), &items, &metrics(), &anchor);
    // text width 1280, line height 832, text height 640 + 128 + 832 = 1600.
    let anchor_x = -1280 * ANCHOR_ONE;
    let anchor_y = -1600 * ANCHOR_ONE;
    assert_eq!(images[0].offset_x, anchor_x);
    assert_eq!(images[0].offset_y, 128 * FINE_PER_SUBPIXEL + anchor_y + 832 * FINE_PER_SUBPIXEL);
    assert_eq!(images[1].offset_x, 640 * FINE_PER_SUBPIXEL + anchor_x);
    assert_eq!(images[2].offset_x, 64 * FINE_PER_SUBPIXEL + anchor_x);
    assert_eq!(images[2].offset_y, 128 * FINE_PER_SUBPIXEL + anchor_y);
}

#[test]
fn opposite_corner_anchors_shift_by_the_text_size() {
    let items = aa_newline_b();
    let text = plain_text(JustifyOutlinedText::Center);
    let bottom_left = TextAnchor { x: -ANCHOR_ONE / 2, y: -ANCHOR_ONE / 2 };
    let top_right = TextAnchor { x: ANCHOR_ONE / 2, y: ANCHOR_ONE / 2 };
    let before = create_glyph_images(&text, &items, &metrics(), &bottom_left);
    let after = create_glyph_images(&text, &items, &metrics(), &top_right);
    for (a, b) in before.iter().zip(after.iter()) {
        assert_eq!(b.offset_x - a.offset_x, -1280 * FINE_PER_SUBPIXEL);
        assert_eq!(b.offset_y - a.offset_y, -1600 * FINE_PER_SUBPIXEL);
    }
    // From (-1, -1) to (1, 1) the shift is twice the size.
    let lowest = TextAnchor { x: -ANCHOR_ONE, y: -ANCHOR_ONE };
    let highest = TextAnchor { x: ANCHOR_ONE, y: ANCHOR_ONE };
    let before = create_glyph_images(&text, &items, &metrics(), &lowest);
    let after = create_glyph_images(&text, &items, &metrics(), &highest);
    for (a, b) in before.iter().zip(after.iter()) {
        assert_eq!(b.offset_x - a.offset_x, -2 * 1280 * FINE_PER_SUBPIXEL);
        assert_eq!(b.offset_y - a.offset_y, -2 * 1600 * FINE_PER_SUBPIXEL);
    }
}

#[test]
fn outline_comes_before_fill_and_only_when_asked() {
    let red = Rgba { r: 255, g: 0, b: 0, a: 255 };
    let text = OutlinedText {
        sections: vec![
            OutlinedTextSection {
                value: "A".to_string(),
                color: white(),
                outline: OutlineStyle::Outline { width: 128, color: red },
            },
            OutlinedTextSection { value: "B".to_string(), color: white(), outline: OutlineStyle::NoOutline },
        ],
        justify: JustifyOutlinedText::Left,
    };
    let items = vec![
        glyph(0, 640, Some(bitmap(0, 10, 10, 10)), Some(bitmap(-1, 11, 12, 12))),
        glyph(1, 640, Some(bitmap(0, 10, 10, 10)), Some(bitmap(-1, 11, 12, 12))),
    ];
    let images = create_glyph_images(&text, &items, &metrics(), &TextAnchor { x: 0, y: 0 });
    let layers: Vec<Layer> = images.iter().map(|g| g.layer).collect();
    assert_eq!(layers, vec![Layer::Outline, Layer::Fill, Layer::Fill]);
    assert_eq!(&images[0].data[0..4], &[255, 0, 0, 255]);
    assert_eq!(images[0].width, 12);
    assert_eq!(images[1].offset_x - images[0].offset_x, 64 * FINE_PER_SUBPIXEL);
}

#[test]
fn inkless_and_missing_bitmaps_are_dropped_but_advance() {
    let text = plain_text(JustifyOutlinedText::Left);
    let items = vec![
        glyph(0, 300, Some(bitmap(0, 0, 0, 0)), None),
        glyph(0, 200, None, None),
        glyph(0, 640, Some(bitmap(0, 10, 10, 10)), None),
    ];
    let anchor = TextAnchor { x: -ANCHOR_ONE / 2, y: -ANCHOR_ONE / 2 };
    let images = create_glyph_images(&text, &items, &metrics(), &anchor);
    assert_eq!(images.len(), 1);
    assert_eq!(images[0].offset_x, 500 * FINE_PER_SUBPIXEL);
}

#[test]
fn empty_text_has_no_images() {
    let text = OutlinedText { sections: vec![], justify: JustifyOutlinedText::Left };
    let images = create_glyph_images(&text, &vec![], &metrics(), &TextAnchor { x: 0, y: 0 });
    assert!(images.is_empty());
}

#[test]
fn validity_checks_reject_bad_inputs() {
    let items = aa_newline_b();
    assert!(layout_input_valid(1, &items, &metrics(), &TextAnchor { x: 0, y: 0 }));
    assert!(!layout_input_valid(0, &items, &metrics(), &TextAnchor { x: 0, y: 0 }));
    assert!(!layout_input_valid(1, &items, &metrics(), &TextAnchor { x: ANCHOR_ONE + 1, y: 0 }));
    let bad = GlyphBitmap { left: 0, top: 0, width: 2, height: 2, data: vec![1, 2, 3] };
    assert!(!item_valid(&glyph(0, 10, Some(bad), None), 1));
    assert!(item_valid(&LayoutItem::LineBreak, 0));
}
