use outlined_text::cache::OutlinedGlyphs;
use outlined_text::layout::{
    FontMetrics, JustifyOutlinedText, LayoutItem, OutlineStyle, OutlinedText, OutlinedTextSection,
    ShapedGlyph, TextAnchor, FINE_PER_SUBPIXEL,
};
use outlined_text::raster::{GlyphBitmap, Rgba};

fn bitmap(left: i32, top: i32, width: u32, height: u32, alpha: u8) -> GlyphBitmap {
    GlyphBitmap { left, top, width, height, data: vec![alpha; (width * height) as usize] }
}

fn text(outline: OutlineStyle) -> OutlinedText {
    OutlinedText {
        sections: vec![OutlinedTextSection {
            value: "Hi".to_string(),
            color: Rgba { r: 200, g: 100, b: 0, a: 255 },
            outline,
        }],
        justify: JustifyOutlinedText::Left,
    }
}

fn items() -> Vec<LayoutItem> {
    vec![
        LayoutItem::Glyph(ShapedGlyph {
            section: 0,
            advance: 640,
            fill: Some(bitmap(0, 10, 8, 10, 255)),
            outline: Some(bitmap(-1, 11, 10, 12, 128)),
        }),
        LayoutItem::Glyph(ShapedGlyph {
            section: 0,
            advance: 320,
            fill: Some(bitmap(1, 10, 3, 10, 255)),
            outline: Some(bitmap(0, 11, 5, 12, 128)),
        }),
    ]
}

fn metrics() -> FontMetrics {
    FontMetrics { ascent: 640, descent: 128, leading: 0 }
}

fn red_outline() -> OutlineStyle {
    OutlineStyle::Outline { width: 64, color: Rgba { r: 255, g: 0, b: 0, a: 255 } }
}

const BOTTOM_LEFT: TextAnchor = TextAnchor { x: -32, y: -32 };

#[test]
fn outlined_text_gets_fill_then_outline_atlas() {
    let mut cache = OutlinedGlyphs::new();
    cache.create_missing_text(7, &text(red_outline()), &items(), &metrics(), &BOTTOM_LEFT);
    let prims = cache.extract_outlined_text(7);
    assert_eq!(prims.len(), 2);
    assert_eq!((prims[0].entity, prims[0].image_id, prims[0].z), (7, 0, 0));
    assert_eq!((prims[1].entity, prims[1].image_id, prims[1].z), (7, 1, -1));
    // Fill box: from x = 0 to 640 + 64 + 3 * 64 subpixels, so 14 px wide.
    let atlases = cache.atlases(7).unwrap();
    assert_eq!((atlases[0].atlas.width, atlases[0].atlas.height), (14, 10));
    assert_eq!(prims[0].x, 0);
    assert_eq!(prims[0].y, 128 * FINE_PER_SUBPIXEL);
    assert_eq!(prims[1].x, -64 * FINE_PER_SUBPIXEL);
    assert_eq!(&atlases[0].atlas.data[0..4], &[200, 100, 0, 255]);
    assert_eq!(&atlases[1].atlas.data[0..4], &[255, 0, 0, 128]);
}

#[test]
fn text_without_outline_has_no_outline_atlas() {
    let mut cache = OutlinedGlyphs::new();
    cache.create_missing_text(1, &text(OutlineStyle::NoOutline), &items(), &metrics(), &BOTTOM_LEFT);
    let prims = cache.extract_outlined_text(1);
    assert_eq!(prims.len(), 1);
    assert_eq!(prims[0].z, 0);
}

#[test]
fn recompute_policy() {
    let mut cache = OutlinedGlyphs::new();
    assert!(cache.needs_recompute(3, false, false, false));
    cache.create_missing_text(3, &text(red_outline()), &items(), &metrics(), &BOTTOM_LEFT);
    assert!(!cache.needs_recompute(3, false, false, false));
    assert!(cache.needs_recompute(3, true, false, false));
    assert!(cache.needs_recompute(3, false, true, false));
    assert!(cache.needs_recompute(3, false, false, true));
    assert!(cache.needs_recompute(4, false, false, false));
}

#[test]
fn rescale_recompute_gives_new_image_identities() {
    let mut cache = OutlinedGlyphs::new();
    cache.create_missing_text(3, &text(red_outline()), &items(), &metrics(), &BOTTOM_LEFT);
    cache.create_missing_text(5, &text(red_outline()), &items(), &metrics(), &BOTTOM_LEFT);
    let before: Vec<u64> = cache.extract_outlined_text(3).iter().map(|p| p.image_id).collect();
    assert!(cache.needs_recompute(3, true, false, false));
    cache.create_missing_text(3, &text(red_outline()), &items(), &metrics(), &BOTTOM_LEFT);
    let after: Vec<u64> = cache.extract_outlined_text(3).iter().map(|p| p.image_id).collect();
    assert_eq!(before, vec![0, 1]);
    assert_eq!(after, vec![4, 5]);
    assert_eq!(cache.next_image_id(), 6);
}

#[test]
fn removed_entity_extracts_nothing() {
    let mut cache = OutlinedGlyphs::new();
    cache.create_missing_text(9, &text(red_outline()), &items(), &metrics(), &BOTTOM_LEFT);
    cache.create_missing_text(10, &text(red_outline()), &items(), &metrics(), &BOTTOM_LEFT);
    cache.remove(9);
    assert!(cache.extract_outlined_text(9).is_empty());
    assert!(cache.atlases(9).is_none());
    assert_eq!(cache.extract_outlined_text(10).len(), 2);
    assert!(cache.needs_recompute(9, false, false, false));
}

#[test]
fn recompute_is_deterministic() {
    let mut a = OutlinedGlyphs::new();
    let mut b = OutlinedGlyphs::new();
    b.create_missing_text(2, &text(red_outline()), &items(), &metrics(), &BOTTOM_LEFT);
    a.create_missing_text(1, &text(red_outline()), &items(), &metrics(), &BOTTOM_LEFT);
    b.create_missing_text(1, &text(red_outline()), &items(), &metrics(), &BOTTOM_LEFT);
    let xa = a.atlases(1).unwrap();
    let xb = b.atlases(1).unwrap();
    assert_eq!(xa.len(), xb.len());
    for (p, q) in xa.iter().zip(xb.iter()) {
        assert_eq!(p.atlas.data, q.atlas.data);
        assert_eq!((p.atlas.x, p.atlas.y, p.atlas.width, p.atlas.height), (q.atlas.x, q.atlas.y, q.atlas.width, q.atlas.height));
    }
}

#[test]
fn empty_text_caches_no_atlas() {
    let mut cache = OutlinedGlyphs::new();
    cache.create_missing_text(1, &text(red_outline()), &vec![], &metrics(), &BOTTOM_LEFT);
    assert!(cache.extract_outlined_text(1).is_empty());
    assert!(!cache.needs_recompute(1, false, false, false));
}
