use outlined_text::layout::Layer;
use outlined_text::raster::{alpha_to_rgba, GlyphBitmap, Rgba};

#[test]
fn coverage_becomes_alpha_of_the_flat_colour() {
    let c = Rgba { r: 1, g: 2, b: 3, a: 4 };
    assert_eq!(alpha_to_rgba(&vec![10, 0, 255], c), vec![1, 2, 3, 10, 1, 2, 3, 0, 1, 2, 3, 255]);
    assert!(alpha_to_rgba(&vec![], c).is_empty());
}

#[test]
fn bitmap_well_formedness() {
    let ok = GlyphBitmap { left: 0, top: 0, width: 2, height: 3, data: vec![0; 6] };
    let bad = GlyphBitmap { left: 0, top: 0, width: 2, height: 3, data: vec![0; 5] };
    assert!(ok.is_well_formed());
    assert!(!bad.is_well_formed());
}

#[test]
fn outline_layer_lies_below_fill_layer() {
    assert_eq!(Layer::Fill.z_layer(), 0);
    assert!(Layer::Outline.z_layer() < Layer::Fill.z_layer());
}
