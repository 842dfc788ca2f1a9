use outlined_text::compose::compose_glyph_images;
use outlined_text::layout::{GlyphImage, Layer, FINE_PER_PIXEL};

fn image(x: i64, y: i64, layer: Layer, width: u32, height: u32, pixels: Vec<[u8; 4]>) -> GlyphImage {
    assert_eq!(pixels.len(), (width * height) as usize);
    GlyphImage {
        offset_x: x,
        offset_y: y,
        layer,
        width,
        height,
        data: pixels.into_iter().flatten().collect(),
    }
}

#[test]
fn single_image_atlas_is_the_image() {
    let px = vec![[1, 1, 1, 9], [2, 2, 2, 9], [3, 3, 3, 9], [4, 4, 4, 9], [5, 5, 5, 9], [6, 6, 6, 9]];
    let img = image(3 * FINE_PER_PIXEL + 5, -7, Layer::Fill, 3, 2, px.clone());
    let atlas = compose_glyph_images(&vec![img], Layer::Fill).unwrap();
    assert_eq!(atlas.x, 3 * FINE_PER_PIXEL + 5);
    assert_eq!(atlas.y, -7);
    assert_eq!(atlas.width, 3);
    assert_eq!(atlas.height, 2);
    assert_eq!(atlas.layer, Layer::Fill);
    let flat: Vec<u8> = px.into_iter().flatten().collect();
    assert_eq!(atlas.data, flat);
}

#[test]
fn higher_images_land_on_earlier_rows() {
    let low = image(0, 0, Layer::Fill, 1, 1, vec![[10, 10, 10, 255]]);
    let high = image(FINE_PER_PIXEL, FINE_PER_PIXEL, Layer::Fill, 1, 1, vec![[20, 20, 20, 255]]);
    let atlas = compose_glyph_images(&vec![low, high], Layer::Fill).unwrap();
    assert_eq!((atlas.width, atlas.height), (2, 2));
    assert_eq!(
        atlas.data,
        vec![0, 0, 0, 0, 20, 20, 20, 255, 10, 10, 10, 255, 0, 0, 0, 0]
    );
}

#[test]
fn later_images_overwrite_only_where_opaque() {
    let first = image(0, 0, Layer::Fill, 2, 1, vec![[1, 1, 1, 200], [2, 2, 2, 200]]);
    let second = image(0, 0, Layer::Fill, 2, 1, vec![[9, 9, 9, 0], [8, 8, 8, 50]]);
    let atlas = compose_glyph_images(&vec![first, second], Layer::Fill).unwrap();
    assert_eq!(atlas.data, vec![1, 1, 1, 200, 8, 8, 8, 50]);
}

#[test]
fn box_is_rounded_out_and_offsets_rounded() {
    // Half a pixel right of the first image: it lands one column further.
    let a = image(0, 0, Layer::Outline, 1, 1, vec![[1, 1, 1, 1]]);
    let b = image(FINE_PER_PIXEL / 2, 0, Layer::Outline, 1, 1, vec![[2, 2, 2, 2]]);
    let atlas = compose_glyph_images(&vec![a, b], Layer::Outline).unwrap();
    assert_eq!((atlas.width, atlas.height), (2, 1));
    assert_eq!(atlas.data, vec![1, 1, 1, 1, 2, 2, 2, 2]);
}

#[test]
fn only_the_asked_layer_is_composed() {
    let fill = image(0, 0, Layer::Fill, 1, 1, vec![[1, 1, 1, 1]]);
    let outline = image(-FINE_PER_PIXEL, 0, Layer::Outline, 3, 1, vec![[2, 2, 2, 2]; 3]);
    let images = vec![fill, outline];
    let f = compose_glyph_images(&images, Layer::Fill).unwrap();
    let o = compose_glyph_images(&images, Layer::Outline).unwrap();
    assert_eq!((f.x, f.width), (0, 1));
    assert_eq!((o.x, o.width), (-FINE_PER_PIXEL, 3));
    assert!(compose_glyph_images(&vec![], Layer::Fill).is_none());
    let only_fill = vec![image(0, 0, Layer::Fill, 1, 1, vec![[1, 1, 1, 1]])];
    assert!(compose_glyph_images(&only_fill, Layer::Outline).is_none());
}
