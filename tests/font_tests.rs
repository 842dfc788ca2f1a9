use outlined_text::font::{OutlineFontLoaderError, OutlinedFontLoader};

#[test]
fn truetype_bytes_load_at_offset_zero() {
    let bytes = vec![0, 1, 0, 0, 0, 4, 0, 0];
    let font = OutlinedFontLoader.load(bytes.clone()).unwrap();
    assert_eq!(font.offset(), 0);
    assert_eq!(font.data(), &bytes);
}

#[test]
fn opentype_tag_is_a_font() {
    assert!(OutlinedFontLoader.load(b"OTTO\0\0\0\0".to_vec()).is_ok());
}

#[test]
fn collection_loads_its_first_face() {
    let mut bytes = b"ttcf".to_vec();
    bytes.extend_from_slice(&[0, 1, 0, 0]);
    bytes.extend_from_slice(&[0, 0, 0, 1]);
    bytes.extend_from_slice(&[0, 0, 0, 16]);
    bytes.extend_from_slice(&[0, 1, 0, 0]);
    let font = OutlinedFontLoader.load(bytes).unwrap();
    assert_eq!(font.offset(), 16);
}

#[test]
fn empty_collection_is_invalid() {
    let mut bytes = b"ttcf".to_vec();
    bytes.extend_from_slice(&[0, 1, 0, 0, 0, 0, 0, 0, 0, 0, 0, 16, 0, 1, 0, 0]);
    assert!(matches!(OutlinedFontLoader.load(bytes), Err(OutlineFontLoaderError::InvalidFont)));
}

#[test]
fn other_bytes_are_an_invalid_font() {
    assert!(matches!(
        OutlinedFontLoader.load(b"hello world".to_vec()),
        Err(OutlineFontLoaderError::InvalidFont)
    ));
    assert!(matches!(OutlinedFontLoader.load(vec![0, 1, 0]), Err(OutlineFontLoaderError::InvalidFont)));
}
