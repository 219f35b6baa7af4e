use wfc::image::{load_image, ColorMap, CompressedImage, RawRgba};

#[test]
fn load_image_packs_rgba_little_endian() {
    let raw = (2u32, 1u32, vec![1u8, 2, 3, 4, 255, 0, 0, 128]);
    let image = load_image(&raw);
    assert_eq!((image.width, image.height), (2, 1));
    assert_eq!(image.data, vec![0x0403_0201, 0x8000_00ff]);
}

#[test]
fn load_image_ignores_bytes_past_the_last_pixel() {
    let raw = (1u32, 1u32, vec![9u8, 0, 0, 1, 7, 7, 7]);
    let image = load_image(&raw);
    assert_eq!(image.data, vec![0x0100_0009]);
}

#[test]
fn color_map_starts_empty() {
    let map = ColorMap::new();
    assert!(map.colors.iter().all(|c| *c == RawRgba(0, 0, 0, 0)));
    assert_eq!(map.colors.len(), 256);
    assert!(map.indices.is_empty());
}

#[test]
fn compressed_image_starts_at_index_zero() {
    let image = CompressedImage::new(3, 2);
    assert_eq!((image.width, image.height), (3, 2));
    assert_eq!(image.data, vec![0; 6]);
    assert!(image.color_map.indices.is_empty());
}
