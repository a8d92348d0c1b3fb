use std::io::Cursor;

use swirly_world::textures::{layer_from_png, reverse_rows, terrain_layers};

/// A PNG file of the given RGBA pixels, rows top to bottom.
fn png_of(width: u32, height: u32, pixels: Vec<u8>) -> Vec<u8> {
    let img = image::RgbaImage::from_raw(width, height, pixels).unwrap();
    let mut bytes = Cursor::new(Vec::new());
    img.write_to(&mut bytes, image::ImageOutputFormat::Png).unwrap();
    bytes.into_inner()
}

fn gradient(width: u32, height: u32, base: u8) -> Vec<u8> {
    (0..width * height * 4).map(|i| base.wrapping_add(i as u8)).collect()
}

#[test]
fn reverse_rows_puts_the_last_row_first() {
    let pixels: Vec<u8> = (0..12).collect();
    assert_eq!(reverse_rows(&pixels, 1), vec![8, 9, 10, 11, 4, 5, 6, 7, 0, 1, 2, 3]);
}

#[test]
fn reverse_rows_keeps_a_short_last_row_whole() {
    let pixels: Vec<u8> = (0..10).collect();
    assert_eq!(reverse_rows(&pixels, 1), vec![8, 9, 4, 5, 6, 7, 0, 1, 2, 3]);
}

#[test]
fn reverse_rows_of_a_single_row_is_the_row() {
    let pixels: Vec<u8> = (0..8).collect();
    assert_eq!(reverse_rows(&pixels, 2), pixels);
    assert_eq!(reverse_rows(&Vec::new(), 3), Vec::<u8>::new());
}

#[test]
fn layer_from_png_decodes_and_flips_the_image() {
    let pixels = gradient(2, 3, 0);
    let layer = layer_from_png(&png_of(2, 3, pixels.clone())).unwrap();
    assert_eq!(layer.1, (2, 3));
    let mut expected = Vec::new();
    for row in (0..3).rev() {
        expected.extend_from_slice(&pixels[row * 8..row * 8 + 8]);
    }
    assert_eq!(layer.0, expected);
    assert_ne!(layer.0, pixels);
}

#[test]
fn layer_from_png_refuses_bytes_that_are_not_a_png() {
    assert_eq!(layer_from_png(&vec![1, 2, 3, 4, 5]), None);
    assert_eq!(layer_from_png(&Vec::new()), None);
}

#[test]
fn terrain_layers_keep_stone_bricks_dirt_order() {
    let stone = png_of(1, 2, gradient(1, 2, 10));
    let bricks = png_of(1, 2, gradient(1, 2, 50));
    let dirt = png_of(1, 2, gradient(1, 2, 90));
    let layers = terrain_layers(&stone, &bricks, &dirt).unwrap();
    assert_eq!(layers.len(), 3);
    assert_eq!(layers[0], (vec![14, 15, 16, 17, 10, 11, 12, 13], (1, 2)));
    assert_eq!(layers[1], (vec![54, 55, 56, 57, 50, 51, 52, 53], (1, 2)));
    assert_eq!(layers[2], (vec![94, 95, 96, 97, 90, 91, 92, 93], (1, 2)));
}

#[test]
fn terrain_layers_fail_when_one_file_does_not_decode() {
    let good = png_of(1, 1, gradient(1, 1, 0));
    assert!(terrain_layers(&good, &vec![0, 1], &good).is_none());
    assert!(terrain_layers(&vec![0, 1], &good, &good).is_none());
    assert!(terrain_layers(&good, &good, &vec![0, 1]).is_none());
}
