use image::ImageEncoder;
use pixel_editor::buffer::{Image, Pixel};
use pixel_editor::codec::{load, save, PixError};
use pixel_editor::png::{export_as_png, image_from_rgba8, import_from_png, PngError};

const RED: Pixel = (255, 0, 0, 255);

fn sample(width: u16, height: u16) -> Image {
    let mut pixels = Vec::new();
    for i in 0..(width as usize * height as usize) {
        pixels.push((i as u8, (i * 7) as u8, (i * 13) as u8, 255 - i as u8));
    }
    Image::new(width, height, pixels)
}

#[test]
fn save_writes_header_and_quads() {
    let img = Image::new(2, 1, vec![(1, 2, 3, 4), (5, 6, 7, 8)]);
    assert_eq!(save(&img), vec![2, 0, 1, 0, 1, 2, 3, 4, 5, 6, 7, 8]);
    let wide = Image::blank(300, 0);
    assert_eq!(save(&wide), vec![44, 1, 0, 0]);
}

#[test]
fn pix_round_trip() {
    for (w, h) in [(0, 0), (1, 1), (3, 5), (17, 4)] {
        let img = sample(w, h);
        let back = load(&save(&img)).unwrap();
        assert_eq!(back.width, w);
        assert_eq!(back.height, h);
        assert_eq!(back.pixels, img.pixels);
    }
}

#[test]
fn load_ignores_trailing_bytes() {
    let back = load(&vec![1, 0, 1, 0, 9, 8, 7, 6, 42]).unwrap();
    assert_eq!(back.pixels, vec![(9, 8, 7, 6)]);
}

#[test]
fn load_rejects_truncated_data() {
    assert_eq!(load(&vec![]).err(), Some(PixError::Truncated));
    assert_eq!(load(&vec![1, 0, 1]).err(), Some(PixError::Truncated));
    assert_eq!(load(&vec![2, 0, 1, 0, 1, 2, 3, 4, 5, 6, 7]).err(), Some(PixError::Truncated));
    assert_eq!(load(&vec![255, 255, 255, 255, 0]).err(), Some(PixError::Truncated));
}

#[test]
fn png_round_trip() {
    let img = sample(3, 2);
    let bytes = export_as_png(&img).unwrap();
    assert_eq!(&bytes[..8], &[137, 80, 78, 71, 13, 10, 26, 10]);
    let back = import_from_png(&bytes).unwrap();
    assert_eq!(back.width, 3);
    assert_eq!(back.height, 2);
    assert_eq!(back.pixels, img.pixels);
}

#[test]
fn import_grayscale_png_is_unsupported() {
    let mut bytes: Vec<u8> = Vec::new();
    image::codecs::png::PngEncoder::new(&mut bytes)
        .write_image(&[0, 64, 128, 255], 2, 2, image::ColorType::L8)
        .unwrap();
    let mut canvas = Image::new(1, 1, vec![RED]);
    match import_from_png(&bytes) {
        Ok(img) => canvas = img,
        Err(e) => assert_eq!(e, PngError::UnsupportedFormat),
    }
    assert_eq!(canvas.pixels, vec![RED]);
    assert!(import_from_png(&bytes).is_err());
}

#[test]
fn import_garbage_is_codec_error() {
    assert_eq!(import_from_png(&vec![1, 2, 3]).err(), Some(PngError::Codec));
}

#[test]
fn rgba8_dimensions_must_fit() {
    assert_eq!(image_from_rgba8(70000, 0, &vec![]).err(), Some(PngError::TooLarge));
    let img = image_from_rgba8(1, 1, &vec![1, 2, 3, 4, 5]).unwrap();
    assert_eq!(img.pixels, vec![(1, 2, 3, 4)]);
}

#[test]
fn export_empty_image_fails() {
    assert_eq!(export_as_png(&Image::blank(0, 3)).err(), Some(PngError::Codec));
}
