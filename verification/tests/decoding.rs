use huex::color::Rgb8;
use huex::decode::{load_pixels, visible_pixels, LoadError};

fn ppm(width: u32, height: u32, rgb: &[u8]) -> Vec<u8> {
    let mut bytes = format!("P6\n{} {}\n255\n", width, height).into_bytes();
    bytes.extend_from_slice(rgb);
    bytes
}

fn png_rgba(width: u32, height: u32, rgba: Vec<u8>) -> Vec<u8> {
    let image = image::RgbaImage::from_raw(width, height, rgba).unwrap();
    let mut out = std::io::Cursor::new(Vec::new());
    image.write_to(&mut out, image::ImageFormat::Png).unwrap();
    out.into_inner()
}

#[test]
fn ppm_pixels_are_read_by_extension_and_by_content() {
    let bytes = ppm(2, 1, &[255, 0, 0, 0, 169, 219]);
    for extension in [Some("ppm"), Some("PPM"), None] {
        let loaded = match load_pixels(&bytes, extension) {
            Ok(loaded) => loaded,
            Err(_) => panic!("the ppm should decode"),
        };
        assert_eq!(loaded.width, 2);
        assert_eq!(loaded.height, 1);
        assert_eq!(loaded.pixels, vec![Rgb8 { r: 255, g: 0, b: 0 }, Rgb8 { r: 0, g: 169, b: 219 }]);
    }
}

#[test]
fn transparent_pixels_are_dropped_and_others_blended() {
    let bytes = png_rgba(3, 1, vec![10, 20, 30, 0, 0, 0, 0, 128, 1, 2, 3, 255]);
    let loaded = match load_pixels(&bytes, Some("png")) {
        Ok(loaded) => loaded,
        Err(_) => panic!("the png should decode"),
    };
    assert_eq!((loaded.width, loaded.height), (3, 1));
    assert_eq!(loaded.pixels, vec![Rgb8 { r: 127, g: 127, b: 127 }, Rgb8 { r: 1, g: 2, b: 3 }]);
}

#[test]
fn fully_transparent_image_has_no_visible_pixels() {
    let bytes = png_rgba(2, 2, vec![0; 16]);
    assert!(matches!(load_pixels(&bytes, Some("png")), Err(LoadError::NoVisiblePixels)));
}

#[test]
fn unknown_extension_and_garbage_are_refused() {
    let bytes = ppm(1, 1, &[1, 2, 3]);
    assert!(matches!(load_pixels(&bytes, Some("notanimage")), Err(LoadError::UnknownFormat)));
    assert!(matches!(load_pixels(&bytes, Some("")), Err(LoadError::UnknownFormat)));
    assert!(matches!(load_pixels(b"not an image", Some("png")), Err(LoadError::Undecodable(_))));
    match load_pixels(b"not an image", None) {
        Err(LoadError::Undecodable(message)) => assert!(!message.is_empty()),
        _ => panic!("garbage should not decode"),
    }
}

#[test]
fn visible_pixels_ignores_a_partial_trailing_pixel() {
    let rgba = vec![5, 6, 7, 255, 9, 9, 9, 0, 1, 2];
    assert_eq!(visible_pixels(&rgba), vec![Rgb8 { r: 5, g: 6, b: 7 }]);
}
