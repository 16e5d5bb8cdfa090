use photo_core::decode::load_image_with_orientation;
use photo_core::orient::apply_orientation;
use photo_core::pixel::Rgba8Image;

fn png_bytes_gradient(w: u32, h: u32) -> Vec<u8> {
    let img = image::RgbaImage::from_fn(w, h, |x, y| {
        image::Rgba([(x * 40 % 256) as u8, (y * 30 % 256) as u8, 77, 255])
    });
    let mut out = std::io::Cursor::new(Vec::new());
    img.write_to(&mut out, image::ImageFormat::Png).unwrap();
    out.into_inner()
}

#[test]
fn png_without_exif_loads_unrotated() {
    let bytes = png_bytes_gradient(3, 2);
    let img = load_image_with_orientation(&bytes).unwrap();
    assert_eq!(img.width, 3);
    assert_eq!(img.height, 2);
    assert_eq!(img.data.len(), 3 * 2 * 4);
    // Pixel (2, 1) of the gradient: R = 80, G = 30, B = 77, A = 255.
    let idx = (1 * 3 + 2) * 4;
    assert_eq!(&img.data[idx..idx + 4], &[80, 30, 77, 255]);
}

/// A minimal EXIF block (TIFF structure, little endian) whose only
/// field is the given orientation of the primary image.
fn exif_app1_segment(orientation: u16) -> Vec<u8> {
    let mut tiff: Vec<u8> = Vec::new();
    tiff.extend_from_slice(b"II");
    tiff.extend_from_slice(&42u16.to_le_bytes());
    tiff.extend_from_slice(&8u32.to_le_bytes()); // offset of IFD0
    tiff.extend_from_slice(&1u16.to_le_bytes()); // one field
    tiff.extend_from_slice(&0x0112u16.to_le_bytes()); // Orientation
    tiff.extend_from_slice(&3u16.to_le_bytes()); // SHORT
    tiff.extend_from_slice(&1u32.to_le_bytes());
    tiff.extend_from_slice(&orientation.to_le_bytes());
    tiff.extend_from_slice(&0u16.to_le_bytes()); // value padding
    tiff.extend_from_slice(&0u32.to_le_bytes()); // no next IFD
    let mut payload: Vec<u8> = b"Exif\0\0".to_vec();
    payload.extend_from_slice(&tiff);
    let mut seg: Vec<u8> = vec![0xFF, 0xE1];
    seg.extend_from_slice(&((payload.len() + 2) as u16).to_be_bytes());
    seg.extend_from_slice(&payload);
    seg
}

fn jpeg_with_orientation(w: u32, h: u32, orientation: u16) -> Vec<u8> {
    let img = image::RgbImage::from_pixel(w, h, image::Rgb([128, 128, 128]));
    let mut out = std::io::Cursor::new(Vec::new());
    img.write_to(&mut out, image::ImageFormat::Jpeg).unwrap();
    let jpeg = out.into_inner();
    // Splice the EXIF APP1 segment right after the SOI marker.
    let mut bytes = jpeg[..2].to_vec();
    bytes.extend_from_slice(&exif_app1_segment(orientation));
    bytes.extend_from_slice(&jpeg[2..]);
    bytes
}

#[test]
fn exif_orientation_6_swaps_decoded_dimensions() {
    let bytes = jpeg_with_orientation(4, 2, 6);
    let img = load_image_with_orientation(&bytes).unwrap();
    assert_eq!((img.width, img.height), (2, 4));
}

#[test]
fn exif_orientation_1_keeps_decoded_dimensions() {
    let bytes = jpeg_with_orientation(4, 2, 1);
    let img = load_image_with_orientation(&bytes).unwrap();
    assert_eq!((img.width, img.height), (4, 2));
}

#[test]
fn garbage_bytes_fail_to_load() {
    let bytes = b"definitely not an image".to_vec();
    assert!(load_image_with_orientation(&bytes).is_err());
}

fn two_by_one() -> Rgba8Image {
    // Pixel (0,0) = a, pixel (1,0) = b.
    let a = [1u8, 2, 3, 4];
    let b = [5u8, 6, 7, 8];
    Rgba8Image { width: 2, height: 1, data: [a, b].concat() }
}

fn pixel(img: &Rgba8Image, x: u32, y: u32) -> [u8; 4] {
    let i = ((y * img.width + x) * 4) as usize;
    [img.data[i], img.data[i + 1], img.data[i + 2], img.data[i + 3]]
}

#[test]
fn orientation_1_and_unknown_values_leave_image_unchanged() {
    for o in [0u32, 1, 9, 100] {
        let img = apply_orientation(two_by_one(), o);
        assert_eq!((img.width, img.height), (2, 1));
        assert_eq!(pixel(&img, 0, 0), [1, 2, 3, 4]);
        assert_eq!(pixel(&img, 1, 0), [5, 6, 7, 8]);
    }
}

#[test]
fn orientation_2_mirrors_horizontally() {
    let img = apply_orientation(two_by_one(), 2);
    assert_eq!((img.width, img.height), (2, 1));
    assert_eq!(pixel(&img, 0, 0), [5, 6, 7, 8]);
    assert_eq!(pixel(&img, 1, 0), [1, 2, 3, 4]);
}

#[test]
fn orientation_3_rotates_half_turn() {
    let img = apply_orientation(two_by_one(), 3);
    assert_eq!((img.width, img.height), (2, 1));
    assert_eq!(pixel(&img, 0, 0), [5, 6, 7, 8]);
    assert_eq!(pixel(&img, 1, 0), [1, 2, 3, 4]);
}

#[test]
fn orientation_4_mirrors_vertically() {
    let img = apply_orientation(two_by_one(), 4);
    assert_eq!((img.width, img.height), (2, 1));
    assert_eq!(pixel(&img, 0, 0), [1, 2, 3, 4]);
    assert_eq!(pixel(&img, 1, 0), [5, 6, 7, 8]);
}

#[test]
fn orientation_5_transposes() {
    let img = apply_orientation(two_by_one(), 5);
    assert_eq!((img.width, img.height), (1, 2));
    assert_eq!(pixel(&img, 0, 0), [1, 2, 3, 4]);
    assert_eq!(pixel(&img, 0, 1), [5, 6, 7, 8]);
}

#[test]
fn orientation_6_rotates_quarter_turn_and_swaps_dimensions() {
    let img = apply_orientation(two_by_one(), 6);
    assert_eq!((img.width, img.height), (1, 2));
    // Rotating 90 degrees clockwise sends (0,0) to the top right and
    // (1,0) to the bottom right; with a single column, a goes on top.
    assert_eq!(pixel(&img, 0, 0), [1, 2, 3, 4]);
    assert_eq!(pixel(&img, 0, 1), [5, 6, 7, 8]);
}

#[test]
fn orientation_7_transverses() {
    let img = apply_orientation(two_by_one(), 7);
    assert_eq!((img.width, img.height), (1, 2));
    assert_eq!(pixel(&img, 0, 0), [5, 6, 7, 8]);
    assert_eq!(pixel(&img, 0, 1), [1, 2, 3, 4]);
}

#[test]
fn orientation_8_rotates_three_quarter_turn() {
    let img = apply_orientation(two_by_one(), 8);
    assert_eq!((img.width, img.height), (1, 2));
    assert_eq!(pixel(&img, 0, 0), [5, 6, 7, 8]);
    assert_eq!(pixel(&img, 0, 1), [1, 2, 3, 4]);
}
