use base64::Engine as _;
use photo_core::patch::{AiPatch, CompositeError, build_mask_definition, composite_patches_on_image,
    count_visible, patch_is_visible};
use photo_core::pixel::{MaskBitmap, Rgba8Image, blend_channel};

fn base_image(w: u32, h: u32) -> Rgba8Image {
    let data: Vec<u8> = (0..w * h * 4).map(|i| (i * 7 % 256) as u8).collect();
    Rgba8Image { width: w, height: h, data }
}

fn png_bytes(w: u32, h: u32, rgb: [u8; 3]) -> Vec<u8> {
    let img = image::RgbImage::from_pixel(w, h, image::Rgb(rgb));
    let mut out = std::io::Cursor::new(Vec::new());
    img.write_to(&mut out, image::ImageFormat::Png).unwrap();
    out.into_inner()
}

fn color_patch(w: u32, h: u32, rgb: [u8; 3]) -> AiPatch {
    let b64 = base64::engine::general_purpose::STANDARD.encode(png_bytes(w, h, rgb));
    AiPatch {
        visible: None,
        id: Some("patch-1".to_string()),
        name: Some("Patch".to_string()),
        invert: None,
        sub_masks: Vec::new(),
        color: Some(b64.into_bytes()),
    }
}

fn uniform_mask(w: u32, h: u32, v: u8) -> MaskBitmap {
    MaskBitmap { width: w, height: h, data: vec![v; (w * h) as usize] }
}

#[test]
fn empty_patch_collection_returns_base_unchanged() {
    let base = base_image(3, 2);
    let out = composite_patches_on_image(&base, &Vec::new(), &Vec::new()).unwrap();
    assert_eq!(out.width, 3);
    assert_eq!(out.height, 2);
    assert_eq!(out.data, base.data);
}

#[test]
fn invisible_patch_never_affects_output() {
    let base = base_image(2, 2);
    let hidden = AiPatch {
        visible: Some(false),
        id: None,
        name: None,
        invert: Some(true),
        sub_masks: Vec::new(),
        color: Some(b"!!! not base64 !!!".to_vec()),
    };
    let out = composite_patches_on_image(&base, &vec![hidden], &Vec::new()).unwrap();
    assert_eq!(out.data, base.data);
}

#[test]
fn patch_without_color_is_not_visible() {
    let p = AiPatch {
        visible: Some(true),
        id: Some("x".to_string()),
        name: Some("y".to_string()),
        invert: None,
        sub_masks: Vec::new(),
        color: None,
    };
    assert!(!patch_is_visible(&p));
    let q = AiPatch { color: Some(Vec::new()), ..p };
    assert!(!patch_is_visible(&q));
    let r = AiPatch { visible: None, color: Some(b"xxxx".to_vec()), ..q };
    assert!(patch_is_visible(&r));
    assert_eq!(count_visible(&vec![r]), 1);
}

#[test]
fn visible_patch_without_id_fails() {
    let base = base_image(2, 2);
    let mut p = color_patch(2, 2, [10, 20, 30]);
    p.id = None;
    let masks = vec![uniform_mask(2, 2, 255)];
    let err = composite_patches_on_image(&base, &vec![p], &masks).unwrap_err();
    assert_eq!(err, CompositeError::MissingPatchInfo);
}

#[test]
fn bad_base64_fails() {
    let base = base_image(2, 2);
    let mut p = color_patch(2, 2, [10, 20, 30]);
    p.color = Some(b"@@@@".to_vec());
    let masks = vec![uniform_mask(2, 2, 255)];
    let err = composite_patches_on_image(&base, &vec![p], &masks).unwrap_err();
    assert_eq!(err, CompositeError::InvalidBase64);
}

#[test]
fn undecodable_color_bytes_fail() {
    let base = base_image(2, 2);
    let mut p = color_patch(2, 2, [10, 20, 30]);
    p.color = Some(base64::engine::general_purpose::STANDARD.encode(b"not an image").into_bytes());
    let masks = vec![uniform_mask(2, 2, 255)];
    let err = composite_patches_on_image(&base, &vec![p], &masks).unwrap_err();
    assert_eq!(err, CompositeError::UndecodableColor);
}

#[test]
fn zero_mask_leaves_base_pixel_identical() {
    let base = base_image(4, 3);
    let p = color_patch(4, 3, [255, 0, 0]);
    let masks = vec![uniform_mask(4, 3, 0)];
    let out = composite_patches_on_image(&base, &vec![p], &masks).unwrap();
    assert_eq!(out.data, base.data);
}

#[test]
fn full_mask_replaces_rgb_and_keeps_alpha() {
    let base = base_image(4, 3);
    let p = color_patch(4, 3, [9, 120, 250]);
    let masks = vec![uniform_mask(4, 3, 255)];
    let out = composite_patches_on_image(&base, &vec![p], &masks).unwrap();
    for pix in 0..(4 * 3) as usize {
        assert_eq!(out.data[pix * 4], 9);
        assert_eq!(out.data[pix * 4 + 1], 120);
        assert_eq!(out.data[pix * 4 + 2], 250);
        assert_eq!(out.data[pix * 4 + 3], base.data[pix * 4 + 3]);
    }
}

#[test]
fn patch_of_other_size_is_resampled_to_canvas() {
    let base = base_image(4, 4);
    let p = color_patch(1, 1, [50, 100, 150]);
    let masks = vec![uniform_mask(4, 4, 255)];
    let out = composite_patches_on_image(&base, &vec![p], &masks).unwrap();
    assert_eq!(out.data.len(), 4 * 4 * 4);
    for pix in 0..16usize {
        assert_eq!(&out.data[pix * 4..pix * 4 + 3], &[50, 100, 150]);
    }
}

#[test]
fn later_patches_blend_on_top() {
    let base = base_image(2, 2);
    let p1 = color_patch(2, 2, [10, 10, 10]);
    let p2 = color_patch(2, 2, [200, 200, 200]);
    let masks = vec![uniform_mask(2, 2, 255), uniform_mask(2, 2, 255)];
    let out = composite_patches_on_image(&base, &vec![p1, p2], &masks).unwrap();
    assert_eq!(&out.data[0..3], &[200, 200, 200]);
}

#[test]
fn blend_channel_rounds_to_nearest() {
    assert_eq!(blend_channel(200, 100, 0), 100);
    assert_eq!(blend_channel(200, 100, 255), 200);
    // (200*128 + 100*127 + 127) / 255 == 38427 / 255, which rounds to 150.
    assert_eq!(blend_channel(200, 100, 128), 150);
    assert_eq!(blend_channel(255, 0, 128), 128);
    assert_eq!(blend_channel(0, 255, 128), 127);
}

#[test]
fn mask_definition_synthesizes_fixed_fields() {
    let p = AiPatch {
        visible: Some(true),
        id: Some("layer-7".to_string()),
        name: Some("Sky".to_string()),
        invert: None,
        sub_masks: vec!["{\"shape\":\"circle\"}".to_string()],
        color: Some(b"aGk=".to_vec()),
    };
    let d = build_mask_definition(p).unwrap();
    assert_eq!(d.id, "layer-7");
    assert_eq!(d.name, "Sky");
    assert!(d.visible);
    assert!(!d.invert);
    assert_eq!(d.opacity, 100);
    assert_eq!(d.sub_masks.len(), 1);

    let q = AiPatch {
        visible: None,
        id: None,
        name: Some("x".to_string()),
        invert: Some(true),
        sub_masks: Vec::new(),
        color: None,
    };
    assert_eq!(build_mask_definition(q).unwrap_err(), CompositeError::MissingPatchInfo);
}
