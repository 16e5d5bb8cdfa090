use photo_core::lut::{parse_cube, parse_3dl, parse_hald, Lut, LutData, LutError};
use photo_core::formats::{classify_lut_path, is_raw_file, LutFormat};
use photo_core::text::{is_float_token, parse_u32_token};

fn lines(text: &str) -> Vec<Vec<u8>> {
    text.split('\n').map(|l| l.as_bytes().to_vec()).collect()
}

fn tokens_of(lut: &Lut) -> Vec<String> {
    match &lut.data {
        LutData::Tokens(t) => t
            .iter()
            .map(|b| String::from_utf8(b.clone()).unwrap())
            .collect(),
        LutData::Channels(_) => panic!("expected token data"),
    }
}

#[test]
fn cube_basic_two_grid() {
    let text = "TITLE \"demo\"\n# a comment\n\nLUT_3D_SIZE 2\n\
0 0 0\n1 0 0\n0 1 0\n1 1 0\n0 0 1\n1 0 1\n0 1 1\n1 1 1\n";
    let lut = parse_cube(&lines(text)).unwrap();
    assert_eq!(lut.size, 2);
    let toks = tokens_of(&lut);
    assert_eq!(toks.len(), 2 * 2 * 2 * 3);
    assert_eq!(toks[0], "0");
    assert_eq!(toks[3], "1");
    assert_eq!(toks[23], "1");
}

#[test]
fn cube_data_length_matches_size_invariant() {
    let text = "LUT_3D_SIZE 3\n".to_string() + &"0.5 0.25 0.125\n".repeat(27);
    let lut = parse_cube(&lines(&text)).unwrap();
    assert_eq!(lut.size, 3);
    assert_eq!(tokens_of(&lut).len(), 3 * 3 * 3 * 3);
}

#[test]
fn cube_without_size_fails() {
    let text = "0 0 0\n1 1 1\n";
    assert_eq!(parse_cube(&lines(text)).unwrap_err(), LutError::SizeNotDeclared);
}

#[test]
fn cube_sample_count_mismatch_fails() {
    let text = "LUT_3D_SIZE 2\n0 0 0\n1 1 1\n";
    assert_eq!(parse_cube(&lines(text)).unwrap_err(), LutError::SizeMismatch);
}

#[test]
fn cube_bad_number_fails() {
    let text = "LUT_3D_SIZE 2\n0 zero 0\n";
    assert_eq!(parse_cube(&lines(text)).unwrap_err(), LutError::InvalidNumber);
}

#[test]
fn cube_short_data_line_fails() {
    let text = "LUT_3D_SIZE 2\n0 0\n";
    assert_eq!(parse_cube(&lines(text)).unwrap_err(), LutError::MissingComponent);
}

#[test]
fn cube_bad_size_argument_fails() {
    let text = "LUT_3D_SIZE two\n";
    assert_eq!(parse_cube(&lines(text)).unwrap_err(), LutError::InvalidSizeValue);
}

#[test]
fn cube_data_before_size_is_ignored() {
    let text = "9 9 9\nLUT_3D_SIZE 1\n0.1 0.2 0.3\n";
    let lut = parse_cube(&lines(text)).unwrap();
    assert_eq!(lut.size, 1);
    assert_eq!(tokens_of(&lut), vec!["0.1", "0.2", "0.3"]);
}

#[test]
fn cube_keywords_case_insensitive() {
    let text = "title x\nlut_3d_size 1\n.5 .5 .5\n";
    let lut = parse_cube(&lines(text)).unwrap();
    assert_eq!(lut.size, 1);
}

#[test]
fn cube_round_trip_reproduces_samples() {
    let text = "LUT_3D_SIZE 2\n\
0.0 0.5 1.0\n0.25 0.125 1e-2\n1 0 0\n0 1 0\n0 0 1\n1 1 0\n0 1 1\n1 0 1\n";
    let first = parse_cube(&lines(text)).unwrap();
    let toks = tokens_of(&first);
    let mut written = format!("LUT_3D_SIZE {}\n", first.size);
    for triple in toks.chunks(3) {
        written.push_str(&format!("{} {} {}\n", triple[0], triple[1], triple[2]));
    }
    let second = parse_cube(&lines(&written)).unwrap();
    assert_eq!(second.size, first.size);
    assert_eq!(tokens_of(&second), toks);
}

#[test]
fn three_dl_infers_cubic_size() {
    let text = "# comment\nMesh 10 20 30 40\n".to_string() + &"10 20 30\n".repeat(8);
    let lut = parse_3dl(&lines(&text)).unwrap();
    assert_eq!(lut.size, 2);
    assert_eq!(tokens_of(&lut).len(), 24);
}

#[test]
fn three_dl_seven_triples_fails() {
    let text = "1 2 3\n".repeat(7);
    assert_eq!(parse_3dl(&lines(&text)).unwrap_err(), LutError::NonCubicData);
}

#[test]
fn three_dl_empty_fails() {
    let text = "# only comments\n\n";
    assert_eq!(parse_3dl(&lines(text)).unwrap_err(), LutError::EmptyData);
}

#[test]
fn three_dl_bad_number_fails() {
    let text = "1 x 3\n";
    assert_eq!(parse_3dl(&lines(text)).unwrap_err(), LutError::InvalidNumber);
}

#[test]
fn three_dl_skips_lines_with_other_token_counts() {
    let text = "3DMESH\n0 1\n1 1 1 1\n5 5 5\n".to_string() + &"6 6 6\n".repeat(7);
    let lut = parse_3dl(&lines(&text)).unwrap();
    assert_eq!(lut.size, 2);
}

#[test]
fn hald_square_cubic_image_parses() {
    // 8x8 pixels: 64 == 4^3.
    let pixels: Vec<u8> = (0..8u32 * 8 * 3).map(|i| (i % 251) as u8).collect();
    let lut = parse_hald(8, 8, &pixels).unwrap();
    assert_eq!(lut.size, 4);
    match &lut.data {
        LutData::Channels(c) => {
            assert_eq!(c.len(), 4 * 4 * 4 * 3);
            assert_eq!(c, &pixels);
        },
        LutData::Tokens(_) => panic!("expected channel data"),
    }
}

#[test]
fn hald_non_square_fails_even_when_cubic() {
    // 4x2 pixels: 8 == 2^3, but the image is not square.
    let pixels = vec![0u8; 4 * 2 * 3];
    assert_eq!(parse_hald(4, 2, &pixels).unwrap_err(), LutError::NotSquare);
}

#[test]
fn hald_square_non_cubic_fails() {
    // 3x3 pixels: 9 is not a perfect cube.
    let pixels = vec![0u8; 3 * 3 * 3];
    assert_eq!(parse_hald(3, 3, &pixels).unwrap_err(), LutError::NonCubicPixels);
}

#[test]
fn lut_paths_classify_by_extension() {
    assert_eq!(classify_lut_path(&b"look.cube".to_vec()), LutFormat::Cube);
    assert_eq!(classify_lut_path(&b"dir/LOOK.CUBE".to_vec()), LutFormat::Cube);
    assert_eq!(classify_lut_path(&b"film.3DL".to_vec()), LutFormat::ThreeDl);
    assert_eq!(classify_lut_path(&b"hald.png".to_vec()), LutFormat::HaldImage);
    assert_eq!(classify_lut_path(&b"hald.JpG".to_vec()), LutFormat::HaldImage);
    assert_eq!(classify_lut_path(&b"hald.jpeg".to_vec()), LutFormat::HaldImage);
    assert_eq!(classify_lut_path(&b"hald.tiff".to_vec()), LutFormat::HaldImage);
    assert_eq!(classify_lut_path(&b"notes.txt".to_vec()), LutFormat::Unsupported);
    assert_eq!(classify_lut_path(&b"noextension".to_vec()), LutFormat::Unsupported);
    assert_eq!(classify_lut_path(&b".cube".to_vec()), LutFormat::Unsupported);
}

#[test]
fn raw_paths_classify_by_extension() {
    assert!(is_raw_file(&b"shot.NEF".to_vec()));
    assert!(is_raw_file(&b"a/b/shot.cr3".to_vec()));
    assert!(is_raw_file(&b"shot.dng".to_vec()));
    assert!(!is_raw_file(&b"shot.jpg".to_vec()));
    assert!(!is_raw_file(&b"shot".to_vec()));
    assert!(!is_raw_file(&b"raw".to_vec()));
}

#[test]
fn float_tokens_follow_parser_grammar() {
    for good in ["0", "1.5", ".5", "5.", "-0.25", "+3", "1e5", "2.5E-3", "inf", "-INF", "nan", "+Infinity"] {
        assert!(is_float_token(&good.as_bytes().to_vec()), "{good}");
        assert!(good.parse::<f32>().is_ok(), "{good}");
    }
    for bad in ["", ".", "1.2.3", "abc", "1e", "e5", "--1", "0x1f", "1 2"] {
        assert!(!is_float_token(&bad.as_bytes().to_vec()), "{bad}");
        assert!(bad.parse::<f32>().is_err(), "{bad}");
    }
}

#[test]
fn u32_tokens_parse_exactly() {
    assert_eq!(parse_u32_token(&b"33".to_vec()), Some(33));
    assert_eq!(parse_u32_token(&b"+7".to_vec()), Some(7));
    assert_eq!(parse_u32_token(&b"0".to_vec()), Some(0));
    assert_eq!(parse_u32_token(&b"4294967295".to_vec()), Some(4294967295));
    assert_eq!(parse_u32_token(&b"4294967296".to_vec()), None);
    assert_eq!(parse_u32_token(&b"-1".to_vec()), None);
    assert_eq!(parse_u32_token(&b"12a".to_vec()), None);
    assert_eq!(parse_u32_token(&b"".to_vec()), None);
}
