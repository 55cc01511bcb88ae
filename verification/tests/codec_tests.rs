//! Tests for the base64 codec and the text rendering.

use sudku_grid::base64;
use sudku_grid::render;
use sudku_grid::grid3::Grid3x3;

#[test]
fn base64_known_vectors() {
    assert_eq!(base64::encode(b"Man"), b"TWFu".to_vec());
    assert_eq!(base64::encode(b"Ma"), b"TWE".to_vec());
    assert_eq!(base64::encode(b"M"), b"TQ".to_vec());
    assert_eq!(base64::encode(b""), Vec::<u8>::new());
    assert_eq!(
        base64::encode(b"any carnal pleasure"),
        b"YW55IGNhcm5hbCBwbGVhc3VyZQ".to_vec()
    );
}

#[test]
fn base64_roundtrip() {
    for input in [
        &b""[..],
        &b"a"[..],
        &b"ab"[..],
        &b"abc"[..],
        &b"abcd"[..],
        &[0u8, 255, 17, 3, 128][..],
        &b"the quick brown fox jumps over the lazy dog"[..],
    ] {
        let enc = base64::encode(input);
        let dec = base64::decode(&enc).expect("valid encoding must decode");
        assert_eq!(dec, input.to_vec());
    }
}

#[test]
fn base64_rejects_bad_input() {
    // a lone trailing character cannot spell a byte
    assert!(base64::decode(b"TWFuA").is_none());
    // characters outside the alphabet are refused
    assert!(base64::decode(b"TW?u").is_none());
    assert!(base64::decode(b"~A").is_none());
    // the empty input decodes to no bytes
    assert_eq!(base64::decode(b""), Some(Vec::new()));
}

#[test]
fn base64_lengths() {
    assert_eq!(base64::encoded_len(b"Man"), 4);
    assert_eq!(base64::encoded_len(b"Ma"), 3);
    assert_eq!(base64::encoded_len(b"M"), 2);
    assert_eq!(base64::decoded_len(b"TWFu"), 3);
    assert_eq!(base64::decoded_len(b"TWE"), 2);
    assert_eq!(base64::decoded_len(b"TQ"), 1);
}

#[test]
fn base64_carries_grid_encoding() {
    let grid = Grid3x3::randomized();
    let bytes = grid.encode();
    let text = base64::encode(&bytes);
    let back = base64::decode(&text).unwrap();
    let restored = Grid3x3::from_encoded(&back).unwrap();
    assert!(restored == grid);
}

#[test]
fn num_to_str_names_symbols() {
    assert_eq!(render::num_to_str(1), "1");
    assert_eq!(render::num_to_str(9), "9");
    assert_eq!(render::num_to_str(10), "A");
    assert_eq!(render::num_to_str(16), "G");
    assert_eq!(render::num_to_str(0), "");
    assert_eq!(render::num_to_str(17), "");
}

#[test]
fn grid_text_layout() {
    let grid = Grid3x3::new();
    let text = render::grid3_to_text(&grid);
    let lines: Vec<&str> = text.lines().collect();
    assert_eq!(lines.len(), 11);
    assert_eq!(lines[0], "1 2 3 | 4 5 6 | 7 8 9");
    assert_eq!(lines[3], "---------------------");
    assert_eq!(lines[4], "2 3 4 | 5 6 7 | 8 9 1");

    let empty = sudku_grid::grid3::Grid3x3::empty();
    let text = render::grid3_to_text(&empty);
    assert!(text.starts_with("_ _ _ | _ _ _ | _ _ _\n"));

    let grid4 = sudku_grid::grid4::Grid4x4::new();
    let text4 = render::grid4_to_text(&grid4);
    let lines4: Vec<&str> = text4.lines().collect();
    assert_eq!(lines4[0], "1 2 3 4 | 5 6 7 8 | 9 A B C | D E F G");
}
