use paint_by_number::board::BoardData;
use paint_by_number::ppm::{parse_u8_token, parse_usize_token, tokenize, PpmError};

fn bytes(s: &str) -> Vec<u8> {
    s.as_bytes().to_vec()
}

#[test]
fn tokenize_splits_on_whitespace_and_drops_comment_lines() {
    let toks = tokenize(&bytes("a b\n#comment line\nd\t e\r\n"));
    let toks: Vec<&[u8]> = toks.iter().map(|t| t.as_slice()).collect();
    assert_eq!(toks, vec![b"a" as &[u8], b"b", b"d", b"e"]);
}

#[test]
fn tokenize_keeps_a_hash_inside_a_line() {
    let toks = tokenize(&bytes("ab#cd\nef"));
    let toks: Vec<&[u8]> = toks.iter().map(|t| t.as_slice()).collect();
    assert_eq!(toks, vec![b"ab#cd" as &[u8], b"ef"]);
}

#[test]
fn parse_u8_token_reads_digits_and_an_optional_plus() {
    assert_eq!(parse_u8_token(&bytes("0")), Some(0));
    assert_eq!(parse_u8_token(&bytes("255")), Some(255));
    assert_eq!(parse_u8_token(&bytes("007")), Some(7));
    assert_eq!(parse_u8_token(&bytes("+17")), Some(17));
    assert_eq!(parse_u8_token(&bytes("256")), None);
    assert_eq!(parse_u8_token(&bytes("12a")), None);
    assert_eq!(parse_u8_token(&bytes("-1")), None);
    assert_eq!(parse_u8_token(&bytes("+")), None);
    assert_eq!(parse_u8_token(&bytes("")), None);
}

#[test]
fn parse_usize_token_reads_large_values_and_rejects_overflow() {
    assert_eq!(parse_usize_token(&bytes("123456")), Some(123456));
    assert_eq!(parse_usize_token(&bytes("+42")), Some(42));
    assert_eq!(parse_usize_token(&bytes("9999999999999999999999999")), None);
    assert_eq!(parse_usize_token(&bytes("12 3")), None);
}

#[test]
fn a_small_pixel_map_becomes_a_board() {
    let data = BoardData::from_ppm_text(&bytes("PX\n2 1\n255\n255 0 0  0 0 255\n")).unwrap();
    assert_eq!(data.width, 2);
    assert_eq!(data.height, 1);
    assert_eq!(data.colors.len(), 2);
    assert_eq!(data.colors[0].rgb.r, 255);
    assert_eq!(data.colors[1].rgb.b, 255);
    assert_eq!(data.pixels[0], vec![0, 1]);
}

#[test]
fn comment_lines_are_ignored() {
    let text = "PX\n# a comment\n1 2\n255\n# another\n9 9 9\n9 9 9\n";
    let data = BoardData::from_ppm_text(&bytes(text)).unwrap();
    assert_eq!(data.width, 1);
    assert_eq!(data.height, 2);
    assert_eq!(data.colors.len(), 1);
    assert_eq!(data.colors[0].count, 2);
}

#[test]
fn a_truncated_header_is_a_missing_token() {
    assert_eq!(BoardData::from_ppm_text(&bytes("PX")).unwrap_err(), PpmError::MissingToken);
    assert_eq!(BoardData::from_ppm_text(&bytes("PX 2")).unwrap_err(), PpmError::MissingToken);
    assert_eq!(BoardData::from_ppm_text(&bytes("PX 2 1")).unwrap_err(), PpmError::MissingToken);
    assert_eq!(BoardData::from_ppm_text(&bytes("")).unwrap_err(), PpmError::MissingToken);
}

#[test]
fn missing_pixel_values_are_a_missing_token() {
    assert_eq!(BoardData::from_ppm_text(&bytes("PX 2 1 255 1 2 3 4 5")).unwrap_err(), PpmError::MissingToken);
}

#[test]
fn a_word_where_a_number_belongs_is_an_invalid_number() {
    assert_eq!(BoardData::from_ppm_text(&bytes("PX w 1 255")).unwrap_err(), PpmError::InvalidNumber);
    assert_eq!(BoardData::from_ppm_text(&bytes("PX 1 1 999 1 2 3")).unwrap_err(), PpmError::InvalidNumber);
    assert_eq!(BoardData::from_ppm_text(&bytes("PX 1 1 255 1 two 3")).unwrap_err(), PpmError::InvalidNumber);
    assert_eq!(BoardData::from_ppm_text(&bytes("PX 1 1 255 256 0 0")).unwrap_err(), PpmError::InvalidNumber);
}

#[test]
fn an_oversized_image_is_rejected() {
    assert_eq!(BoardData::from_ppm_text(&bytes("PX 4294967295 4294967295 255")).unwrap_err(), PpmError::ImageTooLarge);
}

#[test]
fn an_image_of_too_many_colors_is_rejected() {
    let mut text = String::from("PX 257 1 255\n");
    for i in 0..257u32 {
        text.push_str(&format!("{} {} 0\n", i % 256, i / 256));
    }
    assert_eq!(BoardData::from_ppm_text(&bytes(&text)).unwrap_err(), PpmError::TooManyColors);
}

#[test]
fn extra_tokens_after_the_pixels_are_ignored() {
    let data = BoardData::from_ppm_text(&bytes("PX 1 1 255 7 8 9 trailing words")).unwrap();
    assert_eq!(data.colors[0].rgb.r, 7);
    assert_eq!(data.colors[0].rgb.g, 8);
    assert_eq!(data.colors[0].rgb.b, 9);
}

#[test]
fn an_empty_image_is_a_board_of_no_cells() {
    let data = BoardData::from_ppm_text(&bytes("PX 0 0 255")).unwrap();
    assert_eq!(data.width, 0);
    assert_eq!(data.height, 0);
    assert!(data.colors.is_empty());
}
