use rusty_sand::assets::{Color, HexColorError};

#[test]
fn six_digits_with_or_without_hash() {
    assert_eq!(Color::hex("f6d7b0"), Ok(Color { r: 0xf6, g: 0xd7, b: 0xb0, a: 255 }));
    assert_eq!(Color::hex("#19212e"), Ok(Color { r: 0x19, g: 0x21, b: 0x2e, a: 255 }));
    assert_eq!(Color::hex("FF00FF"), Ok(Color { r: 255, g: 0, b: 255, a: 255 }));
    assert_eq!(Color::hex("4E5754"), Ok(Color { r: 0x4e, g: 0x57, b: 0x54, a: 255 }));
}

#[test]
fn eight_digits_carry_alpha() {
    assert_eq!(Color::hex("#01020304"), Ok(Color { r: 1, g: 2, b: 3, a: 4 }));
    assert_eq!(Color::hex("ffffffff"), Ok(Color { r: 255, g: 255, b: 255, a: 255 }));
    assert_eq!(Color::hex("aAbBcCdD"), Ok(Color { r: 0xaa, g: 0xbb, b: 0xcc, a: 0xdd }));
}

#[test]
fn short_forms_double_each_digit() {
    assert_eq!(Color::hex("fa3"), Ok(Color { r: 0xff, g: 0xaa, b: 0x33, a: 255 }));
    assert_eq!(Color::hex("#FA30"), Ok(Color { r: 0xff, g: 0xaa, b: 0x33, a: 0 }));
    assert_eq!(Color::hex("000"), Ok(Color { r: 0, g: 0, b: 0, a: 255 }));
}

#[test]
fn wrong_lengths_are_refused() {
    for text in ["", "#", "f", "ff", "fffff", "fffffff", "fffffffff", "##fff"] {
        if text == "##fff" {
            // Four bytes after the first hash, the first of them no digit.
            assert_eq!(Color::hex(text), Err(HexColorError::Char(b'#')));
        } else {
            assert_eq!(Color::hex(text), Err(HexColorError::Length));
        }
    }
}

#[test]
fn the_first_bad_digit_is_named() {
    assert_eq!(Color::hex("ggg"), Err(HexColorError::Char(b'g')));
    assert_eq!(Color::hex("#12x4z6"), Err(HexColorError::Char(b'x')));
    assert_eq!(Color::hex("12345 "), Err(HexColorError::Char(b' ')));
    assert_eq!(Color::hex("12/456"), Err(HexColorError::Char(b'/')));
    assert_eq!(Color::hex("12:456"), Err(HexColorError::Char(b':')));
    assert_eq!(Color::hex("12@456"), Err(HexColorError::Char(b'@')));
    assert_eq!(Color::hex("12G456"), Err(HexColorError::Char(b'G')));
    assert_eq!(Color::hex("12`456"), Err(HexColorError::Char(b'`')));
    assert_eq!(Color::hex("é1234"), Err(HexColorError::Char(0xc3)));
}
