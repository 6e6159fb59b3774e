use blamejules::PaintError;
use blamejules::Vec2;
use blamejules::decode_size;

#[test]
fn decode_size_ok() {
    assert_eq!(decode_size("SIZE 800 600\n"), Ok(Vec2(800, 600)));
}

#[test]
fn decode_size_missing_height() {
    assert_eq!(decode_size("SIZE 800\n"), Err(PaintError::Protocol));
}

#[test]
fn decode_size_non_numeric_width() {
    assert_eq!(decode_size("SIZE abc 600\n"), Err(PaintError::Protocol));
}

#[test]
fn decode_size_trailing_whitespace() {
    assert_eq!(decode_size("SIZE 1024 768\r\n"), Ok(Vec2(1024, 768)));
    assert_eq!(decode_size("SIZE 1 2"), Ok(Vec2(1, 2)));
}

#[test]
fn decode_size_skips_leading_token() {
    // The leading token is skipped without being interpreted.
    assert_eq!(decode_size("WHATEVER 10 20\n"), Ok(Vec2(10, 20)));
}

#[test]
fn decode_size_extra_field_rejected() {
    // A third field sticks to the height and fails its parse.
    assert_eq!(decode_size("SIZE 800 600 700\n"), Err(PaintError::Protocol));
}

#[test]
fn decode_size_empty_and_one_token() {
    assert_eq!(decode_size(""), Err(PaintError::Protocol));
    assert_eq!(decode_size("SIZE\n"), Err(PaintError::Protocol));
    assert_eq!(decode_size("SIZE \n"), Err(PaintError::Protocol));
}

#[test]
fn decode_size_plus_sign_and_zero_padding() {
    // `u32` parsing accepts one leading plus and leading zeros.
    assert_eq!(decode_size("SIZE +800 0600\n"), Ok(Vec2(800, 600)));
    assert_eq!(decode_size("SIZE ++800 600\n"), Err(PaintError::Protocol));
}

#[test]
fn decode_size_overflow_rejected() {
    assert_eq!(decode_size("SIZE 4294967295 1\n"), Ok(Vec2(4294967295, 1)));
    assert_eq!(decode_size("SIZE 4294967296 1\n"), Err(PaintError::Protocol));
    assert_eq!(decode_size("SIZE 1 99999999999999999999\n"), Err(PaintError::Protocol));
}

#[test]
fn decode_size_negative_rejected() {
    assert_eq!(decode_size("SIZE -800 600\n"), Err(PaintError::Protocol));
}

#[test]
fn error_descriptions_are_distinct() {
    let c = blamejules::PaintError::Connect.describe();
    let p = blamejules::PaintError::Protocol.describe();
    let io = blamejules::PaintError::Io.describe();
    assert!(!c.is_empty() && !p.is_empty() && !io.is_empty());
    assert_ne!(c, p);
    assert_ne!(p, io);
    assert_ne!(c, io);
}
