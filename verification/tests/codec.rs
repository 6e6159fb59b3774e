use blamejules::Cmd;
use blamejules::Rgb;
use blamejules::Vec2;

/// A reference decoder for a `PX` set-pixel line: `PX <x> <y> <rrggbb>` with
/// exactly two lowercase hex digits per channel.
fn reference_decode_px(line: &str) -> Option<(u32, u32, u8, u8, u8)> {
    let mut it = line.split(' ');
    if it.next()? != "PX" {
        return None;
    }
    let xs = it.next()?;
    let ys = it.next()?;
    let hex = it.next()?;
    if it.next().is_some() {
        return None;
    }
    let x: u32 = xs.parse().ok()?;
    let y: u32 = ys.parse().ok()?;
    if hex.len() != 6 || !hex.chars().all(|c| c.is_ascii_digit() || ('a'..='f').contains(&c)) {
        return None;
    }
    let r = u8::from_str_radix(&hex[0..2], 16).ok()?;
    let g = u8::from_str_radix(&hex[2..4], 16).ok()?;
    let b = u8::from_str_radix(&hex[4..6], 16).ok()?;
    Some((x, y, r, g, b))
}

#[test]
fn encode_help() {
    assert_eq!(Cmd::Help.encode(), b"HELP".to_vec());
    assert_eq!(Cmd::Help.to_string(), "HELP");
}

#[test]
fn encode_size() {
    assert_eq!(Cmd::Size.encode(), b"SIZE".to_vec());
    assert_eq!(Cmd::Size.to_string(), "SIZE");
}

#[test]
fn encode_get_px() {
    assert_eq!(Cmd::GetPx(Vec2(12, 34)).to_string(), "PX 12 34");
    assert_eq!(Cmd::GetPx(Vec2(0, 0)).to_string(), "PX 0 0");
}

#[test]
fn encode_set_px_zero_padded_hex() {
    assert_eq!(Cmd::SetPx(Vec2(0, 0), Rgb(1, 2, 255)).to_string(), "PX 0 0 0102ff");
}

#[test]
fn encode_set_px_examples() {
    assert_eq!(Cmd::SetPx(Vec2(800, 600), Rgb(0, 0, 0)).to_string(), "PX 800 600 000000");
    assert_eq!(
        Cmd::SetPx(Vec2(u32::MAX, 1), Rgb(255, 255, 255)).to_string(),
        "PX 4294967295 1 ffffff"
    );
    assert_eq!(Cmd::SetPx(Vec2(7, 10), Rgb(0xab, 0xcd, 0xef)).to_string(), "PX 7 10 abcdef");
}

#[test]
fn set_px_round_trips_through_reference_decoder() {
    let cases = [
        (0u32, 0u32, 1u8, 2u8, 255u8),
        (800, 600, 0, 0, 0),
        (1, 4294967295, 16, 15, 160),
        (123456, 654321, 9, 10, 11),
    ];
    for (x, y, r, g, b) in cases {
        let line = Cmd::SetPx(Vec2(x, y), Rgb(r, g, b)).to_string();
        assert_eq!(reference_decode_px(&line), Some((x, y, r, g, b)));
    }
}

#[test]
fn encode_and_to_string_agree() {
    let cmds = [
        Cmd::Help,
        Cmd::Size,
        Cmd::SetPx(Vec2(3, 5), Rgb(200, 100, 50)),
        Cmd::GetPx(Vec2(31, 41)),
    ];
    for cmd in cmds {
        assert_eq!(cmd.encode(), cmd.to_string().into_bytes());
    }
}
