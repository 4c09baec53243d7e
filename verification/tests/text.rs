use searchcore::bytes::{get, low_u16, low_u32, low_u8, put};
use searchcore::text::{
    from_utf16_lossy, is_blank, split_pieces, text_before_zero, to_ascii_lowercase, to_decimal,
    to_pcw, to_utf16,
};

#[test]
fn utf16_both_ways() {
    for s in ["", "abc", "微信", "a😀b"] {
        let u: Vec<u16> = s.encode_utf16().collect();
        assert_eq!(to_utf16(s), u);
        assert_eq!(from_utf16_lossy(&u), s);
    }
    let broken = [0x41, 0xD800, 0x42, 0xDC00, 0xD83D, 0xDE00, 0xD800];
    assert_eq!(from_utf16_lossy(&broken), String::from_utf16_lossy(&broken));
    assert_eq!(to_pcw("a"), vec![0x61, 0]);
    assert_eq!(text_before_zero(&[0x61, 0, 0x62]), "a");
    assert_eq!(text_before_zero(&[0x61]), "");
}

#[test]
fn letters_and_numbers() {
    assert_eq!(to_ascii_lowercase("AbÄ"), "abÄ");
    for n in [0, 7, 10, 1460, u64::MAX] {
        assert_eq!(to_decimal(n), n.to_string());
    }
}

#[test]
fn white_space() {
    for c in (0..0x11_0000u32).filter_map(char::from_u32) {
        if c.is_whitespace() || (c as u32) < 0x100 || (0x1680..0x3100).contains(&(c as u32)) {
            assert_eq!(is_blank(&c.to_string()), c.to_string().trim().is_empty(), "{:x}", c as u32);
        }
    }
    assert!(is_blank(""));
    assert!(!is_blank(" a "));
}

#[test]
fn pieces_between_separators() {
    assert_eq!(split_pieces("C:\\\\Users\\x\\", '\\'), vec!["C:", "Users", "x"]);
    assert!(split_pieces("\\\\", '\\').is_empty());
}

#[test]
fn numbers_as_bytes() {
    let mut out = Vec::new();
    put(&mut out, 0x0102_0304, 4);
    put(&mut out, 0x1_FFFF, 2);
    assert_eq!(out, vec![4, 3, 2, 1, 0xFF, 0xFF]);
    assert_eq!(get(&out, 0, 4), 0x0102_0304);
    assert_eq!(get(&out, 3, 3), 0xFF_FF01);
    assert_eq!((low_u8(0x1FF), low_u16(0x1_0002), low_u32(5)), (0xFF, 2, 5));
}
