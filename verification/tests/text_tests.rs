use usb_disk_remover::text::{decode_utf16_lossy, push_decimal, trim_whitespace, white_space};
use usb_disk_remover::utils::{is_bit_set, str_to_utf16vec};

#[test]
fn bit_tests() {
    assert!(is_bit_set(0b100, 2));
    assert!(!is_bit_set(0b100, 1));
    assert!(is_bit_set(0x8000_0000, 31));
    assert!(!is_bit_set(0, 0));
}

#[test]
fn wide_string_is_nul_terminated() {
    assert_eq!(str_to_utf16vec("E:\\"), vec![0x45, 0x3A, 0x5C, 0]);
    assert_eq!(str_to_utf16vec(""), vec![0]);
}

#[test]
fn wide_string_uses_surrogate_pairs() {
    assert_eq!(str_to_utf16vec("😀"), vec![0xD83D, 0xDE00, 0]);
    let expected: Vec<u16> = "Ä€😀".encode_utf16().chain([0]).collect();
    assert_eq!(str_to_utf16vec("Ä€😀"), expected);
}

#[test]
fn utf16_decoding() {
    assert_eq!(decode_utf16_lossy(&[0xD83D, 0xDE00]), "😀");
    assert_eq!(decode_utf16_lossy(&[0xDE00, 0x41]), "\u{FFFD}A");
    assert_eq!(decode_utf16_lossy(&[0xD83D]), "\u{FFFD}");
    assert_eq!(decode_utf16_lossy(&[0xD83D, 0xD83D, 0xDE00]), "\u{FFFD}😀");
    let units: Vec<u16> = [0x61u16, 0xDC00, 0xD800, 0x62].to_vec();
    assert_eq!(decode_utf16_lossy(&units), String::from_utf16_lossy(&units));
}

#[test]
fn trimming() {
    assert_eq!(trim_whitespace("  a b \t\n"), "a b");
    assert_eq!(trim_whitespace("\u{3000}x\u{A0}"), "x");
    assert_eq!(trim_whitespace("   "), "");
    assert_eq!(trim_whitespace(""), "");
    let once = trim_whitespace(" \u{2003}z ");
    assert_eq!(trim_whitespace(&once), once);
}

#[test]
fn whitespace_matches_std() {
    for c in ['\t', ' ', '\u{85}', '\u{2028}', 'a', '\u{200B}', '\u{FEFF}', '\u{1680}'] {
        assert_eq!(white_space(c), c.is_whitespace(), "{:?}", c);
    }
}

#[test]
fn decimal_rendering() {
    let mut s = String::from("n=");
    push_decimal(&mut s, 0);
    assert_eq!(s, "n=0");
    let mut s = String::new();
    push_decimal(&mut s, 1205);
    assert_eq!(s, "1205");
}
