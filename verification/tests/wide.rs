use lje_launcher::wide::{reg_sz_value, utf16_to_string, version_text};

#[test]
fn reg_sz_drops_trailing_nuls() {
    let bytes = [b'C', 0, b':', 0, b'\\', 0, b'S', 0, 0, 0];
    assert_eq!(reg_sz_value(&bytes), r"C:\S");
}

#[test]
fn reg_sz_ignores_odd_byte() {
    let bytes = [b'a', 0, b'b', 0, 7];
    assert_eq!(reg_sz_value(&bytes), "ab");
    assert_eq!(reg_sz_value(&[]), "");
}

#[test]
fn utf16_decoding_is_lossy() {
    assert_eq!(utf16_to_string(&[0x48, 0x69]), "Hi");
    assert_eq!(utf16_to_string(&[0xD83D, 0xDE00]), "\u{1F600}");
    assert_eq!(utf16_to_string(&[0xD83D, 0x41]), "\u{FFFD}A");
    assert_eq!(utf16_to_string(&[0xDE00]), "\u{FFFD}");
}

#[test]
fn version_text_is_trimmed() {
    let units: Vec<u16> = " 1.4.2 ".encode_utf16().collect();
    assert_eq!(version_text(&units), "1.4.2");
}
