use smtp_core::helpers::bytes_to_dbg;

#[test]
fn printable_bytes_pass_through() {
    assert_eq!(bytes_to_dbg(b"hello"), "b\"hello\"");
    assert_eq!(bytes_to_dbg(b""), "b\"\"");
}

#[test]
fn control_bytes_are_escaped() {
    assert_eq!(bytes_to_dbg(b"a\r\nb"), "b\"a\\r\\nb\"");
    assert_eq!(bytes_to_dbg(b"\ttab"), "b\"\\ttab\"");
    assert_eq!(bytes_to_dbg(b"q\"q"), "b\"q\\\"q\"");
    assert_eq!(bytes_to_dbg(b"s\\s"), "b\"s\\\\s\"");
    assert_eq!(bytes_to_dbg(b"'"), "b\"\\'\"");
    assert_eq!(bytes_to_dbg(&[0u8, 7u8]), "b\"\\u{0}\\u{7}\"");
}

#[test]
fn multibyte_text_uses_unicode_escapes() {
    // One two-byte UTF-8 sequence decodes to one escaped character.
    assert_eq!(bytes_to_dbg(&[0xc3, 0xa9]), "b\"\\u{e9}\"");
    assert_eq!(bytes_to_dbg(&[0xe2, 0x9d, 0xa4]), "b\"\\u{2764}\"");
}

#[test]
fn invalid_utf8_falls_back_to_byte_list() {
    assert_eq!(bytes_to_dbg(&[0xff]), "[255]");
    assert_eq!(bytes_to_dbg(&[0u8, 7u8, 0xff]), "[0, 7, 255]");
    assert_eq!(bytes_to_dbg(&[0xc3, 0x28]), "[195, 40]");
}
