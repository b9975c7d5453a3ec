use vc::text::is_whitespace;

#[test]
fn whitespace_matches_char_is_whitespace_everywhere() {
    for code in 0u32..=0x10FFFF {
        if let Some(c) = char::from_u32(code) {
            assert_eq!(is_whitespace(c), c.is_whitespace(), "code point {code:#x}");
        }
    }
}
