use base64::engine::general_purpose::STANDARD;
use base64::Engine as _;
use vc::{decode_if_needed, is_encoded, Error};

#[test]
fn plain_uris_pass_through() {
    let raw = "vless://uuid@host:443?x=y#name\nvmess://abc\n";
    assert_eq!(decode_if_needed(raw).unwrap(), raw);
}

#[test]
fn base64_decodes_to_uris() {
    let plain = "vless://uuid@host:443#one\ntrojan://pass@host:443#two\n";
    let encoded = STANDARD.encode(plain);
    assert_eq!(decode_if_needed(&encoded).unwrap(), plain);
}

#[test]
fn multiline_base64_is_stripped_of_whitespace() {
    let plain = "ss://abc@host:8388#tag\n";
    let encoded = STANDARD.encode(plain);
    let multiline = format!("{}\n{}\n", &encoded[..8], &encoded[8..]);
    assert_eq!(decode_if_needed(&multiline).unwrap(), plain);
}

#[test]
fn url_safe_alphabet_is_supported() {
    let mut exercised = false;
    for i in 0..256u32 {
        let plain = format!("probe-{i}-~~~>>>payload\n");
        let std = STANDARD.encode(&plain);
        if std.contains('+') || std.contains('/') {
            assert!(!std.contains("://"));
            let url_safe = std.replace('+', "-").replace('/', "_");
            assert_eq!(decode_if_needed(&url_safe).unwrap(), plain);
            exercised = true;
            break;
        }
    }
    assert!(exercised, "no probe produced '+' or '/' in base64");
}

#[test]
fn invalid_base64_errors() {
    assert!(matches!(
        decode_if_needed("!!!not-base64!!!"),
        Err(Error::Decode(_))
    ));
}

#[test]
fn empty_input_returns_empty() {
    assert_eq!(decode_if_needed("  \n ").unwrap(), "");
}

#[test]
fn non_utf8_payload_errors() {
    let encoded = STANDARD.encode([0xffu8, 0xfe, 0x00]);
    assert!(matches!(decode_if_needed(&encoded), Err(Error::NonUtf8(_))));
}

#[test]
fn is_encoded_reports_base64_only() {
    assert!(!is_encoded("vless://a@b:1#x\n"));
    assert!(!is_encoded(" \n\t"));
    assert!(is_encoded("dmxlc3M6Ly9h"));
}

#[test]
fn decode_error_carries_the_url_safe_engine_message() {
    let expected = base64::engine::general_purpose::URL_SAFE
        .decode("!!!not-base64!!!")
        .unwrap_err()
        .to_string();
    match decode_if_needed("!!! not-base64 !!!") {
        Err(Error::Decode(m)) => assert_eq!(m, expected),
        other => panic!("unexpected {other:?}"),
    }
}

#[test]
fn non_utf8_error_carries_the_utf8_message() {
    let bytes = vec![0xffu8, 0xfe, 0x00];
    let expected = String::from_utf8(bytes.clone()).unwrap_err().to_string();
    match decode_if_needed(&STANDARD.encode(&bytes)) {
        Err(Error::NonUtf8(m)) => assert_eq!(m, expected),
        other => panic!("unexpected {other:?}"),
    }
}
