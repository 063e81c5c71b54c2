use hiddenwave::stego::header::{ext_to_bytes, PayloadType, StegHeader};

#[test]
fn test_header_round_trip_text() {
    let h = StegHeader {
        modulus: 42,
        extension: *b"txt ",
        payload_type: PayloadType::Text,
    };
    let bytes: [u8; 9] = h.into();
    let h2 = StegHeader::try_from(bytes.as_slice()).unwrap();
    assert_eq!(h2.modulus, 42);
    assert_eq!(h2.extension, *b"txt ");
    assert_eq!(h2.payload_type, PayloadType::Text);
}

#[test]
fn test_header_round_trip_binary() {
    let h = StegHeader {
        modulus: 999999,
        extension: *b"pdf ",
        payload_type: PayloadType::Binary,
    };
    let bytes: [u8; 9] = h.into();
    let h2 = StegHeader::try_from(bytes.as_slice()).unwrap();
    assert_eq!(h2.modulus, 999999);
    assert_eq!(h2.payload_type, PayloadType::Binary);
}

#[test]
fn test_header_le_byte_order() {
    let h = StegHeader {
        modulus: 256,
        extension: *b"    ",
        payload_type: PayloadType::Text,
    };
    let bytes: [u8; 9] = h.into();
    assert_eq!(&bytes[0..4], &[0x00, 0x01, 0x00, 0x00]);
}

#[test]
fn test_invalid_type_byte_errors() {
    let bytes = [0u8, 0, 0, 0, b' ', b' ', b' ', b' ', b'x'];
    assert!(StegHeader::try_from(bytes.as_slice()).is_err());
}

#[test]
fn test_too_short_errors() {
    let bytes = [0u8; 5];
    assert!(StegHeader::try_from(bytes.as_slice()).is_err());
}

#[test]
fn test_ext_to_bytes_short() {
    assert_eq!(ext_to_bytes("rs"), *b"rs  ");
}

#[test]
fn test_ext_to_bytes_exact() {
    assert_eq!(ext_to_bytes("jpeg"), *b"jpeg");
}

#[test]
fn test_ext_to_bytes_truncates() {
    assert_eq!(ext_to_bytes("abcdefgh"), *b"abcd");
}

#[test]
fn header_bytes_layout_exact() {
    let h = StegHeader {
        modulus: 0x0403_0201,
        extension: *b"wav ",
        payload_type: PayloadType::Binary,
    };
    let bytes: [u8; 9] = h.clone().into();
    assert_eq!(bytes, [1, 2, 3, 4, b'w', b'a', b'v', b' ', b'b']);
    let h2 = StegHeader::try_from(&bytes[..]).unwrap();
    assert_eq!(h2.modulus, h.modulus);
    assert_eq!(h2.extension, h.extension);
}

#[test]
fn header_parse_ignores_trailing_bytes() {
    let bytes = [7u8, 0, 0, 0, b'm', b'p', b'3', b' ', b't', 0xff, 0xee];
    let h = StegHeader::try_from(&bytes[..]).unwrap();
    assert_eq!(h.modulus, 7);
    assert_eq!(h.extension, *b"mp3 ");
    assert_eq!(h.payload_type, PayloadType::Text);
}

#[test]
fn header_errors_are_no_header_found() {
    let short = [0u8; 8];
    assert!(matches!(
        StegHeader::try_from(&short[..]),
        Err(hiddenwave::HiddenWaveError::NoHeaderFound)
    ));
    let bad_tag = [0u8, 0, 0, 0, 0, 0, 0, 0, b'T'];
    assert!(matches!(
        StegHeader::try_from(&bad_tag[..]),
        Err(hiddenwave::HiddenWaveError::NoHeaderFound)
    ));
}

#[test]
fn payload_type_tags() {
    assert_eq!(PayloadType::Text.byte(), b't');
    assert_eq!(PayloadType::Binary.byte(), b'b');
}

#[test]
fn ext_to_bytes_empty_and_multibyte() {
    assert_eq!(ext_to_bytes(""), *b"    ");
    // "é" is two bytes in UTF-8; the first four bytes are kept.
    assert_eq!(ext_to_bytes("ééé"), [0xc3, 0xa9, 0xc3, 0xa9]);
    assert_eq!(ext_to_bytes("aé"), [b'a', 0xc3, 0xa9, b' ']);
}
