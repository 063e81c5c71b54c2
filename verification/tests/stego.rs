use hiddenwave::stego::embed::{embed, max_capacity};
use hiddenwave::stego::extract::{extract, has_zero_stride};
use hiddenwave::stego::header::{PayloadType, StegHeader};
use hiddenwave::HiddenWaveError;

fn carrier(len: usize) -> Vec<u8> {
    (0..len).map(|i| (i % 251) as u8).collect()
}

#[test]
fn max_capacity_values() {
    assert_eq!(max_capacity(0), 0);
    assert_eq!(max_capacity(576), 0);
    assert_eq!(max_capacity(577), 0);
    assert_eq!(max_capacity(576 + 16), 0);
    assert_eq!(max_capacity(576 + 20), 1);
    assert_eq!(max_capacity(576 + 4000), 996);
    assert_eq!(max_capacity(576 + 4003), 996);
}

#[test]
fn embed_then_extract_text() {
    let mut pcm = carrier(4096);
    embed(&mut pcm, b"Meeting at midnight", "", false).unwrap();
    let out = extract(&pcm).unwrap();
    assert_eq!(out.data, b"Meeting at midnight".to_vec());
    assert_eq!(out.payload_type, PayloadType::Text);
    assert_eq!(out.ext, "");
}

#[test]
fn embed_then_extract_binary_with_ext() {
    let mut pcm = carrier(10_000);
    let payload: Vec<u8> = (0..200u32).map(|i| (i * 7 % 256) as u8).collect();
    embed(&mut pcm, &payload, "pdf", true).unwrap();
    let out = extract(&pcm).unwrap();
    assert_eq!(out.data, payload);
    assert_eq!(out.payload_type, PayloadType::Binary);
    assert_eq!(out.ext, "pdf");
}

#[test]
fn embed_layout_exact() {
    let before = carrier(576 + 40);
    let mut pcm = before.clone();
    // payload of 6 bytes plus 4 marker bytes: stride 40 / 10 = 4
    embed(&mut pcm, b"abcdef", "rs", true).unwrap();
    let header = [4u8, 0, 0, 0, b'r', b's', b' ', b' ', b'b'];
    for (k, h) in header.iter().enumerate() {
        assert_eq!(pcm[k * 64], *h);
    }
    let body = b"abcdef@<;;";
    for (k, b) in body.iter().enumerate() {
        assert_eq!(pcm[576 + k * 4], *b);
    }
    for i in 0..pcm.len() {
        let header_slot = i < 576 && i % 64 == 0;
        let body_slot = i >= 576 && (i - 576) % 4 == 0;
        if !header_slot && !body_slot {
            assert_eq!(pcm[i], before[i]);
        }
    }
}

#[test]
fn embed_too_small_for_header() {
    let mut pcm = carrier(576);
    let before = pcm.clone();
    match embed(&mut pcm, b"x", "", false) {
        Err(HiddenWaveError::PayloadTooLarge { needed, available }) => {
            assert_eq!(needed, 576);
            assert_eq!(available, 576);
        }
        _ => panic!("expected PayloadTooLarge"),
    }
    assert_eq!(pcm, before);
}

#[test]
fn embed_payload_too_large() {
    let mut pcm = carrier(576 + 100);
    let before = pcm.clone();
    let payload = vec![1u8; 30];
    match embed(&mut pcm, &payload, "", false) {
        Err(HiddenWaveError::PayloadTooLarge { needed, available }) => {
            assert_eq!(needed, 34 * 4);
            assert_eq!(available, 100);
        }
        _ => panic!("expected PayloadTooLarge"),
    }
    assert_eq!(pcm, before);
}

#[test]
fn capacity_matches_embed() {
    let n = 576 + 1000;
    let cap = max_capacity(n);
    let mut pcm = carrier(n);
    assert!(embed(&mut pcm, &vec![9u8; cap], "", false).is_ok());
    let mut pcm = carrier(n);
    assert!(embed(&mut pcm, &vec![9u8; cap + 1], "", false).is_err());
}

#[test]
fn extract_short_carrier_has_no_header() {
    assert!(matches!(extract(&carrier(575)), Err(HiddenWaveError::NoHeaderFound)));
}

#[test]
fn extract_bad_tag_has_no_header() {
    let mut pcm = vec![0u8; 1000];
    pcm[0] = 5;
    pcm[8 * 64] = b'q';
    assert!(matches!(extract(&pcm), Err(HiddenWaveError::NoHeaderFound)));
}

#[test]
fn extract_without_sentinel() {
    let mut pcm = vec![0u8; 1000];
    let header: [u8; 9] = StegHeader {
        modulus: 5,
        extension: *b"    ",
        payload_type: PayloadType::Text,
    }
    .into();
    for (k, h) in header.iter().enumerate() {
        pcm[k * 64] = *h;
    }
    assert!(matches!(extract(&pcm), Err(HiddenWaveError::SentinelMissing)));
}

#[test]
fn extract_stops_at_first_sentinel() {
    let mut pcm = vec![0u8; 700];
    let header: [u8; 9] = StegHeader {
        modulus: 1,
        extension: *b" ab ",
        payload_type: PayloadType::Binary,
    }
    .into();
    for (k, h) in header.iter().enumerate() {
        pcm[k * 64] = *h;
    }
    let stream = b"hi@<;;there@<;;";
    pcm[576..576 + stream.len()].copy_from_slice(stream);
    let out = extract(&pcm).unwrap();
    assert_eq!(out.data, b"hi".to_vec());
    assert_eq!(out.ext, "ab");
    assert_eq!(out.payload_type, PayloadType::Binary);
}

#[test]
fn extract_ext_lossy_for_invalid_utf8() {
    let mut pcm = vec![0u8; 700];
    let header: [u8; 9] = StegHeader {
        modulus: 2,
        extension: [b'a', 0xff, b'b', b' '],
        payload_type: PayloadType::Text,
    }
    .into();
    for (k, h) in header.iter().enumerate() {
        pcm[k * 64] = *h;
    }
    let stream = b"@<;;";
    for (k, b) in stream.iter().enumerate() {
        pcm[576 + 2 * k] = *b;
    }
    let out = extract(&pcm).unwrap();
    assert_eq!(out.data, Vec::<u8>::new());
    assert_eq!(out.ext, "a\u{fffd}b");
}

#[test]
fn zero_stride_detected() {
    let mut pcm = vec![0u8; 700];
    assert!(!has_zero_stride(&pcm[..500]));
    // header bytes read as stride 0, text payload
    pcm[8 * 64] = b't';
    assert!(has_zero_stride(&pcm));
    pcm[0] = 3;
    assert!(!has_zero_stride(&pcm));
    // an invalid tag means no header at all
    pcm[0] = 0;
    pcm[8 * 64] = b'z';
    assert!(!has_zero_stride(&pcm));
    let mut embedded = carrier(2000);
    embed(&mut embedded, b"abc", "", false).unwrap();
    assert!(!has_zero_stride(&embedded));
}

#[test]
fn payload_holding_marker_comes_back_cut() {
    let mut pcm = carrier(4096);
    embed(&mut pcm, b"ab@<;;cd", "txt", false).unwrap();
    let out = extract(&pcm).unwrap();
    assert_eq!(out.data, b"ab".to_vec());
    assert_eq!(out.ext, "txt");
}

#[test]
fn empty_payload_capacity_edge() {
    // capacity 0, yet an empty payload does not fit 577..=591 bytes
    assert_eq!(max_capacity(591), 0);
    let mut pcm = carrier(591);
    assert!(embed(&mut pcm, b"", "", false).is_err());
    // at 592 bytes the capacity is still 0 and an empty payload fits
    assert_eq!(max_capacity(592), 0);
    let mut pcm = carrier(592);
    embed(&mut pcm, b"", "", false).unwrap();
    assert_eq!(extract(&pcm).unwrap().data, Vec::<u8>::new());
}

#[test]
fn error_messages() {
    let e = HiddenWaveError::PayloadTooLarge { needed: 576, available: 100 };
    assert_eq!(e.message(), "Payload too large: need 576 bytes of PCM, have 100");
    let e = HiddenWaveError::PayloadTooLarge { needed: 0, available: 1234567 };
    assert_eq!(e.message(), "Payload too large: need 0 bytes of PCM, have 1234567");
    assert_eq!(HiddenWaveError::NoHeaderFound.message(), "No steg header found in audio");
    assert_eq!(
        HiddenWaveError::SentinelMissing.message(),
        "Sentinel not found — file may be corrupt or not a hiddenwave file"
    );
    assert_eq!(
        HiddenWaveError::WavParse("bad".to_string()).message(),
        "WAV parse error: bad"
    );
    assert_eq!(
        HiddenWaveError::Crypto("Encryption failed".to_string()).message(),
        "Cryptography error: Encryption failed"
    );
    let io = std::io::Error::new(std::io::ErrorKind::Other, "disk gone");
    let e: HiddenWaveError = io.into();
    assert!(matches!(e, HiddenWaveError::Io(_)));
    assert_eq!(e.message(), "IO error: disk gone");
}

#[test]
fn small_carrier_reports_header_size() {
    let mut pcm = carrier(10);
    match embed(&mut pcm, &[0u8; 3], "", false) {
        Err(HiddenWaveError::PayloadTooLarge { needed, available }) => {
            assert_eq!((needed, available), (576, 10));
        }
        _ => panic!("expected PayloadTooLarge"),
    }
}
