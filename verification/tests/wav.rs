use hiddenwave::wav::WavFile;
use hiddenwave::HiddenWaveError;

#[test]
fn generate_header_exact() {
    let h = WavFile::generate_header(1000, 44100, 2);
    let mut expected = Vec::new();
    expected.extend_from_slice(b"RIFF");
    expected.extend_from_slice(&1036u32.to_le_bytes());
    expected.extend_from_slice(b"WAVE");
    expected.extend_from_slice(b"fmt ");
    expected.extend_from_slice(&16u32.to_le_bytes());
    expected.extend_from_slice(&1u16.to_le_bytes());
    expected.extend_from_slice(&2u16.to_le_bytes());
    expected.extend_from_slice(&44100u32.to_le_bytes());
    expected.extend_from_slice(&176400u32.to_le_bytes());
    expected.extend_from_slice(&4u16.to_le_bytes());
    expected.extend_from_slice(&16u16.to_le_bytes());
    expected.extend_from_slice(b"data");
    expected.extend_from_slice(&1000u32.to_le_bytes());
    assert_eq!(h.len(), 44);
    assert_eq!(h, expected);
}

#[test]
fn parse_generated_file() {
    let pcm: Vec<u8> = (0..100u8).collect();
    let header = WavFile::generate_header(pcm.len(), 8000, 1);
    let mut bytes = header.clone();
    bytes.extend_from_slice(&pcm);
    let wav = WavFile::parse(bytes.clone()).unwrap();
    assert_eq!(wav.header_bytes, header);
    assert_eq!(wav.pcm_data, pcm);
    assert_eq!(wav.to_bytes(), bytes);
}

#[test]
fn parse_finds_first_data_tag() {
    let bytes = b"xxdata1234abdataZZZZZZZZZZ".to_vec();
    let wav = WavFile::parse(bytes.clone()).unwrap();
    assert_eq!(wav.header_bytes, b"xxdata1234".to_vec());
    assert_eq!(wav.pcm_data, b"abdataZZZZZZZZZZ".to_vec());
    assert_eq!(wav.to_bytes(), bytes);
}

#[test]
fn parse_needs_a_pcm_byte_after_chunk_header() {
    // The tag must start before len - 8.
    let bytes = b"data12345".to_vec();
    assert!(WavFile::parse(bytes).is_ok());
    let bytes = b"data1234".to_vec();
    match WavFile::parse(bytes) {
        Err(HiddenWaveError::WavParse(msg)) => assert_eq!(msg, "Could not find 'data' chunk"),
        _ => panic!("expected WavParse"),
    }
}

#[test]
fn parse_without_data_tag() {
    match WavFile::parse(b"RIFF....WAVEfmt nothing here".to_vec()) {
        Err(HiddenWaveError::WavParse(msg)) => assert_eq!(msg, "Could not find 'data' chunk"),
        _ => panic!("expected WavParse"),
    }
    assert!(WavFile::parse(Vec::new()).is_err());
}

#[test]
fn to_bytes_concatenates() {
    let w = WavFile {
        header_bytes: vec![1, 2, 3],
        pcm_data: vec![4, 5],
    };
    assert_eq!(w.to_bytes(), vec![1, 2, 3, 4, 5]);
}

#[test]
fn hide_write_parse_extract() {
    let pcm: Vec<u8> = (0..5000u32).map(|i| (i % 200) as u8).collect();
    let header = WavFile::generate_header(pcm.len(), 22050, 1);
    let mut wav = WavFile {
        header_bytes: header,
        pcm_data: pcm,
    };
    hiddenwave::embed(&mut wav.pcm_data, b"secret", "txt", true).unwrap();
    let reread = WavFile::parse(wav.to_bytes()).unwrap();
    assert_eq!(reread.pcm_data, wav.pcm_data);
    let out = hiddenwave::extract(&reread.pcm_data).unwrap();
    assert_eq!(out.data, b"secret".to_vec());
    assert_eq!(out.ext, "txt");
}
