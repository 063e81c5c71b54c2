//! The nine-byte header that records how a payload was spread over the
//! carrier: the stride (`modulus`), a four-byte file extension and the kind
//! of payload.
use crate::error::HiddenWaveError;
use vstd::prelude::*;
use vstd::utf8::encode_utf8;

verus! {

/// Number of bytes of a serialized header.
pub const HEADER_SIZE: usize = 9;

/// Distance, in PCM bytes, between two consecutive header bytes.
pub const MY_HEADER_MODULE: usize = 64;

/// PCM offset of the first header byte.
pub const START_SPACE: usize = 0;

/// Tag byte of a text payload (`b't'`).
pub const TEXT_TAG: u8 = 116;

/// Tag byte of a binary payload (`b'b'`).
pub const BINARY_TAG: u8 = 98;

/// Byte used to pad a short extension (`b' '`).
pub const PAD_BYTE: u8 = 32;

/// What a payload holds.
#[derive(Debug, Clone, Copy, PartialEq, Eq, Structural)]
pub enum PayloadType {
    /// A text message, tagged with the byte `b't'`.
    Text,
    /// The contents of a file, tagged with the byte `b'b'`.
    Binary,
}

impl PayloadType {
    /// The tag byte of this payload type.
    pub open spec fn spec_byte(self) -> u8 {
        match self {
            PayloadType::Text => TEXT_TAG,
            PayloadType::Binary => BINARY_TAG,
        }
    }

    /// The payload type tagged by `b`, if any.
    pub open spec fn spec_from_byte(b: u8) -> Option<PayloadType> {
        if b == TEXT_TAG {
            Some(PayloadType::Text)
        } else if b == BINARY_TAG {
            Some(PayloadType::Binary)
        } else {
            None
        }
    }

    /// The tag byte of this payload type.
    pub fn byte(self) -> (b: u8)
        ensures
            b == self.spec_byte(),
    {
        match self {
            PayloadType::Text => TEXT_TAG,
            PayloadType::Binary => BINARY_TAG,
        }
    }
}

/// The header written in front of every hidden payload.
#[derive(Debug, Clone)]
pub struct StegHeader {
    /// Stride between two payload bytes in the PCM data.
    pub modulus: u32,
    /// File extension of the payload, padded with spaces.
    pub extension: [u8; 4],
    /// Kind of the payload.
    pub payload_type: PayloadType,
}

/// The four bytes of `v`, least significant first.
pub open spec fn u32_le_bytes(v: u32) -> Seq<u8> {
    seq![
        (v & 0xff) as u8,
        ((v >> 8) & 0xff) as u8,
        ((v >> 16) & 0xff) as u8,
        ((v >> 24) & 0xff) as u8,
    ]
}

/// The number whose little-endian bytes are the first four of `b`.
pub open spec fn u32_from_le(b: Seq<u8>) -> u32 {
    (b[0] as u32) | ((b[1] as u32) << 8) | ((b[2] as u32) << 16) | ((b[3] as u32) << 24)
}

/// Encoding a number and decoding it again gives the number back.
pub proof fn lemma_u32_le_value_round_trip(v: u32)
    ensures
        u32_from_le(u32_le_bytes(v)) == v,
{
    let b = u32_le_bytes(v);
    assert(b[0] == (v & 0xff) as u8);
    assert(b[1] == ((v >> 8) & 0xff) as u8);
    assert(b[2] == ((v >> 16) & 0xff) as u8);
    assert(b[3] == ((v >> 24) & 0xff) as u8);
    assert((((v & 0xff) as u8) as u32) | ((((v >> 8) & 0xff) as u8) as u32) << 8
        | ((((v >> 16) & 0xff) as u8) as u32) << 16 | ((((v >> 24) & 0xff) as u8) as u32) << 24
        == v) by (bit_vector);
}

/// Decoding four bytes and encoding the number again gives the bytes back.
pub proof fn lemma_u32_le_bytes_round_trip(b: Seq<u8>)
    requires
        b.len() == 4,
    ensures
        u32_le_bytes(u32_from_le(b)) == b,
{
    let b0 = b[0];
    let b1 = b[1];
    let b2 = b[2];
    let b3 = b[3];
    let x = u32_from_le(b);
    assert(x == (b0 as u32) | ((b1 as u32) << 8) | ((b2 as u32) << 16) | ((b3 as u32) << 24));
    assert(x == (b0 as u32) | ((b1 as u32) << 8) | ((b2 as u32) << 16) | ((b3 as u32) << 24) ==> (
    x & 0xff) as u8 == b0 && ((x >> 8) & 0xff) as u8 == b1 && ((x >> 16) & 0xff) as u8 == b2 && ((x
        >> 24) & 0xff) as u8 == b3) by (bit_vector);
    assert(u32_le_bytes(x) =~= b);
}

/// The serialized form of a header: the stride in little-endian order, the
/// four extension bytes, then the payload-type tag.
pub open spec fn header_bytes(h: StegHeader) -> Seq<u8> {
    u32_le_bytes(h.modulus) + h.extension@ + seq![h.payload_type.spec_byte()]
}

/// The header that the first `HEADER_SIZE` bytes of `s` describe, if any.
pub open spec fn parse_header(s: Seq<u8>) -> Option<StegHeader> {
    if s.len() < HEADER_SIZE {
        None
    } else {
        match PayloadType::spec_from_byte(s[8]) {
            Some(t) => Some(
                StegHeader {
                    modulus: u32_from_le(s),
                    extension: [s[4], s[5], s[6], s[7]],
                    payload_type: t,
                },
            ),
            None => None,
        }
    }
}

/// The header bytes as an array.
pub open spec fn header_array(h: StegHeader) -> [u8; 9] {
    [
        (h.modulus & 0xff) as u8,
        ((h.modulus >> 8) & 0xff) as u8,
        ((h.modulus >> 16) & 0xff) as u8,
        ((h.modulus >> 24) & 0xff) as u8,
        h.extension[0],
        h.extension[1],
        h.extension[2],
        h.extension[3],
        h.payload_type.spec_byte(),
    ]
}

/// `header_array` holds exactly the bytes of `header_bytes`.
pub proof fn lemma_header_array_bytes(h: StegHeader)
    ensures
        header_array(h)@ == header_bytes(h),
{
    assert(header_array(h)@ =~= header_bytes(h));
}

/// Reading back the serialized form of a header gives the header again.
pub proof fn lemma_header_round_trip(h: StegHeader)
    ensures
        parse_header(header_bytes(h)) == Some(h),
{
    let s = header_bytes(h);
    lemma_u32_le_value_round_trip(h.modulus);
    assert(u32_from_le(s) == u32_from_le(u32_le_bytes(h.modulus)));
    let p = parse_header(s).unwrap();
    assert(p.extension =~= h.extension);
}

/// The serialized header in plain terms: the stride's little-endian bytes,
/// then the four extension bytes, then `b't'` for text or `b'b'` for binary.
pub proof fn lemma_header_layout(h: StegHeader)
    ensures
        ({
            let b = header_bytes(h);
            &&& b.len() == 9
            &&& b[0] + 256 * b[1] + 65536 * b[2] + 16777216 * b[3] == h.modulus
            &&& b[4] == h.extension[0] && b[5] == h.extension[1] && b[6] == h.extension[2] && b[7]
                == h.extension[3]
            &&& b[8] == (if h.payload_type == PayloadType::Text {
                116u8
            } else {
                98u8
            })
        }),
{
    crate::wav::lemma_u32_le_bytes_value(h.modulus);
    let b = header_bytes(h);
    let u = u32_le_bytes(h.modulus);
    assert(b[0] == u[0] && b[1] == u[1] && b[2] == u[2] && b[3] == u[3]);
}

/// Reading a header in plain terms: nine or more bytes whose ninth is
/// `b't'` or `b'b'` give the stride whose little-endian bytes are the first
/// four, the next four as extension, and the type the tag names; anything
/// else gives no header.
pub proof fn lemma_parse_header_layout(s: Seq<u8>)
    ensures
        s.len() >= 9 && (s[8] == 116u8 || s[8] == 98u8) ==> (parse_header(s) matches Some(h) && h.modulus
            == s[0] + 256 * s[1] + 65536 * s[2] + 16777216 * s[3] && h.extension@ == s.subrange(4, 8)
            && h.payload_type == (if s[8] == 116u8 {
            PayloadType::Text
        } else {
            PayloadType::Binary
        })),
        !(s.len() >= 9 && (s[8] == 116u8 || s[8] == 98u8)) ==> parse_header(s) is None,
{
    if s.len() >= 9 {
        let b0 = s[0];
        let b1 = s[1];
        let b2 = s[2];
        let b3 = s[3];
        assert((b0 as u32) | ((b1 as u32) << 8) | ((b2 as u32) << 16) | ((b3 as u32) << 24) == b0
            as u32 + 256 * (b1 as u32) + 65536 * (b2 as u32) + 16777216 * (b3 as u32)) by (bit_vector);
        if s[8] == 116u8 || s[8] == 98u8 {
            let h = parse_header(s).unwrap();
            assert(h.extension@ =~= s.subrange(4, 8));
        }
    }
}

/// Bytes that parse as a header are exactly the serialized form of that
/// header, followed by whatever came after it.
pub proof fn lemma_header_bytes_canonical(s: Seq<u8>)
    requires
        parse_header(s) is Some,
    ensures
        header_bytes(parse_header(s).unwrap()) == s.subrange(0, HEADER_SIZE as int),
{
    let h = parse_header(s).unwrap();
    lemma_u32_le_bytes_round_trip(s.subrange(0, 4));
    assert(u32_from_le(s) == u32_from_le(s.subrange(0, 4)));
    assert(header_bytes(h) =~= s.subrange(0, HEADER_SIZE as int));
}

impl StegHeader {
    /// Serializes the header into its nine bytes.
    pub(crate) fn to_bytes(&self) -> (out: [u8; 9])
        ensures
            out == header_array(*self),
            out@ == header_bytes(*self),
    {
        proof {
            lemma_header_array_bytes(*self);
        }
        let m = self.modulus;
        [
            (m & 0xff) as u8,
            ((m >> 8) & 0xff) as u8,
            ((m >> 16) & 0xff) as u8,
            ((m >> 24) & 0xff) as u8,
            self.extension[0],
            self.extension[1],
            self.extension[2],
            self.extension[3],
            self.payload_type.byte(),
        ]
    }

    /// Reads a header from the first `HEADER_SIZE` bytes of `bytes`.
    pub(crate) fn parse(bytes: &[u8]) -> (res: Result<StegHeader, HiddenWaveError>)
        ensures
            res == header_result(bytes@),
    {
        if bytes.len() < HEADER_SIZE {
            return Err(HiddenWaveError::NoHeaderFound);
        }
        let modulus: u32 = (bytes[0] as u32) | ((bytes[1] as u32) << 8) | ((bytes[2] as u32) << 16)
            | ((bytes[3] as u32) << 24);
        let extension = [bytes[4], bytes[5], bytes[6], bytes[7]];
        let tag = bytes[8];
        let payload_type = if tag == TEXT_TAG {
            PayloadType::Text
        } else if tag == BINARY_TAG {
            PayloadType::Binary
        } else {
            return Err(HiddenWaveError::NoHeaderFound);
        };
        let h = StegHeader { modulus, extension, payload_type };
        assert(h.extension =~= parse_header(bytes@).unwrap().extension);
        Ok(h)
    }
}

/// What reading a header from `s` gives: the header, or `NoHeaderFound`.
pub open spec fn header_result(s: Seq<u8>) -> Result<StegHeader, HiddenWaveError> {
    match parse_header(s) {
        Some(h) => Ok(h),
        None => Err(HiddenWaveError::NoHeaderFound),
    }
}

impl<'a> TryFrom<&'a [u8]> for StegHeader {
    type Error = HiddenWaveError;

    fn try_from(bytes: &'a [u8]) -> (res: Result<StegHeader, HiddenWaveError>) {
        StegHeader::parse(bytes)
    }
}

impl<'a> vstd::std_specs::convert::TryFromSpecImpl<&'a [u8]> for StegHeader {
    open spec fn obeys_try_from_spec() -> bool {
        true
    }

    open spec fn try_from_spec(v: &'a [u8]) -> Result<StegHeader, HiddenWaveError> {
        header_result(v@)
    }
}

impl From<StegHeader> for [u8; 9] {
    fn from(h: StegHeader) -> (out: [u8; 9]) {
        h.to_bytes()
    }
}

impl vstd::std_specs::convert::FromSpecImpl<StegHeader> for [u8; 9] {
    open spec fn obeys_from_spec() -> bool {
        true
    }

    open spec fn from_spec(h: StegHeader) -> [u8; 9] {
        header_array(h)
    }
}

/// The four extension bytes recorded for `ext`: its first four UTF-8 bytes,
/// padded with spaces.
pub open spec fn ext_bytes_spec(ext: Seq<char>) -> Seq<u8> {
    let b = encode_utf8(ext);
    Seq::new(4, |i: int| if i < b.len() { b[i] } else { PAD_BYTE })
}

/// Packs the first four bytes of `ext` into an array, padding with spaces.
pub fn ext_to_bytes(ext: &str) -> (out: [u8; 4])
    ensures
        out@ == ext_bytes_spec(ext@),
{
    let b = ext.as_bytes();
    let mut out: [u8; 4] = [PAD_BYTE, PAD_BYTE, PAD_BYTE, PAD_BYTE];
    let n: usize = if b.len() < 4 {
        b.len()
    } else {
        4
    };
    for i in 0..n
        invariant
            n <= 4,
            n <= b@.len(),
            b@ == encode_utf8(ext@),
            forall|j: int| 0 <= j < i ==> out[j] == b@[j],
            forall|j: int| i <= j < 4 ==> out[j] == PAD_BYTE,
    {
        out[i] = b[i];
    }
    assert(out@ =~= ext_bytes_spec(ext@));
    out
}

} // verus!
