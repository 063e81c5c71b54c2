//! A WAV file split into its container header and its raw PCM bytes.
use crate::error::HiddenWaveError;
use crate::stego::header::u32_le_bytes;
use vstd::prelude::*;
use vstd::string::StringExecFns;

verus! {

/// A WAV file: everything up to and including the `data` chunk header, and
/// the PCM bytes after it.
pub struct WavFile {
    pub header_bytes: Vec<u8>,
    pub pcm_data: Vec<u8>,
}

/// The four bytes `data`.
pub open spec fn data_tag() -> Seq<u8> {
    seq![100u8, 97u8, 116u8, 97u8]
}

/// Whether the chunk tag `data` starts at index `i` of `s`.
pub open spec fn is_data_at(s: Seq<u8>, i: int) -> bool {
    0 <= i && i + 4 <= s.len() && s.subrange(i, i + 4) == data_tag()
}

/// The first index at or after `i`, and before `s.len() - 8`, where the tag
/// `data` starts.
pub open spec fn data_marker_from(s: Seq<u8>, i: int) -> Option<int>
    decreases s.len() - i,
{
    if i < 0 || i >= s.len() - 8 {
        None
    } else if is_data_at(s, i) {
        Some(i)
    } else {
        data_marker_from(s, i + 1)
    }
}

/// Where the PCM bytes of the WAV file `s` start: eight bytes after the
/// first `data` tag that leaves at least one byte after its chunk header.
pub open spec fn pcm_offset(s: Seq<u8>) -> Option<int> {
    match data_marker_from(s, 0) {
        Some(i) => Some(i + 8),
        None => None,
    }
}

/// A found `data` tag lies at or after `i` and before `s.len() - 8`, and no
/// earlier one starts at or after `i`.
pub proof fn lemma_data_marker_found(s: Seq<u8>, i: int)
    requires
        data_marker_from(s, i) is Some,
    ensures
        i <= data_marker_from(s, i).unwrap() < s.len() - 8,
        is_data_at(s, data_marker_from(s, i).unwrap()),
        forall|j: int| i <= j < data_marker_from(s, i).unwrap() ==> !is_data_at(s, j),
    decreases s.len() - i,
{
    if !is_data_at(s, i) {
        lemma_data_marker_found(s, i + 1);
    }
}

/// Writing out a parsed WAV file gives back the bytes it was parsed from.
pub proof fn lemma_parse_then_to_bytes(s: Seq<u8>)
    requires
        pcm_offset(s) is Some,
    ensures
        s.take(pcm_offset(s).unwrap()) + s.skip(pcm_offset(s).unwrap()) == s,
{
    lemma_data_marker_found(s, 0);
    let k = pcm_offset(s).unwrap();
    assert(s.take(k) + s.skip(k) =~= s);
}

/// Two byte sequences of the same length that agree below `i + 4` have the
/// same `data` tags from `j` up to `i`.
proof fn lemma_data_marker_same_prefix(s: Seq<u8>, t: Seq<u8>, i: int, j: int)
    requires
        s.len() == t.len(),
        0 <= j <= i,
        i + 4 <= s.len(),
        forall|x: int| 0 <= x < i + 4 ==> s[x] == t[x],
        data_marker_from(s, j) == Some(i),
    ensures
        data_marker_from(t, j) == Some(i),
    decreases i - j,
{
    lemma_data_marker_found(s, j);
    assert(s.subrange(j, j + 4) =~= t.subrange(j, j + 4));
    if j < i {
        lemma_data_marker_same_prefix(s, t, i, j + 1);
    }
}

/// Replacing the PCM bytes of a WAV file by as many other bytes, and writing
/// it out, gives a file that splits at the same place.
pub proof fn lemma_reparse_with_new_pcm(s: Seq<u8>, pcm: Seq<u8>)
    requires
        pcm_offset(s) is Some,
        pcm.len() == s.len() - pcm_offset(s).unwrap(),
    ensures
        pcm_offset(s.take(pcm_offset(s).unwrap()) + pcm) == pcm_offset(s),
{
    lemma_data_marker_found(s, 0);
    let k = pcm_offset(s).unwrap();
    let t = s.take(k) + pcm;
    lemma_data_marker_same_prefix(s, t, k - 8, 0);
}

/// A file made of a generated header and at least one PCM byte splits right
/// after the generated header, unless the tag `data` already occurs among its
/// first 36 bytes.
pub proof fn lemma_generated_header_parses(
    pcm_len: nat,
    sample_rate: u32,
    channels: u16,
    pcm: Seq<u8>,
)
    requires
        pcm.len() >= 1,
        forall|j: int| 0 <= j < 36 ==> !is_data_at(wav_header_spec(pcm_len, sample_rate, channels), j),
    ensures
        wav_header_spec(pcm_len, sample_rate, channels).len() == 44,
        pcm_offset(wav_header_spec(pcm_len, sample_rate, channels) + pcm) == Some(44int),
{
    let h = wav_header_spec(pcm_len, sample_rate, channels);
    let s = h + pcm;
    assert(h.len() == 44);
    assert(s.subrange(36, 40) =~= data_tag());
    assert forall|j: int| 0 <= j < 36 implies !is_data_at(s, j) by {
        assert(!is_data_at(h, j));
        assert(s.subrange(j, j + 4) =~= h.subrange(j, j + 4));
    }
    lemma_data_marker_from_first(s, 0, 36);
}

/// If the tag starts at `i`, below `s.len() - 8`, and nowhere in `[j, i)`,
/// the search from `j` finds it at `i`.
proof fn lemma_data_marker_from_first(s: Seq<u8>, j: int, i: int)
    requires
        0 <= j <= i < s.len() - 8,
        is_data_at(s, i),
        forall|x: int| j <= x < i ==> !is_data_at(s, x),
    ensures
        data_marker_from(s, j) == Some(i),
    decreases i - j,
{
    if j < i {
        lemma_data_marker_from_first(s, j + 1, i);
    }
}

/// The tag `data` starts at `i`, in terms of the bytes themselves.
proof fn lemma_is_data_at_bytes(s: Seq<u8>, i: int)
    requires
        0 <= i,
        i + 4 <= s.len(),
    ensures
        is_data_at(s, i) <==> (s[i] == 100u8 && s[i + 1] == 97u8 && s[i + 2] == 116u8 && s[i + 3]
            == 97u8),
{
    let w = s.subrange(i, i + 4);
    assert(w[0] == s[i] && w[1] == s[i + 1] && w[2] == s[i + 2] && w[3] == s[i + 3]);
    if s[i] == 100u8 && s[i + 1] == 97u8 && s[i + 2] == 116u8 && s[i + 3] == 97u8 {
        assert(w =~= data_tag());
    }
}

/// No tag is found from `j` on when the search from `j` finds none.
proof fn lemma_data_marker_none(s: Seq<u8>, j: int)
    requires
        0 <= j,
        data_marker_from(s, j) is None,
    ensures
        forall|x: int| j <= x < s.len() - 8 ==> !is_data_at(s, x),
    decreases s.len() - j,
{
    if j < s.len() - 8 {
        lemma_data_marker_none(s, j + 1);
    }
}

/// The PCM bytes of a WAV file start 8 bytes after the first offset `i`,
/// with `i + 8` below the length, at which the bytes `d`, `a`, `t`, `a`
/// occur; there is no such offset exactly when no split is found.
pub proof fn lemma_pcm_offset_is_first_data_tag(s: Seq<u8>)
    ensures
        pcm_offset(s) is None <==> forall|j: int|
            #![trigger s[j]]
            0 <= j && j + 8 < s.len() ==> !(s[j] == 100u8 && s[j + 1] == 97u8 && s[j + 2] == 116u8
                && s[j + 3] == 97u8),
        pcm_offset(s) matches Some(k) ==> {
            &&& 8 <= k < s.len()
            &&& s[k - 8] == 100u8 && s[k - 7] == 97u8 && s[k - 6] == 116u8 && s[k - 5] == 97u8
            &&& forall|j: int|
                #![trigger s[j]]
                0 <= j < k - 8 ==> !(s[j] == 100u8 && s[j + 1] == 97u8 && s[j + 2] == 116u8 && s[j
                    + 3] == 97u8)
        },
{
    match data_marker_from(s, 0) {
        Some(i) => {
            lemma_data_marker_found(s, 0);
            lemma_is_data_at_bytes(s, i);
            assert forall|j: int| #![trigger s[j]] 0 <= j < i implies !(s[j] == 100u8 && s[j + 1]
                == 97u8 && s[j + 2] == 116u8 && s[j + 3] == 97u8) by {
                lemma_is_data_at_bytes(s, j);
            }
        },
        None => {
            lemma_data_marker_none(s, 0);
            assert forall|j: int| #![trigger s[j]] 0 <= j && j + 8 < s.len() implies !(s[j] == 100u8
                && s[j + 1] == 97u8 && s[j + 2] == 116u8 && s[j + 3] == 97u8) by {
                lemma_is_data_at_bytes(s, j);
            }
        },
    }
}

/// The two bytes of `v`, least significant first.
pub open spec fn u16_le_bytes(v: u16) -> Seq<u8> {
    seq![(v & 0xff) as u8, ((v >> 8) & 0xff) as u8]
}

/// The 44-byte header of a 16-bit PCM WAV file with `pcm_len` bytes of
/// samples, `sample_rate` frames per second and `channels` channels.
pub open spec fn wav_header_spec(pcm_len: nat, sample_rate: u32, channels: u16) -> Seq<u8> {
    seq![82u8, 73u8, 70u8, 70u8] + u32_le_bytes((36 + pcm_len) as u32) + seq![
        87u8,
        65u8,
        86u8,
        69u8,
    ] + seq![102u8, 109u8, 116u8, 32u8] + u32_le_bytes(16) + u16_le_bytes(1) + u16_le_bytes(
        channels,
    ) + u32_le_bytes(sample_rate) + u32_le_bytes((sample_rate * channels * 2) as u32)
        + u16_le_bytes((channels * 2) as u16) + u16_le_bytes(16) + data_tag() + u32_le_bytes(
        pcm_len as u32,
    )
}

/// The number whose little-endian bytes are `s[i]`, `s[i + 1]`.
pub open spec fn le16_at(s: Seq<u8>, i: int) -> int {
    s[i] + 256 * s[i + 1]
}

/// The number whose little-endian bytes are `s[i]` to `s[i + 3]`.
pub open spec fn le32_at(s: Seq<u8>, i: int) -> int {
    s[i] + 256 * s[i + 1] + 65536 * s[i + 2] + 16777216 * s[i + 3]
}

/// The four bytes of `u32_le_bytes(v)` make up `v`.
pub proof fn lemma_u32_le_bytes_value(v: u32)
    ensures
        le32_at(u32_le_bytes(v), 0) == v,
        u32_le_bytes(v).len() == 4,
{
    let b = u32_le_bytes(v);
    let b0 = (v & 0xff) as u8;
    let b1 = ((v >> 8) & 0xff) as u8;
    let b2 = ((v >> 16) & 0xff) as u8;
    let b3 = ((v >> 24) & 0xff) as u8;
    assert(b[0] == b0 && b[1] == b1 && b[2] == b2 && b[3] == b3);
    assert(b0 as u64 + 256 * (b1 as u64) + 65536 * (b2 as u64) + 16777216 * (b3 as u64) == v as u64)
        by (bit_vector)
        requires
            b0 == (v & 0xff) as u8,
            b1 == ((v >> 8) & 0xff) as u8,
            b2 == ((v >> 16) & 0xff) as u8,
            b3 == ((v >> 24) & 0xff) as u8,
    ;
}

/// The two bytes of `u16_le_bytes(v)` make up `v`.
proof fn lemma_u16_le_bytes_value(v: u16)
    ensures
        le16_at(u16_le_bytes(v), 0) == v,
        u16_le_bytes(v).len() == 2,
{
    let b = u16_le_bytes(v);
    let b0 = (v & 0xff) as u8;
    let b1 = ((v >> 8) & 0xff) as u8;
    assert(b[0] == b0 && b[1] == b1);
    assert(b0 as u32 + 256 * (b1 as u32) == v as u32) by (bit_vector)
        requires
            b0 == (v & 0xff) as u8,
            b1 == ((v >> 8) & 0xff) as u8,
    ;
}

/// What each field of a generated WAV header holds: the tags `RIFF`, `WAVE`,
/// `fmt ` and `data`; the RIFF size `36 + pcm_len`; a 16-byte PCM format
/// chunk with `channels` channels, `sample_rate` frames per second, byte rate
/// `sample_rate * channels * 2`, block alignment `channels * 2` and 16 bits
/// per sample; and the data size `pcm_len`.
pub proof fn lemma_wav_header_fields(pcm_len: nat, sample_rate: u32, channels: u16)
    requires
        sample_rate * channels * 2 <= u32::MAX,
        channels * 2 <= u16::MAX,
    ensures
        ({
            let h = wav_header_spec(pcm_len, sample_rate, channels);
            &&& h.len() == 44
            &&& h[0] == 82 && h[1] == 73 && h[2] == 70 && h[3] == 70
            &&& pcm_len + 36 <= u32::MAX ==> le32_at(h, 4) == pcm_len + 36
            &&& h[8] == 87 && h[9] == 65 && h[10] == 86 && h[11] == 69
            &&& h[12] == 102 && h[13] == 109 && h[14] == 116 && h[15] == 32
            &&& le32_at(h, 16) == 16
            &&& le16_at(h, 20) == 1
            &&& le16_at(h, 22) == channels
            &&& le32_at(h, 24) == sample_rate
            &&& le32_at(h, 28) == sample_rate * channels * 2
            &&& le16_at(h, 32) == channels * 2
            &&& le16_at(h, 34) == 16
            &&& h[36] == 100 && h[37] == 97 && h[38] == 116 && h[39] == 97
            &&& pcm_len <= u32::MAX ==> le32_at(h, 40) == pcm_len
        }),
{
    let h = wav_header_spec(pcm_len, sample_rate, channels);
    let size = (36 + pcm_len) as u32;
    let byte_rate = (sample_rate * channels * 2) as u32;
    let align = (channels * 2) as u16;
    let len32 = pcm_len as u32;
    assert(pcm_len + 36 <= u32::MAX ==> size == pcm_len + 36);
    assert(byte_rate == sample_rate * channels * 2);
    assert(align == channels * 2);
    assert(pcm_len <= u32::MAX ==> len32 == pcm_len);
    lemma_u32_le_bytes_value(size);
    lemma_u32_le_bytes_value(16);
    lemma_u16_le_bytes_value(1);
    lemma_u16_le_bytes_value(channels);
    lemma_u32_le_bytes_value(sample_rate);
    lemma_u32_le_bytes_value(byte_rate);
    lemma_u16_le_bytes_value(align);
    lemma_u16_le_bytes_value(16);
    lemma_u32_le_bytes_value(len32);
    let riff = seq![82u8, 73u8, 70u8, 70u8];
    let wave = seq![87u8, 65u8, 86u8, 69u8];
    let fmt = seq![102u8, 109u8, 116u8, 32u8];
    let parts = riff + u32_le_bytes(size) + wave + fmt + u32_le_bytes(16) + u16_le_bytes(1)
        + u16_le_bytes(channels) + u32_le_bytes(sample_rate) + u32_le_bytes(byte_rate)
        + u16_le_bytes(align) + u16_le_bytes(16) + data_tag() + u32_le_bytes(len32);
    assert(h == parts);
    assert(h.subrange(4, 8) =~= u32_le_bytes(size));
    assert(h.subrange(16, 20) =~= u32_le_bytes(16));
    assert(h.subrange(20, 22) =~= u16_le_bytes(1));
    assert(h.subrange(22, 24) =~= u16_le_bytes(channels));
    assert(h.subrange(24, 28) =~= u32_le_bytes(sample_rate));
    assert(h.subrange(28, 32) =~= u32_le_bytes(byte_rate));
    assert(h.subrange(32, 34) =~= u16_le_bytes(align));
    assert(h.subrange(34, 36) =~= u16_le_bytes(16));
    assert(h.subrange(40, 44) =~= u32_le_bytes(len32));
    assert(le32_at(h, 4) == le32_at(h.subrange(4, 8), 0));
    assert(le32_at(h, 16) == le32_at(h.subrange(16, 20), 0));
    assert(le16_at(h, 20) == le16_at(h.subrange(20, 22), 0));
    assert(le16_at(h, 22) == le16_at(h.subrange(22, 24), 0));
    assert(le32_at(h, 24) == le32_at(h.subrange(24, 28), 0));
    assert(le32_at(h, 28) == le32_at(h.subrange(28, 32), 0));
    assert(le16_at(h, 32) == le16_at(h.subrange(32, 34), 0));
    assert(le16_at(h, 34) == le16_at(h.subrange(34, 36), 0));
    assert(le32_at(h, 40) == le32_at(h.subrange(40, 44), 0));
}

/// Appends four bytes.
fn push4(out: &mut Vec<u8>, a: u8, b: u8, c: u8, d: u8)
    ensures
        final(out)@ == old(out)@ + seq![a, b, c, d],
{
    out.push(a);
    out.push(b);
    out.push(c);
    out.push(d);
    assert(out@ =~= old(out)@ + seq![a, b, c, d]);
}

/// Appends `v` in little-endian order.
fn push_u32_le(out: &mut Vec<u8>, v: u32)
    ensures
        final(out)@ == old(out)@ + u32_le_bytes(v),
{
    push4(out, (v & 0xff) as u8, ((v >> 8) & 0xff) as u8, ((v >> 16) & 0xff) as u8, ((v >> 24) & 0xff) as u8);
}

/// Appends `v` in little-endian order.
fn push_u16_le(out: &mut Vec<u8>, v: u16)
    ensures
        final(out)@ == old(out)@ + u16_le_bytes(v),
{
    out.push((v & 0xff) as u8);
    out.push(((v >> 8) & 0xff) as u8);
    assert(out@ =~= old(out)@ + u16_le_bytes(v));
}

impl WavFile {
    /// Splits a WAV file after the header of its first `data` chunk.
    ///
    /// The search for the tag `data` covers the offsets below
    /// `bytes.len() - 8`; the PCM bytes start eight bytes after the tag.
    pub fn parse(bytes: Vec<u8>) -> (res: Result<WavFile, HiddenWaveError>)
        ensures
            match pcm_offset(bytes@) {
                Some(k) => res matches Ok(w) && w.header_bytes@ == bytes@.take(k)
                    && w.pcm_data@ == bytes@.skip(k),
                None => res matches Err(HiddenWaveError::WavParse(msg)) && msg@
                    == "Could not find 'data' chunk"@,
            },
            res is Err <==> forall|j: int|
                #![trigger bytes@[j]]
                0 <= j && j + 8 < bytes@.len() ==> !(bytes@[j] == 100u8 && bytes@[j + 1] == 97u8
                    && bytes@[j + 2] == 116u8 && bytes@[j + 3] == 97u8),
            res matches Ok(w) ==> {
                let k = w.header_bytes@.len() as int;
                &&& 8 <= k < bytes@.len()
                &&& bytes@[k - 8] == 100u8 && bytes@[k - 7] == 97u8 && bytes@[k - 6] == 116u8
                    && bytes@[k - 5] == 97u8
                &&& forall|j: int|
                    #![trigger bytes@[j]]
                    0 <= j < k - 8 ==> !(bytes@[j] == 100u8 && bytes@[j + 1] == 97u8 && bytes@[j
                        + 2] == 116u8 && bytes@[j + 3] == 97u8)
                &&& w.header_bytes@ == bytes@.take(k)
                &&& w.pcm_data@ == bytes@.skip(k)
            },
    {
        proof {
            lemma_pcm_offset_is_first_data_tag(bytes@);
        }
        let n = bytes.len();
        let end: usize = if n >= 8 {
            n - 8
        } else {
            0
        };
        let mut data_offset: Option<usize> = None;
        let mut i: usize = 0;
        while i < end
            invariant_except_break
                data_offset is None,
                data_marker_from(bytes@, 0) == data_marker_from(bytes@, i as int),
            invariant
                n == bytes@.len(),
                end == if n >= 8 {
                    n - 8
                } else {
                    0
                },
                i <= end,
            ensures
                match data_marker_from(bytes@, 0) {
                    Some(k) => data_offset == Some((k + 8) as usize),
                    None => data_offset is None,
                },
            decreases end - i,
        {
            if bytes[i] == 100u8 && bytes[i + 1] == 97u8 && bytes[i + 2] == 116u8 && bytes[i + 3]
                == 97u8 {
                assert(bytes@.subrange(i as int, i + 4) =~= data_tag());
                data_offset = Some(i + 8);
                break ;
            }
            assert(!is_data_at(bytes@, i as int)) by {
                if is_data_at(bytes@, i as int) {
                    assert(bytes@.subrange(i as int, i + 4)[0] == bytes@[i as int]);
                    assert(bytes@.subrange(i as int, i + 4)[1] == bytes@[i + 1]);
                    assert(bytes@.subrange(i as int, i + 4)[2] == bytes@[i + 2]);
                    assert(bytes@.subrange(i as int, i + 4)[3] == bytes@[i + 3]);
                }
            }
            i = i + 1;
        }
        proof {
            if data_marker_from(bytes@, 0) is Some {
                lemma_data_marker_found(bytes@, 0);
            }
        }
        let split_idx = match data_offset {
            Some(k) => k,
            None => {
                return Err(HiddenWaveError::WavParse(String::from_str("Could not find 'data' chunk")));
            },
        };
        let mut header = bytes;
        let pcm = header.split_off(split_idx);
        Ok(WavFile { header_bytes: header, pcm_data: pcm })
    }

    /// The file's bytes: the header followed by the PCM bytes.
    pub fn to_bytes(&self) -> (out: Vec<u8>)
        requires
            self.header_bytes@.len() + self.pcm_data@.len() <= usize::MAX,
        ensures
            out@ == self.header_bytes@ + self.pcm_data@,
    {
        let mut out = Vec::with_capacity(self.header_bytes.len() + self.pcm_data.len());
        out.extend_from_slice(self.header_bytes.as_slice());
        out.extend_from_slice(self.pcm_data.as_slice());
        assert(out@ =~= self.header_bytes@ + self.pcm_data@);
        out
    }

    /// Builds the 44-byte header of a 16-bit PCM WAV file holding `pcm_len`
    /// bytes of samples.
    pub fn generate_header(pcm_len: usize, sample_rate: u32, channels: u16) -> (header: Vec<u8>)
        requires
            sample_rate * channels * 2 <= u32::MAX,
            channels * 2 <= u16::MAX,
            36 + pcm_len <= usize::MAX,
        ensures
            header@ == wav_header_spec(pcm_len as nat, sample_rate, channels),
            header@.len() == 44,
            le16_at(header@, 22) == channels,
            le32_at(header@, 24) == sample_rate,
            le32_at(header@, 28) == sample_rate * channels * 2,
            le16_at(header@, 32) == channels * 2,
            pcm_len + 36 <= u32::MAX ==> le32_at(header@, 4) == pcm_len + 36,
            pcm_len <= u32::MAX ==> le32_at(header@, 40) == pcm_len,
    {
        proof {
            lemma_wav_header_fields(pcm_len as nat, sample_rate, channels);
        }
        let mut header: Vec<u8> = Vec::with_capacity(44);
        let byte_rate = sample_rate * (channels as u32) * 2;
        let block_align = channels * 2;

        push4(&mut header, 82u8, 73u8, 70u8, 70u8);
        push_u32_le(&mut header, (36 + pcm_len) as u32);
        push4(&mut header, 87u8, 65u8, 86u8, 69u8);

        push4(&mut header, 102u8, 109u8, 116u8, 32u8);
        push_u32_le(&mut header, 16u32);
        push_u16_le(&mut header, 1u16);
        push_u16_le(&mut header, channels);
        push_u32_le(&mut header, sample_rate);
        push_u32_le(&mut header, byte_rate);
        push_u16_le(&mut header, block_align);
        push_u16_le(&mut header, 16u16);

        push4(&mut header, 100u8, 97u8, 116u8, 97u8);
        push_u32_le(&mut header, pcm_len as u32);
        assert(header@ =~= wav_header_spec(pcm_len as nat, sample_rate, channels));
        header
    }
}

} // verus!
