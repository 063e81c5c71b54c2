//! Recovering a hidden payload from PCM bytes.
use super::header::{parse_header, StegHeader, HEADER_SIZE, MY_HEADER_MODULE, START_SPACE};
use super::layout::{
    first_sentinel, header_end, header_pos, header_samples, payload_pos, payload_stream, sentinel,
    sentinel_at, sentinel_from, lemma_sentinel_from_found,
};
use crate::error::HiddenWaveError;
use crate::payload::ExtractedPayload;
use crate::text::{decode_utf8_lossy, trim_spec, utf8_lossy};
use vstd::arithmetic::div_mod::lemma_fundamental_div_mod_converse;
use vstd::prelude::*;
use vstd::string::StringExecFns;
use vstd::utf8::{decode_utf8, valid_utf8};

verus! {

/// The header hidden in `s`, if `s` is long enough to hold one and its
/// header bytes are valid.
pub open spec fn extract_header(s: Seq<u8>) -> Option<StegHeader> {
    if s.len() < header_end() {
        None
    } else {
        parse_header(header_samples(s))
    }
}

/// Whether `extract` can run on `s` without a zero stride: a header that
/// reads as valid never records stride zero.
pub open spec fn extract_precondition(s: Seq<u8>) -> bool {
    extract_header(s) matches Some(h) ==> h.modulus != 0
}

/// Collects the header bytes spread over `pcm`.
fn read_header_samples(pcm: &[u8]) -> (out: Vec<u8>)
    requires
        pcm@.len() >= header_end(),
    ensures
        out@ == header_samples(pcm@),
{
    let mut out: Vec<u8> = Vec::new();
    for k in 0..HEADER_SIZE
        invariant
            pcm@.len() >= header_end(),
            out@ == Seq::new(k as nat, |j: int| pcm@[header_pos(j)]),
    {
        assert(k * MY_HEADER_MODULE <= 8 * 64) by (nonlinear_arith)
            requires
                k < 9,
        ;
        out.push(pcm[START_SPACE + k * MY_HEADER_MODULE]);
        assert(out@ =~= Seq::new((k + 1) as nat, |j: int| pcm@[header_pos(j)]));
    }
    assert(out@ =~= header_samples(pcm@));
    out
}

/// Collects the bytes at stride `m` after the header area of `pcm`.
fn read_payload_stream(pcm: &[u8], m: usize) -> (out: Vec<u8>)
    requires
        pcm@.len() >= header_end(),
        m > 0,
    ensures
        out@ == payload_stream(pcm@, m as nat),
{
    let n = pcm.len();
    let start: usize = START_SPACE + MY_HEADER_MODULE * HEADER_SIZE;
    let mut out: Vec<u8> = Vec::new();
    let mut pos: usize = start;
    let ghost mut k: int = 0;
    loop
        invariant_except_break
            0 <= k,
            pos == payload_pos(k, m as int),
            pos < n || k == 0,
            out@ == Seq::new(k as nat, |j: int| pcm@[payload_pos(j, m as int)]),
        invariant
            n == pcm@.len(),
            start == header_end(),
            n >= start,
            m > 0,
        ensures
            out@ == payload_stream(pcm@, m as nat),
        decreases n - pos,
    {
        if pos >= n {
            assert(k == 0);
            assert(pos == header_end() + 0 * m);
            assert(pos == start);
            assert(n == start);
            assert(payload_stream(pcm@, m as nat).len() == 0);
            assert(out@ =~= payload_stream(pcm@, m as nat));
            break ;
        }
        out.push(pcm[pos]);
        proof {
            k = k + 1;
        }
        assert(out@ =~= Seq::new(k as nat, |j: int| pcm@[payload_pos(j, m as int)]));
        if n - pos <= m {
            proof {
                let x = n - start - 1;
                let r = n - pos - 1;
                assert(x == (k - 1) * m + r);
                lemma_fundamental_div_mod_converse(x, m as int, k - 1, r);
            }
            assert(out@ =~= payload_stream(pcm@, m as nat));
            break ;
        }
        assert((k - 1) * m + m == k * m) by (nonlinear_arith);
        pos = pos + m;
    }
    out
}

/// Finds where the end marker first starts in `r`.
fn find_sentinel(r: &[u8]) -> (res: Option<usize>)
    ensures
        match first_sentinel(r@) {
            Some(q) => res == Some(q as usize),
            None => res is None,
        },
{
    if r.len() < 4 {
        return None;
    }
    let last = r.len() - 4;
    let mut i: usize = 0;
    while i <= last
        invariant
            last + 4 == r@.len(),
            i <= last + 1,
            sentinel_from(r@, 0) == sentinel_from(r@, i as int),
        decreases last + 1 - i,
    {
        if r[i] == 64u8 && r[i + 1] == 60u8 && r[i + 2] == 59u8 && r[i + 3] == 59u8 {
            assert(r@.subrange(i as int, i + 4) =~= sentinel());
            return Some(i);
        }
        assert(!sentinel_at(r@, i as int)) by {
            if r@.subrange(i as int, i + 4) == sentinel() {
                assert(r@.subrange(i as int, i + 4)[0] == r@[i as int]);
                assert(r@.subrange(i as int, i + 4)[1] == r@[i + 1]);
                assert(r@.subrange(i as int, i + 4)[2] == r@[i + 2]);
                assert(r@.subrange(i as int, i + 4)[3] == r@[i + 3]);
            }
        }
        i = i + 1;
    }
    None
}

/// Whether the header hidden in `pcm` records stride zero, on which
/// `extract` cannot step through the payload bytes.
pub fn has_zero_stride(pcm: &[u8]) -> (zero: bool)
    ensures
        zero == !extract_precondition(pcm@),
{
    if pcm.len() < START_SPACE + (MY_HEADER_MODULE * HEADER_SIZE) {
        return false;
    }
    let header_bytes = read_header_samples(pcm);
    match StegHeader::parse(header_bytes.as_slice()) {
        Ok(h) => h.modulus == 0,
        Err(_) => false,
    }
}

/// Recovers the payload hidden in `pcm` by `embed`.
///
/// Reads the header from the bytes at `START_SPACE`, `START_SPACE + 64`, ...;
/// then reads the bytes at the recorded stride after the header area up to
/// the first end marker `@<;;`.
pub fn extract(pcm: &[u8]) -> (res: Result<ExtractedPayload, HiddenWaveError>)
    requires
        extract_precondition(pcm@),
    ensures
        match extract_header(pcm@) {
            None => res matches Err(HiddenWaveError::NoHeaderFound),
            Some(h) => match first_sentinel(payload_stream(pcm@, h.modulus as nat)) {
                None => res matches Err(HiddenWaveError::SentinelMissing),
                Some(q) => res matches Ok(p) && p.payload_type == h.payload_type && p.data@
                    == payload_stream(pcm@, h.modulus as nat).take(q) && p.ext@ == trim_spec(
                    utf8_lossy(h.extension@),
                ) && (valid_utf8(h.extension@) ==> p.ext@ == trim_spec(
                    decode_utf8(h.extension@),
                )),
            },
        },
{
    let header_end: usize = START_SPACE + (MY_HEADER_MODULE * HEADER_SIZE);
    if pcm.len() < header_end {
        return Err(HiddenWaveError::NoHeaderFound);
    }
    let header_bytes = read_header_samples(pcm);
    let header = match StegHeader::parse(header_bytes.as_slice()) {
        Ok(h) => h,
        Err(e) => return Err(e),
    };
    let m = header.modulus as usize;
    let mut raw = read_payload_stream(pcm, m);
    let q = match find_sentinel(raw.as_slice()) {
        Some(q) => q,
        None => return Err(HiddenWaveError::SentinelMissing),
    };
    proof {
        lemma_sentinel_from_found(raw@, 0);
    }
    raw.truncate(q);
    let lossy = decode_utf8_lossy(&header.extension);
    let ext = String::from_str(lossy.as_str().trim());
    Ok(ExtractedPayload { payload_type: header.payload_type, data: raw, ext })
}

} // verus!
