//! Hiding a payload inside PCM bytes.
use super::header::{
    ext_bytes_spec, ext_to_bytes, u32_le_bytes, PayloadType, StegHeader, HEADER_SIZE,
    MY_HEADER_MODULE, START_SPACE,
};
use super::layout::{header_end, lemma_spread_none, lemma_spread_step, spread, with_sentinel};
use super::laws::{lemma_capacity_exact, lemma_embed_room, lemma_max_capacity_value};
use crate::error::HiddenWaveError;
use vstd::prelude::*;
use vstd::slice::slice_to_vec;

verus! {

/// The largest payload, in bytes, that `embed` can hide in `pcm_len` bytes
/// of PCM: a quarter of the space after the header area, less the end marker.
pub open spec fn max_capacity_spec(pcm_len: nat) -> nat {
    if pcm_len <= header_end() {
        0
    } else {
        let quarter = (pcm_len - header_end()) / 4;
        if quarter >= 4 {
            (quarter - 4) as nat
        } else {
            0
        }
    }
}

/// How many payload bytes fit into `pcm_len` bytes of PCM.
pub fn max_capacity(pcm_len: usize) -> (cap: usize)
    ensures
        cap == max_capacity_spec(pcm_len as nat),
        pcm_len >= 592 ==> cap == (pcm_len - 576) / 4 - 4,
        pcm_len < 592 ==> cap == 0,
{
    proof {
        lemma_max_capacity_value(pcm_len as nat);
    }
    let header_end_offset = START_SPACE + (MY_HEADER_MODULE * HEADER_SIZE);
    if pcm_len <= header_end_offset {
        return 0;
    }
    let available_space = pcm_len - header_end_offset;
    let sentinel_size: usize = 4;
    let max_payload_plus_sentinel = available_space / 4;
    max_payload_plus_sentinel.saturating_sub(sentinel_size)
}

/// The stride `embed` uses for a payload of `payload_len` bytes in
/// `pcm_len` bytes of PCM: the space after the header area divided by the
/// payload length with its end marker, cut to 32 bits.
pub open spec fn embed_stride(pcm_len: nat, payload_len: nat) -> u32 {
    ((pcm_len - header_end()) / (payload_len + 4) as int) as u32
}

/// Whether `embed` hides a payload of `payload_len` bytes in `pcm_len` bytes
/// of PCM.
pub open spec fn embed_fits(pcm_len: nat, payload_len: nat) -> bool {
    pcm_len > header_end() && embed_stride(pcm_len, payload_len) > 3
}

/// The error `embed` reports when the payload does not fit.
pub open spec fn embed_error(pcm_len: nat, payload_len: nat) -> HiddenWaveError {
    if pcm_len <= header_end() {
        HiddenWaveError::PayloadTooLarge { needed: header_end() as usize, available: pcm_len as usize }
    } else {
        HiddenWaveError::PayloadTooLarge {
            needed: ((payload_len + 4) * 4) as usize,
            available: (pcm_len - header_end()) as usize,
        }
    }
}

/// The payload type `embed` records.
pub open spec fn payload_type_of(is_binary: bool) -> PayloadType {
    if is_binary {
        PayloadType::Binary
    } else {
        PayloadType::Text
    }
}

/// The header bytes `embed` writes: stride, extension bytes, type tag.
pub open spec fn embed_header_bytes(modulus: u32, ext: Seq<char>, is_binary: bool) -> Seq<u8> {
    u32_le_bytes(modulus) + ext_bytes_spec(ext) + seq![payload_type_of(is_binary).spec_byte()]
}

/// The PCM bytes after `embed`: the header bytes every `MY_HEADER_MODULE`
/// bytes from `START_SPACE`, then the payload and its end marker every
/// `modulus` bytes from the end of the header area; all else unchanged.
pub open spec fn embedded_pcm(
    pcm: Seq<u8>,
    payload: Seq<u8>,
    ext: Seq<char>,
    is_binary: bool,
) -> Seq<u8> {
    let m = embed_stride(pcm.len(), payload.len());
    spread(
        spread(pcm, START_SPACE as int, MY_HEADER_MODULE as int, embed_header_bytes(m, ext, is_binary)),
        header_end(),
        m as int,
        with_sentinel(payload),
    )
}

/// Writes `vals[k]` at `pcm[start + k * m]` for every `k`.
fn write_strided(pcm: &mut [u8], start: usize, m: usize, vals: &[u8])
    requires
        m > 0,
        vals@.len() > 0 ==> start + (vals@.len() - 1) * m < old(pcm)@.len(),
    ensures
        final(pcm)@ == spread(old(pcm)@, start as int, m as int, vals@),
{
    let ghost s0 = pcm@;
    let n = pcm.len();
    proof {
        lemma_spread_none(s0, start as int, m as int);
        assert(vals@.take(0) =~= Seq::<u8>::empty());
    }
    for k in 0..vals.len()
        invariant
            m > 0,
            vals@.len() > 0 ==> start + (vals@.len() - 1) * m < s0.len(),
            pcm@.len() == s0.len(),
            n == s0.len(),
            pcm@ == spread(s0, start as int, m as int, vals@.take(k as int)),
    {
        assert(k * m <= (vals@.len() - 1) * m) by (nonlinear_arith)
            requires
                k <= vals@.len() - 1,
                m > 0,
        ;
        let pos = start + k * m;
        proof {
            lemma_spread_step(s0, start as int, m as int, vals@, k as int);
        }
        pcm[pos] = vals[k];
    }
    assert(vals@.take(vals@.len() as int) =~= vals@);
}

/// Hides `payload` in `pcm`.
///
/// The payload gets the end marker `@<;;` appended; the stride is the space
/// after the header area divided by that length. When the PCM is too short
/// for the header area, or the stride is 3 or less, nothing is written and
/// `PayloadTooLarge` is returned. Otherwise the header (stride, the first
/// four bytes of `ext`, payload type) is written every `MY_HEADER_MODULE`
/// bytes from `START_SPACE`, and the payload with its marker every stride
/// bytes after the header area.
pub fn embed(pcm: &mut [u8], payload: &[u8], ext: &str, is_binary: bool) -> (res: Result<
    (),
    HiddenWaveError,
>)
    requires
        old(pcm)@.len() > header_end() ==> (payload@.len() + 4) * 4 <= usize::MAX,
    ensures
        res is Ok <==> embed_fits(old(pcm)@.len(), payload@.len()),
        old(pcm)@.len() <= u32::MAX && (payload@.len() >= 1 || old(pcm)@.len() >= header_end()
            + 16) ==> (res is Ok <==> payload@.len() <= max_capacity_spec(old(pcm)@.len())),
        old(pcm)@.len() > 576 && 4 * (payload@.len() + 4) <= old(pcm)@.len() - 576 && (old(
            pcm,
        )@.len() - 576) / (payload@.len() + 4) as int <= u32::MAX ==> res is Ok,
        old(pcm)@.len() <= 576 || 4 * (payload@.len() + 4) > old(pcm)@.len() - 576 ==> res is Err,
        res is Ok ==> final(pcm)@ == embedded_pcm(old(pcm)@, payload@, ext@, is_binary),
        res matches Err(e) ==> e == embed_error(old(pcm)@.len(), payload@.len()) && final(pcm)@
            == old(pcm)@,
{
    proof {
        if old(pcm)@.len() <= u32::MAX && (payload@.len() >= 1 || old(pcm)@.len() >= header_end()
            + 16) {
            lemma_capacity_exact(old(pcm)@.len(), payload@.len());
        }
        lemma_embed_room(old(pcm)@.len(), payload@.len());
    }
    let mut payload_with_sentinel: Vec<u8> = slice_to_vec(payload);
    payload_with_sentinel.push(64u8);
    payload_with_sentinel.push(60u8);
    payload_with_sentinel.push(59u8);
    payload_with_sentinel.push(59u8);
    let total = payload_with_sentinel.len();
    assert(payload_with_sentinel@ =~= with_sentinel(payload@));

    let header_end_offset = START_SPACE + (MY_HEADER_MODULE * HEADER_SIZE);
    if pcm.len() <= header_end_offset {
        return Err(
            HiddenWaveError::PayloadTooLarge { needed: header_end_offset, available: pcm.len() },
        );
    }
    let available_payload_space = pcm.len() - header_end_offset;
    let quotient = available_payload_space / total;
    let modulus = quotient as u32;
    if modulus <= 3 {
        return Err(
            HiddenWaveError::PayloadTooLarge {
                needed: total * 4,
                available: available_payload_space,
            },
        );
    }
    let payload_type = if is_binary {
        PayloadType::Binary
    } else {
        PayloadType::Text
    };
    let header = StegHeader { modulus, extension: ext_to_bytes(ext), payload_type };
    let header_bytes: [u8; 9] = header.into();
    assert(header_bytes@ =~= embed_header_bytes(modulus, ext@, is_binary));

    let ghost s0 = pcm@;
    write_strided(pcm, START_SPACE, MY_HEADER_MODULE, header_bytes.as_slice());

    let m = modulus as usize;
    proof {
        assert(modulus as int <= quotient) by (bit_vector)
            requires
                modulus == quotient as u32,
        ;
        vstd::arithmetic::div_mod::lemma_fundamental_div_mod(
            available_payload_space as int,
            total as int,
        );
        assert((total - 1) * m + m <= available_payload_space) by (nonlinear_arith)
            requires
                m <= quotient,
                total >= 1,
                quotient * total <= available_payload_space,
        ;
    }
    write_strided(pcm, header_end_offset, m, payload_with_sentinel.as_slice());
    Ok(())
}

} // verus!
