//! What `embed`, `extract` and `max_capacity` promise together.
use super::embed::{
    embed_fits, embed_header_bytes, embed_stride, embedded_pcm, max_capacity_spec, payload_type_of,
};
use super::extract::{extract_header, extract_precondition};
use super::header::{
    ext_bytes_spec, header_bytes, lemma_header_round_trip, u32_le_bytes, StegHeader,
    MY_HEADER_MODULE, START_SPACE,
};
use super::layout::{
    contains_sentinel, first_sentinel, header_end, header_pos, header_samples,
    lemma_sentinel_from_found, payload_pos, payload_stream, sentinel, sentinel_at, sentinel_from,
    spread, stride_count, with_sentinel,
};
use vstd::arithmetic::div_mod::{lemma_fundamental_div_mod, lemma_fundamental_div_mod_converse};
use crate::text::{is_white_space, trim_end_spec, trim_spec, trim_start_spec};
use crate::wav::{le32_at, lemma_u32_le_bytes_value};
use vstd::prelude::*;
use vstd::utf8::{
    decode_utf8, encode_utf8, encode_utf8_decode_utf8, encode_utf8_valid_utf8, is_ascii_chars,
    is_ascii_chars_encode_utf8, valid_utf8,
};

verus! {

/// If the end marker starts at `q`, and nowhere in `[i, q)`, the search from
/// `i` finds it at `q`.
proof fn lemma_sentinel_from_first(r: Seq<u8>, i: int, q: int)
    requires
        0 <= i <= q,
        sentinel_at(r, q),
        forall|j: int| i <= j < q ==> !sentinel_at(r, j),
    ensures
        sentinel_from(r, i) == Some(q),
    decreases q - i,
{
    if i < q {
        lemma_sentinel_from_first(r, i + 1, q);
    }
}

/// No end marker starts inside `p` in `p` followed by the end marker,
/// provided `p` itself holds no marker.
proof fn lemma_no_early_sentinel(p: Seq<u8>, r: Seq<u8>, j: int)
    requires
        !contains_sentinel(p),
        r.len() >= p.len() + 4,
        r.take(p.len() + 4 as int) == with_sentinel(p),
        0 <= j < p.len(),
    ensures
        !sentinel_at(r, j),
{
    let n = p.len() as int;
    let w = with_sentinel(p);
    if sentinel_at(r, j) {
        let win = r.subrange(j, j + 4);
        if j + 4 <= n {
            assert forall|t: int| 0 <= t < 4 implies p.subrange(j, j + 4)[t] == win[t] by {
                assert(r.take(n + 4)[j + t] == w[j + t]);
            }
            assert(p.subrange(j, j + 4) =~= win);
            assert(sentinel_at(p, j));
        } else {
            let d = n - j;
            assert(r.take(n + 4)[n] == w[n]);
            assert(win[d] == r[n]);
            assert(sentinel()[d] != 64u8);
        }
    }
}

/// In `p` followed by the end marker, the first marker is the appended one,
/// provided `p` itself holds no marker.
proof fn lemma_first_sentinel_after_payload(p: Seq<u8>, r: Seq<u8>)
    requires
        !contains_sentinel(p),
        r.len() >= p.len() + 4,
        r.take(p.len() + 4 as int) == with_sentinel(p),
    ensures
        first_sentinel(r) == Some(p.len() as int),
{
    let n = p.len() as int;
    let w = with_sentinel(p);
    assert forall|t: int| 0 <= t < 4 implies r.subrange(n, n + 4)[t] == sentinel()[t] by {
        assert(r.take(n + 4)[n + t] == w[n + t]);
    }
    assert(r.subrange(n, n + 4) =~= sentinel());
    assert forall|j: int| 0 <= j < n implies !sentinel_at(r, j) by {
        lemma_no_early_sentinel(p, r, j);
    }
    lemma_sentinel_from_first(r, 0, n);
}

/// What a successful `embed` wrote, `extract` reads back: the header with
/// the stride, extension bytes and payload type that `embed` chose, and the
/// payload up to the first end marker in the payload followed by `@<;;`.
/// A payload that holds the marker itself is thus cut before it.
pub proof fn lemma_extract_reads_embedded(
    pcm: Seq<u8>,
    payload: Seq<u8>,
    ext: Seq<char>,
    is_binary: bool,
)
    requires
        pcm.len() <= usize::MAX,
        embed_fits(pcm.len(), payload.len()),
    ensures
        ({
            let out = embedded_pcm(pcm, payload, ext, is_binary);
            let m = embed_stride(pcm.len(), payload.len());
            &&& extract_precondition(out)
            &&& extract_header(out) matches Some(h) && h.modulus == m && h.extension@
                == ext_bytes_spec(ext) && h.payload_type == payload_type_of(is_binary)
            &&& first_sentinel(payload_stream(out, m as nat)) == first_sentinel(
                with_sentinel(payload),
            )
            &&& first_sentinel(with_sentinel(payload)) matches Some(q) && 0 <= q <= payload.len()
                && payload_stream(out, m as nat).take(q) == payload.take(q)
        }),
{
    let n = pcm.len() as int;
    let len = payload.len() + 4;
    let m = embed_stride(pcm.len(), payload.len());
    let hb = embed_header_bytes(m, ext, is_binary);
    let body = with_sentinel(payload);
    let inner = spread(pcm, START_SPACE as int, MY_HEADER_MODULE as int, hb);
    let out = embedded_pcm(pcm, payload, ext, is_binary);
    let avail = n - header_end();

    // The stride is at most the untruncated quotient, so the payload fits.
    let q = avail / len as int;
    let qu = q as usize;
    assert(m == qu as u32);
    assert(m as int <= qu) by (bit_vector)
        requires
            m == qu as u32,
    ;
    lemma_fundamental_div_mod(avail, len as int);
    let mi = m as int;
    assert(len * mi <= avail) by (nonlinear_arith)
        requires
            mi <= q,
            q * len <= avail,
            len > 0,
            mi >= 0,
    ;

    // The header bytes are read back.
    let e = ext_bytes_spec(ext);
    let h = StegHeader {
        modulus: m,
        extension: [e[0], e[1], e[2], e[3]],
        payload_type: payload_type_of(is_binary),
    };
    assert(h.extension@ =~= e);
    assert(header_bytes(h) =~= hb);
    assert forall|k: int| 0 <= k < 9 implies #[trigger] header_samples(out)[k] == hb[k] by {
        let i = header_pos(k);
        lemma_fundamental_div_mod_converse(i - START_SPACE, MY_HEADER_MODULE as int, k, 0);
        assert(out[i] == inner[i]);
    }
    assert(header_samples(out) =~= hb);
    lemma_header_round_trip(h);

    // The payload with its marker is read back at the stride.
    let stream = payload_stream(out, m as nat);
    let c = stride_count(avail, mi);
    lemma_fundamental_div_mod(avail - 1, mi);
    assert(c >= len) by (nonlinear_arith)
        requires
            c == (avail - 1) / mi + 1,
            avail - 1 == mi * ((avail - 1) / mi) + (avail - 1) % mi,
            0 <= (avail - 1) % mi < mi,
            len * mi <= avail,
            mi > 3,
            len >= 1,
    ;
    assert forall|k: int| 0 <= k < len implies #[trigger] stream[k] == body[k] by {
        let i = payload_pos(k, mi);
        lemma_fundamental_div_mod_converse(i - header_end(), mi, k, 0);
        assert(k * mi <= (len - 1) * mi) by (nonlinear_arith)
            requires
                k <= len - 1,
                mi > 0,
        ;
        assert((len - 1) * mi + mi == len * mi) by (nonlinear_arith);
    }
    assert(stream.take(len as int) =~= body);

    // The first marker lies within the payload and its marker.
    lemma_first_sentinel_of_marked(payload);
    let fq = first_sentinel(body).unwrap();
    lemma_sentinel_from_found(body, 0);
    assert forall|x: int| 0 <= x < fq + 4 implies body[x] == stream[x] by {
        assert(stream.take(len as int)[x] == stream[x]);
    }
    lemma_sentinel_from_same_prefix(body, stream, fq, 0);
    assert(stream.take(fq) =~= payload.take(fq)) by {
        assert forall|x: int| 0 <= x < fq implies stream.take(fq)[x] == payload.take(fq)[x] by {
            assert(stream.take(len as int)[x] == stream[x]);
        }
    }
}

/// In the payload followed by the end marker, the first marker starts within
/// the payload or right after it; right after it when the payload holds no
/// marker.
pub proof fn lemma_first_sentinel_of_marked(p: Seq<u8>)
    ensures
        first_sentinel(with_sentinel(p)) matches Some(q) && 0 <= q <= p.len(),
        !contains_sentinel(p) ==> first_sentinel(with_sentinel(p)) == Some(p.len() as int),
{
    let w = with_sentinel(p);
    assert(w.subrange(p.len() as int, p.len() + 4 as int) =~= sentinel());
    lemma_sentinel_from_bounded(w, 0, p.len() as int);
    if !contains_sentinel(p) {
        assert(w.take(p.len() + 4 as int) =~= w);
        lemma_first_sentinel_after_payload(p, w);
    }
}

/// When the end marker starts at `q`, the search from `i <= q` finds one at
/// or before `q`.
proof fn lemma_sentinel_from_bounded(r: Seq<u8>, i: int, q: int)
    requires
        0 <= i <= q,
        sentinel_at(r, q),
    ensures
        sentinel_from(r, i) matches Some(x) && i <= x <= q,
    decreases q - i,
{
    if i < q && !sentinel_at(r, i) {
        lemma_sentinel_from_bounded(r, i + 1, q);
    }
}

/// Two sequences that agree below `q + 4` find the same first end marker at
/// `q`, searching from `j <= q`.
proof fn lemma_sentinel_from_same_prefix(s: Seq<u8>, t: Seq<u8>, q: int, j: int)
    requires
        0 <= j <= q,
        q + 4 <= s.len(),
        q + 4 <= t.len(),
        forall|x: int| 0 <= x < q + 4 ==> s[x] == t[x],
        sentinel_from(s, j) == Some(q),
    ensures
        sentinel_from(t, j) == Some(q),
    decreases q - j,
{
    lemma_sentinel_from_found(s, j);
    assert(s.subrange(j, j + 4) =~= t.subrange(j, j + 4));
    if j < q {
        lemma_sentinel_from_same_prefix(s, t, q, j + 1);
    }
}

/// What a successful `embed` wrote, `extract` gives back in full: the
/// payload, its type and its extension, when the payload holds no end marker
/// `@<;;` and the extension takes at most four bytes of UTF-8 and neither
/// starts nor ends with whitespace.
pub proof fn lemma_extract_recovers_embedded(
    pcm: Seq<u8>,
    payload: Seq<u8>,
    ext: Seq<char>,
    is_binary: bool,
)
    requires
        pcm.len() <= usize::MAX,
        embed_fits(pcm.len(), payload.len()),
        !contains_sentinel(payload),
        encode_utf8(ext).len() <= 4,
        ext.len() > 0 ==> !is_white_space(ext[0]) && !is_white_space(ext.last()),
    ensures
        ({
            let out = embedded_pcm(pcm, payload, ext, is_binary);
            let m = embed_stride(pcm.len(), payload.len());
            &&& extract_precondition(out)
            &&& extract_header(out) matches Some(h) && h.modulus == m && h.payload_type
                == payload_type_of(is_binary) && valid_utf8(h.extension@) && trim_spec(
                decode_utf8(h.extension@),
            ) == ext
            &&& first_sentinel(payload_stream(out, m as nat)) == Some(payload.len() as int)
            &&& payload_stream(out, m as nat).take(payload.len() as int) == payload
        }),
{
    lemma_extract_reads_embedded(pcm, payload, ext, is_binary);
    lemma_first_sentinel_of_marked(payload);
    lemma_extension_round_trip(ext);
    assert(payload.take(payload.len() as int) =~= payload);
}



/// A payload no larger than `max_capacity` fits, when the space after the
/// header area holds at least the end marker four times and the stride does
/// not exceed 32 bits.
pub proof fn lemma_capacity_suffices(pcm_len: nat, payload_len: nat)
    requires
        pcm_len > header_end(),
        (pcm_len - header_end()) / 4 >= 4,
        payload_len <= max_capacity_spec(pcm_len),
        (pcm_len - header_end()) / (payload_len + 4) as int <= u32::MAX,
    ensures
        embed_fits(pcm_len, payload_len),
{
    let avail = pcm_len - header_end();
    let len = payload_len + 4;
    assert(len * 4 <= avail) by {
        lemma_fundamental_div_mod(avail, 4);
    }
    assert(avail / len as int >= 4) by {
        vstd::arithmetic::div_mod::lemma_div_is_ordered((4 * len) as int, avail as int, len as int);
        vstd::arithmetic::div_mod::lemma_div_multiples_vanish(4, len as int);
    }
}

/// The capacity `max_capacity` reports is exact: a payload fits if and
/// only if it is no larger, for carriers of at most `u32::MAX` bytes, except
/// an empty payload in a carrier of 577 to 591 bytes, which never fits
/// though the capacity is 0.
pub proof fn lemma_capacity_exact(pcm_len: nat, payload_len: nat)
    requires
        pcm_len <= u32::MAX,
        payload_len >= 1 || pcm_len >= header_end() + 16,
    ensures
        embed_fits(pcm_len, payload_len) <==> payload_len <= max_capacity_spec(pcm_len),
{
    if payload_len > max_capacity_spec(pcm_len) {
        lemma_capacity_exceeded(pcm_len, payload_len);
    } else if pcm_len > header_end() && (pcm_len - header_end()) / 4 >= 4 {
        let avail = pcm_len - header_end();
        let len = payload_len + 4;
        assert(avail / len as int <= avail) by {
            vstd::arithmetic::div_mod::lemma_div_is_ordered_by_denominator(avail as int, 1, len as int);
        }
        lemma_capacity_suffices(pcm_len, payload_len);
    } else {
        if pcm_len > header_end() {
            vstd::arithmetic::div_mod::lemma_div_is_ordered(16, pcm_len - header_end(), 4);
        }
    }
}

/// The capacity of a carrier of `pcm_len` bytes is a quarter of the bytes
/// after the 576-byte header area, less 4, or 0 when that is negative.
pub proof fn lemma_max_capacity_value(pcm_len: nat)
    ensures
        pcm_len >= 592 ==> max_capacity_spec(pcm_len) == (pcm_len - 576) / 4 - 4,
        pcm_len < 592 ==> max_capacity_spec(pcm_len) == 0,
{
    if pcm_len > 576 && pcm_len < 592 {
        assert((pcm_len - 576) / 4 < 4);
    }
}

/// `embed` accepts a payload whenever four times its length with the end
/// marker fits in the bytes after the 576-byte header area (and the stride
/// fits in 32 bits), and refuses it whenever it does not.
pub proof fn lemma_embed_room(pcm_len: nat, payload_len: nat)
    ensures
        pcm_len > 576 && 4 * (payload_len + 4) <= pcm_len - 576 && (pcm_len - 576) / (payload_len
            + 4 as int) <= u32::MAX ==> embed_fits(pcm_len, payload_len),
        pcm_len <= 576 || 4 * (payload_len + 4) > pcm_len - 576 ==> !embed_fits(
            pcm_len,
            payload_len,
        ),
{
    let len = payload_len + 4;
    if pcm_len > 576 {
        let avail = pcm_len - 576;
        lemma_fundamental_div_mod(avail as int, len as int);
        let q = avail / (len as int);
        vstd::arithmetic::div_mod::lemma_div_pos_is_pos(avail as int, len as int);
        if 4 * len <= avail {
            assert(q >= 4) by (nonlinear_arith)
                requires
                    avail == len * q + avail % (len as int),
                    0 <= avail % (len as int) < len,
                    4 * len <= avail,
                    len > 0,
            ;
            if q <= u32::MAX {
                assert(embed_stride(pcm_len, payload_len) == q);
            }
        } else {
            assert(q <= 3) by (nonlinear_arith)
                requires
                    avail == len * q + avail % (len as int),
                    0 <= avail % (len as int),
                    avail < 4 * len,
                    len > 0,
            ;
            assert(embed_stride(pcm_len, payload_len) == q);
        }
    }
}

/// A payload larger than `max_capacity` never fits.
pub proof fn lemma_capacity_exceeded(pcm_len: nat, payload_len: nat)
    requires
        payload_len > max_capacity_spec(pcm_len),
    ensures
        !embed_fits(pcm_len, payload_len),
{
    if pcm_len > header_end() {
        let avail = pcm_len - header_end();
        let len = payload_len + 4;
        lemma_fundamental_div_mod(avail, 4);
        assert(avail < 4 * len);
        lemma_fundamental_div_mod(avail, len as int);
        let q = avail / len as int;
        assert(q <= 3) by (nonlinear_arith)
            requires
                avail == len * q + avail % len as int,
                0 <= avail % len as int,
                avail < 4 * len,
                len > 0,
        ;
        assert(q >= 0) by {
            vstd::arithmetic::div_mod::lemma_div_pos_is_pos(avail, len as int);
        }
        assert(embed_stride(pcm_len, payload_len) == q);
    }
}

/// `k` space characters.
pub open spec fn spaces(k: nat) -> Seq<char> {
    Seq::new(k, |i: int| ' ')
}

/// The UTF-8 encoding of a concatenation is the concatenation of the
/// encodings.
proof fn lemma_encode_utf8_concat(a: Seq<char>, b: Seq<char>)
    ensures
        encode_utf8(a + b) == encode_utf8(a) + encode_utf8(b),
    decreases a.len(),
{
    if a.len() == 0 {
        assert(a + b =~= b);
        assert(encode_utf8(a) + encode_utf8(b) =~= encode_utf8(b));
    } else {
        assert((a + b).drop_first() =~= a.drop_first() + b);
        assert((a + b)[0] == a[0]);
        lemma_encode_utf8_concat(a.drop_first(), b);
        assert(encode_utf8(a + b) =~= encode_utf8(a) + encode_utf8(b));
    }
}

/// Trailing spaces are trimmed away.
proof fn lemma_trim_end_spaces(s: Seq<char>, k: nat)
    ensures
        trim_end_spec(s + spaces(k)) == trim_end_spec(s),
    decreases k,
{
    let t = s + spaces(k);
    if k == 0 {
        assert(t =~= s);
    } else {
        assert(t.last() == ' ');
        assert(is_white_space(' '));
        assert(t.drop_last() =~= s + spaces((k - 1) as nat));
        lemma_trim_end_spaces(s, (k - 1) as nat);
    }
}

/// Nothing is left of spaces alone after trimming the start.
proof fn lemma_trim_start_spaces(k: nat)
    ensures
        trim_start_spec(spaces(k)) == Seq::<char>::empty(),
    decreases k,
{
    if k == 0 {
        assert(spaces(k) =~= Seq::<char>::empty());
    } else {
        assert(is_white_space(' '));
        assert(spaces(k).drop_first() =~= spaces((k - 1) as nat));
        lemma_trim_start_spaces((k - 1) as nat);
    }
}

/// The extension that `embed` records is the one `extract` reports, when it
/// takes at most four bytes of UTF-8 and neither starts nor ends with
/// whitespace.
pub proof fn lemma_extension_round_trip(ext: Seq<char>)
    requires
        encode_utf8(ext).len() <= 4,
        ext.len() > 0 ==> !is_white_space(ext[0]) && !is_white_space(ext.last()),
    ensures
        valid_utf8(ext_bytes_spec(ext)),
        trim_spec(decode_utf8(ext_bytes_spec(ext))) == ext,
{
    let b = encode_utf8(ext);
    let k = (4 - b.len()) as nat;
    let sp = spaces(k);
    let padded = ext + sp;
    assert(is_ascii_chars(sp));
    is_ascii_chars_encode_utf8(sp);
    assert(' ' as u8 == 32u8);
    lemma_encode_utf8_concat(ext, sp);
    assert(ext_bytes_spec(ext) =~= encode_utf8(padded));
    encode_utf8_valid_utf8(padded);
    encode_utf8_decode_utf8(padded);
    lemma_trim_end_spaces(ext, k);
    if ext.len() == 0 {
        assert(b.len() == 0);
        assert(padded =~= spaces(4));
        lemma_trim_start_spaces(4);
    } else {
        assert(padded[0] == ext[0]);
        assert(trim_start_spec(padded) == padded);
        assert(trim_end_spec(ext) == ext);
    }
}

/// Where `embed` puts everything, in plain offsets: the stride is the bytes
/// after the 576-byte header area divided by the payload length plus 4; the
/// stride's four little-endian bytes sit at offsets 0, 64, 128, 192, the
/// four extension bytes at 256, 320, 384, 448, the type tag (`b'b'` or
/// `b't'`) at 512; payload byte `k` sits at `576 + k * stride`, followed by
/// `@`, `<`, `;`, `;` at the next four strided offsets; every other byte is
/// left as it was.
pub proof fn lemma_embed_layout(pcm: Seq<u8>, payload: Seq<u8>, ext: Seq<char>, is_binary: bool)
    requires
        pcm.len() <= u32::MAX,
        embed_fits(pcm.len(), payload.len()),
    ensures
        ({
            let out = embedded_pcm(pcm, payload, ext, is_binary);
            let m = (pcm.len() - 576) / (payload.len() + 4) as int;
            let e = ext_bytes_spec(ext);
            let n = payload.len() as int;
            &&& out.len() == pcm.len()
            &&& embed_stride(pcm.len(), payload.len()) == m
            &&& out[0] + 256 * out[64] + 65536 * out[128] + 16777216 * out[192] == m
            &&& out[256] == e[0] && out[320] == e[1] && out[384] == e[2] && out[448] == e[3]
            &&& out[512] == (if is_binary {
                98u8
            } else {
                116u8
            })
            &&& forall|k: int| #![trigger payload[k]] 0 <= k < n ==> out[576 + k * m] == payload[k]
            &&& out[576 + n * m] == 64u8 && out[576 + (n + 1) * m] == 60u8 && out[576 + (n + 2) * m]
                == 59u8 && out[576 + (n + 3) * m] == 59u8
            &&& forall|i: int|
                #![trigger out[i]]
                0 <= i < pcm.len() && !(i < 576 && i % 64 == 0) && !(576 <= i && (i - 576) % m == 0
                    && (i - 576) / m < n + 4) ==> out[i] == pcm[i]
        }),
{
    let len = payload.len() + 4;
    let avail = pcm.len() - 576;
    let q = avail / len as int;
    let m = embed_stride(pcm.len(), payload.len());
    let mi = m as int;
    vstd::arithmetic::div_mod::lemma_div_is_ordered_by_denominator(avail as int, 1, len as int);
    assert(mi == q);
    let hb = embed_header_bytes(m, ext, is_binary);
    let body = with_sentinel(payload);
    let inner = spread(pcm, START_SPACE as int, MY_HEADER_MODULE as int, hb);
    let out = embedded_pcm(pcm, payload, ext, is_binary);
    lemma_fundamental_div_mod(avail as int, len as int);
    assert(len * mi <= avail) by (nonlinear_arith)
        requires
            mi == q,
            avail == len * q + avail % (len as int),
            0 <= avail % (len as int),
    ;
    // Header bytes.
    assert forall|k: int| 0 <= k < 9 implies #[trigger] out[64 * k] == hb[k] by {
        lemma_fundamental_div_mod_converse(64 * k, 64, k, 0);
        assert(out[64 * k] == inner[64 * k]);
    }
    lemma_u32_le_bytes_value(m);
    assert(out[0] == hb[0] && out[64] == hb[1] && out[128] == hb[2] && out[192] == hb[3]) by {
        assert(out[64 * 0int] == hb[0]);
        assert(out[64 * 1int] == hb[1]);
        assert(out[64 * 2int] == hb[2]);
        assert(out[64 * 3int] == hb[3]);
    }
    assert(out[256] == hb[4] && out[320] == hb[5] && out[384] == hb[6] && out[448] == hb[7]
        && out[512] == hb[8]) by {
        assert(out[64 * 4int] == hb[4]);
        assert(out[64 * 5int] == hb[5]);
        assert(out[64 * 6int] == hb[6]);
        assert(out[64 * 7int] == hb[7]);
        assert(out[64 * 8int] == hb[8]);
    }
    assert(le32_at(hb, 0) == le32_at(u32_le_bytes(m), 0));
    // Payload and marker bytes.
    assert forall|k: int| 0 <= k < len implies #[trigger] out[576 + k * mi] == body[k] by {
        lemma_fundamental_div_mod_converse(k * mi, mi, k, 0);
        assert(k * mi <= (len - 1) * mi) by (nonlinear_arith)
            requires
                k <= len - 1,
                mi > 0,
        ;
        assert((len - 1) * mi + mi == len * mi) by (nonlinear_arith);
    }
    let n = payload.len() as int;
    assert(out[576 + n * mi] == body[n]);
    assert(out[576 + (n + 1) * mi] == body[n + 1]);
    assert(out[576 + (n + 2) * mi] == body[n + 2]);
    assert(out[576 + (n + 3) * mi] == body[n + 3]);
    assert forall|k: int| #![trigger payload[k]] 0 <= k < n implies out[576 + k * mi] == payload[k] by {
        assert(out[576 + k * mi] == body[k]);
    }
    // Everything else is unchanged.
    assert forall|i: int|
        #![trigger out[i]]
        0 <= i < pcm.len() && !(i < 576 && i % 64 == 0) && !(576 <= i && (i - 576) % mi == 0 && (i
            - 576) / mi < n + 4) implies out[i] == pcm[i] by {
        if i < 576 {
            lemma_fundamental_div_mod(i, 64);
        }
    }
}

} // verus!
