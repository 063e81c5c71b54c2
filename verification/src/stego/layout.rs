//! Where the header and the payload live inside the PCM bytes.
use super::header::{HEADER_SIZE, MY_HEADER_MODULE, START_SPACE};
use vstd::prelude::*;

verus! {

/// First PCM offset after the header area.
pub open spec fn header_end() -> int {
    START_SPACE + MY_HEADER_MODULE * HEADER_SIZE
}

/// The byte sequence `@<;;` that marks the end of a payload.
pub open spec fn sentinel() -> Seq<u8> {
    seq![64u8, 60u8, 59u8, 59u8]
}

/// A payload followed by the end marker.
pub open spec fn with_sentinel(p: Seq<u8>) -> Seq<u8> {
    p + sentinel()
}

/// The PCM offset of header byte `k`.
pub open spec fn header_pos(k: int) -> int {
    START_SPACE + k * MY_HEADER_MODULE
}

/// The header bytes as they are spread over the PCM bytes `s`.
pub open spec fn header_samples(s: Seq<u8>) -> Seq<u8> {
    Seq::new(HEADER_SIZE as nat, |k: int| s[header_pos(k)])
}

/// How many of the offsets `0, m, 2m, ...` lie below `n`.
pub open spec fn stride_count(n: int, m: int) -> int {
    if n <= 0 {
        0
    } else {
        (n - 1) / m + 1
    }
}

/// The PCM offset of payload byte `k` for stride `m`.
pub open spec fn payload_pos(k: int, m: int) -> int {
    header_end() + k * m
}

/// The bytes found at stride `m` after the header area of `s`.
pub open spec fn payload_stream(s: Seq<u8>, m: nat) -> Seq<u8> {
    Seq::new(
        stride_count(s.len() - header_end(), m as int) as nat,
        |k: int| s[payload_pos(k, m as int)],
    )
}

/// `s` with `vals[k]` written at offset `start + k * m`, for every `k`.
pub open spec fn spread(s: Seq<u8>, start: int, m: int, vals: Seq<u8>) -> Seq<u8> {
    Seq::new(
        s.len(),
        |i: int|
            if start <= i && (i - start) % m == 0 && (i - start) / m < vals.len() {
                vals[(i - start) / m]
            } else {
                s[i]
            },
    )
}

/// Writing `k + 1` values is writing `k` values, then value `k` at its offset.
pub proof fn lemma_spread_step(s: Seq<u8>, start: int, m: int, vals: Seq<u8>, k: int)
    requires
        m > 0,
        0 <= k < vals.len(),
        0 <= start + k * m < s.len(),
    ensures
        spread(s, start, m, vals.take(k + 1)) == spread(s, start, m, vals.take(k)).update(
            start + k * m,
            vals[k],
        ),
{
    let p = start + k * m;
    let a = spread(s, start, m, vals.take(k + 1));
    let b = spread(s, start, m, vals.take(k)).update(p, vals[k]);
    assert forall|i: int| 0 <= i < s.len() implies a[i] == b[i] by {
        if start <= i {
            let x = i - start;
            vstd::arithmetic::div_mod::lemma_fundamental_div_mod(x, m);
            if i == p {
                vstd::arithmetic::div_mod::lemma_fundamental_div_mod_converse(x, m, k, 0);
            } else if x % m == 0 && x / m == k {
                assert(x == m * (x / m) + x % m);
                assert(x == k * m) by (nonlinear_arith)
                    requires
                        x == m * k,
                ;
            }
        }
    }
    assert(a =~= b);
}

/// Writing no values leaves `s` as it is.
pub proof fn lemma_spread_none(s: Seq<u8>, start: int, m: int)
    requires
        m > 0,
    ensures
        spread(s, start, m, Seq::<u8>::empty()) == s,
{
    let e = Seq::<u8>::empty();
    assert forall|i: int| 0 <= i < s.len() implies #[trigger] spread(s, start, m, e)[i] == s[i] by {
        if start <= i {
            vstd::arithmetic::div_mod::lemma_div_pos_is_pos(i - start, m);
        }
    }
    assert(spread(s, start, m, Seq::<u8>::empty()) =~= s);
}

/// Whether the end marker starts at index `q` of `r`.
pub open spec fn sentinel_at(r: Seq<u8>, q: int) -> bool {
    0 <= q && q + 4 <= r.len() && r.subrange(q, q + 4) == sentinel()
}

/// The first index at or after `q` where the end marker starts in `r`.
pub open spec fn sentinel_from(r: Seq<u8>, q: int) -> Option<int>
    decreases r.len() - q,
{
    if q < 0 || q + 4 > r.len() {
        None
    } else if sentinel_at(r, q) {
        Some(q)
    } else {
        sentinel_from(r, q + 1)
    }
}

/// A found end marker lies within `r`, at or after `q`, and no earlier one
/// starts at or after `q`.
pub proof fn lemma_sentinel_from_found(r: Seq<u8>, q: int)
    requires
        sentinel_from(r, q) is Some,
    ensures
        q <= sentinel_from(r, q).unwrap(),
        sentinel_at(r, sentinel_from(r, q).unwrap()),
        forall|j: int| q <= j < sentinel_from(r, q).unwrap() ==> !sentinel_at(r, j),
    decreases r.len() - q,
{
    if !sentinel_at(r, q) {
        lemma_sentinel_from_found(r, q + 1);
    }
}

/// The first index where the end marker starts in `r`.
pub open spec fn first_sentinel(r: Seq<u8>) -> Option<int> {
    sentinel_from(r, 0)
}

/// Whether the end marker occurs anywhere in `p`.
pub open spec fn contains_sentinel(p: Seq<u8>) -> bool {
    exists|q: int| sentinel_at(p, q)
}

/// The end marker starts at `q`, in terms of the bytes themselves.
proof fn lemma_sentinel_at_bytes(r: Seq<u8>, q: int)
    requires
        0 <= q,
        q + 4 <= r.len(),
    ensures
        sentinel_at(r, q) <==> (r[q] == 64u8 && r[q + 1] == 60u8 && r[q + 2] == 59u8 && r[q + 3]
            == 59u8),
{
    let w = r.subrange(q, q + 4);
    assert(w[0] == r[q] && w[1] == r[q + 1] && w[2] == r[q + 2] && w[3] == r[q + 3]);
    if r[q] == 64u8 && r[q + 1] == 60u8 && r[q + 2] == 59u8 && r[q + 3] == 59u8 {
        assert(w =~= sentinel());
    }
}

/// No marker is found from `j` on when the search from `j` finds none.
proof fn lemma_sentinel_from_none(r: Seq<u8>, j: int)
    requires
        0 <= j,
        sentinel_from(r, j) is None,
    ensures
        forall|x: int| j <= x && x + 4 <= r.len() ==> !sentinel_at(r, x),
    decreases r.len() - j,
{
    if j + 4 <= r.len() {
        lemma_sentinel_from_none(r, j + 1);
    }
}

/// The first end marker is the earliest offset where the bytes `@`, `<`,
/// `;`, `;` occur; there is none exactly when they occur nowhere.
pub proof fn lemma_first_sentinel_is_earliest(r: Seq<u8>)
    ensures
        first_sentinel(r) is None <==> forall|j: int|
            #![trigger r[j]]
            0 <= j && j + 4 <= r.len() ==> !(r[j] == 64u8 && r[j + 1] == 60u8 && r[j + 2] == 59u8
                && r[j + 3] == 59u8),
        first_sentinel(r) matches Some(q) ==> {
            &&& 0 <= q && q + 4 <= r.len()
            &&& r[q] == 64u8 && r[q + 1] == 60u8 && r[q + 2] == 59u8 && r[q + 3] == 59u8
            &&& forall|j: int|
                #![trigger r[j]]
                0 <= j < q ==> !(r[j] == 64u8 && r[j + 1] == 60u8 && r[j + 2] == 59u8 && r[j + 3]
                    == 59u8)
        },
{
    match sentinel_from(r, 0) {
        Some(q) => {
            lemma_sentinel_from_found(r, 0);
            lemma_sentinel_at_bytes(r, q);
            assert forall|j: int| #![trigger r[j]] 0 <= j < q implies !(r[j] == 64u8 && r[j + 1]
                == 60u8 && r[j + 2] == 59u8 && r[j + 3] == 59u8) by {
                lemma_sentinel_at_bytes(r, j);
            }
        },
        None => {
            lemma_sentinel_from_none(r, 0);
            assert forall|j: int| #![trigger r[j]] 0 <= j && j + 4 <= r.len() implies !(r[j] == 64u8
                && r[j + 1] == 60u8 && r[j + 2] == 59u8 && r[j + 3] == 59u8) by {
                lemma_sentinel_at_bytes(r, j);
            }
        },
    }
}

} // verus!
