//! Order keys for model scores, and the first-maximum choice made over them.
//!
//! The model emits 32-bit floating-point scores.  The library never handles
//! them as floats: a score comes in as its bits, from which `key_of_bits`
//! makes an order key, `Some(k)` with keys ordered exactly as the scores are
//! (equal scores, such as the two zeros, share a key), or `None` for a score
//! that compares false with everything (NaN).  Every decision the decoder
//! takes on scores is a strict comparison, so it is taken on the keys.
use vstd::prelude::*;

verus! {

/// The order key of the 32-bit float whose bits are `bits`: its magnitude
/// (the bits below the sign), negated when the sign bit is set, so that both
/// zeros get the key 0; no key for a NaN, whose magnitude lies above that of
/// infinity.
pub open spec fn bits_key(bits: u32) -> Option<i64> {
    let magnitude = bits % 0x8000_0000;
    if magnitude > 0x7f80_0000 {
        None
    } else if bits >= 0x8000_0000 {
        Some(-magnitude as i64)
    } else {
        Some(magnitude as i64)
    }
}

/// The order key of the 32-bit float whose bits are `bits`.
pub fn key_of_bits(bits: u32) -> (r: Option<i64>)
    ensures
        r == bits_key(bits),
{
    let magnitude: u32 = bits & 0x7fff_ffff;
    assert(magnitude == bits % 0x8000_0000) by (bit_vector)
        requires
            magnitude == bits & 0x7fff_ffff,
    ;
    if magnitude > 0x7f80_0000 {
        None
    } else if bits >= 0x8000_0000 {
        Some(-(magnitude as i64))
    } else {
        Some(magnitude as i64)
    }
}

/// `a > b` for the scores that the keys stand for.
pub open spec fn key_gt(a: Option<i64>, b: Option<i64>) -> bool {
    match (a, b) {
        (Some(x), Some(y)) => x > y,
        _ => false,
    }
}

/// Whether the score behind key `a` is greater than the score behind `b`.
pub fn score_gt(a: Option<i64>, b: Option<i64>) -> (r: bool)
    ensures
        r == key_gt(a, b),
{
    match (a, b) {
        (Some(x), Some(y)) => x > y,
        _ => false,
    }
}

/// The running maximum and its index after scanning `keys[0..k]`, starting
/// from the maximum `floor` at index 0 and moving only on a strictly greater key.
pub open spec fn scan_max(keys: Seq<Option<i64>>, floor: i64, k: int) -> (i64, int)
    decreases k,
{
    if k <= 0 {
        (floor, 0)
    } else {
        let (m, idx) = scan_max(keys, floor, k - 1);
        if key_gt(keys[k - 1], Some(m)) {
            (keys[k - 1]->0, k - 1)
        } else {
            (m, idx)
        }
    }
}

/// The index that a first-maximum scan above `floor` picks in `keys`.
pub open spec fn argmax_spec(keys: Seq<Option<i64>>, floor: i64) -> int {
    scan_max(keys, floor, keys.len() as int).1
}

/// The key at `i` stands above `floor`.
pub open spec fn above(keys: Seq<Option<i64>>, floor: i64, i: int) -> bool {
    keys[i] matches Some(x) && x > floor
}

/// `r` is the first position of the greatest key above `floor`, or 0 when no
/// key stands above `floor`.
pub open spec fn is_first_argmax(keys: Seq<Option<i64>>, floor: i64, r: int) -> bool {
    if exists|i: int| 0 <= i < keys.len() && above(keys, floor, i) {
        &&& 0 <= r < keys.len()
        &&& above(keys, floor, r)
        &&& forall|i: int| 0 <= i < keys.len() && keys[i] is Some ==> keys[i]->0 <= keys[r]->0
        &&& forall|i: int| 0 <= i < r && keys[i] is Some ==> keys[i]->0 < keys[r]->0
    } else {
        r == 0
    }
}

proof fn lemma_scan_max(keys: Seq<Option<i64>>, floor: i64, k: int)
    requires
        0 <= k <= keys.len(),
    ensures
        ({
            let (m, idx) = scan_max(keys, floor, k);
            &&& m >= floor
            &&& (exists|i: int| 0 <= i < k && above(keys, floor, i)) ==> {
                &&& 0 <= idx < k
                &&& keys[idx] == Some(m)
                &&& m > floor
                &&& forall|i: int| 0 <= i < k && keys[i] is Some ==> keys[i]->0 <= m
                &&& forall|i: int| 0 <= i < idx && keys[i] is Some ==> keys[i]->0 < m
            }
            &&& !(exists|i: int| 0 <= i < k && above(keys, floor, i)) ==> idx == 0 && m == floor
        }),
    decreases k,
{
    if k > 0 {
        lemma_scan_max(keys, floor, k - 1);
        let (m, idx) = scan_max(keys, floor, k - 1);
        if exists|i: int| 0 <= i < k && above(keys, floor, i) {
            if !(exists|i: int| 0 <= i < k - 1 && above(keys, floor, i)) {
                let w = choose|i: int| 0 <= i < k && above(keys, floor, i);
                assert(w == k - 1);
                assert forall|i: int| 0 <= i < k - 1 && keys[i] is Some implies keys[i]->0 <= floor by {
                    assert(!above(keys, floor, i));
                }
            }
        } else {
            assert forall|i: int| 0 <= i < k - 1 implies !above(keys, floor, i) by {
                assert(!(0 <= i < k && above(keys, floor, i)));
            }
            assert(!above(keys, floor, k - 1));
        }
    }
}

/// Law: the first-maximum scan picks the first position of the greatest key
/// above `floor`, and position 0 when no key stands above `floor`.
pub proof fn lemma_argmax_is_first_maximum(keys: Seq<Option<i64>>, floor: i64)
    ensures
        is_first_argmax(keys, floor, argmax_spec(keys, floor)),
{
    lemma_scan_max(keys, floor, keys.len() as int);
    let (m, idx) = scan_max(keys, floor, keys.len() as int);
    if exists|i: int| 0 <= i < keys.len() && above(keys, floor, i) {
        assert(keys[idx]->0 == m);
    }
}

/// The first position of the greatest key above `floor` among the `width`
/// keys from `start`, or 0 when none stands above `floor`: the choice of a
/// label from a row of scores, with `floor` the key of negative infinity.
pub fn row_argmax(keys: &[Option<i64>], start: usize, width: usize, floor: i64) -> (r: usize)
    requires
        start + width <= keys@.len(),
    ensures
        r == argmax_spec(keys@.subrange(start as int, start + width), floor),
        is_first_argmax(keys@.subrange(start as int, start + width), floor, r as int),
        width > 0 ==> r < width,
{
    let ghost row = keys@.subrange(start as int, start + width);
    let mut max_val: i64 = floor;
    let mut max_idx: usize = 0;
    let mut p: usize = 0;
    while p < width
        invariant
            p <= width,
            start + width <= keys@.len(),
            row == keys@.subrange(start as int, start + width),
            (max_val, max_idx as int) == scan_max(row, floor, p as int),
            max_idx == 0 || max_idx < p,
        decreases width - p,
    {
        let val = keys[start + p];
        assert(val == row[p as int]);
        if score_gt(val, Some(max_val)) {
            match val {
                Some(x) => {
                    max_val = x;
                },
                None => {},
            }
            max_idx = p;
        }
        p += 1;
    }
    proof {
        lemma_argmax_is_first_maximum(row, floor);
    }
    max_idx
}

} // verus!
