//! Candidate sets of one cell, held as a bitmask: bit `d` stands for digit `d`.
use vstd::prelude::*;

verus! {

/// Every digit 1 to 9.
pub const ALL_DIGITS: u16 = 0x3FE;

/// Whether digit `d` (1 to 9) is a candidate in mask `m`.
pub open spec fn cand(m: u16, d: int) -> bool {
    1 <= d <= 9 && m & (1u16 << (d as u16)) != 0u16
}

/// The number of candidates among the digits 1 to `k - 1`.
pub open spec fn count_below(m: u16, k: int) -> nat
    decreases k,
{
    if k <= 1 {
        0
    } else {
        count_below(m, k - 1) + if cand(m, k - 1) {
            1nat
        } else {
            0nat
        }
    }
}

/// The number of candidates of a mask.
pub open spec fn count(m: u16) -> nat {
    count_below(m, 10)
}

/// Every candidate of `a` is a candidate of `b`.
pub open spec fn subset(a: u16, b: u16) -> bool {
    forall|d: int| #[trigger] cand(a, d) ==> cand(b, d)
}

pub proof fn lemma_bit_clear(m: u16, d: u16, e: u16)
    requires
        d < 16,
        e < 16,
    ensures
        ((m & !(1u16 << d)) & (1u16 << e) != 0u16) == ((m & (1u16 << e) != 0u16) && d != e),
{
    assert(((m & !(1u16 << d)) & (1u16 << e) != 0u16) == ((m & (1u16 << e) != 0u16) && d != e))
        by (bit_vector)
        requires
            d < 16,
            e < 16,
    ;
}

pub proof fn lemma_bit_single(d: u16, e: u16)
    requires
        d < 16,
        e < 16,
    ensures
        ((1u16 << d) & (1u16 << e) != 0u16) == (d == e),
{
    assert(((1u16 << d) & (1u16 << e) != 0u16) == (d == e)) by (bit_vector)
        requires
            d < 16,
            e < 16,
    ;
}

pub proof fn lemma_bit_all(e: u16)
    requires
        e < 16,
    ensures
        (0x3FEu16 & (1u16 << e) != 0u16) == (1 <= e && e <= 9),
{
    assert((0x3FEu16 & (1u16 << e) != 0u16) == (1 <= e && e <= 9)) by (bit_vector)
        requires
            e < 16,
    ;
}

/// The mask with one digit removed.
pub proof fn lemma_has_remove(m: u16, d: u16)
    requires
        1 <= d <= 9,
    ensures
        forall|e: int| #[trigger] cand(m & !(1u16 << d), e) == (cand(m, e) && e != d),
{
    assert forall|e: int| #[trigger] cand(m & !(1u16 << d), e) == (cand(m, e) && e != d) by {
        if 1 <= e <= 9 {
            lemma_bit_clear(m, d, e as u16);
        }
    }
}

/// The mask of one digit.
pub proof fn lemma_has_single(d: u16)
    requires
        1 <= d <= 9,
    ensures
        forall|e: int| #[trigger] cand(1u16 << d, e) == (e == d),
{
    assert forall|e: int| #[trigger] cand(1u16 << d, e) == (e == d) by {
        if 1 <= e <= 9 {
            lemma_bit_single(d, e as u16);
        }
    }
}

/// The mask of all nine digits.
pub proof fn lemma_has_all()
    ensures
        forall|e: int| #[trigger] cand(ALL_DIGITS, e) == (1 <= e <= 9),
{
    assert forall|e: int| #[trigger] cand(ALL_DIGITS, e) == (1 <= e <= 9) by {
        if 1 <= e <= 9 {
            lemma_bit_all(e as u16);
        }
    }
}

/// No candidate below `k` exactly when the count below `k` is zero.
pub proof fn lemma_count_zero(m: u16, k: int)
    ensures
        (count_below(m, k) == 0) == (forall|d: int| 1 <= d < k ==> !#[trigger] cand(m, d)),
    decreases k,
{
    if k > 1 {
        lemma_count_zero(m, k - 1);
        if count_below(m, k) != 0 && !cand(m, k - 1) {
            let d = choose|d: int| 1 <= d < k - 1 && #[trigger] cand(m, d);
            assert(1 <= d < k && cand(m, d));
        }
    }
}

/// Two candidates below `k` make the count below `k` at least two.
pub proof fn lemma_count_two(m: u16, k: int, d: int, e: int)
    requires
        cand(m, d),
        cand(m, e),
        d < k,
        e < k,
        d != e,
    ensures
        count_below(m, k) >= 2,
    decreases k,
{
    if k - 1 != d && k - 1 != e {
        lemma_count_two(m, k - 1, d, e);
    } else {
        let other = if k - 1 == d { e } else { d };
        assert(other < k - 1 && cand(m, other));
        lemma_count_zero(m, k - 1);
    }
}

/// A mask with one candidate holds no other.
pub proof fn lemma_count_one(m: u16, d: int, e: int)
    requires
        count(m) == 1,
        cand(m, d),
        cand(m, e),
    ensures
        d == e,
{
    if d != e {
        lemma_count_two(m, 10, d, e);
    }
}

/// A nonempty mask has a candidate.
pub proof fn lemma_count_pos(m: u16, d: int)
    requires
        cand(m, d),
    ensures
        count(m) >= 1,
{
    lemma_count_zero(m, 10);
}

/// The mask of one digit has count one.
pub proof fn lemma_count_single(d: u16)
    requires
        1 <= d <= 9,
    ensures
        count(1u16 << d) == 1,
{
    let m = 1u16 << d;
    lemma_has_single(d);
    lemma_count_zero(m, d as int);
    lemma_count_tail(m, d as int + 1, 10);
}

/// No candidate in `[j, k)` keeps the count below `k` that below `j`.
pub proof fn lemma_count_tail(m: u16, j: int, k: int)
    requires
        1 <= j <= k,
        forall|d: int| j <= d < k ==> !#[trigger] cand(m, d),
    ensures
        count_below(m, k) == count_below(m, j),
    decreases k - j,
{
    if j < k {
        lemma_count_tail(m, j, k - 1);
    }
}

/// Whether digit `d` is a candidate of `m`.
pub fn has_digit(m: u16, d: u16) -> (r: bool)
    requires
        1 <= d <= 9,
    ensures
        r == cand(m, d as int),
{
    m & (1u16 << d) != 0u16
}

/// The number of candidates of `m`.
pub fn count_digits(m: u16) -> (r: u16)
    ensures
        r == count(m),
{
    let mut r: u16 = 0;
    let mut d: u16 = 1;
    while d <= 9
        invariant
            1 <= d <= 10,
            r == count_below(m, d as int),
            r < d,
        decreases 10 - d,
    {
        if has_digit(m, d) {
            r = r + 1;
        }
        d = d + 1;
    }
    r
}

/// The smallest candidate of a nonempty mask; the only one when the count is one.
pub fn first_digit(m: u16) -> (d: u16)
    requires
        count(m) >= 1,
    ensures
        1 <= d <= 9,
        cand(m, d as int),
        forall|e: int| 1 <= e < d ==> !#[trigger] cand(m, e),
{
    let mut d: u16 = 1;
    while d <= 9
        invariant
            1 <= d <= 10,
            forall|e: int| 1 <= e < d ==> !#[trigger] cand(m, e),
        decreases 10 - d,
    {
        if has_digit(m, d) {
            return d;
        }
        d = d + 1;
    }
    proof {
        lemma_count_zero(m, 10);
    }
    d
}

/// The mask `m` without digit `d`.
pub fn remove_digit(m: u16, d: u16) -> (r: u16)
    requires
        1 <= d <= 9,
    ensures
        forall|e: int| #[trigger] cand(r, e) == (cand(m, e) && e != d),
        cand(m, d as int) ==> count(r) + 1 == count(m),
{
    let r = m & !(1u16 << d);
    proof {
        lemma_has_remove(m, d);
        if cand(m, d as int) {
            lemma_count_remove(m, d as int, 10);
        }
    }
    r
}

pub proof fn lemma_count_remove(m: u16, d: int, k: int)
    requires
        1 <= d <= 9,
        cand(m, d),
        d < k,
        forall|e: int| #[trigger] cand(m & !(1u16 << (d as u16)), e) == (cand(m, e) && e != d),
    ensures
        count_below(m & !(1u16 << (d as u16)), k) + 1 == count_below(m, k),
    decreases k,
{
    let r = m & !(1u16 << (d as u16));
    if k - 1 == d {
        lemma_count_same(r, m, k - 1);
    } else {
        lemma_count_remove(m, d, k - 1);
    }
}

/// Masks with the same candidates below `k` have the same count there.
pub proof fn lemma_count_same(a: u16, b: u16, k: int)
    requires
        forall|e: int| e < k ==> #[trigger] cand(a, e) == cand(b, e),
    ensures
        count_below(a, k) == count_below(b, k),
    decreases k,
{
    if k > 1 {
        lemma_count_same(a, b, k - 1);
    }
}

} // verus!
