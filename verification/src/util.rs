//! Parity tests and the integer square root.

use vstd::prelude::*;

verus! {

/// `r` is the integer square root of `n`: the largest integer whose square
/// does not exceed `n`.
pub open spec fn is_sqrt_of(r: int, n: int) -> bool {
    0 <= r && r * r <= n && n < (r + 1) * (r + 1)
}

/// At most one integer is the square root of `n`.
pub proof fn lemma_sqrt_unique(a: int, b: int, n: int)
    requires
        is_sqrt_of(a, n),
        is_sqrt_of(b, n),
    ensures
        a == b,
{
    assert(a <= b) by (nonlinear_arith)
        requires
            0 <= a,
            0 <= b,
            a * a <= n,
            n < (b + 1) * (b + 1),
    ;
    assert(b <= a) by (nonlinear_arith)
        requires
            0 <= a,
            0 <= b,
            b * b <= n,
            n < (a + 1) * (a + 1),
    ;
}

/// A number whose square does not exceed `n` does not exceed the square root
/// of `n`.
pub proof fn lemma_sqrt_bounds_roots(d: int, r: int, n: int)
    requires
        is_sqrt_of(r, n),
        0 <= d,
    ensures
        d * d <= n <==> d <= r,
{
    if d <= r {
        assert(d * d <= r * r) by (nonlinear_arith)
            requires
                0 <= d <= r,
        ;
    } else {
        assert(d * d >= (r + 1) * (r + 1)) by (nonlinear_arith)
            requires
                0 <= r,
                r + 1 <= d,
        ;
    }
}

/// Whether `num` is a multiple of two.
pub fn is_even(num: u32) -> (r: bool)
    ensures
        r == (num % 2 == 0),
{
    assert(num & 1 == num % 2) by (bit_vector);
    (num & 1) == 0
}

/// Whether `num` is not a multiple of two.
pub fn is_odd(num: u32) -> (r: bool)
    ensures
        r == (num % 2 == 1),
{
    assert(num & 1 == num % 2) by (bit_vector);
    (num & 1) == 1
}

/// The integer square root of `num`, found by bisection of `[0, 65536)`.
pub fn sqrt(num: u32) -> (r: u32)
    ensures
        is_sqrt_of(r as int, num as int),
        r <= 65535,
{
    let mut low: u32 = 0;
    let mut high: u32 = 65536;
    assert(65536 * 65536 > num) by (nonlinear_arith)
        requires
            num <= 0xffff_ffff,
    ;
    while high - low > 1
        invariant
            low < high <= 65536,
            low * low <= num,
            num < high * high,
        decreases high - low,
    {
        let mid: u32 = low + (high - low) / 2;
        assert(mid * mid <= 65536 * 65536) by (nonlinear_arith)
            requires
                mid <= 65536,
        ;
        if mid as u64 * mid as u64 <= num as u64 {
            low = mid;
        } else {
            high = mid;
        }
    }
    low
}

} // verus!
