//! The primality test and the searches built on it.

use crate::entropy::{draw, draw_between, flip};
use crate::factor::{
    any_factor_in, divides, factor_list_in, factor_pred, factors_of, has_factor_in, is_factor,
    lemma_divides_multiple, lemma_divides_quotient, lemma_divides_trans, lemma_divisor_bound,
};
use crate::primality::{
    greatest_prime_to, is_prime_spec, least_prime_from, lemma_ceiling_is_last,
    lemma_ceiling_is_prime, lemma_even_is_not_prime, lemma_greatest_prime_to,
    lemma_least_prime_from, lemma_trial_division, lemma_two_and_three_are_prime,
    prime_pred, primes_between, survives_trial_division, MAX_PRIME,
};
use crate::ranges::{
    lemma_span_filter_empty, lemma_span_filter_holds, lemma_span_filter_last,
    lemma_span_filter_skip, lemma_span_filter_split, span, strictly_ascending,
};
use crate::util::{is_even, is_odd, is_sqrt_of, lemma_sqrt_bounds_roots, sqrt};
use vstd::arithmetic::div_mod::lemma_fundamental_div_mod;
use vstd::prelude::*;

verus! {

/// The home of the functions on primes; it holds no data.
pub struct PrimeNumber;

/// A number that none of the primes below 29 divides has no divisor from 2
/// to 28.
proof fn lemma_wheel_start(n: int)
    requires
        !divides(2, n),
        !divides(3, n),
        !divides(5, n),
        !divides(7, n),
        !divides(11, n),
        !divides(13, n),
        !divides(17, n),
        !divides(19, n),
        !divides(23, n),
    ensures
        forall|d: int| 2 <= d < 29 ==> !#[trigger] divides(d, n),
{
    assert forall|d: int| 2 <= d < 29 implies !#[trigger] divides(d, n) by {
        if divides(d, n) {
            if d % 2 == 0 {
                lemma_divides_trans(2, d, n);
            } else if d % 3 == 0 {
                lemma_divides_trans(3, d, n);
            } else if d % 5 == 0 {
                lemma_divides_trans(5, d, n);
            }
        }
    }
}

/// One turn of the wheel: past the multiples of two and three, only `i` and
/// `i + 2` of the six numbers from `i` can divide `n`.
proof fn lemma_wheel_turn(n: int, i: int)
    requires
        5 <= i,
        i % 6 == 5,
        !divides(2, n),
        !divides(3, n),
        !divides(i, n),
        !divides(i + 2, n),
        forall|d: int| 2 <= d < i ==> !#[trigger] divides(d, n),
    ensures
        forall|d: int| 2 <= d < i + 6 ==> !#[trigger] divides(d, n),
{
    assert forall|d: int| 2 <= d < i + 6 implies !#[trigger] divides(d, n) by {
        if i <= d && divides(d, n) {
            if d == i + 1 || d == i + 3 || d == i + 5 {
                assert(d % 2 == 0);
                lemma_divides_trans(2, d, n);
            } else if d == i + 4 {
                assert(d % 3 == 0);
                lemma_divides_trans(3, d, n);
            }
        }
    }
}

/// The prime closest to `n` in one direction. Downwards it is the greatest
/// prime that does not exceed `n`. Upwards it is the least prime that is not
/// below `n`, except that the search from zero or one starts at one and tries
/// odd numbers only, so that it ends at three.
pub open spec fn closest_prime_spec(n: int, asc: bool) -> Option<u32> {
    if !asc {
        greatest_prime_to(n)
    } else if n <= 1 {
        Some(3u32)
    } else {
        least_prime_from(n)
    }
}

/// The prime at index `n`, counted from zero, of the ascending list of all
/// primes that 32 bits can hold; nothing where the list is too short.
pub open spec fn nth_spec(n: int) -> Option<u32> {
    let all = primes_between(0, u32::MAX as int);
    if 0 <= n < all.len() {
        Some(all[n])
    } else {
        None
    }
}

/// The test "is a prime that divides `n`" on 32-bit values.
pub open spec fn prime_factor_pred(n: int) -> spec_fn(u32) -> bool {
    |p: u32| is_prime_spec(p as int) && divides(p as int, n)
}

/// The prime divisors of `n` in ascending order; none for zero and one.
pub open spec fn prime_factors_of(n: int) -> Seq<u32> {
    span(2, n).filter(prime_factor_pred(n))
}

/// Some candidate in `divisors` is prime and divides `n`.
pub open spec fn has_prime_factor_in(n: int, divisors: Seq<u32>) -> bool {
    exists|i: int|
        0 <= i < divisors.len() && is_prime_spec(#[trigger] divisors[i] as int) && divides(
            divisors[i] as int,
            n,
        )
}

/// `p` is prime and not below `n`, and no prime lies between `n` and `p`.
pub open spec fn is_next_prime(n: int, p: int) -> bool {
    n <= p && is_prime_spec(p) && forall|q: int| n <= q < p ==> !is_prime_spec(q)
}

/// `p` is prime and not above `n`, and no prime lies between `p` and `n`.
pub open spec fn is_previous_prime(n: int, p: int) -> bool {
    p <= n && is_prime_spec(p) && forall|q: int| p < q <= n ==> !is_prime_spec(q)
}

/// The prime that the sampler makes of an unconstrained draw and a coin: the
/// closest prime upwards for a draw below 100, the ceiling for a draw at or
/// above it, and otherwise the closest prime in the direction of the coin.
pub open spec fn from_draw_spec(draw: u32, asc: bool) -> Option<u32> {
    if draw <= 99 {
        closest_prime_spec(draw as int, true)
    } else if draw >= MAX_PRIME {
        Some(MAX_PRIME)
    } else {
        closest_prime_spec(draw as int, asc)
    }
}

/// The closest prime upwards from just above `draw`, if it does not exceed
/// `end`. Nothing lies above the largest 32-bit value.
pub open spec fn repair_above(end: u32, draw: u32) -> Option<u32> {
    if draw == u32::MAX {
        None
    } else {
        match closest_prime_spec(draw + 1, true) {
            Some(p) if p <= end => Some(p),
            _ => None,
        }
    }
}

/// The closest prime downwards from just below `draw`, if it is not below
/// `begin`. Nothing lies below zero.
pub open spec fn repair_below(begin: u32, draw: u32) -> Option<u32> {
    if draw == 0 {
        None
    } else {
        match closest_prime_spec(draw - 1, false) {
            Some(p) if p >= begin => Some(p),
            _ => None,
        }
    }
}

/// The prime that the sampler makes of a draw for the range from `begin` to
/// `end`: the draw itself if it is prime, else its repair upwards, else its
/// repair downwards, else nothing.
pub open spec fn from_draw_in_spec(begin: u32, end: u32, draw: u32) -> Option<u32> {
    if is_prime_spec(draw as int) {
        Some(draw)
    } else if repair_above(end, draw) is Some {
        repair_above(end, draw)
    } else {
        repair_below(begin, draw)
    }
}

/// The closest prime is prime. Downwards it is the greatest prime up to `n`,
/// and there is one from two on. Upwards from two on it is the least prime
/// from `n`, and there is one up to the ceiling.
pub proof fn lemma_closest_prime_spec(n: u32, asc: bool)
    ensures
        closest_prime_spec(n as int, asc) matches Some(p) ==> is_prime_spec(p as int),
        asc ==> (closest_prime_spec(n as int, asc) is Some <==> n <= MAX_PRIME),
        asc && n >= 2 ==> (closest_prime_spec(n as int, asc) matches Some(p) ==> is_next_prime(
            n as int,
            p as int,
        )),
        !asc ==> (closest_prime_spec(n as int, asc) is Some <==> n >= 2),
        !asc ==> (closest_prime_spec(n as int, asc) matches Some(p) ==> is_previous_prime(
            n as int,
            p as int,
        )),
{
    lemma_least_prime_from(n as int);
    lemma_greatest_prime_to(n as int);
    lemma_two_and_three_are_prime();
}

/// The prime at index `n` has exactly `n` primes below it.
pub proof fn lemma_nth_spec(n: int)
    ensures
        nth_spec(n) matches Some(p) ==> is_prime_spec(p as int) && primes_between(0, p - 1).len()
            == n,
{
    if nth_spec(n) is Some {
        let p = nth_spec(n).unwrap();
        let all = primes_between(0, u32::MAX as int);
        let below = primes_between(0, p - 1);
        let rest = primes_between(p as int, u32::MAX as int);
        lemma_span_filter_holds(0, u32::MAX as int, prime_pred());
        lemma_span_filter_holds(0, p - 1, prime_pred());
        lemma_span_filter_holds(p as int, u32::MAX as int, prime_pred());
        lemma_span_filter_split(0, p - 1, u32::MAX as int, prime_pred());
        assert(all.contains(all[n]));
        if n < below.len() {
            assert(below.contains(below[n]));
        } else if n > below.len() {
            assert(rest.contains(rest[0]));
            assert(all[below.len() as int] == rest[0]);
        }
    }
}

/// A prime with exactly `n` primes below it is the prime at index `n`.
pub proof fn lemma_nth_spec_finds(n: int, p: u32)
    requires
        is_prime_spec(p as int),
        primes_between(0, p - 1).len() == n,
    ensures
        nth_spec(n) == Some(p),
{
    let all = primes_between(0, u32::MAX as int);
    let below = primes_between(0, p - 1);
    let rest = primes_between(p as int, u32::MAX as int);
    lemma_span_filter_holds(p as int, u32::MAX as int, prime_pred());
    lemma_span_filter_split(0, p - 1, u32::MAX as int, prime_pred());
    assert(rest.contains(p));
    let i = choose|i: int| 0 <= i < rest.len() && rest[i] == p;
    if i > 0 {
        assert(rest.contains(rest[0]));
    }
    assert(all[n] == rest[0]);
}

/// What the sampler makes of an unconstrained draw is a prime: it never
/// comes back with nothing.
pub proof fn lemma_from_draw_spec(draw: u32, asc: bool)
    ensures
        from_draw_spec(draw, asc) matches Some(p) && is_prime_spec(p as int),
{
    lemma_ceiling_is_prime();
    lemma_closest_prime_spec(draw, true);
    lemma_closest_prime_spec(draw, false);
}

/// What the sampler makes of a draw is prime, and lies in the range if the
/// draw does.
pub proof fn lemma_from_draw_in_spec(begin: u32, end: u32, draw: u32)
    ensures
        from_draw_in_spec(begin, end, draw) matches Some(p) ==> is_prime_spec(p as int),
        begin <= draw <= end ==> (from_draw_in_spec(begin, end, draw) matches Some(p) ==> begin
            <= p <= end),
{
    if draw < u32::MAX {
        lemma_closest_prime_spec((draw + 1) as u32, true);
    }
    if draw > 0 {
        lemma_closest_prime_spec((draw - 1) as u32, false);
    }
}

/// Only two and the odd numbers can be prime, so the primes up to `h` are
/// at most half as many as the numbers up to `h`.
pub proof fn lemma_prime_count(h: int)
    requires
        2 <= h <= u32::MAX,
    ensures
        primes_between(0, h).len() <= (h + 1) / 2,
    decreases h,
{
    lemma_span_filter_last(0, h, prime_pred());
    if h == 2 {
        lemma_span_filter_empty(0, -1, prime_pred());
        lemma_span_filter_last(0, 0, prime_pred());
        lemma_span_filter_last(0, 1, prime_pred());
    } else {
        lemma_prime_count(h - 1);
        if h % 2 == 0 {
            lemma_even_is_not_prime(h);
        }
    }
}

/// No index from 2^31 on has a prime.
pub proof fn lemma_nth_spec_ends(n: int)
    requires
        n >= 0x8000_0000,
    ensures
        nth_spec(n) is None,
{
    lemma_prime_count(u32::MAX as int);
}

/// Up to any bound, the primes among the divisors of `n` are the prime
/// divisors of `n`.
proof fn lemma_prime_factors_up_to(n: int, hi: int)
    requires
        hi <= u32::MAX,
    ensures
        span(1, hi).filter(factor_pred(n)).filter(prime_pred()) == span(2, hi).filter(
            prime_factor_pred(n),
        ),
    decreases hi,
{
    if hi < 1 {
        lemma_span_filter_empty(1, hi, factor_pred(n));
        lemma_span_filter_empty(2, hi, prime_factor_pred(n));
        reveal(Seq::filter);
        assert(Seq::<u32>::empty().filter(prime_pred()) =~= Seq::<u32>::empty());
    } else {
        lemma_prime_factors_up_to(n, hi - 1);
        lemma_span_filter_last(1, hi, factor_pred(n));
        span(1, hi - 1).filter(factor_pred(n)).lemma_filter_push(hi as u32, prime_pred());
        if hi == 1 {
            lemma_span_filter_empty(2, 0, prime_factor_pred(n));
            lemma_span_filter_empty(2, 1, prime_factor_pred(n));
        } else {
            lemma_span_filter_last(2, hi, prime_factor_pred(n));
        }
    }
}

/// The prime divisors of `n` are the primes among its divisors: what
/// `PrimeNumber::prime_factor_list` returns is what
/// `PrimeNumber::prime_list_in` keeps of `factor_list`.
pub proof fn lemma_prime_factors_of(n: u32)
    ensures
        prime_factors_of(n as int) == factors_of(n as int).filter(prime_pred()),
{
    lemma_prime_factors_up_to(n as int, n as int);
}

/// A prime that divides a positive `n` lies between two and `n`.
proof fn lemma_prime_factor_bounds(n: int, p: u32)
    requires
        1 <= n,
        prime_factor_pred(n)(p),
    ensures
        2 <= p <= n,
{
    lemma_divisor_bound(p as int, n);
}

/// The quotient of `n` by `d`, rounded down, times `d` is the greatest
/// multiple of `d` up to `n`.
proof fn lemma_quotient_bounds(n: int, d: int)
    requires
        0 <= n,
        1 <= d,
    ensures
        (n / d) * d <= n < (n / d + 1) * d,
        0 <= n / d <= n,
{
    lemma_fundamental_div_mod(n, d);
    let q = n / d;
    let r = n % d;
    assert(q * d <= n < (q + 1) * d && 0 <= q <= n) by (nonlinear_arith)
        requires
            n == d * q + r,
            0 <= r < d,
            0 <= n,
            1 <= d,
    ;
}

/// A divisor `x` of `n` that lies above every number whose product with
/// `d + 1` stays within `n`, and whose own product with `d` stays within
/// `n`, is `n / d` exactly.
proof fn lemma_cofactor(n: int, d: int, covered: int, x: int)
    requires
        1 <= d,
        0 <= covered < x,
        n < (covered + 1) * (d + 1),
        x * d <= n,
        divides(x, n),
    ensures
        n == x * d,
{
    lemma_divides_quotient(x, n);
    let e = n / x;
    assert(e == d) by (nonlinear_arith)
        requires
            n == x * e,
            1 <= d,
            0 <= covered < x,
            n < (covered + 1) * (d + 1),
            x * d <= n,
    ;
}

impl PrimeNumber {
    /// Whether `num` is prime, by trial division: first by the primes below
    /// 29, then by the numbers `29 + 6k` and `31 + 6k` up to the square root.
    pub fn is_prime(num: u32) -> (r: bool)
        ensures
            r == is_prime_spec(num as int),
            r == survives_trial_division(num as int),
    {
        let ghost n = num as int;
        proof {
            lemma_trial_division(n);
        }
        match num {
            0 | 1 => {
                return false;
            },
            2 | 3 | 5 | 7 | 11 | 13 | 17 | 19 | 23 => {
                assert forall|d: int| 2 <= d && d * d <= n implies !#[trigger] divides(d, n) by {
                    assert(d <= 4) by (nonlinear_arith)
                        requires
                            2 <= d,
                            d * d <= 23,
                    ;
                    if d == 2 {
                        assert(4 <= n && n % 2 != 0);
                    } else if d == 3 {
                        assert(9 <= n && n % 3 != 0);
                    } else {
                        assert(16 <= n && n % 4 != 0);
                    }
                }
                return true;
            },
            _ => {},
        }
        if is_factor(num, 2) || is_factor(num, 3) || is_factor(num, 5) || is_factor(num, 7)
            || is_factor(num, 11) || is_factor(num, 13) || is_factor(num, 17) || is_factor(
            num,
            19,
        ) || is_factor(num, 23) {
            proof {
                let p = if divides(2, n) {
                    2int
                } else if divides(3, n) {
                    3
                } else if divides(5, n) {
                    5
                } else if divides(7, n) {
                    7
                } else if divides(11, n) {
                    11
                } else if divides(13, n) {
                    13
                } else if divides(17, n) {
                    17
                } else if divides(19, n) {
                    19
                } else {
                    23
                };
                lemma_divisor_bound(p, n);
                assert(divides(p, n) && 2 <= p < n);
            }
            return false;
        }
        let root = sqrt(num);
        let mut i: u32 = 29;
        proof {
            lemma_wheel_start(n);
        }
        while i <= root
            invariant
                n == num,
                29 <= i <= 65541,
                root <= 65535,
                is_sqrt_of(root as int, n),
                i % 6 == 5,
                !divides(2, n),
                !divides(3, n),
                forall|d: int| 2 <= d < i ==> !#[trigger] divides(d, n),
            decreases 65541 - i,
        {
            if is_factor(num, i) || is_factor(num, i + 2) {
                proof {
                    lemma_trial_division(n);
                    lemma_sqrt_bounds_roots(i as int, root as int, n);
                    assert(i + 2 < i * i) by (nonlinear_arith)
                        requires
                            29 <= i,
                    ;
                    assert(divides(i as int, n) || divides(i + 2, n));
                }
                return false;
            }
            proof {
                lemma_wheel_turn(n, i as int);
            }
            i += 6;
        }
        proof {
            assert forall|d: int| 2 <= d && d * d <= n implies !#[trigger] divides(d, n) by {
                lemma_sqrt_bounds_roots(d, root as int, n);
            }
        }
        true
    }

    /// `num` itself if it is prime, and nothing otherwise.
    pub fn prime(num: u32) -> (r: Option<u32>)
        ensures
            r == if is_prime_spec(num as int) {
                Some(num)
            } else {
                None
            },
    {
        if Self::is_prime(num) {
            Some(num)
        } else {
            None
        }
    }

    /// The primes among `list`, in the order given.
    pub fn prime_list_in(list: &[u32]) -> (r: Vec<u32>)
        ensures
            r@ == list@.filter(prime_pred()),
            forall|i: int| 0 <= i < r@.len() ==> is_prime_spec(#[trigger] r@[i] as int),
    {
        let mut out: Vec<u32> = Vec::new();
        let mut i: usize = 0;
        proof {
            reveal(Seq::filter);
            assert(list@.take(0).filter(prime_pred()) =~= Seq::empty());
        }
        while i < list.len()
            invariant
                i <= list.len(),
                out@ == list@.take(i as int).filter(prime_pred()),
            decreases list.len() - i,
        {
            let n: u32 = list[i];
            proof {
                assert(list@.take(i + 1) =~= list@.take(i as int).push(n));
                list@.take(i as int).lemma_filter_push(n, prime_pred());
            }
            if Self::is_prime(n) {
                out.push(n);
            }
            i += 1;
        }
        proof {
            assert(list@.take(i as int) =~= list@);
            assert forall|k: int| 0 <= k < out@.len() implies is_prime_spec(
                #[trigger] out@[k] as int,
            ) by {
                list@.lemma_filter_pred(prime_pred(), k);
            }
        }
        out
    }

    /// Whether any prime among `divisors` divides `num`. Zero and one have
    /// no prime factor.
    pub fn any_prime_factor_in(num: u32, divisors: &[u32]) -> (r: bool)
        ensures
            r == (num >= 2 && has_prime_factor_in(num as int, divisors@)),
    {
        if num <= 1 {
            return false;
        }
        let primes = Self::prime_list_in(divisors);
        let found = any_factor_in(num, primes.as_slice());
        proof {
            let n = num as int;
            if has_factor_in(n, primes@) {
                let k = choose|k: int| 0 <= k < primes@.len() && divides(#[trigger] primes@[k] as int, n);
                divisors@.lemma_filter_pred(prime_pred(), k);
                assert(primes@.contains(primes@[k]));
                divisors@.lemma_filter_contains_rev(prime_pred(), primes@[k]);
                let i = choose|i: int| 0 <= i < divisors@.len() && divisors@[i] == primes@[k];
                assert(is_prime_spec(divisors@[i] as int) && divides(divisors@[i] as int, n));
            }
            if has_prime_factor_in(n, divisors@) {
                let i = choose|i: int|
                    0 <= i < divisors@.len() && is_prime_spec(#[trigger] divisors@[i] as int)
                        && divides(divisors@[i] as int, n);
                assert(prime_pred()(divisors@[i]));
                divisors@.lemma_filter_contains(prime_pred(), i);
                let k = choose|k: int| 0 <= k < primes@.len() && primes@[k] == divisors@[i];
                assert(divides(primes@[k] as int, n));
            }
        }
        found
    }

    /// The primes among `divisors` that divide `num`, in the order given.
    /// Zero and one have no prime factor.
    pub fn prime_factor_list_in(num: u32, divisors: &[u32]) -> (r: Vec<u32>)
        ensures
            r@ == if num <= 1 {
                Seq::empty()
            } else {
                divisors@.filter(prime_pred()).filter(factor_pred(num as int))
            },
            forall|i: int| 0 <= i < r@.len() ==> is_prime_spec(#[trigger] r@[i] as int),
    {
        if num <= 1 {
            return Vec::new();
        }
        let primes = Self::prime_list_in(divisors);
        let out = factor_list_in(num, primes.as_slice());
        proof {
            assert forall|k: int| 0 <= k < out@.len() implies is_prime_spec(
                #[trigger] out@[k] as int,
            ) by {
                assert(out@.contains(out@[k]));
                primes@.lemma_filter_contains_rev(factor_pred(num as int), out@[k]);
                let i = choose|i: int| 0 <= i < primes@.len() && primes@[i] == out@[k];
                assert(is_prime_spec(primes@[i] as int));
            }
        }
        out
    }

    /// Appends `num` to `list` if it is prime. Even numbers other than two
    /// are passed over without a test.
    fn push_if_prime(list: &mut Vec<u32>, num: u32)
        ensures
            final(list)@ == if is_prime_spec(num as int) {
                old(list)@.push(num)
            } else {
                old(list)@
            },
    {
        if num == 2 || is_odd(num) {
            if Self::is_prime(num) {
                list.push(num);
            }
        } else {
            proof {
                lemma_even_is_not_prime(num as int);
            }
        }
    }

    /// The primes from `begin` to `end`, both included, in ascending order.
    /// A range whose bounds are the wrong way round holds nothing.
    pub fn range_list(begin: u32, end: u32) -> (r: Vec<u32>)
        ensures
            r@ == primes_between(begin as int, end as int),
            begin > end ==> r@ == Seq::<u32>::empty(),
            begin == end ==> r@ == if is_prime_spec(begin as int) {
                seq![begin]
            } else {
                Seq::<u32>::empty()
            },
            strictly_ascending(r@),
            forall|p: u32| #[trigger] r@.contains(p) <==> begin <= p <= end && is_prime_spec(p as int),
    {
        let mut out: Vec<u32> = Vec::new();
        proof {
            lemma_span_filter_holds(begin as int, end as int, prime_pred());
            lemma_span_filter_empty(begin as int, begin - 1, prime_pred());
            if begin <= end {
                lemma_span_filter_last(begin as int, begin as int, prime_pred());
                assert(Seq::<u32>::empty().push(begin) =~= seq![begin]);
            } else {
                lemma_span_filter_empty(begin as int, end as int, prime_pred());
            }
        }
        if begin > end {
            return out;
        }
        let mut i: u32 = begin;
        while i < end
            invariant
                begin <= i <= end,
                out@ == primes_between(begin as int, i - 1),
            decreases end - i,
        {
            proof {
                lemma_span_filter_last(begin as int, i as int, prime_pred());
            }
            Self::push_if_prime(&mut out, i);
            i += 1;
        }
        proof {
            lemma_span_filter_last(begin as int, end as int, prime_pred());
        }
        Self::push_if_prime(&mut out, end);
        out
    }

    /// The prime at index `n` of the ascending list of all primes, counted
    /// from zero: the search goes through the odd numbers and counts the
    /// primes it meets, until it has met `n + 1` of them or has passed the
    /// ceiling. An index from 2^31 on is answered at once, since fewer
    /// primes than that fit into 32 bits.
    pub fn nth(n: u32) -> (r: Option<u32>)
        ensures
            r == nth_spec(n as int),
            r matches Some(p) ==> is_prime_spec(p as int) && primes_between(0, p - 1).len() == n,
            n >= 0x8000_0000 ==> r is None,
    {
        if n >= 0x8000_0000 {
            proof {
                lemma_nth_spec_ends(n as int);
            }
            return None;
        }
        let ghost all = primes_between(0, u32::MAX as int);
        proof {
            lemma_two_and_three_are_prime();
            lemma_span_filter_empty(0, -1, prime_pred());
            lemma_span_filter_last(0, 0, prime_pred());
            lemma_span_filter_last(0, 1, prime_pred());
            lemma_span_filter_last(0, 2, prime_pred());
            lemma_span_filter_split(0, 2, u32::MAX as int, prime_pred());
        }
        if n == 0 {
            return Some(2);
        }
        let mut found: u32 = 1;
        let mut candidate: u32 = 3;
        loop
            invariant
                1 <= n < 0x8000_0000,
                3 <= candidate <= MAX_PRIME,
                candidate % 2 == 1,
                found <= n,
                found == primes_between(0, candidate - 1).len(),
                all == primes_between(0, u32::MAX as int),
            decreases MAX_PRIME - candidate,
        {
            proof {
                lemma_span_filter_last(0, candidate as int, prime_pred());
            }
            if Self::is_prime(candidate) {
                if found == n {
                    proof {
                        lemma_span_filter_split(0, candidate as int, u32::MAX as int, prime_pred());
                    }
                    return Some(candidate);
                }
                found += 1;
            }
            if candidate == MAX_PRIME {
                proof {
                    assert forall|x: int| MAX_PRIME < x <= u32::MAX implies !#[trigger] prime_pred()(
                        x as u32,
                    ) by {
                        lemma_ceiling_is_last(x);
                    }
                    lemma_span_filter_skip(0, MAX_PRIME as int, u32::MAX as int, prime_pred());
                }
                return None;
            }
            proof {
                lemma_even_is_not_prime(candidate + 1);
                lemma_span_filter_last(0, candidate + 1, prime_pred());
            }
            candidate += 2;
        }
    }

    /// The primes that divide `num`, in ascending order; none for zero and
    /// one. The primes up to the square root are tried one after the other.
    /// A prime divisor above the square root is the quotient of `num` by a
    /// divisor below it, so the divisors up to the square root are gone
    /// through from the largest down, and each quotient that is prime is
    /// listed.
    pub fn prime_factor_list(num: u32) -> (r: Vec<u32>)
        ensures
            r@ == prime_factors_of(num as int),
            strictly_ascending(r@),
            num <= 1 ==> r@.len() == 0,
            num >= 1 ==> forall|p: u32| #[trigger]
                r@.contains(p) <==> is_prime_spec(p as int) && divides(p as int, num as int),
    {
        let ghost n = num as int;
        let ghost pred = prime_factor_pred(n);
        let mut list: Vec<u32> = Vec::new();
        proof {
            lemma_span_filter_holds(2, n, pred);
            assert forall|p: u32| num >= 1 implies (#[trigger] prime_factors_of(n).contains(p)
                <==> is_prime_spec(p as int) && divides(p as int, n)) by {
                if pred(p) {
                    lemma_prime_factor_bounds(n, p);
                }
            }
        }
        if num <= 1 {
            proof {
                lemma_span_filter_empty(2, n, pred);
            }
            return list;
        }
        let root = sqrt(num);
        assert(root >= 1) by (nonlinear_arith)
            requires
                num >= 2,
                num < (root + 1) * (root + 1),
        ;
        assert(root <= num) by (nonlinear_arith)
            requires
                root * root <= num,
                0 <= root,
        ;
        let mut prime: u32 = 2;
        proof {
            lemma_two_and_three_are_prime();
            lemma_span_filter_empty(2, 1, pred);
        }
        loop
            invariant_except_break
                list@ == span(2, prime - 1).filter(pred),
            invariant
                n == num,
                pred == prime_factor_pred(n),
                1 <= root <= 65535,
                2 <= prime <= MAX_PRIME,
                is_prime_spec(prime as int),
                forall|q: int| root < q < prime ==> !is_prime_spec(q),
            ensures
                list@ == span(2, root as int).filter(pred),
            decreases MAX_PRIME - prime,
        {
            if prime > root {
                proof {
                    assert forall|x: int| root < x <= prime - 1 implies !#[trigger] pred(
                        x as u32,
                    ) by {}
                    lemma_span_filter_skip(2, root as int, prime - 1, pred);
                }
                break;
            }
            proof {
                lemma_span_filter_last(2, prime as int, pred);
            }
            if is_factor(num, prime) {
                list.push(prime);
            }
            match Self::closest_prime(prime + 1, true) {
                Some(p) => {
                    proof {
                        assert forall|x: int| prime < x <= p - 1 implies !#[trigger] pred(
                            x as u32,
                        ) by {}
                        lemma_span_filter_skip(2, prime as int, p - 1, pred);
                        if p > MAX_PRIME {
                            lemma_ceiling_is_last(p as int);
                        }
                    }
                    prime = p;
                },
                None => {
                    break;
                },
            }
        }
        let ghost small = list@;
        let mut d: u32 = root;
        let mut covered: u32 = root;
        while d >= 1
            invariant
                n == num,
                pred == prime_factor_pred(n),
                small == span(2, root as int).filter(pred),
                d <= root <= covered <= num,
                covered * d <= n,
                n < (covered + 1) * (d + 1),
                list@ == small + span(root + 1, covered as int).filter(pred),
            decreases d,
        {
            let q: u32 = num / d;
            proof {
                lemma_quotient_bounds(n, d as int);
                assert(covered <= q && q * (d - 1) <= n) by (nonlinear_arith)
                    requires
                        q * d <= n,
                        n < (q + 1) * d,
                        covered * d <= n,
                        1 <= d,
                        0 <= q,
                        0 <= covered,
                ;
                if q > covered {
                    assert forall|x: int| covered < x <= q && divides(x, n) implies x == q && n % (
                    d as int) == 0 by {
                        assert(x * d <= n) by (nonlinear_arith)
                            requires
                                x <= q,
                                q * d <= n,
                                1 <= d,
                        ;
                        lemma_cofactor(n, d as int, covered as int, x);
                        assert(x == q) by (nonlinear_arith)
                            requires
                                n == x * d,
                                q * d <= n,
                                x <= q,
                                1 <= d,
                        ;
                        lemma_divides_multiple(d as int, x);
                    }
                    assert forall|x: int| covered < x <= q - 1 implies !#[trigger] pred(
                        x as u32,
                    ) by {}
                    lemma_span_filter_skip(root + 1, covered as int, q - 1, pred);
                    lemma_span_filter_last(root + 1, q as int, pred);
                    if num % d == 0 {
                        lemma_fundamental_div_mod(n, d as int);
                        assert(n == d * q);
                        lemma_divides_multiple(q as int, d as int);
                    }
                    let kept = span(root + 1, covered as int).filter(pred);
                    assert((small + kept).push(q) =~= small + kept.push(q));
                }
            }
            if q > covered && num % d == 0 && Self::is_prime(q) {
                list.push(q);
            }
            covered = q;
            d -= 1;
        }
        proof {
            assert(covered == num) by (nonlinear_arith)
                requires
                    d == 0,
                    covered <= num,
                    num < (covered + 1) * (d + 1),
            ;
            lemma_span_filter_split(2, root as int, n, pred);
        }
        list
    }

    /// The prime closest to `num`, searching upwards if `asc` and downwards
    /// otherwise. Two, three and the ceiling are returned as they are. Zero
    /// and one count as one, and an even number gives way to its odd
    /// neighbour in the direction of the search; from there the odd numbers
    /// are tried in turn, upwards as far as the ceiling and downwards as far
    /// as three.
    #[verifier::loop_isolation(false)]
    pub fn closest_prime(num: u32, asc: bool) -> (r: Option<u32>)
        ensures
            r == closest_prime_spec(num as int, asc),
            r matches Some(p) ==> is_prime_spec(p as int),
            num == 2 || num == 3 || num == MAX_PRIME ==> r == Some(num),
            asc ==> (r is Some <==> num <= MAX_PRIME),
            asc && num >= 2 ==> (r matches Some(p) ==> is_next_prime(num as int, p as int)),
            asc && r is None ==> forall|q: int| num <= q <= u32::MAX ==> !is_prime_spec(q),
            !asc ==> (r is Some <==> num >= 2),
            !asc ==> (r matches Some(p) ==> is_previous_prime(num as int, p as int)),
            !asc && r is None ==> forall|q: int| q <= num ==> !is_prime_spec(q),
    {
        proof {
            lemma_least_prime_from(num as int);
            lemma_greatest_prime_to(num as int);
            lemma_two_and_three_are_prime();
            lemma_ceiling_is_prime();
        }
        if num == 2 || num == 3 || num == MAX_PRIME {
            return Some(num);
        }
        let start: u32 = if num <= 1 {
            1
        } else if is_even(num) {
            proof {
                lemma_even_is_not_prime(num as int);
            }
            if asc {
                num + 1
            } else {
                num - 1
            }
        } else {
            num
        };
        if asc {
            if start > MAX_PRIME {
                proof {
                    assert forall|q: int| num <= q <= u32::MAX implies !is_prime_spec(q) by {
                        if q > MAX_PRIME {
                            lemma_ceiling_is_last(q);
                        }
                    }
                }
                return None;
            }
            let mut candidate: u32 = start;
            loop
                invariant
                    start <= candidate <= MAX_PRIME,
                    candidate % 2 == 1,
                    num <= 1 ==> candidate <= 3,
                    num >= 2 ==> forall|q: int| start <= q < candidate ==> !is_prime_spec(q),
                decreases MAX_PRIME - candidate,
            {
                if Self::is_prime(candidate) {
                    return Some(candidate);
                }
                proof {
                    if num >= 2 {
                        lemma_even_is_not_prime(candidate + 1);
                    }
                }
                candidate += 2;
            }
        } else {
            let mut candidate: u32 = start;
            while candidate >= 3
                invariant
                    candidate <= start,
                    candidate % 2 == 1,
                    start >= 3 ==> candidate >= 3,
                    forall|q: int| candidate < q <= start ==> !is_prime_spec(q),
                decreases candidate,
            {
                if Self::is_prime(candidate) {
                    return Some(candidate);
                }
                proof {
                    lemma_even_is_not_prime(candidate - 1);
                }
                candidate -= 2;
            }
            None
        }
    }

    /// The prime that an unconstrained `draw` and a coin stand for. A draw
    /// below 100 is resolved upwards whatever the coin says, a draw at or
    /// above the ceiling gives the ceiling, and any other draw is resolved
    /// upwards if `asc` and downwards otherwise.
    pub fn from_draw(draw: u32, asc: bool) -> (r: Option<u32>)
        ensures
            r == from_draw_spec(draw, asc),
            r matches Some(p) && is_prime_spec(p as int),
    {
        proof {
            lemma_ceiling_is_prime();
        }
        if draw <= 99 {
            Self::closest_prime(draw, true)
        } else if draw >= MAX_PRIME {
            Some(MAX_PRIME)
        } else {
            Self::closest_prime(draw, asc)
        }
    }

    /// A random prime: a 32-bit draw, and a coin where the draw leaves the
    /// direction open, resolved by `from_draw`.
    pub fn random() -> (r: Option<u32>)
        ensures
            exists|d: u32, asc: bool| r == #[trigger] from_draw_spec(d, asc),
            r matches Some(p) && is_prime_spec(p as int),
    {
        let d: u32 = draw();
        let asc = if 99 < d && d < MAX_PRIME {
            flip()
        } else {
            true
        };
        Self::from_draw(d, asc)
    }

    /// The prime that a `draw` stands for in the range from `begin` to `end`:
    /// the draw itself if it is prime; else the closest prime upwards from
    /// `draw + 1`, if that does not exceed `end`; else the closest prime
    /// downwards from `draw - 1`, if that is not below `begin`; else
    /// nothing. No second draw is made.
    pub fn from_draw_in(begin: u32, end: u32, draw: u32) -> (r: Option<u32>)
        ensures
            r == from_draw_in_spec(begin, end, draw),
            r matches Some(p) ==> is_prime_spec(p as int),
            begin <= draw <= end ==> (r matches Some(p) ==> begin <= p <= end),
    {
        if Self::is_prime(draw) {
            return Some(draw);
        }
        if draw < u32::MAX {
            match Self::closest_prime(draw + 1, true) {
                Some(p) => {
                    if p <= end {
                        return Some(p);
                    }
                },
                None => {},
            }
        }
        if draw > 0 {
            match Self::closest_prime(draw - 1, false) {
                Some(p) => {
                    if p >= begin {
                        return Some(p);
                    }
                },
                None => {},
            }
        }
        None
    }

    /// A random prime from `begin` to `end`, both included. Nothing comes
    /// back where the bounds are the wrong way round. Where they are equal,
    /// the answer is that number if it is prime. Otherwise one number of the
    /// range is drawn and resolved by `from_draw_in`, which may find nothing
    /// even where the range holds a prime.
    pub fn random_range(begin: u32, end: u32) -> (r: Option<u32>)
        ensures
            begin > end ==> r is None,
            begin == end ==> r == if is_prime_spec(begin as int) {
                Some(begin)
            } else {
                None
            },
            begin < end ==> exists|d: u32|
                begin <= d <= end && r == #[trigger] from_draw_in_spec(begin, end, d),
            r matches Some(p) ==> begin <= p <= end && is_prime_spec(p as int),
    {
        if begin > end {
            None
        } else if begin == end {
            Self::prime(begin)
        } else {
            let d: u32 = draw_between(begin, end);
            Self::from_draw_in(begin, end, d)
        }
    }
}

} // verus!
