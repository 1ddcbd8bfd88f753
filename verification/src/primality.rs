//! What it means to be prime, why trial division up to the square root
//! decides it, and the primes next to a number.

use crate::factor::{divides, lemma_divides_multiple, lemma_divides_quotient};
use crate::ranges::span;
use vstd::prelude::*;

verus! {

/// The largest prime below 2^32: the ceiling of every search.
pub const MAX_PRIME: u32 = 4294967291;

/// `n` is prime: it is greater than one and nothing between one and itself
/// divides it.
pub open spec fn is_prime_spec(n: int) -> bool {
    n >= 2 && forall|d: int| 2 <= d < n ==> !#[trigger] divides(d, n)
}

/// `n` is greater than one and no number from two up to its square root
/// divides it.
pub open spec fn survives_trial_division(n: int) -> bool {
    n >= 2 && forall|d: int| 2 <= d && d * d <= n ==> !#[trigger] divides(d, n)
}

/// The test "is prime" on 32-bit values.
pub open spec fn prime_pred() -> spec_fn(u32) -> bool {
    |p: u32| is_prime_spec(p as int)
}

/// The primes from `lo` to `hi`, both included, in ascending order.
pub open spec fn primes_between(lo: int, hi: int) -> Seq<u32> {
    span(lo, hi).filter(prime_pred())
}

/// The least prime from `n` upwards that 32 bits can hold, if there is one.
pub open spec fn least_prime_from(n: int) -> Option<u32>
    decreases u32::MAX - n + 1,
{
    if n < 0 || n > u32::MAX {
        None
    } else if is_prime_spec(n) {
        Some(n as u32)
    } else {
        least_prime_from(n + 1)
    }
}

/// The greatest prime from `n` downwards, if there is one.
pub open spec fn greatest_prime_to(n: int) -> Option<u32>
    decreases n,
{
    if n < 2 || n > u32::MAX {
        None
    } else if is_prime_spec(n) {
        Some(n as u32)
    } else {
        greatest_prime_to(n - 1)
    }
}

/// Trial division up to the square root decides primality: a number with a
/// divisor between one and itself has one whose square does not exceed it.
pub proof fn lemma_trial_division(n: int)
    ensures
        is_prime_spec(n) <==> survives_trial_division(n),
{
    if is_prime_spec(n) {
        assert forall|d: int| 2 <= d && d * d <= n implies !#[trigger] divides(d, n) by {
            assert(d < n) by (nonlinear_arith)
                requires
                    2 <= d,
                    d * d <= n,
            ;
        }
    }
    if survives_trial_division(n) {
        assert forall|d: int| 2 <= d < n implies !#[trigger] divides(d, n) by {
            if divides(d, n) {
                let e = n / d;
                lemma_divides_quotient(d, n);
                assert(2 <= e && (d * d <= n || e * e <= n)) by (nonlinear_arith)
                    requires
                        2 <= d < n,
                        n == d * e,
                ;
                lemma_divides_multiple(e, d);
                assert(!divides(d, n) || !divides(e, n));
            }
        }
    }
}

/// No number from 2 to 65535 divides the ceiling.
#[verifier::rlimit(80)]
proof fn lemma_ceiling_has_no_small_divisor(d: u32)
    by (bit_vector)
    requires
        2 <= d && d <= 65535,
    ensures
        4294967291u32 % d != 0,
{
}

/// The ceiling is prime.
pub proof fn lemma_ceiling_is_prime()
    ensures
        is_prime_spec(MAX_PRIME as int),
{
    let n = MAX_PRIME as int;
    assert forall|d: int| 2 <= d && d * d <= n implies !#[trigger] divides(d, n) by {
        assert(d <= 65535) by (nonlinear_arith)
            requires
                2 <= d,
                d * d <= 4294967291,
        ;
        lemma_ceiling_has_no_small_divisor(d as u32);
    }
    lemma_trial_division(n);
}

/// Nothing above the ceiling that 32 bits can hold is prime.
pub proof fn lemma_ceiling_is_last(n: int)
    requires
        MAX_PRIME < n <= u32::MAX,
    ensures
        !is_prime_spec(n),
{
    if n == 4294967292 || n == 4294967294 {
        assert(divides(2, n));
    } else if n == 4294967293 {
        assert(divides(9241, n));
    } else {
        assert(divides(3, n));
    }
}

/// Two and three are prime.
pub proof fn lemma_two_and_three_are_prime()
    ensures
        is_prime_spec(2),
        is_prime_spec(3),
{
    assert forall|d: int| 2 <= d < 2 implies !#[trigger] divides(d, 2) by {}
    assert forall|d: int| 2 <= d < 3 implies !#[trigger] divides(d, 3) by {}
}

/// An even number other than two is not prime.
pub proof fn lemma_even_is_not_prime(n: int)
    requires
        n % 2 == 0,
        n != 2,
    ensures
        !is_prime_spec(n),
{
    if n >= 4 {
        assert(divides(2, n));
    }
}

/// What `least_prime_from` finds is prime and not below `n`, with no prime
/// between `n` and it; it finds nothing only where no prime is left.
pub proof fn lemma_least_prime_from(n: int)
    requires
        0 <= n,
    ensures
        match least_prime_from(n) {
            Some(p) => n <= p && is_prime_spec(p as int) && forall|q: int|
                n <= q < p ==> !is_prime_spec(q),
            None => forall|q: int| n <= q <= u32::MAX ==> !is_prime_spec(q),
        },
        least_prime_from(n) is Some <==> n <= MAX_PRIME,
    decreases u32::MAX - n + 1,
{
    if n <= u32::MAX {
        if is_prime_spec(n) {
            if n > MAX_PRIME {
                lemma_ceiling_is_last(n);
            }
        } else {
            lemma_least_prime_from(n + 1);
            if n == MAX_PRIME {
                lemma_ceiling_is_prime();
            }
        }
    }
}

/// What `greatest_prime_to` finds is prime and not above `n`, with no prime
/// between it and `n`; it finds nothing only below two.
pub proof fn lemma_greatest_prime_to(n: int)
    requires
        n <= u32::MAX,
    ensures
        match greatest_prime_to(n) {
            Some(p) => p <= n && is_prime_spec(p as int) && forall|q: int|
                p < q <= n ==> !is_prime_spec(q),
            None => forall|q: int| q <= n ==> !is_prime_spec(q),
        },
        greatest_prime_to(n) is Some <==> 2 <= n,
    decreases n,
{
    if n >= 2 {
        if !is_prime_spec(n) {
            lemma_greatest_prime_to(n - 1);
            lemma_two_and_three_are_prime();
        }
    }
}

} // verus!
