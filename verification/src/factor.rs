//! Divisibility: testing one divisor, testing a set of candidates, and
//! listing the divisors of a number.

use crate::ranges::{lemma_span_filter_holds, lemma_span_filter_last, lemma_span_filter_skip, span, strictly_ascending};
use crate::util::is_even;
use vstd::arithmetic::div_mod::{lemma_fundamental_div_mod, lemma_mod_multiples_basic, lemma_small_mod};
use vstd::prelude::*;

verus! {

/// `d` divides `n`. Zero divides nothing.
pub open spec fn divides(d: int, n: int) -> bool {
    d != 0 && n % d == 0
}

/// The test "divides `n`" on 32-bit values.
pub open spec fn factor_pred(n: int) -> spec_fn(u32) -> bool {
    |d: u32| divides(d as int, n)
}

/// The divisors of `n` in ascending order; none for zero.
pub open spec fn factors_of(n: int) -> Seq<u32> {
    span(1, n).filter(factor_pred(n))
}

/// Some candidate in `divisors` divides `n`.
pub open spec fn has_factor_in(n: int, divisors: Seq<u32>) -> bool {
    exists|i: int| 0 <= i < divisors.len() && divides(#[trigger] divisors[i] as int, n)
}

/// A multiple of `d` is divisible by `d`.
pub proof fn lemma_divides_multiple(d: int, q: int)
    requires
        0 < d,
    ensures
        divides(d, q * d),
        divides(d, d * q),
{
    lemma_mod_multiples_basic(q, d);
    assert(q * d == d * q) by (nonlinear_arith);
}

/// A number that `d` divides is `d` times its quotient by `d`.
pub proof fn lemma_divides_quotient(d: int, n: int)
    requires
        divides(d, n),
    ensures
        n == d * (n / d),
{
    lemma_fundamental_div_mod(n, d);
}

/// Divisibility is transitive.
pub proof fn lemma_divides_trans(p: int, k: int, n: int)
    requires
        0 < p,
        divides(p, k),
        divides(k, n),
    ensures
        divides(p, n),
{
    lemma_divides_quotient(p, k);
    lemma_divides_quotient(k, n);
    let a = k / p;
    let b = n / k;
    assert(n == (a * b) * p) by (nonlinear_arith)
        requires
            k == p * a,
            n == k * b,
    ;
    lemma_divides_multiple(p, a * b);
}

/// A positive divisor of a positive number does not exceed it.
pub proof fn lemma_divisor_bound(d: int, n: int)
    requires
        0 < d,
        0 < n,
        divides(d, n),
    ensures
        d <= n,
{
    if n < d {
        lemma_small_mod(n as nat, d as nat);
    }
}

/// Whether `divisor` divides `num`. Zero is a factor of nothing, one of
/// everything, and two is tested by parity.
pub fn is_factor(num: u32, divisor: u32) -> (r: bool)
    ensures
        r == divides(divisor as int, num as int),
{
    match divisor {
        0 => false,
        1 => true,
        2 => is_even(num),
        d => num % d == 0,
    }
}

/// Whether any of `divisors` divides `num`.
pub fn any_factor_in(num: u32, divisors: &[u32]) -> (r: bool)
    ensures
        r == has_factor_in(num as int, divisors@),
{
    let mut i: usize = 0;
    while i < divisors.len()
        invariant
            i <= divisors.len(),
            forall|k: int| 0 <= k < i ==> !divides(#[trigger] divisors@[k] as int, num as int),
        decreases divisors.len() - i,
    {
        if is_factor(num, divisors[i]) {
            return true;
        }
        i += 1;
    }
    false
}

/// The members of `divisors` that divide `num`, in the order given. Nothing
/// counts as a factor of zero.
pub fn factor_list_in(num: u32, divisors: &[u32]) -> (r: Vec<u32>)
    ensures
        r@ == if num == 0 {
            Seq::empty()
        } else {
            divisors@.filter(factor_pred(num as int))
        },
{
    let mut out: Vec<u32> = Vec::new();
    if num == 0 {
        return out;
    }
    let ghost pred = factor_pred(num as int);
    let mut i: usize = 0;
    proof {
        reveal(Seq::filter);
        assert(divisors@.take(0).filter(pred) =~= Seq::empty());
    }
    while i < divisors.len()
        invariant
            i <= divisors.len(),
            pred == factor_pred(num as int),
            out@ == divisors@.take(i as int).filter(pred),
        decreases divisors.len() - i,
    {
        let d: u32 = divisors[i];
        proof {
            assert(divisors@.take(i + 1) =~= divisors@.take(i as int).push(d));
            divisors@.take(i as int).lemma_filter_push(d, pred);
        }
        if is_factor(num, d) {
            out.push(d);
        }
        i += 1;
    }
    assert(divisors@.take(i as int) =~= divisors@);
    out
}

/// What filtering by "divides `n`" keeps of the numbers up to one.
proof fn lemma_factors_start(n: int)
    requires
        1 <= n <= u32::MAX,
    ensures
        span(1, 1).filter(factor_pred(n)) == seq![1u32],
{
    let pred = factor_pred(n);
    lemma_span_filter_skip(1, 0, 0, pred);
    lemma_span_filter_last(1, 1, pred);
    reveal(Seq::filter);
    assert(span(1, 0).filter(pred) =~= Seq::empty());
    assert(span(1, 1).filter(pred) =~= seq![1u32]);
}

/// An odd number has no even divisor.
pub proof fn lemma_odd_has_odd_divisors(d: int, n: int)
    requires
        n % 2 == 1,
        divides(d, n),
    ensures
        d % 2 != 0,
{
    if d % 2 == 0 {
        lemma_divides_trans(2, d, n);
    }
}

/// The divisors of `num` in ascending order. Zero has none; any other number
/// has one as its first divisor and itself as its last.
pub fn factor_list(num: u32) -> (r: Vec<u32>)
    ensures
        r@ == factors_of(num as int),
        strictly_ascending(r@),
        num == 0 ==> r@.len() == 0,
        num >= 1 ==> r@.len() >= 1 && r@.first() == 1 && r@.last() == num,
        num >= 1 ==> forall|d: u32| #[trigger] r@.contains(d) <==> divides(d as int, num as int),
{
    let ghost pred = factor_pred(num as int);
    proof {
        lemma_span_filter_holds(1, num as int, pred);
        assert forall|d: u32| num >= 1 && divides(d as int, num as int) implies 1 <= d
            <= num by {
            lemma_divisor_bound(d as int, num as int);
        }
    }
    let mut out: Vec<u32> = Vec::new();
    if num == 0 {
        proof {
            lemma_span_filter_skip(1, 0, 0, pred);
            reveal(Seq::filter);
            assert(span(1, 0).filter(pred) =~= Seq::empty());
        }
        return out;
    }
    out.push(1);
    proof {
        lemma_factors_start(num as int);
    }
    if num == 1 {
        return out;
    }
    let step: u32 = if is_even(num) {
        1
    } else {
        2
    };
    let mut d: u32 = 1 + step;
    proof {
        if step == 2 {
            assert(!pred(2u32)) by {
                if divides(2, num as int) {
                    lemma_odd_has_odd_divisors(2, num as int);
                }
            }
            lemma_span_filter_skip(1, 1, 2, pred);
        }
    }
    while d < num
        invariant
            2 <= d <= num,
            pred == factor_pred(num as int),
            step == 1 || (step == 2 && num % 2 == 1 && d % 2 == 1),
            out@ == span(1, d - 1).filter(pred),
            out@.len() >= 1,
            out@[0] == 1,
        decreases num - d,
    {
        proof {
            lemma_span_filter_last(1, d as int, pred);
            if step == 2 {
                assert(!pred((d + 1) as u32)) by {
                    if divides(d + 1, num as int) {
                        lemma_odd_has_odd_divisors(d + 1, num as int);
                    }
                }
                lemma_span_filter_skip(1, d as int, d + 1, pred);
            }
        }
        if is_factor(num, d) {
            out.push(d);
        }
        d += step;
    }
    proof {
        lemma_span_filter_last(1, num as int, pred);
        lemma_divides_multiple(num as int, 1);
    }
    out.push(num);
    out
}

} // verus!
