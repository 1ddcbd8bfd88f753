use primes::factor::{factor_list, factor_list_in};
use primes::prime::PrimeNumber;
use primes::util::{is_even, is_odd};

fn show_candidates(limit: u32, candidates: &[u32]) {
    println!("candidates: {:?}", candidates);
    for i in 0..=limit {
        let factors = factor_list_in(i, candidates);
        println!("factor list of {}\t in candidates\t {:?}", i, factors);
    }
}

#[test]
fn it_works() {
    for i in (0..15).chain(u32::MAX - 4..=u32::MAX) {
        println!(
            "{} is even? {},\t is odd? {},\t {}nth: {:?},\t is prime? {},\t {:?}",
            i,
            is_even(i),
            is_odd(i),
            i,
            PrimeNumber::nth(i),
            PrimeNumber::is_prime(i),
            PrimeNumber::prime(i)
        );
    }
    for i in 0..20 {
        println!("factor list of {}\t {:?}", i, factor_list(i));
    }
    show_candidates(20, &[0, 1, 2, 3, 4, 5, 6, 7, 8, 9]);
    show_candidates(3, &[0]);
    show_candidates(3, &[1]);
    println!("{}th prime: {:?}", 9, PrimeNumber::nth(8));
    println!("random prime: {:?}", PrimeNumber::random());
    println!("overflow min prime: {:?}", PrimeNumber::closest_prime(0, false));
    println!("overflow max prime: {:?}", PrimeNumber::closest_prime(u32::MAX, true));
    let (a, b, c) = (900, 999, 953);
    for (n, m) in [(a, a), (b, b), (b, a), (a, b), (a, c), (c, b), (c, c)] {
        println!("primes between {} and {}: {:?}", n, m, PrimeNumber::range_list(n, m));
    }
    for (n, m) in [(a, a), (b, b), (b, a), (a, b), (a, c), (c, b), (c, c)] {
        println!("a prime between {} and {}: {:?}", n, m, PrimeNumber::random_range(n, m));
    }
}
