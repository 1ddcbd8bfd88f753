use primes::util::{is_even, is_odd, sqrt};

#[test]
fn is_even_0() {
    assert_eq!(true, is_even(0));
}

#[test]
fn is_even_1() {
    assert_eq!(false, is_even(1));
}

#[test]
fn is_even_2() {
    assert_eq!(true, is_even(2));
}

#[test]
fn is_odd_0() {
    assert_eq!(false, is_odd(0));
}

#[test]
fn is_odd_1() {
    assert_eq!(true, is_odd(1));
}

#[test]
fn is_odd_2() {
    assert_eq!(false, is_odd(2));
}

#[test]
fn sqrt_0() {
    assert_eq!(0, sqrt(0));
}

#[test]
fn sqrt_1() {
    assert_eq!(1, sqrt(1));
}

#[test]
fn sqrt_2() {
    assert_eq!(1, sqrt(2));
}

#[test]
fn sqrt_4() {
    assert_eq!(2, sqrt(4));
}

#[test]
fn sqrt_9() {
    assert_eq!(3, sqrt(9));
}
