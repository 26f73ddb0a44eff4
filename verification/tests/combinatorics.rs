use tinyexpr::combinatorics::{checked_binomial, checked_factorial};

#[test]
fn factorials() {
    assert_eq!(checked_factorial(0), Some(1));
    assert_eq!(checked_factorial(5), Some(120));
    assert_eq!(checked_factorial(20), Some(2432902008176640000));
    assert_eq!(checked_factorial(21), None);
    assert_eq!(checked_factorial(u32::MAX), None);
}

#[test]
fn binomials() {
    assert_eq!(checked_binomial(6, 2), Some(15));
    assert_eq!(checked_binomial(6, 4), Some(15));
    assert_eq!(checked_binomial(0, 0), Some(1));
    assert_eq!(checked_binomial(7, 0), Some(1));
    assert_eq!(checked_binomial(7, 7), Some(1));
    assert_eq!(checked_binomial(52, 5), Some(2598960));
    assert_eq!(checked_binomial(60, 30), Some(118264581564861424));
    assert_eq!(checked_binomial(100, 50), None);
    assert_eq!(checked_binomial(62, 31), Some(465428353255261088));
    // C(66, 33) fits in 64 bits, but a product on the way to it does not
    assert_eq!(checked_binomial(66, 33), None);
    assert_eq!(checked_binomial(u32::MAX as u64, 1), Some(u32::MAX as u64));
}

#[test]
fn binomial_is_symmetric() {
    for n in 0..70u64 {
        for r in 0..=n {
            assert_eq!(checked_binomial(n, r), checked_binomial(n, n - r), "{n} {r}");
        }
    }
}
