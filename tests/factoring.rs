use iron_pi::factors::PrimeFactors;
use iron_pi::sieve::{FactorSieveElement, PrimeFactorSieve};

fn value_of(f: &PrimeFactors) -> i128 {
    let mut v: i128 = 1;
    for &(b, e) in f.factors.iter() {
        for _ in 0..e {
            v *= b as i128;
        }
    }
    if f.neg {
        -v
    } else {
        v
    }
}

fn is_wf(f: &PrimeFactors) -> bool {
    f.factors.windows(2).all(|w| w[0].0 < w[1].0) && f.factors.iter().all(|&(b, e)| b >= 2 && e > 0)
}

fn pf(neg: bool, factors: &[(u64, u64)]) -> PrimeFactors {
    PrimeFactors { neg, factors: factors.to_vec() }
}

fn is_prime(n: u64) -> bool {
    n >= 2 && (2..n).take_while(|d| d * d <= n).all(|d| n % d != 0)
}

#[test]
fn sieve_factors_large_prime() {
    let sieve = PrimeFactorSieve::new(1_000_000);
    let f = PrimeFactors::new(&sieve, 999_983);
    assert!(!f.neg);
    assert_eq!(f.factors, vec![(999_983, 1)]);
}

#[test]
fn sieve_round_trip_small_range() {
    let max = 20_000;
    let sieve = PrimeFactorSieve::new(max);
    for n in 1..max {
        let f = PrimeFactors::new(&sieve, n);
        assert_eq!(value_of(&f), n as i128, "n = {}", n);
        assert!(is_wf(&f), "n = {}", n);
        assert!(f.factors.iter().all(|&(b, _)| is_prime(b)), "n = {}", n);
    }
}

#[test]
fn sieve_round_trip_even_bound() {
    let sieve = PrimeFactorSieve::new(1_000_000);
    for n in [1u64, 2, 4, 1024, 999_999, 1_000_000, 524_288, 720_720, 999_983 * 1] {
        let f = PrimeFactors::new(&sieve, n);
        assert_eq!(value_of(&f), n as i128);
        assert!(is_wf(&f));
    }
}

#[test]
fn sieve_table_entries() {
    let sieve = PrimeFactorSieve::new(30);
    assert_eq!(sieve.max, 30);
    assert_eq!(sieve.sieve.len(), 15);
    assert_eq!(sieve.sieve[0], FactorSieveElement { base: 2, exponent: 1, next: 0 });
    // 27 = 3^3, index 13
    assert_eq!(sieve.sieve[13], FactorSieveElement { base: 3, exponent: 3, next: 0 });
    // 15 = 3 * 5, index 7; 5 sits at index 2
    assert_eq!(sieve.sieve[7], FactorSieveElement { base: 3, exponent: 1, next: 2 });
    // 29 is prime
    assert_eq!(sieve.sieve[14], FactorSieveElement { base: 29, exponent: 1, next: 0 });
}

#[test]
fn sieve_smallest_bound() {
    let sieve = PrimeFactorSieve::new(2);
    assert_eq!(sieve.sieve.len(), 1);
    let f = PrimeFactors::new(&sieve, 1);
    assert!(f.factors.is_empty());
    let f = PrimeFactors::new(&sieve, 64);
    assert_eq!(f.factors, vec![(2, 6)]);
}

#[test]
fn sieve_bound_just_above_a_square() {
    // 5 * 5 = 25 lies below the bound 26, so 5 is sieved and 25 is not taken
    // for a prime.
    let sieve = PrimeFactorSieve::new(26);
    assert_eq!(sieve.sieve[12], FactorSieveElement { base: 5, exponent: 2, next: 0 });
    let f = PrimeFactors::new(&sieve, 25);
    assert_eq!(f.factors, vec![(5, 2)]);
    let f = PrimeFactors::new(&sieve, 50);
    assert_eq!(f.factors, vec![(2, 1), (5, 2)]);
    // With the bound 25 itself, 25 is outside the table.
    let sieve = PrimeFactorSieve::new(25);
    assert_eq!(sieve.sieve.len(), 12);
    assert!(sieve.sieve.iter().skip(1).all(|e| e.base >= 3 && (2..e.base).all(|d| e.base % d != 0)));
}

#[test]
fn factor_of_one_is_empty() {
    let sieve = PrimeFactorSieve::new(100);
    let f = PrimeFactors::new(&sieve, 1);
    assert!(f.factors.is_empty());
    assert!(!f.neg);
}

#[test]
fn factor_with_pow() {
    let sieve = PrimeFactorSieve::new(1000);
    let f = PrimeFactors::new_with_pow(&sieve, 360, 3);
    assert_eq!(f.factors, vec![(2, 9), (3, 6), (5, 3)]);
    assert_eq!(value_of(&f), 360i128 * 360 * 360);
}

#[test]
fn empty_is_one() {
    let e = PrimeFactors::empty();
    assert!(e.factors.is_empty());
    assert!(!e.neg);
    assert_eq!(value_of(&e), 1);
}

#[test]
fn mul_merges_lists() {
    let a = pf(true, &[(2, 1), (3, 2), (7, 1)]);
    let b = pf(false, &[(3, 1), (5, 2), (7, 4), (11, 1)]);
    let c = a.mul(&b);
    assert!(c.neg);
    assert_eq!(c.factors, vec![(2, 1), (3, 3), (5, 2), (7, 5), (11, 1)]);
    assert_eq!(value_of(&c), value_of(&a) * value_of(&b));
    let d = c.mul(&pf(true, &[]));
    assert!(!d.neg);
    assert_eq!(value_of(&d), -value_of(&c));
}

#[test]
fn mul_into_keeps_sign_of_target() {
    let a = pf(false, &[(2, 3)]);
    let b = pf(false, &[(2, 2), (3, 1)]);
    let mut out = pf(true, &[(97, 5)]);
    PrimeFactors::mul_into(&mut out, &a, &b);
    assert!(out.neg);
    assert_eq!(out.factors, vec![(2, 5), (3, 1)]);
}

#[test]
fn gcd_takes_smaller_exponents() {
    let a = pf(true, &[(2, 3), (3, 1), (5, 2), (13, 1)]);
    let b = pf(true, &[(2, 1), (5, 4), (7, 1), (13, 2)]);
    let g = a.gcd(&b);
    assert!(!g.neg);
    assert_eq!(g.factors, vec![(2, 1), (5, 2), (13, 1)]);
    assert_eq!(value_of(&a) % value_of(&g), 0);
    assert_eq!(value_of(&b) % value_of(&g), 0);
    let coprime = pf(false, &[(3, 1)]).gcd(&pf(false, &[(2, 1)]));
    assert!(coprime.factors.is_empty());
}

#[test]
fn gcd_matches_integer_gcd() {
    let sieve = PrimeFactorSieve::new(5000);
    fn int_gcd(mut a: u64, mut b: u64) -> u64 {
        while b != 0 {
            let t = a % b;
            a = b;
            b = t;
        }
        a
    }
    for x in (1..4000u64).step_by(37) {
        for y in (1..4000u64).step_by(53) {
            let g = PrimeFactors::new(&sieve, x).gcd(&PrimeFactors::new(&sieve, y));
            assert_eq!(value_of(&g), int_gcd(x, y) as i128, "{} {}", x, y);
        }
    }
}

#[test]
fn div_exact_drops_zero_exponents() {
    let mut a = pf(false, &[(2, 3), (3, 1), (5, 2)]);
    let b = pf(false, &[(3, 1), (5, 1)]);
    let before = value_of(&a);
    a.div_exact_mut(&b);
    assert_eq!(a.factors, vec![(2, 3), (5, 1)]);
    assert_eq!(value_of(&a) * value_of(&b), before);
}

#[test]
fn div_exact_sign() {
    let mut a = pf(true, &[(2, 2), (7, 1)]);
    let b = pf(true, &[(7, 1)]);
    a.div_exact_mut(&b);
    assert!(!a.neg);
    assert_eq!(a.factors, vec![(2, 2)]);
    assert_eq!(value_of(&a) * value_of(&b), -28);
}

#[test]
fn remove_gcd_leaves_coprime_parts() {
    let mut a = pf(true, &[(2, 3), (3, 1), (5, 2)]);
    let mut b = pf(true, &[(2, 1), (5, 3), (7, 1)]);
    let (va, vb) = (value_of(&a), value_of(&b));
    let g = PrimeFactors::remove_gcd(&mut a, &mut b);
    assert!(g.neg);
    assert_eq!(g.factors, vec![(2, 1), (5, 2)]);
    assert!(!a.neg && !b.neg);
    assert_eq!(a.factors, vec![(2, 2), (3, 1)]);
    assert_eq!(b.factors, vec![(5, 1), (7, 1)]);
    assert_eq!(value_of(&a) * value_of(&g), va);
    assert_eq!(value_of(&b) * value_of(&g), vb);
}

#[test]
fn remove_gcd_one_negative() {
    let mut a = pf(true, &[(3, 2)]);
    let mut b = pf(false, &[(3, 1), (11, 1)]);
    let g = PrimeFactors::remove_gcd(&mut a, &mut b);
    assert!(!g.neg);
    assert!(a.neg && !b.neg);
    assert_eq!(value_of(&a), -3);
    assert_eq!(value_of(&b), 11);
}

#[test]
fn duplicate_and_max_exponent() {
    let a = pf(true, &[(2, 4), (3, 9), (5, 1)]);
    let c = a.duplicate();
    assert_eq!(c.neg, a.neg);
    assert_eq!(c.factors, a.factors);
    assert_eq!(a.max_exponent(), 9);
    assert_eq!(PrimeFactors::empty().max_exponent(), 0);
}

#[test]
fn product_fits_checks_largest_exponents() {
    let a = pf(false, &[(2, u64::MAX - 5)]);
    let b = pf(false, &[(3, 5)]);
    let c = pf(false, &[(5, 6)]);
    assert!(a.product_fits(&b));
    assert!(!a.product_fits(&c));
}

#[test]
fn operations_keep_lists_ascending() {
    let sieve = PrimeFactorSieve::new(10_000);
    for x in (1..9_000u64).step_by(131) {
        for y in (1..9_000u64).step_by(97) {
            let a = PrimeFactors::new(&sieve, x);
            let b = PrimeFactors::new(&sieve, y);
            let m = a.mul(&b);
            assert!(is_wf(&m));
            assert_eq!(value_of(&m), x as i128 * y as i128);
            let g = a.gcd(&b);
            assert!(is_wf(&g));
            let mut q = m.duplicate();
            q.div_exact_mut(&a);
            assert!(is_wf(&q));
            assert_eq!(value_of(&q), y as i128);
            let (mut l, mut r) = (a.duplicate(), b.duplicate());
            let h = PrimeFactors::remove_gcd(&mut l, &mut r);
            assert!(is_wf(&l) && is_wf(&r) && is_wf(&h));
            assert_eq!(value_of(&l) * value_of(&h), x as i128);
            assert_eq!(value_of(&r) * value_of(&h), y as i128);
        }
    }
}
