use competitive_template::math::prime_field::{fltinv, modexp, ncr, npr, pcfact, PRIME};
use competitive_template::math::{
    combination, extended_gcd, factorial, gcd, lcm, mod_combination, mod_factorial, mod_inv,
    mod_inv_factorial, mod_permutation, mod_pow, permutation, sieve,
};

#[test]
fn gcd_of_small_numbers() {
    assert_eq!(gcd(48, 18), 6);
    assert_eq!(gcd(0, 5), 5);
    assert_eq!(gcd(5, 0), 5);
    assert_eq!(gcd(0, 0), 0);
    assert_eq!(gcd(-12, 8), 4);
    assert_eq!(gcd(12, -8), 4);
    assert_eq!(gcd(17, 13), 1);
}

#[test]
fn lcm_of_small_numbers() {
    assert_eq!(lcm(12, 18), 36);
    assert_eq!(lcm(0, 5), 0);
    assert_eq!(lcm(5, 0), 0);
    assert_eq!(lcm(12, 8), 24);
    assert_eq!(lcm(-4, 6), 12);
}

#[test]
fn mod_pow_by_squaring() {
    assert_eq!(mod_pow(2, 10, 1000), 24);
    assert_eq!(mod_pow(3, 4, 7), 4);
    assert_eq!(mod_pow(5, 0, 7), 1);
    assert_eq!(mod_pow(5, -3, 7), 1);
    assert_eq!(mod_pow(5, 3, 1), 0);
    assert_eq!(mod_pow(0, 5, 7), 0);
    assert_eq!(mod_pow(2, 62, 1_000_000_007), 145_586_002);
}

#[test]
fn factorial_tables() {
    let fact = factorial(5);
    assert_eq!(fact, vec![1, 1, 2, 6, 24, 120]);
    assert_eq!(factorial(0), vec![1]);
    assert_eq!(factorial(20)[20], 2_432_902_008_176_640_000);
    let fact = mod_factorial(5, 1_000_000_007);
    assert_eq!(fact[3], 6);
    assert_eq!(fact[5], 120);
    assert_eq!(mod_factorial(6, 7), vec![1, 1, 2, 6, 3, 1, 6]);
}

#[test]
fn combinations_and_permutations() {
    let fact = factorial(10);
    assert_eq!(combination(5, 2, &fact), 10);
    assert_eq!(combination(10, 3, &fact), 120);
    assert_eq!(combination(3, 5, &fact), 0);
    assert_eq!(combination(4, 0, &fact), 1);
    assert_eq!(permutation(5, 2, &fact), 20);
    assert_eq!(permutation(10, 3, &fact), 720);
    assert_eq!(permutation(2, 3, &fact), 0);
}

#[test]
fn combinations_modulo_a_prime() {
    let fact = mod_factorial(6, 7);
    // inverses of 0! .. 6! modulo 7
    let inv_fact = vec![1, 1, 4, 6, 5, 1, 6];
    assert_eq!(mod_combination(5, 2, &fact, &inv_fact, 7), 3);
    assert_eq!(mod_combination(2, 5, &fact, &inv_fact, 7), 0);
    assert_eq!(mod_permutation(5, 2, &fact, &inv_fact, 7), 6);
    assert_eq!(mod_permutation(2, 5, &fact, &inv_fact, 7), 0);
}

#[test]
fn test_math_utilities() {
    // Test basic math functions
    assert_eq!(gcd(12, 8), 4);
    assert_eq!(lcm(12, 8), 24);

    // Test modular arithmetic
    assert_eq!(mod_pow(2, 10, 1000), 24);
}

#[test]
fn primes_by_sieve() {
    let primes = sieve(30);
    let listed: Vec<usize> = (0..=30).filter(|&k| primes[k]).collect();
    assert_eq!(listed, vec![2, 3, 5, 7, 11, 13, 17, 19, 23, 29]);
    assert_eq!(sieve(0), vec![false]);
    assert_eq!(sieve(1), vec![false, false]);
    assert_eq!(sieve(2), vec![false, false, true]);
    assert_eq!(sieve(4), vec![false, false, true, true, false]);
    let many = sieve(10_000);
    assert_eq!(many.iter().filter(|&&p| p).count(), 1229);
}

#[test]
fn modular_inverses() {
    assert_eq!(mod_inv(3, 7), Some(5));
    assert_eq!(mod_inv(2, 4), None);
    assert_eq!(mod_inv(0, 7), None);
    assert_eq!(mod_inv(1, 1), Some(0));
    assert_eq!(mod_inv(10, 7), Some(5));
    assert_eq!(extended_gcd(0, 5), (5, 0, 1));
    assert_eq!(extended_gcd(5, 0), (5, 1, 0));
    let (g, x, y) = extended_gcd(240, 46);
    assert_eq!(g, 2);
    assert_eq!(240 * x + 46 * y, 2);
    assert_eq!((x, y), (-9, 47));
    let modulo = 1_000_000_007;
    let fact = mod_factorial(10, modulo);
    let inv_fact = mod_inv_factorial(10, modulo, &fact);
    for i in 0..=10 {
        assert_eq!((fact[i] * inv_fact[i]) % modulo, 1);
    }
    assert_eq!(mod_combination(5, 2, &fact, &inv_fact, modulo), 10);
    assert_eq!(mod_permutation(5, 2, &fact, &inv_fact, modulo), 20);
    assert_eq!(mod_inv_factorial(0, modulo, &[]), vec![1]);
}

#[test]
fn mod_pow_keeps_the_sign_of_the_power() {
    assert_eq!(mod_pow(-2, 3, 5), -3);
    assert_eq!(mod_pow(-2, 2, 5), 4);
    assert_eq!(mod_pow(-7, 1, 7), 0);
    assert_eq!(mod_pow(-3, 5, 1_000_000_007), -243);
}

#[test]
fn powers_and_counts_modulo_the_prime() {
    assert_eq!(modexp(2, 10, 1000), 24);
    assert_eq!(modexp(3, 0, 7), 1);
    assert_eq!(modexp(3, 0, 1), 1);
    assert_eq!(modexp(3, 5, 1), 0);
    assert_eq!(modexp(0, 3, 7), 0);
    assert_eq!(modexp(7, 1, 5), 2);
    assert_eq!(fltinv(2), 500_000_004);
    assert_eq!(fltinv(1), 1);
    assert_eq!((fltinv(123_456) * 123_456) % PRIME, 1);
    let (fact, inv_fact) = pcfact(10);
    assert_eq!(fact, vec![1, 1, 2, 6, 24, 120, 720, 5040, 40320, 362880, 3628800]);
    for i in 0..=10 {
        assert_eq!(fact[i] * inv_fact[i] % PRIME, 1);
    }
    assert_eq!(ncr(5, 2, &fact, &inv_fact), 10);
    assert_eq!(ncr(10, 3, &fact, &inv_fact), 120);
    assert_eq!(ncr(2, 5, &fact, &inv_fact), 0);
    assert_eq!(npr(5, 2, &fact, &inv_fact), 20);
    assert_eq!(npr(2, 5, &fact, &inv_fact), 0);
    let (fact, inv_fact) = pcfact(0);
    assert_eq!((fact, inv_fact), (vec![1], vec![1]));
    let (fact, inv_fact) = pcfact(1);
    assert_eq!((fact, inv_fact), (vec![1, 1], vec![1, 1]));
}
