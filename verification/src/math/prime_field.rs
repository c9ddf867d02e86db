//! Powers, inverses and counts modulo the prime 1000000007, in unsigned
//! arithmetic.

use vstd::prelude::*;
use vstd::arithmetic::div_mod::{
    lemma_mod_twice, lemma_mul_mod_noop, lemma_mul_mod_noop_left, lemma_small_mod,
};
use crate::math::{factorial_of, lemma_power_halves, power};

verus! {

/// The prime modulus 10^9 + 7.
pub const PRIME: u64 = 1_000_000_007;

/// The lowest bit of a number is its remainder by two, and shifting it
/// right by one halves it.
proof fn lemma_halving(exp: u64)
    by (bit_vector)
    ensures
        exp & 1 == exp % 2,
        exp >> 1 == exp / 2,
{
}

/// `base` raised to `exp`, modulo `m`, by repeated squaring. The empty
/// product is 1, whatever `m` is.
#[verifier::rlimit(40)]
pub fn modexp(base: u64, exp: u64, m: u64) -> (res: u64)
    requires
        m >= 1,
        m * m <= u64::MAX,
        base * base <= u64::MAX,
        base * m <= u64::MAX,
    ensures
        res == if exp == 0 {
            1
        } else {
            power(base as int, exp as nat) % (m as int)
        },
{
    let ghost modulus = m as int;
    let ghost whole = power(base as int, exp as nat);
    let mut res: u64 = 1;
    let mut b: u64 = base;
    let mut e: u64 = exp;
    proof {
        assert(1 * whole == whole) by (nonlinear_arith);
    }
    while e > 0
        invariant
            m >= 1,
            modulus == m,
            m * m <= u64::MAX,
            base * base <= u64::MAX,
            base * m <= u64::MAX,
            whole == power(base as int, exp as nat),
            e <= exp,
            res < m || res == 1,
            b < m || (b == base && e == exp),
            e > 0 ==> (res * power(b as int, e as nat)) % modulus == whole % modulus,
            e == 0 && exp > 0 ==> res == whole % modulus,
            e == 0 && exp == 0 ==> res == 1,
        decreases e,
    {
        let ghost e0 = e as nat;
        let ghost b0 = b as int;
        let ghost r0 = res as int;
        proof {
            lemma_halving(e);
            lemma_power_halves(b0, e0);
            assert(r0 * b0 <= u64::MAX && b0 * b0 <= u64::MAX) by (nonlinear_arith)
                requires
                    0 <= r0 <= m,
                    0 <= b0,
                    b0 <= m || b0 == base,
                    r0 < m || r0 == 1,
                    m >= 1,
                    m * m <= u64::MAX,
                    base * base <= u64::MAX,
                    base * m <= u64::MAX,
            ;
        }
        if e & 1 == 1 {
            res = res * b % m;
        }
        b = b * b % m;
        e >>= 1;
        proof {
            let half = power(b0 * b0, e0 / 2);
            let tail: int = if e0 % 2 == 1 {
                b0
            } else {
                1
            };
            assert(r0 * (half * tail) == (r0 * tail) * half) by (nonlinear_arith);
            assert(r0 * tail == if e0 % 2 == 1 {
                r0 * b0
            } else {
                r0
            }) by (nonlinear_arith)
                requires
                    tail == if e0 % 2 == 1 {
                        b0
                    } else {
                        1
                    },
            ;
            lemma_power_reduced(b0 * b0, e0 / 2, modulus);
            lemma_mul_mod_noop(r0 * tail, half, modulus);
            lemma_mul_mod_noop(res as int, power(b as int, e0 / 2), modulus);
            lemma_mod_twice(r0 * tail, modulus);
            if e0 % 2 == 0 {
                lemma_mul_mod_noop_left(r0, half, modulus);
            }
            if e == 0 {
                assert(e0 == 1);
                assert(power(b as int, 0) == 1);
                assert(half == 1);
                assert(r0 * tail * 1 == r0 * tail) by (nonlinear_arith);
                lemma_small_mod(res as nat, m as nat);
            }
        }
    }
    res
}

/// Reducing the base modulo `m` does not change a power modulo `m`.
pub proof fn lemma_power_reduced(base: int, exp: nat, m: int)
    requires
        m > 0,
    ensures
        power(base % m, exp) % m == power(base, exp) % m,
    decreases exp,
{
    if exp > 0 {
        lemma_power_reduced(base, (exp - 1) as nat, m);
        lemma_mul_mod_noop(base % m, power(base % m, (exp - 1) as nat), m);
        lemma_mul_mod_noop(base, power(base, (exp - 1) as nat), m);
        lemma_mod_twice(base, m);
    }
}

/// The power `PRIME - 2` of `x` modulo `PRIME`: the inverse of `x` modulo
/// `PRIME` by Fermat's little theorem, where `PRIME` does not divide `x`.
pub fn fltinv(x: u64) -> (inverse: u64)
    requires
        x <= PRIME,
    ensures
        inverse == power(x as int, (PRIME - 2) as nat) % (PRIME as int),
{
    proof {
        assert(x * x <= u64::MAX && x * PRIME <= u64::MAX) by (nonlinear_arith)
            requires
                0 <= x <= 1_000_000_007,
                PRIME == 1_000_000_007,
        ;
    }
    modexp(x, PRIME - 2, PRIME)
}

/// Whether `fact` holds the factorials up to `n!` modulo `PRIME`, and
/// `inv_fact` what is worked back from the inverse of the last of them.
pub open spec fn are_factorial_tables(fact: Seq<u64>, inv_fact: Seq<u64>, n: int) -> bool {
    &&& fact.len() == n + 1
    &&& inv_fact.len() == n + 1
    &&& forall|i: int| 0 <= i <= n ==> #[trigger] fact[i] == factorial_of(i as nat) % (PRIME as nat)
    &&& inv_fact[n] == power(fact[n] as int, (PRIME - 2) as nat) % (PRIME as int)
    &&& forall|i: int|
        1 <= i < n ==> #[trigger] inv_fact[i] == (inv_fact[i + 1] * (i + 1)) % (PRIME as int)
    &&& n > 0 ==> inv_fact[0] == 1
}

/// The factorials from `0!` to `n!` modulo `PRIME`, and the inverses worked
/// back from the inverse of `n!`.
pub fn pcfact(n: usize) -> (tables: (Vec<u64>, Vec<u64>))
    requires
        n < usize::MAX,
        (PRIME - 1) * n <= u64::MAX,
    ensures
        are_factorial_tables(tables.0@, tables.1@, n as int),
{
    let mut fact: Vec<u64> = vec![1u64; n + 1];
    let mut inv_fact: Vec<u64> = vec![1u64; n + 1];
    let mut i: usize = 1;
    proof {
        assert(factorial_of(0) == 1);
        lemma_small_mod(1, PRIME as nat);
    }
    while i <= n
        invariant
            1 <= i <= n + 1,
            n < usize::MAX,
            (PRIME - 1) * n <= u64::MAX,
            fact@.len() == n + 1,
            forall|k: int| 0 <= k < i ==> #[trigger] fact@[k] == factorial_of(k as nat) % (
            PRIME as nat),
        decreases n + 1 - i,
    {
        let prev = fact[i - 1];
        proof {
            let before = factorial_of((i - 1) as nat) as int;
            assert(factorial_of(i as nat) == i * factorial_of((i - 1) as nat));
            lemma_mul_mod_noop_left(before, i as int, PRIME as int);
            assert(before * i == i * before) by (nonlinear_arith);
            assert(0 <= prev * i <= (PRIME - 1) * n) by (nonlinear_arith)
                requires
                    0 <= prev <= PRIME - 1,
                    1 <= i <= n,
            ;
        }
        let next = prev * (i as u64) % PRIME;
        fact.set(i, next);
        i += 1;
    }
    let last = fltinv(fact[n]);
    inv_fact.set(n, last);
    if n >= 2 {
        let mut j: usize = n - 1;
        while j >= 1
            invariant
                0 <= j < n,
                n < usize::MAX,
                (PRIME - 1) * n <= u64::MAX,
                inv_fact@.len() == n + 1,
                inv_fact@[0] == 1,
                inv_fact@[n as int] == last,
                last < PRIME,
                forall|k: int| j < k <= n ==> #[trigger] inv_fact@[k] < PRIME,
                forall|k: int|
                    j < k < n ==> #[trigger] inv_fact@[k] == (inv_fact@[k + 1] * (k + 1)) % (
                    PRIME as int),
            decreases j,
        {
            let next = inv_fact[j + 1];
            proof {
                assert(0 <= next * (j + 1) <= (PRIME - 1) * n) by (nonlinear_arith)
                    requires
                        0 <= next <= PRIME - 1,
                        1 <= j + 1 <= n,
                ;
            }
            let value = next * ((j + 1) as u64) % PRIME;
            inv_fact.set(j, value);
            j -= 1;
        }
    }
    (fact, inv_fact)
}

/// The number of combinations modulo `PRIME`, from tables of factorials
/// and of their inverses; zero where `r` exceeds `n`.
pub fn ncr(n: usize, r: usize, fact: &Vec<u64>, inv_fact: &Vec<u64>) -> (c: u64)
    requires
        r <= n ==> fact@.len() > n && inv_fact@.len() > n && fact@[n as int] < PRIME
            && inv_fact@[r as int] < PRIME && inv_fact@[n - r] < PRIME,
    ensures
        r > n ==> c == 0,
        r <= n ==> c == (fact@[n as int] * inv_fact@[r as int] * inv_fact@[n - r]) % (PRIME as int),
{
    if r > n {
        return 0;
    }
    let f = fact[n];
    let ir = inv_fact[r];
    let inr = inv_fact[n - r];
    proof {
        assert(0 <= f * ir <= u64::MAX) by (nonlinear_arith)
            requires
                0 <= f < 1_000_000_007,
                0 <= ir < 1_000_000_007,
        ;
        let first = (f * ir) % (PRIME as int);
        assert(0 <= first * inr <= u64::MAX) by (nonlinear_arith)
            requires
                0 <= first < 1_000_000_007,
                0 <= inr < 1_000_000_007,
        ;
        lemma_mul_mod_noop_left(f * ir, inr as int, PRIME as int);
    }
    f * ir % PRIME * inr % PRIME
}

/// The number of arrangements modulo `PRIME`, from tables of factorials
/// and of their inverses; zero where `r` exceeds `n`.
pub fn npr(n: usize, r: usize, fact: &Vec<u64>, inv_fact: &Vec<u64>) -> (p: u64)
    requires
        r <= n ==> fact@.len() > n && inv_fact@.len() > n && fact@[n as int] < PRIME && inv_fact@[n
            - r] < PRIME,
    ensures
        r > n ==> p == 0,
        r <= n ==> p == (fact@[n as int] * inv_fact@[n - r]) % (PRIME as int),
{
    if r > n {
        return 0;
    }
    let f = fact[n];
    let inr = inv_fact[n - r];
    proof {
        assert(0 <= f * inr <= u64::MAX) by (nonlinear_arith)
            requires
                0 <= f < 1_000_000_007,
                0 <= inr < 1_000_000_007,
        ;
    }
    f * inr % PRIME
}

} // verus!
