//! Polynomial hashes of the bytes of strings.

use std::collections::HashSet;
use vstd::prelude::*;
use vstd::string::StringSliceAdditionalSpecFns;
use vstd::arithmetic::div_mod::{
    lemma_add_mod_noop, lemma_mod_add_multiples_vanish, lemma_mod_twice, lemma_mul_mod_noop_left,
    lemma_mul_mod_noop_right, lemma_small_mod, lemma_sub_mod_noop,
};
use crate::math::{extended_gcd, inverse_of, lemma_remainder_lifted, power};

verus! {

/// The first `k` bytes of `bytes`, each times the power of `base` of its
/// index, added up.
pub open spec fn poly_sum(bytes: Seq<u8>, base: int, k: int) -> int
    decreases k,
{
    if k <= 0 {
        0
    } else {
        poly_sum(bytes, base, k - 1) + bytes[k - 1] * power(base, (k - 1) as nat)
    }
}

/// The first `k` bytes of `bytes`, each times the weight of its index,
/// added up.
pub open spec fn weighted_sum(bytes: Seq<u8>, weights: Seq<u64>, k: int) -> int
    decreases k,
{
    if k <= 0 {
        0
    } else {
        weighted_sum(bytes, weights, k - 1) + bytes[k - 1] * weights[k - 1]
    }
}

/// Whether sums of residues modulo `modulo`, their products with bytes and
/// with `base`, fit in a `u64`.
pub open spec fn hash_fits(base: u64, modulo: u64) -> bool {
    &&& modulo >= 1
    &&& 255 * modulo <= u64::MAX
    &&& base * modulo <= u64::MAX
}

/// One step of a polynomial hash: the next byte joins the sum and the
/// power moves on, both modulo `m`.
proof fn lemma_hash_step(sum: int, byte: int, weight: int, held: int, base: int, m: int)
    requires
        m >= 1,
        held % m == weight % m,
    ensures
        ((sum % m) + (byte * held) % m) % m == (sum + byte * weight) % m,
        (held * base) % m == (base * weight) % m,
{
    lemma_mul_mod_noop_right(byte, held, m);
    lemma_mul_mod_noop_right(byte, weight, m);
    lemma_add_mod_noop(sum, byte * weight, m);
    lemma_mul_mod_noop_left(held, base, m);
    lemma_mul_mod_noop_left(weight, base, m);
    assert(weight * base == base * weight) by (nonlinear_arith);
}

/// The polynomial hash of the bytes of `s`: every byte times the power of
/// `base` of its index, added up modulo `modulo`.
pub fn polynomial_hash(s: &str, base: u64, modulo: u64) -> (hash: u64)
    requires
        hash_fits(base, modulo),
    ensures
        hash == poly_sum(s.spec_bytes(), base as int, s.spec_bytes().len() as int) % (
        modulo as int),
{
    let bytes = s.as_bytes();
    let ghost b = bytes@;
    let ghost m = modulo as int;
    let mut hash: u64 = 0;
    let mut pow: u64 = 1;
    let mut i: usize = 0;
    proof {
        lemma_small_mod(0, modulo as nat);
    }
    while i < bytes.len()
        invariant
            b == bytes@,
            m == modulo,
            hash_fits(base, modulo),
            i <= b.len(),
            hash == poly_sum(b, base as int, i as int) % m,
            pow % modulo == power(base as int, i as nat) % m,
            pow < modulo || pow == 1,
        decreases b.len() - i,
    {
        let byte = bytes[i];
        proof {
            lemma_hash_step(
                poly_sum(b, base as int, i as int),
                byte as int,
                power(base as int, i as nat),
                pow as int,
                base as int,
                m,
            );
            lemma_mod_twice(poly_sum(b, base as int, i as int), m);
            lemma_mod_twice(pow * base, m);
            assert(power(base as int, (i + 1) as nat) == base * power(base as int, i as nat));
            assert(byte * pow <= 255 * modulo) by (nonlinear_arith)
                requires
                    byte <= 255,
                    pow <= modulo,
            ;
            assert(pow * base <= base * modulo) by (nonlinear_arith)
                requires
                    pow <= modulo,
            ;
        }
        hash = (hash + (byte as u64 * pow) % modulo) % modulo;
        pow = (pow * base) % modulo;
        i += 1;
    }
    hash
}

/// The bytes of `s`, as far as `powers` reaches, each times the entry of
/// `powers` at its index, added up modulo `modulo`.
pub fn polynomial_hash_with_powers(s: &str, base: u64, modulo: u64, powers: &[u64]) -> (hash: u64)
    requires
        modulo >= 1,
        2 * modulo <= u64::MAX,
        forall|i: int| 0 <= i < powers@.len() ==> 255 * #[trigger] powers@[i] <= u64::MAX,
    ensures
        hash == weighted_sum(
            s.spec_bytes(),
            powers@,
            if s.spec_bytes().len() <= powers@.len() {
                s.spec_bytes().len() as int
            } else {
                powers@.len() as int
            },
        ) % (modulo as int),
{
    let bytes = s.as_bytes();
    let ghost b = bytes@;
    let ghost m = modulo as int;
    let mut hash: u64 = 0;
    let mut i: usize = 0;
    proof {
        lemma_small_mod(0, modulo as nat);
    }
    while i < bytes.len()
        invariant
            b == bytes@,
            m == modulo,
            modulo >= 1,
            2 * modulo <= u64::MAX,
            i <= b.len(),
            forall|k: int| 0 <= k < powers@.len() ==> 255 * #[trigger] powers@[k] <= u64::MAX,
            hash == weighted_sum(
                b,
                powers@,
                if i <= powers@.len() {
                    i as int
                } else {
                    powers@.len() as int
                },
            ) % m,
        decreases b.len() - i,
    {
        if i < powers.len() {
            let byte = bytes[i];
            let weight = powers[i];
            proof {
                lemma_hash_step(
                    weighted_sum(b, powers@, i as int),
                    byte as int,
                    weight as int,
                    weight as int,
                    1,
                    m,
                );
                lemma_mod_twice(weighted_sum(b, powers@, i as int), m);
                assert(byte * weight <= 255 * weight) by (nonlinear_arith)
                    requires
                        byte <= 255,
                        weight >= 0,
                ;
            }
            hash = (hash + (byte as u64 * weight) % modulo) % modulo;
        }
        i += 1;
    }
    hash
}

/// Whether `powers` holds the powers of `base` up to the exponent `upto`,
/// modulo `modulo`; the power zero as 1.
pub open spec fn is_power_table(powers: Seq<u64>, base: int, modulo: int, upto: int) -> bool {
    &&& powers.len() > upto
    &&& powers[0] == 1
    &&& forall|i: int| 1 <= i <= upto ==> #[trigger] powers[i] == power(base, i as nat) % modulo
}

/// The powers of `base` from the exponent 0 to `max_len`, modulo
/// `modulo`; the power zero as 1.
pub fn precompute_powers(base: u64, modulo: u64, max_len: usize) -> (powers: Vec<u64>)
    requires
        max_len < usize::MAX,
        modulo >= 1,
        base * modulo <= u64::MAX,
    ensures
        powers@.len() == max_len + 1,
        is_power_table(powers@, base as int, modulo as int, max_len as int),
{
    let mut powers: Vec<u64> = vec![1u64; max_len + 1];
    let ghost m = modulo as int;
    let mut i: usize = 1;
    while i <= max_len
        invariant
            1 <= i <= max_len + 1,
            max_len < usize::MAX,
            m == modulo,
            modulo >= 1,
            base * modulo <= u64::MAX,
            powers@.len() == max_len + 1,
            powers@[0] == 1,
            forall|k: int| 1 <= k < i ==> #[trigger] powers@[k] == power(base as int, k as nat) % m,
        decreases max_len + 1 - i,
    {
        let prev = powers[i - 1];
        proof {
            let before = power(base as int, (i - 1) as nat);
            assert(power(base as int, i as nat) == base * before);
            if i == 1 {
                assert(before == 1);
            } else {
                lemma_mul_mod_noop_left(before, base as int, m);
            }
            assert(before * base == base * before) by (nonlinear_arith);
            assert(prev * base <= base * modulo) by (nonlinear_arith)
                requires
                    prev <= modulo,
            ;
            assert(prev * base == base * before || prev == before % m) by (nonlinear_arith)
                requires
                    i == 1 ==> prev == 1 && before == 1,
                    i != 1 ==> prev == before % m,
            ;
        }
        let next = (prev * base) % modulo;
        powers.set(i, next);
        i += 1;
    }
    powers
}

/// The inverse of `a` modulo `m` by the extended algorithm of Euclid;
/// where there is none, what `inverse_of` names.
fn mod_inverse(a: u64, m: u64) -> (inverse: u64)
    requires
        m >= 1,
        a <= i64::MAX,
        2 * m <= i64::MAX,
    ensures
        inverse == inverse_of(a as int, m as int),
        inverse < m,
{
    let (_, x, _) = extended_gcd(a as i64, m as i64);
    let modulus = m as i64;
    proof {
        lemma_remainder_lifted(x as int, m as int);
    }
    ((x % modulus + modulus) % modulus) as u64
}

/// The hash of the bytes of `bytes` from `l` to `r`, both included, taken
/// from the hashes of the prefixes: their difference, times the inverse
/// of the power of `base` that the first byte carries. Zero for a range
/// that is empty or reaches beyond the bytes.
pub open spec fn range_hash(bytes: Seq<u8>, base: int, m: int, l: int, r: int) -> int {
    if !(0 <= l <= r < bytes.len()) {
        0
    } else if l == 0 {
        poly_sum(bytes, base, r + 1) % m
    } else {
        (((poly_sum(bytes, base, r + 1) - poly_sum(bytes, base, l)) % m) * inverse_of(
            power(base, l as nat) % m,
            m,
        )) % m
    }
}

/// Powers of one base multiply by adding the exponents.
pub proof fn lemma_power_adds(base: int, x: nat, y: nat)
    ensures
        power(base, x + y) == power(base, x) * power(base, y),
    decreases x,
{
    if x == 0 {
        assert(power(base, 0) == 1);
        assert(1 * power(base, y) == power(base, y)) by (nonlinear_arith);
    } else {
        lemma_power_adds(base, (x - 1) as nat, y);
        assert(power(base, x + y) == base * power(base, (x + y - 1) as nat));
        assert(power(base, x) == base * power(base, (x - 1) as nat));
        assert(base * (power(base, (x - 1) as nat) * power(base, y)) == (base * power(
            base,
            (x - 1) as nat,
        )) * power(base, y)) by (nonlinear_arith);
    }
}

/// The sum over the first bytes depends on those bytes only.
pub proof fn lemma_poly_sum_agrees(a: Seq<u8>, b: Seq<u8>, base: int, k: int)
    requires
        forall|i: int| 0 <= i < k ==> a[i] == b[i],
    ensures
        poly_sum(a, base, k) == poly_sum(b, base, k),
    decreases k,
{
    if k > 0 {
        lemma_poly_sum_agrees(a, b, base, k - 1);
    }
}

/// The difference of the sums over two prefixes is the sum over the bytes
/// between them, times the power of the base that the first of them
/// carries.
pub proof fn lemma_poly_sum_shifts(bytes: Seq<u8>, base: int, l: int, r: int)
    requires
        0 <= l <= r + 1 <= bytes.len(),
    ensures
        poly_sum(bytes, base, r + 1) - poly_sum(bytes, base, l) == power(base, l as nat) * poly_sum(
            bytes.subrange(l, r + 1),
            base,
            r - l + 1,
        ),
    decreases r + 1 - l,
{
    let piece = bytes.subrange(l, r + 1);
    if r + 1 == l {
        assert(power(base, l as nat) * 0 == 0) by (nonlinear_arith);
    } else {
        lemma_poly_sum_shifts(bytes, base, l, r - 1);
        let shorter = bytes.subrange(l, r);
        assert forall|i: int| 0 <= i < r - l implies piece[i] == shorter[i] by {}
        lemma_poly_sum_agrees(piece, shorter, base, r - l);
        lemma_power_adds(base, l as nat, (r - l) as nat);
        assert(piece[r - l] == bytes[r]);
        let a = power(base, l as nat);
        let b = power(base, (r - l) as nat);
        let q = poly_sum(shorter, base, r - l);
        let byte = bytes[r] as int;
        assert(a * (q + byte * b) == a * q + byte * (a * b)) by (nonlinear_arith);
    }
}

/// Where the power of the base that the first byte of a range carries
/// has an inverse modulo `m`, the hash of the range is the hash of its
/// bytes taken by themselves.
pub proof fn lemma_range_hash(bytes: Seq<u8>, base: int, m: int, l: int, r: int)
    requires
        m >= 1,
        0 <= l <= r < bytes.len(),
        l > 0 ==> ((power(base, l as nat) % m) * inverse_of(power(base, l as nat) % m, m)) % m
            == 1int % m,
    ensures
        range_hash(bytes, base, m, l, r) == poly_sum(bytes.subrange(l, r + 1), base, r - l + 1)
            % m,
{
    let piece = bytes.subrange(l, r + 1);
    let value = poly_sum(piece, base, r - l + 1);
    lemma_poly_sum_shifts(bytes, base, l, r);
    if l == 0 {
        assert(power(base, 0) == 1);
        assert(1 * value == value) by (nonlinear_arith);
        assert(poly_sum(bytes, base, 0) == 0);
    } else {
        let weight = power(base, l as nat);
        let inverse = inverse_of(weight % m, m);
        let difference = poly_sum(bytes, base, r + 1) - poly_sum(bytes, base, l);
        assert(difference == weight * value);
        lemma_mul_mod_noop_left(difference, inverse, m);
        assert((weight * value) * inverse == value * (weight * inverse)) by (nonlinear_arith);
        lemma_mul_mod_noop_right(value, weight * inverse, m);
        lemma_mul_mod_noop_left(weight, inverse, m);
        lemma_mul_mod_noop_right(value, 1, m);
        assert(value * 1 == value) by (nonlinear_arith);
    }
}

/// The hashes of all prefixes of a string, for hashes of its substrings in
/// constant time.
pub struct RollingHash {
    hash: Vec<u64>,
    powers: Vec<u64>,
    base: u64,
    modulo: u64,
    bytes: Ghost<Seq<u8>>,
}

impl RollingHash {
    /// The bytes that were hashed.
    pub closed spec fn text(&self) -> Seq<u8> {
        self.bytes@
    }

    /// The base of the polynomial.
    pub closed spec fn base(&self) -> int {
        self.base as int
    }

    /// The modulus of the hashes.
    pub closed spec fn modulo(&self) -> int {
        self.modulo as int
    }

    /// The tables hold the hashes of the prefixes and the powers of the
    /// base, and products of two residues fit.
    pub closed spec fn wf(&self) -> bool {
        &&& self.modulo >= 1
        &&& self.modulo * self.modulo <= i64::MAX
        &&& 2 * self.modulo <= i64::MAX
        &&& self.hash@.len() == self.bytes@.len() + 1
        &&& is_power_table(self.powers@, self.base as int, self.modulo as int, self.bytes@.len() as int)
        &&& forall|i: int|
            0 <= i <= self.bytes@.len() ==> #[trigger] self.hash@[i] == poly_sum(
                self.bytes@,
                self.base as int,
                i,
            ) % (self.modulo as int)
    }

    /// The hashes of the prefixes of `s` for the polynomial with base
    /// `base`, modulo `modulo`.
    #[verifier::rlimit(40)]
    pub fn new(s: &str, base: u64, modulo: u64) -> (rolling: RollingHash)
        requires
            s.spec_bytes().len() < usize::MAX,
            hash_fits(base, modulo),
            modulo * modulo <= i64::MAX,
            2 * modulo <= i64::MAX,
        ensures
            rolling.wf(),
            rolling.text() == s.spec_bytes(),
            rolling.base() == base,
            rolling.modulo() == modulo,
    {
        let bytes = s.as_bytes();
        let n = bytes.len();
        let ghost b = bytes@;
        let ghost m = modulo as int;
        let mut hash: Vec<u64> = vec![0u64; n + 1];
        let powers = precompute_powers(base, modulo, n);
        let mut i: usize = 0;
        proof {
            lemma_small_mod(0, modulo as nat);
        }
        while i < n
            invariant
                b == bytes@,
                n == b.len(),
                n < usize::MAX,
                m == modulo,
                hash_fits(base, modulo),
                i <= n,
                hash@.len() == n + 1,
                powers@.len() == n + 1,
                is_power_table(powers@, base as int, m, n as int),
                forall|k: int| 0 <= k <= i ==> #[trigger] hash@[k] == poly_sum(b, base as int, k) % m,
            decreases n - i,
        {
            let byte = bytes[i];
            let weight = powers[i];
            let prev = hash[i];
            proof {
                let exact = power(base as int, i as nat);
                assert(weight % modulo == exact % m) by {
                    if i == 0 {
                        assert(exact == 1);
                    } else {
                        lemma_mod_twice(exact, m);
                    }
                }
                lemma_hash_step(
                    poly_sum(b, base as int, i as int),
                    byte as int,
                    exact,
                    weight as int,
                    base as int,
                    m,
                );
                lemma_mod_twice(poly_sum(b, base as int, i as int), m);
                assert(byte * weight <= 255 * modulo) by (nonlinear_arith)
                    requires
                        byte <= 255,
                        weight <= modulo,
                ;
            }
            let next = (prev + (byte as u64 * weight) % modulo) % modulo;
            hash.set(i + 1, next);
            i += 1;
        }
        RollingHash { hash, powers, base, modulo, bytes: Ghost(b) }
    }

    /// The hash of the bytes from `l` to `r`, both included: the
    /// difference of the hashes of two prefixes, times the inverse of the
    /// power of the base that the first byte carries. Zero for a range
    /// that is empty or reaches beyond the bytes.
    #[verifier::rlimit(40)]
    pub fn get_hash(&self, l: usize, r: usize) -> (hash: u64)
        requires
            self.wf(),
        ensures
            hash == range_hash(self.text(), self.base(), self.modulo(), l as int, r as int),
            hash < self.modulo(),
    {
        if l > r || r >= self.hash.len() - 1 {
            return 0;
        }
        let ghost m = self.modulo as int;
        let ghost upper = poly_sum(self.bytes@, self.base as int, r + 1);
        let ghost lower = poly_sum(self.bytes@, self.base as int, l as int);
        proof {
            lemma_sub_mod_noop(upper, lower, m);
            lemma_mod_add_multiples_vanish(upper % m - lower % m, m);
            assert(self.hash@[r + 1] == upper % m);
            assert(self.hash@[l as int] == lower % m);
            if l == 0 {
                lemma_mod_twice(upper, m);
            }
        }
        let mut result = (self.hash[r + 1] + self.modulo - self.hash[l]) % self.modulo;
        if l > 0 {
            let weight = self.powers[l];
            let inverse = mod_inverse(weight, self.modulo);
            proof {
                assert(result * inverse <= self.modulo * self.modulo) by (nonlinear_arith)
                    requires
                        result <= self.modulo,
                        inverse <= self.modulo,
                ;
            }
            result = (result * inverse) % self.modulo;
        }
        result
    }
}

/// Two rolling hashes with different bases and moduli, to make collisions
/// unlikely.
pub struct DoubleHash {
    hash1: RollingHash,
    hash2: RollingHash,
}

impl DoubleHash {
    /// The bytes that were hashed.
    pub closed spec fn text(&self) -> Seq<u8> {
        self.hash1.text()
    }

    /// Both hashes are well formed, over the same bytes, with the bases 31
    /// and 37 and the moduli 1000000007 and 1000000009.
    pub closed spec fn wf(&self) -> bool {
        &&& self.hash1.wf()
        &&& self.hash2.wf()
        &&& self.hash1.text() == self.hash2.text()
        &&& self.hash1.base() == 31
        &&& self.hash2.base() == 37
        &&& self.hash1.modulo() == 1_000_000_007
        &&& self.hash2.modulo() == 1_000_000_009
    }

    /// The pair of hashes of the bytes of `bytes` from `l` to `r`, both
    /// included.
    pub open spec fn pair_hash(bytes: Seq<u8>, l: int, r: int) -> (int, int) {
        (range_hash(bytes, 31, 1_000_000_007, l, r), range_hash(bytes, 37, 1_000_000_009, l, r))
    }

    /// Both hashes of the bytes of `s`.
    pub fn new(s: &str) -> (double: DoubleHash)
        requires
            s.spec_bytes().len() < usize::MAX,
        ensures
            double.wf(),
            double.text() == s.spec_bytes(),
    {
        DoubleHash {
            hash1: RollingHash::new(s, 31, 1_000_000_007),
            hash2: RollingHash::new(s, 37, 1_000_000_009),
        }
    }

    /// Both hashes of the bytes from `l` to `r`, both included.
    pub fn get_hash(&self, l: usize, r: usize) -> (hash: (u64, u64))
        requires
            self.wf(),
        ensures
            (hash.0 as int, hash.1 as int) == DoubleHash::pair_hash(self.text(), l as int, r as int),
            hash.0 < 1_000_000_007,
            hash.1 < 1_000_000_009,
    {
        (self.hash1.get_hash(l, r), self.hash2.get_hash(l, r))
    }

    /// Whether the bytes from `l1` to `r1` and those from `l2` to `r2` have
    /// the same pair of hashes.
    pub fn compare_substrings(&self, l1: usize, r1: usize, l2: usize, r2: usize) -> (same: bool)
        requires
            self.wf(),
        ensures
            same == (DoubleHash::pair_hash(self.text(), l1 as int, r1 as int)
                == DoubleHash::pair_hash(self.text(), l2 as int, r2 as int)),
    {
        let first = self.get_hash(l1, r1);
        let second = self.get_hash(l2, r2);
        first.0 == second.0 && first.1 == second.1
    }
}

/// Compares substrings of one string by their hashes.
pub struct SubstringComparator {
    double_hash: DoubleHash,
}

impl SubstringComparator {
    /// The bytes that were hashed.
    pub closed spec fn text(&self) -> Seq<u8> {
        self.double_hash.text()
    }

    /// The hashes are well formed.
    pub closed spec fn wf(&self) -> bool {
        self.double_hash.wf()
    }

    /// A comparator for the substrings of `s`.
    pub fn new(s: &str) -> (comparator: SubstringComparator)
        requires
            s.spec_bytes().len() < usize::MAX,
        ensures
            comparator.wf(),
            comparator.text() == s.spec_bytes(),
    {
        SubstringComparator { double_hash: DoubleHash::new(s) }
    }

    /// Whether the bytes from `l1` to `r1` and those from `l2` to `r2` are
    /// as many and have the same pair of hashes.
    pub fn are_equal(&self, l1: usize, r1: usize, l2: usize, r2: usize) -> (equal: bool)
        requires
            self.wf(),
            l1 <= r1,
            l2 <= r2,
        ensures
            equal == (r1 - l1 == r2 - l2 && DoubleHash::pair_hash(self.text(), l1 as int, r1 as int)
                == DoubleHash::pair_hash(self.text(), l2 as int, r2 as int)),
    {
        if r1 - l1 != r2 - l2 {
            return false;
        }
        self.double_hash.compare_substrings(l1, r1, l2, r2)
    }

    /// The pair of hashes of the `len` bytes from `from` on.
    pub open spec fn piece_hash(self, from: int, len: int) -> (int, int) {
        DoubleHash::pair_hash(self.text(), from, from + len - 1)
    }

    /// The index of the last piece of `len` bytes in a text of `text_len`
    /// bytes; zero where the text is shorter.
    pub open spec fn last_piece(len: int, text_len: int) -> int {
        if text_len >= len {
            text_len - len
        } else {
            0
        }
    }

    /// Whether `pair` is the pair of hashes of a piece of `len` bytes that
    /// begins at an index up to `last`.
    pub open spec fn of_a_piece(self, pair: (u64, u64), len: int, last: int) -> bool {
        exists|i: int|
            0 <= i <= last && (pair.0 as int, pair.1 as int) == #[trigger] self.piece_hash(i, len)
    }

    /// Whether `hashes` holds the pair `target`.
    pub open spec fn lists(hashes: Seq<(u64, u64)>, target: (int, int)) -> bool {
        exists|a: int|
            0 <= a < hashes.len() && ((#[trigger] hashes[a]).0 as int, hashes[a].1 as int) == target
    }

    /// Whether the piece of `len` bytes at index `at` is the first to show
    /// the pair `pair`.
    pub open spec fn first_shown(self, pair: (u64, u64), at: int, len: int) -> bool {
        &&& (pair.0 as int, pair.1 as int) == self.piece_hash(at, len)
        &&& forall|j: int|
            0 <= j < at ==> (pair.0 as int, pair.1 as int) != #[trigger] self.piece_hash(j, len)
    }

    /// Whether a piece of `len` bytes that begins at an index up to `last`
    /// shows the pair `first` before any piece shows the pair `second`.
    pub open spec fn shown_before(
        self,
        first: (u64, u64),
        second: (u64, u64),
        len: int,
        last: int,
    ) -> bool {
        exists|i: int|
            0 <= i <= last && (first.0 as int, first.1 as int) == #[trigger] self.piece_hash(i, len)
                && forall|j: int|
                0 <= j <= i ==> (second.0 as int, second.1 as int) != #[trigger] self.piece_hash(
                    j,
                    len,
                )
    }

    /// Both hashes of a pair in one number.
    pub open spec fn packed(pair: (u64, u64)) -> int {
        pair.0 * 0x1_0000_0000 + pair.1
    }

    /// The pairs of hashes of the pieces of `len` bytes that begin at the
    /// indices up to `text_len - len`, each pair once, in the order in
    /// which the pieces first show them. Pieces of no bytes are left out.
    #[verifier::rlimit(40)]
    pub fn unique_substrings(&self, len: usize, text_len: usize) -> (hashes: Vec<(u64, u64)>)
        requires
            self.wf(),
        ensures
            len == 0 ==> hashes@.len() == 0,
            forall|a: int, b: int| 0 <= a < b < hashes@.len() ==> hashes@[a] != hashes@[b],
            forall|a: int|
                0 <= a < hashes@.len() ==> self.of_a_piece(
                    #[trigger] hashes@[a],
                    len as int,
                    SubstringComparator::last_piece(len as int, text_len as int),
                ),
            len > 0 ==> forall|i: int|
                0 <= i <= SubstringComparator::last_piece(len as int, text_len as int)
                    ==> SubstringComparator::lists(hashes@, #[trigger] self.piece_hash(i, len as int)),
            forall|a: int, b: int|
                0 <= a < b < hashes@.len() ==> self.shown_before(
                    #[trigger] hashes@[a],
                    #[trigger] hashes@[b],
                    len as int,
                    SubstringComparator::last_piece(len as int, text_len as int),
                ),
    {
        let mut hashes: Vec<(u64, u64)> = Vec::new();
        if len == 0 {
            return hashes;
        }
        let last: usize = if text_len >= len {
            text_len - len
        } else {
            0
        };
        let mut i: usize = 0;
        let ghost mut firsts: Seq<int> = Seq::empty();
        let mut known: HashSet<u64> = HashSet::new();
        broadcast use vstd::std_specs::hash::group_hash_axioms;

        loop
            invariant_except_break
                i <= last,
                forall|k: int|
                    0 <= k < i ==> SubstringComparator::lists(
                        hashes@,
                        #[trigger] self.piece_hash(k, len as int),
                    ),
                forall|a: int| 0 <= a < firsts.len() ==> #[trigger] firsts[a] < i,
            invariant
                self.wf(),
                len > 0,
                forall|a: int|
                    0 <= a < hashes@.len() ==> (#[trigger] hashes@[a]).0 < 0x1_0000_0000 && hashes@[a].1
                        < 0x1_0000_0000 && known@.contains(
                        (hashes@[a].0 * 0x1_0000_0000 + hashes@[a].1) as u64,
                    ),
                forall|key: u64| #[trigger]
                    known@.contains(key) ==> exists|a: int|
                        0 <= a < hashes@.len() && SubstringComparator::packed(#[trigger] hashes@[a])
                            == key,
                firsts.len() == hashes@.len(),
                forall|a: int|
                    0 <= a < firsts.len() ==> 0 <= #[trigger] firsts[a] <= last && self.first_shown(
                        hashes@[a],
                        firsts[a],
                        len as int,
                    ),
                forall|a: int, b: int|
                    0 <= a < b < firsts.len() ==> #[trigger] firsts[a] < #[trigger] firsts[b],
                last == SubstringComparator::last_piece(len as int, text_len as int),
                last + len <= usize::MAX,
                forall|a: int, b: int| 0 <= a < b < hashes@.len() ==> hashes@[a] != hashes@[b],
                forall|a: int|
                    0 <= a < hashes@.len() ==> self.of_a_piece(
                        #[trigger] hashes@[a],
                        len as int,
                        last as int,
                    ),
            ensures
                forall|k: int|
                    0 <= k <= last ==> SubstringComparator::lists(
                        hashes@,
                        #[trigger] self.piece_hash(k, len as int),
                    ),
            decreases last - i,
        {
            let hash = self.double_hash.get_hash(i, i + len - 1);
            let ghost before = hashes@;
            let ghost known_before = known@;
            let key = hash.0 * 0x1_0000_0000 + hash.1;
            let seen = !known.insert(key);
            proof {
                if seen {
                    let a = choose|a: int|
                        0 <= a < before.len() && SubstringComparator::packed(#[trigger] before[a])
                            == key;
                    assert(before[a].0 == hash.0 && before[a].1 == hash.1) by (nonlinear_arith)
                        requires
                            before[a].0 * 0x1_0000_0000 + before[a].1 == hash.0 * 0x1_0000_0000
                                + hash.1,
                            before[a].1 < 0x1_0000_0000,
                            hash.1 < 0x1_0000_0000,
                    ;
                    assert(before[a] == hash);
                } else {
                    assert forall|a: int| 0 <= a < before.len() implies #[trigger] before[a]
                        != hash by {
                        if before[a] == hash {
                            assert(known_before.contains(
                                (before[a].0 * 0x1_0000_0000 + before[a].1) as u64,
                            ));
                        }
                    }
                }
                assert(seen <==> exists|a: int| 0 <= a < before.len() && #[trigger] before[a] == hash);
            }
            let ghost firsts_before = firsts;
            if !seen {
                hashes.push(hash);
                proof {
                    firsts = firsts.push(i as int);
                    assert forall|j: int| 0 <= j < i implies (hash.0 as int, hash.1 as int)
                        != #[trigger] self.piece_hash(j, len as int) by {
                        if (hash.0 as int, hash.1 as int) == self.piece_hash(j, len as int) {
                            assert(SubstringComparator::lists(before, self.piece_hash(j, len as int)));
                            let a = choose|a: int|
                                0 <= a < before.len() && ((#[trigger] before[a]).0 as int, before[a].1 as int)
                                    == self.piece_hash(j, len as int);
                            assert(before[a] == hash);
                        }
                    }
                }
            }
            proof {
                assert((hash.0 as int, hash.1 as int) == self.piece_hash(i as int, len as int));
                assert forall|a: int|
                    0 <= a < hashes@.len() implies (#[trigger] hashes@[a]).0 < 0x1_0000_0000
                    && hashes@[a].1 < 0x1_0000_0000 && known@.contains(
                    (hashes@[a].0 * 0x1_0000_0000 + hashes@[a].1) as u64,
                ) by {
                    if a < before.len() {
                        assert(hashes@[a] == before[a]);
                    }
                }
                assert forall|key2: u64| #[trigger] known@.contains(key2) implies exists|a: int|
                    0 <= a < hashes@.len() && SubstringComparator::packed(#[trigger] hashes@[a])
                        == key2 by {
                    if key2 == key {
                        let slot2 = if seen {
                            choose|a: int| 0 <= a < before.len() && #[trigger] before[a] == hash
                        } else {
                            before.len() as int
                        };
                        assert(SubstringComparator::packed(hashes@[slot2]) == key2);
                    } else {
                        assert(known_before.contains(key2));
                        let a = choose|a: int|
                            0 <= a < before.len() && SubstringComparator::packed(
                                #[trigger] before[a],
                            ) == key2;
                        assert(hashes@[a] == before[a]);
                    }
                }
                assert forall|a: int|
                    0 <= a < firsts.len() implies 0 <= #[trigger] firsts[a] <= last && self.first_shown(
                    hashes@[a],
                    firsts[a],
                    len as int,
                ) && firsts[a] < i + 1 by {
                    if a < firsts_before.len() {
                        assert(firsts[a] == firsts_before[a]);
                        assert(hashes@[a] == before[a]);
                        assert(self.first_shown(before[a], firsts_before[a], len as int));
                    }
                }
                assert forall|a: int, b: int| 0 <= a < b < firsts.len() implies #[trigger] firsts[a]
                    < #[trigger] firsts[b] by {
                    if b < firsts_before.len() {
                        assert(firsts[a] == firsts_before[a] && firsts[b] == firsts_before[b]);
                    } else {
                        assert(firsts[a] == firsts_before[a]);
                    }
                }
                assert(self.of_a_piece(hash, len as int, last as int));
                let slot = if seen {
                    choose|a: int| 0 <= a < before.len() && #[trigger] before[a] == hash
                } else {
                    before.len() as int
                };
                assert(hashes@[slot] == hash);
                assert forall|j: int| 0 <= j < i + 1 implies SubstringComparator::lists(
                    hashes@,
                    #[trigger] self.piece_hash(j, len as int),
                ) by {
                    if j < i {
                        assert(SubstringComparator::lists(before, self.piece_hash(j, len as int)));
                        let a = choose|a: int|
                            0 <= a < before.len() && ((#[trigger] before[a]).0 as int, before[a].1 as int)
                                == self.piece_hash(j, len as int);
                        assert(hashes@[a] == before[a]);
                    } else {
                        assert((hashes@[slot].0 as int, hashes@[slot].1 as int) == self.piece_hash(
                            j,
                            len as int,
                        ));
                    }
                }
                assert forall|a: int| 0 <= a < hashes@.len() implies self.of_a_piece(
                    #[trigger] hashes@[a],
                    len as int,
                    last as int,
                ) by {
                    if a < before.len() {
                        assert(hashes@[a] == before[a]);
                    }
                }
            }
            if i == last {
                break ;
            }
            i += 1;
        }
        proof {
            assert forall|a: int, b: int| 0 <= a < b < hashes@.len() implies self.shown_before(
                #[trigger] hashes@[a],
                #[trigger] hashes@[b],
                len as int,
                last as int,
            ) by {
                let at = firsts[a];
                assert(firsts[a] < firsts[b]);
                assert(self.first_shown(hashes@[a], firsts[a], len as int));
                assert(self.first_shown(hashes@[b], firsts[b], len as int));
                assert((hashes@[a].0 as int, hashes@[a].1 as int) == self.piece_hash(at, len as int));
                assert forall|j: int| 0 <= j <= at implies (hashes@[b].0 as int, hashes@[b].1 as int)
                    != #[trigger] self.piece_hash(j, len as int) by {
                    assert(j < firsts[b]);
                }
            }
        }
        hashes
    }
}

} // verus!
