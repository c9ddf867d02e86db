//! Number theory and combinatorics over machine integers.

pub mod prime_field;

use vstd::prelude::*;

verus! {

/// The absolute value of an integer.
pub open spec fn abs_int(x: int) -> int {
    if x < 0 {
        -x
    } else {
        x
    }
}

/// The greatest common divisor of two naturals, by Euclid's recurrence.
pub open spec fn gcd_nat(a: nat, b: nat) -> nat
    decreases b,
{
    if b == 0 {
        a
    } else {
        gcd_nat(b, a % b)
    }
}

/// Whether `d` divides `x`; zero divides zero only.
pub open spec fn divides(d: int, x: int) -> bool {
    if d == 0 {
        x == 0
    } else {
        x % d == 0
    }
}

/// The greatest common divisor of `|a|` and `|b|`: it divides both, and
/// every number that divides both divides it. The greatest common divisor
/// of zero and zero is zero.
pub fn gcd(a: i64, b: i64) -> (g: i64)
    requires
        a != i64::MIN,
        b != i64::MIN,
    ensures
        g == gcd_nat(abs_int(a as int) as nat, abs_int(b as int) as nat),
        g >= 0,
        divides(g as int, abs_int(a as int)),
        divides(g as int, abs_int(b as int)),
        forall|d: int|
            d > 0 && #[trigger] divides(d, abs_int(a as int)) && divides(d, abs_int(b as int))
                ==> divides(d, g as int),
{
    proof {
        let x = abs_int(a as int) as nat;
        let y = abs_int(b as int) as nat;
        lemma_gcd_divides(x, y);
        assert forall|d: int|
            d > 0 && #[trigger] divides(d, abs_int(a as int)) && divides(
                d,
                abs_int(b as int),
            ) implies divides(d, gcd_nat(x, y) as int) by {
            lemma_gcd_greatest(x, y, d as nat);
        }
    }
    let mut x: i64 = if a < 0 { -a } else { a };
    let mut y: i64 = if b < 0 { -b } else { b };
    while y != 0
        invariant
            0 <= x,
            0 <= y,
            gcd_nat(x as nat, y as nat) == gcd_nat(
                abs_int(a as int) as nat,
                abs_int(b as int) as nat,
            ),
        decreases y,
    {
        let t: i64 = y;
        y = x % y;
        x = t;
    }
    x
}

/// The least common multiple of `|a|` and `|b|`: zero where either is zero.
pub fn lcm(a: i64, b: i64) -> (l: i64)
    requires
        a != i64::MIN,
        b != i64::MIN,
        a != 0 && b != 0 ==> (abs_int(a as int) / (gcd_nat(
            abs_int(a as int) as nat,
            abs_int(b as int) as nat,
        ) as int)) * abs_int(b as int) <= i64::MAX,
    ensures
        a == 0 || b == 0 ==> l == 0,
        a != 0 && b != 0 ==> l * gcd_nat(abs_int(a as int) as nat, abs_int(b as int) as nat)
            == abs_int(a as int) * abs_int(b as int),
        l >= 0,
{
    if a == 0 || b == 0 {
        0
    } else {
        let x: i64 = if a < 0 {
            -a
        } else {
            a
        };
        let y: i64 = if b < 0 {
            -b
        } else {
            b
        };
        let g = gcd(a, b);
        proof {
            lemma_gcd_divides(x as nat, y as nat);
            let gi = g as int;
            let q = (x as int) / gi;
            vstd::arithmetic::div_mod::lemma_fundamental_div_mod(x as int, gi);
            assert(x == gi * q);
            assert(q >= 0) by (nonlinear_arith)
                requires
                    x == gi * q,
                    x >= 0,
                    gi > 0,
            ;
            assert((q * y) * gi == x * y) by (nonlinear_arith)
                requires
                    x == gi * q,
            ;
            assert(q * y >= 0) by (nonlinear_arith)
                requires
                    q >= 0,
                    y >= 0,
            ;
        }
        (x / g) * y
    }
}

/// The greatest common divisor divides both numbers, and is positive
/// unless both are zero.
pub proof fn lemma_gcd_divides(a: nat, b: nat)
    ensures
        a > 0 || b > 0 ==> gcd_nat(a, b) > 0,
        gcd_nat(a, b) > 0 ==> a % gcd_nat(a, b) == 0 && b % gcd_nat(a, b) == 0,
        a == 0 && b == 0 ==> gcd_nat(a, b) == 0,
    decreases b,
{
    if b != 0 {
        lemma_gcd_divides(b, a % b);
        let g = gcd_nat(a, b) as int;
        assert(g == gcd_nat(b, a % b));
        assert(g > 0);
        let r = (a % b) as int;
        let q = (a / b) as int;
        vstd::arithmetic::div_mod::lemma_fundamental_div_mod(a as int, b as int);
        vstd::arithmetic::div_mod::lemma_fundamental_div_mod(b as int, g);
        vstd::arithmetic::div_mod::lemma_fundamental_div_mod(r, g);
        let kb = (b as int) / g;
        let kr = r / g;
        assert(b == g * kb);
        assert(r == g * kr);
        assert(a == (kb * q + kr) * g) by (nonlinear_arith)
            requires
                a == b * q + r,
                b == g * kb,
                r == g * kr,
        ;
        vstd::arithmetic::div_mod::lemma_mod_multiples_basic(kb * q + kr, g);
    } else if a > 0 {
        vstd::arithmetic::div_mod::lemma_mod_self_0(a as int);
        vstd::arithmetic::div_mod::lemma_small_mod(0, a);
    }
}

/// Every common divisor of two numbers divides their greatest common
/// divisor.
pub proof fn lemma_gcd_greatest(a: nat, b: nat, d: nat)
    requires
        d > 0,
        a % d == 0,
        b % d == 0,
    ensures
        gcd_nat(a, b) % d == 0,
    decreases b,
{
    if b != 0 {
        let r = (a % b) as int;
        let q = (a / b) as int;
        let di = d as int;
        vstd::arithmetic::div_mod::lemma_fundamental_div_mod(a as int, b as int);
        vstd::arithmetic::div_mod::lemma_fundamental_div_mod(a as int, di);
        vstd::arithmetic::div_mod::lemma_fundamental_div_mod(b as int, di);
        let ka = (a as int) / di;
        let kb = (b as int) / di;
        assert(r == (ka - kb * q) * di) by (nonlinear_arith)
            requires
                a == b * q + r,
                a == di * ka,
                b == di * kb,
        ;
        vstd::arithmetic::div_mod::lemma_mod_multiples_basic(ka - kb * q, di);
        lemma_gcd_greatest(b, a % b, d);
    }
}

/// `base` raised to the power `exp`.
pub open spec fn power(base: int, exp: nat) -> int
    decreases exp,
{
    if exp == 0 {
        1
    } else {
        base * power(base, (exp - 1) as nat)
    }
}

/// Squaring the base halves the exponent.
pub proof fn lemma_power_halves(base: int, exp: nat)
    ensures
        power(base, exp) == power(base * base, exp / 2) * if exp % 2 == 1 {
            base
        } else {
            1
        },
    decreases exp,
{
    if exp >= 2 {
        lemma_power_halves(base, (exp - 2) as nat);
        let rest = power(base * base, ((exp - 2) / 2) as nat);
        let tail: int = if exp % 2 == 1 {
            base
        } else {
            1
        };
        assert(power(base, exp) == base * power(base, (exp - 1) as nat));
        assert(power(base, (exp - 1) as nat) == base * power(base, (exp - 2) as nat));
        assert(power(base, exp) == base * (base * power(base, (exp - 2) as nat)));
        assert(power(base * base, exp / 2) == (base * base) * rest);
        assert(base * (base * (rest * tail)) == ((base * base) * rest) * tail)
            by (nonlinear_arith);
    } else if exp == 1 {
        assert(power(base, 1) == base * power(base, 0));
        assert(power(base * base, 0) == 1);
    }
}

/// The remainder of `x` divided by `m` with the sign of `x`, as machine
/// integers give it.
pub open spec fn rem_signed(x: int, m: int) -> int {
    if x >= 0 {
        x % m
    } else {
        -((-x) % m)
    }
}

/// The signed remainder of a product depends on the signed remainders of
/// the factors only.
#[verifier::rlimit(40)]
pub proof fn lemma_rem_signed_mul(x: int, y: int, m: int)
    requires
        m >= 1,
    ensures
        rem_signed(rem_signed(x, m) * rem_signed(y, m), m) == rem_signed(x * y, m),
        -m < rem_signed(x, m) < m,
        rem_signed(rem_signed(x, m), m) == rem_signed(x, m),
{
    let ax = if x >= 0 {
        x
    } else {
        -x
    };
    let ay = if y >= 0 {
        y
    } else {
        -y
    };
    let rx = ax % m;
    let ry = ay % m;
    vstd::arithmetic::div_mod::lemma_mul_mod_noop(ax, ay, m);
    vstd::arithmetic::div_mod::lemma_small_mod(rx as nat, m as nat);
    assert(rx * ry >= 0) by (nonlinear_arith)
        requires
            rx >= 0,
            ry >= 0,
    ;
    assert(ax * ay >= 0) by (nonlinear_arith)
        requires
            ax >= 0,
            ay >= 0,
    ;
    let same_sign = (x >= 0) == (y >= 0);
    assert(x * y == if same_sign {
        ax * ay
    } else {
        -(ax * ay)
    }) by (nonlinear_arith)
        requires
            ax == if x >= 0 {
                x
            } else {
                -x
            },
            ay == if y >= 0 {
                y
            } else {
                -y
            },
            same_sign == ((x >= 0) == (y >= 0)),
    ;
    let tx = rem_signed(x, m);
    let ty = rem_signed(y, m);
    assert(tx * ty == if same_sign {
        rx * ry
    } else {
        -(rx * ry)
    }) by (nonlinear_arith)
        requires
            tx == if x >= 0 {
                rx
            } else {
                -rx
            },
            ty == if y >= 0 {
                ry
            } else {
                -ry
            },
            same_sign == ((x >= 0) == (y >= 0)),
    ;
    vstd::arithmetic::div_mod::lemma_small_mod(0, m as nat);
}

/// Reducing the base to its signed remainder does not change the signed
/// remainder of a power.
pub proof fn lemma_power_rem_signed(base: int, exp: nat, m: int)
    requires
        m >= 1,
    ensures
        rem_signed(power(rem_signed(base, m), exp), m) == rem_signed(power(base, exp), m),
    decreases exp,
{
    if exp > 0 {
        let reduced = rem_signed(base, m);
        lemma_power_rem_signed(base, (exp - 1) as nat, m);
        lemma_rem_signed_mul(reduced, power(reduced, (exp - 1) as nat), m);
        lemma_rem_signed_mul(base, power(base, (exp - 1) as nat), m);
    }
}

/// `base` raised to `exp`, modulo `modulo`, by repeated squaring: the
/// remainder of the power, with the sign of the power. An exponent that is
/// not positive gives the empty product.
#[verifier::rlimit(40)]
pub fn mod_pow(base: i64, exp: i64, modulo: i64) -> (r: i64)
    requires
        modulo >= 1,
        (modulo - 1) * (modulo - 1) <= i64::MAX,
    ensures
        r == rem_signed(
            power(
                base as int,
                if exp > 0 {
                    exp as nat
                } else {
                    0nat
                },
            ),
            modulo as int,
        ),
        base >= 0 ==> r == power(
            base as int,
            if exp > 0 {
                exp as nat
            } else {
                0nat
            },
        ) % (modulo as int),
{
    if modulo == 1 {
        return 0;
    }
    let ghost m = modulo as int;
    let ghost whole = power(
        base as int,
        if exp > 0 {
            exp as nat
        } else {
            0nat
        },
    );
    let ghost target = rem_signed(whole, m);
    let mut result: i64 = 1;
    let mut b: i64 = base % modulo;
    let mut e: i64 = exp;
    proof {
        if exp > 0 {
            lemma_power_rem_signed(base as int, exp as nat, m);
        }
        assert(power(b as int, 0) == 1);
        vstd::arithmetic::div_mod::lemma_small_mod(1, m as nat);
        assert(1 * power(b as int, e as nat) == power(b as int, e as nat)) by (nonlinear_arith);
        if base >= 0 {
            lemma_power_sign(base as int, if exp > 0 {
                exp as nat
            } else {
                0nat
            });
        }
    }
    while e > 0
        invariant
            modulo >= 2,
            m == modulo,
            (modulo - 1) * (modulo - 1) <= i64::MAX,
            -modulo < result < modulo,
            -modulo < b < modulo,
            e > 0 ==> rem_signed(result * power(b as int, e as nat), m) == target,
            e <= 0 ==> result == target,
        decreases e,
    {
        let ghost e0 = e as nat;
        let ghost b0 = b as int;
        let ghost r0 = result as int;
        proof {
            lemma_power_halves(b0, e0);
            assert(-((m - 1) * (m - 1)) <= r0 * b0 <= (m - 1) * (m - 1)) by (nonlinear_arith)
                requires
                    -(m - 1) <= r0 <= m - 1,
                    -(m - 1) <= b0 <= m - 1,
            ;
            assert(0 <= b0 * b0 <= (m - 1) * (m - 1)) by (nonlinear_arith)
                requires
                    -(m - 1) <= b0 <= m - 1,
            ;
        }
        let odd = e % 2 == 1;
        if odd {
            result = (result * b) % modulo;
        }
        e = e / 2;
        b = (b * b) % modulo;
        proof {
            let half = power(b0 * b0, e0 / 2);
            let tail: int = if e0 % 2 == 1 {
                b0
            } else {
                1
            };
            assert(r0 * (half * tail) == (r0 * tail) * half) by (nonlinear_arith);
            assert(r0 * tail == if e0 % 2 == 1 {
                r0 * b0
            } else {
                r0
            }) by (nonlinear_arith)
                requires
                    tail == if e0 % 2 == 1 {
                        b0
                    } else {
                        1
                    },
            ;
            lemma_rem_signed_mul(r0 * tail, half, m);
            lemma_rem_signed_mul(r0, 1, m);
            lemma_power_rem_signed(b0 * b0, e0 / 2, m);
            lemma_rem_signed_mul(result as int, power(b as int, e0 / 2), m);
            assert(result == rem_signed(r0 * tail, m)) by {
                if e0 % 2 == 1 {
                } else {
                    assert(r0 * 1 == r0) by (nonlinear_arith);
                    vstd::arithmetic::div_mod::lemma_small_mod(
                        (if r0 >= 0 {
                            r0
                        } else {
                            -r0
                        }) as nat,
                        m as nat,
                    );
                }
            }
            assert(b == rem_signed(b0 * b0, m));
            if e <= 0 {
                assert(power(b as int, 0) == 1);
                assert(result * 1 == result) by (nonlinear_arith);
                vstd::arithmetic::div_mod::lemma_small_mod(
                    (if result >= 0 {
                        result as int
                    } else {
                        -(result as int)
                    }) as nat,
                    m as nat,
                );
            }
        }
    }
    result
}

/// A power of a number that is not negative is not negative.
pub proof fn lemma_power_sign(base: int, exp: nat)
    requires
        base >= 0,
    ensures
        power(base, exp) >= 0,
    decreases exp,
{
    if exp > 0 {
        lemma_power_sign(base, (exp - 1) as nat);
        assert(base * power(base, (exp - 1) as nat) >= 0) by (nonlinear_arith)
            requires
                base >= 0,
                power(base, (exp - 1) as nat) >= 0,
        ;
    }
}

/// The product of the integers from 1 to `n`.
pub open spec fn factorial_of(n: nat) -> nat
    decreases n,
{
    if n == 0 {
        1
    } else {
        n * factorial_of((n - 1) as nat)
    }
}

/// Factorials grow with their argument and are positive.
pub proof fn lemma_factorial_grows(i: nat, j: nat)
    requires
        i <= j,
    ensures
        1 <= factorial_of(i) <= factorial_of(j),
    decreases j,
{
    if j > 0 {
        if i < j {
            lemma_factorial_grows(i, (j - 1) as nat);
            assert(j * factorial_of((j - 1) as nat) >= factorial_of((j - 1) as nat))
                by (nonlinear_arith)
                requires
                    j >= 1,
            ;
        } else {
            lemma_factorial_grows((j - 1) as nat, (j - 1) as nat);
            assert(j * factorial_of((j - 1) as nat) >= 1) by (nonlinear_arith)
                requires
                    j >= 1,
                    factorial_of((j - 1) as nat) >= 1,
            ;
        }
    }
}

/// Whether `table` lists the factorials from `0!` up to `n!`.
pub open spec fn is_factorial_table(table: Seq<i64>, n: nat) -> bool {
    &&& table.len() > n
    &&& forall|i: int| 0 <= i <= n ==> #[trigger] table[i] == factorial_of(i as nat)
}

/// The factorials from `0!` to `n!`.
pub fn factorial(n: usize) -> (fact: Vec<i64>)
    requires
        n < usize::MAX,
        factorial_of(n as nat) <= i64::MAX,
    ensures
        fact@.len() == n + 1,
        is_factorial_table(fact@, n as nat),
{
    let mut fact: Vec<i64> = vec![1i64; n + 1];
    let mut i: usize = 1;
    while i <= n
        invariant
            1 <= i <= n + 1,
            n < usize::MAX,
            fact@.len() == n + 1,
            factorial_of(n as nat) <= i64::MAX,
            forall|k: int| 0 <= k < i ==> #[trigger] fact@[k] == factorial_of(k as nat),
        decreases n + 1 - i,
    {
        proof {
            lemma_factorial_grows(i as nat, n as nat);
            lemma_factorial_grows(0, n as nat);
            assert(i <= i64::MAX) by {
                lemma_factorial_at_least(n as nat);
            }
            assert(factorial_of(i as nat) == i * factorial_of((i - 1) as nat));
            assert(fact@[i - 1] * i == i * factorial_of((i - 1) as nat)) by (nonlinear_arith)
                requires
                    fact@[i - 1] == factorial_of((i - 1) as nat),
            ;
        }
        let next = fact[i - 1] * (i as i64);
        fact.set(i, next);
        i += 1;
    }
    fact
}

/// A factorial is at least its argument.
pub proof fn lemma_factorial_at_least(n: nat)
    ensures
        factorial_of(n) >= n,
        factorial_of(n) >= 1,
    decreases n,
{
    if n > 0 {
        lemma_factorial_at_least((n - 1) as nat);
        assert(n * factorial_of((n - 1) as nat) >= n) by (nonlinear_arith)
            requires
                factorial_of((n - 1) as nat) >= 1,
        ;
    }
}

/// The factorials from `0!` to `n!`, each modulo `modulo`.
pub fn mod_factorial(n: usize, modulo: i64) -> (fact: Vec<i64>)
    requires
        n < usize::MAX,
        modulo >= 1,
        n <= i64::MAX,
        (modulo - 1) * n <= i64::MAX,
    ensures
        fact@.len() == n + 1,
        fact@[0] == 1,
        forall|i: int|
            1 <= i <= n ==> #[trigger] fact@[i] == factorial_of(i as nat) % (modulo as nat),
{
    let mut fact: Vec<i64> = vec![1i64; n + 1];
    let mut i: usize = 1;
    while i <= n
        invariant
            1 <= i <= n + 1,
            n < usize::MAX,
            n <= i64::MAX,
            modulo >= 1,
            (modulo - 1) * n <= i64::MAX,
            fact@.len() == n + 1,
            fact@[0] == 1,
            forall|k: int|
                1 <= k < i ==> #[trigger] fact@[k] == factorial_of(k as nat) % (modulo as nat),
        decreases n + 1 - i,
    {
        let prev = fact[i - 1];
        proof {
            let m = modulo as int;
            let before = factorial_of((i - 1) as nat) as int;
            assert(factorial_of(i as nat) == i * factorial_of((i - 1) as nat));
            if i == 1 {
                assert(factorial_of(0) == 1);
                assert(before == 1);
                assert(prev == 1);
                assert(prev * i == 1) by (nonlinear_arith)
                    requires
                        prev == 1,
                        i == 1,
                ;
            } else {
                assert(0 <= prev <= m - 1);
                vstd::arithmetic::div_mod::lemma_mul_mod_noop_left(before, i as int, m);
            }
            assert(prev * i <= (m - 1) * n || i == 1) by (nonlinear_arith)
                requires
                    i == 1 || 0 <= prev <= m - 1,
                    1 <= i <= n,
            ;
            assert(prev * i >= 0) by (nonlinear_arith)
                requires
                    prev >= 0,
                    i >= 1,
            ;
            assert(before * i == i * before) by (nonlinear_arith);
        }
        let next = (prev * (i as i64)) % modulo;
        fact.set(i, next);
        i += 1;
    }
    fact
}

/// The number of ways to choose `r` of `n` things without regard to
/// order, from a table of factorials; zero where `r` exceeds `n`.
pub fn combination(n: usize, r: usize, factorial: &[i64]) -> (c: i64)
    requires
        r <= n ==> is_factorial_table(factorial@, n as nat),
    ensures
        c == binomial(n as nat, r as nat),
{
    if r > n {
        proof {
            lemma_binomial_zero(n as nat, r as nat);
        }
        return 0;
    }
    proof {
        lemma_factorial_product(n as nat, r as nat);
        lemma_binomial_factorials(n as nat, r as nat);
    }
    factorial[n] / (factorial[r] * factorial[n - r])
}

/// The factorials of two numbers multiply to no more than the factorial
/// of their sum.
pub proof fn lemma_factorial_product(n: nat, r: nat)
    requires
        r <= n,
    ensures
        1 <= factorial_of(r) * factorial_of((n - r) as nat) <= factorial_of(n),
        1 <= factorial_of((n - r) as nat) <= factorial_of(n),
    decreases n,
{
    lemma_factorial_grows((n - r) as nat, n);
    lemma_factorial_grows(0, r);
    lemma_factorial_grows(0, (n - r) as nat);
    let a = factorial_of(r);
    let b = factorial_of((n - r) as nat);
    assert(a * b >= 1) by (nonlinear_arith)
        requires
            a >= 1,
            b >= 1,
    ;
    if r == 0 {
        assert(a * b == b) by (nonlinear_arith)
            requires
                a == 1,
        ;
    } else {
        lemma_factorial_product((n - 1) as nat, (r - 1) as nat);
        let a1 = factorial_of((r - 1) as nat);
        let f1 = factorial_of((n - 1) as nat);
        assert(a == r * a1);
        assert(factorial_of(n) == n * f1);
        assert((r * a1) * b <= n * f1) by (nonlinear_arith)
            requires
                a1 * b <= f1,
                r <= n,
                a1 * b >= 0,
        ;
    }
}

/// The number of ways to choose `r` of `n` things, by the rule of Pascal's
/// triangle.
pub open spec fn binomial(n: nat, r: nat) -> nat
    decreases n,
{
    if r == 0 {
        1
    } else if n == 0 {
        0
    } else {
        binomial((n - 1) as nat, (r - 1) as nat) + binomial((n - 1) as nat, r)
    }
}

/// Above the diagonal Pascal's triangle holds zeros.
pub proof fn lemma_binomial_zero(n: nat, r: nat)
    requires
        r > n,
    ensures
        binomial(n, r) == 0,
    decreases n,
{
    if n > 0 {
        lemma_binomial_zero((n - 1) as nat, (r - 1) as nat);
        lemma_binomial_zero((n - 1) as nat, r);
    }
}

/// A factorial is the product of a binomial coefficient and the
/// factorials of the two parts: the quotient that `combination` computes
/// is the binomial coefficient.
pub proof fn lemma_binomial_factorials(n: nat, r: nat)
    requires
        r <= n,
    ensures
        factorial_of(n) == binomial(n, r) * (factorial_of(r) * factorial_of((n - r) as nat)),
        factorial_of(n) / (factorial_of(r) * factorial_of((n - r) as nat)) == binomial(n, r),
    decreases n,
{
    let fr = factorial_of(r) as int;
    let fs = factorial_of((n - r) as nat) as int;
    let fn_ = factorial_of(n) as int;
    let c = binomial(n, r) as int;
    lemma_factorial_product(n, r);
    if r == 0 {
        assert(factorial_of(0) == 1);
        assert(1 * (1 * fs) == fs) by (nonlinear_arith);
    } else if r == n {
        lemma_binomial_factorials((n - 1) as nat, (r - 1) as nat);
        lemma_binomial_zero((n - 1) as nat, r);
        assert(factorial_of(0) == 1);
        assert(binomial(n, r) == binomial((n - 1) as nat, (r - 1) as nat));
        let f1 = factorial_of((n - 1) as nat) as int;
        let c1 = binomial((n - 1) as nat, (r - 1) as nat) as int;
        lemma_factorial_at_least((n - 1) as nat);
        assert(f1 == c1 * (f1 * 1));
        assert(c1 == 1) by (nonlinear_arith)
            requires
                f1 == c1 * (f1 * 1),
                f1 >= 1,
        ;
        assert(1 * (fr * 1) == fr) by (nonlinear_arith);
    } else {
        lemma_binomial_factorials((n - 1) as nat, (r - 1) as nat);
        lemma_binomial_factorials((n - 1) as nat, r);
        let f1 = factorial_of((n - 1) as nat) as int;
        let fr1 = factorial_of((r - 1) as nat) as int;
        let fs1 = factorial_of((n - r - 1) as nat) as int;
        let ca = binomial((n - 1) as nat, (r - 1) as nat) as int;
        let cb = binomial((n - 1) as nat, r) as int;
        assert(fr == r * fr1);
        assert(fs == (n - r) * fs1);
        assert(fn_ == n * f1);
        assert(f1 == ca * (fr1 * fs));
        assert(f1 == cb * (fr * fs1));
        assert((ca + cb) * (fr * fs) == n * f1) by (nonlinear_arith)
            requires
                fr == r * fr1,
                fs == (n - r) * fs1,
                f1 == ca * (fr1 * fs),
                f1 == cb * (fr * fs1),
        ;
    }
    let whole = fr * fs;
    assert(fn_ == c * whole);
    assert(whole >= 1);
    assert(c * whole == whole * c + 0) by (nonlinear_arith);
    vstd::arithmetic::div_mod::lemma_fundamental_div_mod_converse(fn_, whole, c, 0);
}

/// The number of ways to arrange `r` of `n` things in order, from a table
/// of factorials; zero where `r` exceeds `n`.
pub fn permutation(n: usize, r: usize, factorial: &[i64]) -> (p: i64)
    requires
        r <= n ==> is_factorial_table(factorial@, n as nat),
    ensures
        r > n ==> p == 0,
        r <= n ==> p == factorial_of(n as nat) / factorial_of((n - r) as nat),
{
    if r > n {
        return 0;
    }
    proof {
        lemma_factorial_product(n as nat, r as nat);
    }
    factorial[n] / factorial[n - r]
}

/// Whether every entry of `table` up to index `n` is a residue modulo
/// `modulo`.
pub open spec fn is_residue_table(table: Seq<i64>, n: nat, modulo: int) -> bool {
    &&& table.len() > n
    &&& forall|i: int| 0 <= i <= n ==> 0 <= #[trigger] table[i] < modulo
}

/// The number of combinations modulo `modulo`, from tables of factorials
/// and of their inverses modulo `modulo`; zero where `r` exceeds `n`.
pub fn mod_combination(
    n: usize,
    r: usize,
    factorial: &[i64],
    inv_factorial: &[i64],
    modulo: i64,
) -> (c: i64)
    requires
        modulo >= 1,
        (modulo - 1) * (modulo - 1) <= i64::MAX,
        r <= n ==> is_residue_table(factorial@, n as nat, modulo as int) && is_residue_table(
            inv_factorial@,
            n as nat,
            modulo as int,
        ),
    ensures
        r > n ==> c == 0,
        r <= n ==> c == (factorial@[n as int] * inv_factorial@[r as int] * inv_factorial@[n - r])
            % (modulo as int),
{
    if r > n {
        return 0;
    }
    let f = factorial[n];
    let ir = inv_factorial[r];
    let inr = inv_factorial[n - r];
    proof {
        let m = modulo as int;
        lemma_residue_product(f as int, ir as int, m);
        let first = (f * ir) % m;
        lemma_residue_product(first, inr as int, m);
        vstd::arithmetic::div_mod::lemma_mul_mod_noop_left(f * ir, inr as int, m);
    }
    (f * ir % modulo) * inr % modulo
}

/// The product of two residues modulo `m` is not negative and fits where
/// the square of `m - 1` fits.
pub proof fn lemma_residue_product(a: int, b: int, m: int)
    requires
        m >= 1,
        0 <= a < m,
        0 <= b < m,
    ensures
        0 <= a * b <= (m - 1) * (m - 1),
        0 <= (a * b) % m < m,
{
    assert(0 <= a * b <= (m - 1) * (m - 1)) by (nonlinear_arith)
        requires
            0 <= a <= m - 1,
            0 <= b <= m - 1,
    ;
}

/// The number of arrangements modulo `modulo`, from tables of factorials
/// and of their inverses modulo `modulo`; zero where `r` exceeds `n`.
pub fn mod_permutation(
    n: usize,
    r: usize,
    factorial: &[i64],
    inv_factorial: &[i64],
    modulo: i64,
) -> (p: i64)
    requires
        modulo >= 1,
        (modulo - 1) * (modulo - 1) <= i64::MAX,
        r <= n ==> is_residue_table(factorial@, n as nat, modulo as int) && is_residue_table(
            inv_factorial@,
            n as nat,
            modulo as int,
        ),
    ensures
        r > n ==> p == 0,
        r <= n ==> p == (factorial@[n as int] * inv_factorial@[n - r]) % (modulo as int),
{
    if r > n {
        return 0;
    }
    let f = factorial[n];
    let inr = inv_factorial[n - r];
    proof {
        lemma_residue_product(f as int, inr as int, modulo as int);
    }
    (f * inr) % modulo
}

/// The coefficients that Euclid's algorithm, run backwards, finds for `a`
/// and `b`.
pub open spec fn bezout(a: int, b: int) -> (int, int)
    decreases a,
{
    if a <= 0 {
        (0, 1)
    } else {
        let inner = bezout(b % a, a);
        (inner.1 - (b / a) * inner.0, inner.0)
    }
}

/// The greatest common divisor of `a` and `b` with the coefficients `x`
/// and `y` of `bezout`, for which `a * x + b * y` is that divisor.
#[verifier::rlimit(40)]
pub fn extended_gcd(a: i64, b: i64) -> (r: (i64, i64, i64))
    requires
        a >= 0,
        b >= 0,
    ensures
        r.0 == gcd_nat(a as nat, b as nat),
        (r.1 as int, r.2 as int) == bezout(a as int, b as int),
        a * r.1 + b * r.2 == r.0,
        a == 0 ==> r.1 == 0 && r.2 == 1,
        a != 0 && b != 0 ==> -b <= r.1 <= b && -a <= r.2 <= a,
        a != 0 && b == 0 ==> r.1 == 1 && r.2 == 0,
    decreases a,
{
    if a == 0 {
        proof {
            lemma_gcd_symmetric(0, b as nat);
            assert(0 * 0 + b * 1 == b) by (nonlinear_arith);
        }
        (b, 0, 1)
    } else {
        let rest = b % a;
        let quotient = b / a;
        let (g, y1, x1) = extended_gcd(rest, a);
        proof {
            let rest_int = rest as int;
            let q = quotient as int;
            vstd::arithmetic::div_mod::lemma_fundamental_div_mod(b as int, a as int);
            assert(b == a * q + rest_int);
            assert(q >= 0) by (nonlinear_arith)
                requires
                    b == a * q + rest_int,
                    0 <= rest_int < a,
                    b >= 0,
            ;
            lemma_gcd_symmetric(a as nat, b as nat);
            lemma_gcd_symmetric(rest as nat, a as nat);
            assert(gcd_nat(b as nat, a as nat) == gcd_nat(a as nat, (b as nat) % (a as nat)));
            assert(a * (x1 - q * y1) + b * y1 == rest_int * y1 + a * x1) by (nonlinear_arith)
                requires
                    b == a * q + rest_int,
            ;
            if rest != 0 {
                assert(-(a as int) <= y1 <= a);
                assert(-rest_int <= x1 <= rest_int);
                assert(-(a * q) <= q * y1 <= a * q) by (nonlinear_arith)
                    requires
                        -(a as int) <= y1 <= a,
                        q >= 0,
                ;
            } else {
                assert(y1 == 0 && x1 == 1);
                assert(q * y1 == 0) by (nonlinear_arith)
                    requires
                        y1 == 0,
                ;
                if b != 0 {
                    assert(q >= 1) by (nonlinear_arith)
                        requires
                            b == a * q + rest_int,
                            rest_int == 0,
                            b > 0,
                            a > 0,
                            q >= 0,
                    ;
                    assert(b >= a) by (nonlinear_arith)
                        requires
                            b == a * q + rest_int,
                            rest_int == 0,
                            q >= 1,
                            a > 0,
                    ;
                } else {
                    assert(q == 0) by (nonlinear_arith)
                        requires
                            b == a * q + rest_int,
                            rest_int == 0,
                            b == 0,
                            a > 0,
                    ;
                }
            }
        }
        let x = x1 - quotient * y1;
        let y = y1;
        (g, x, y)
    }
}

/// The greatest common divisor does not depend on the order of the two
/// numbers.
pub proof fn lemma_gcd_symmetric(a: nat, b: nat)
    ensures
        gcd_nat(a, b) == gcd_nat(b, a),
    decreases a + b,
{
    if a == 0 {
        assert(gcd_nat(b, 0) == b);
        if b != 0 {
            assert(gcd_nat(0, b) == gcd_nat(b, 0nat % b));
        }
    } else if b == 0 {
        assert(gcd_nat(0, a) == gcd_nat(a, 0nat % a));
    } else if a < b {
        assert(gcd_nat(a, b) == gcd_nat(b, a % b));
        vstd::arithmetic::div_mod::lemma_small_mod(a, b);
    } else if b < a {
        assert(gcd_nat(b, a) == gcd_nat(a, b % a));
        vstd::arithmetic::div_mod::lemma_small_mod(b, a);
    }
}

/// The first coefficient of `bezout` for `a` and `m`, brought into the
/// range from 0 up to `m`: the inverse of `a` modulo `m` where there is
/// one.
pub open spec fn inverse_of(a: int, m: int) -> int {
    bezout(a, m).0 % m
}

/// Where `a` and `m` have no common divisor but 1, the product of `a` and
/// `inverse_of(a, m)` leaves the remainder of 1 modulo `m`.
pub proof fn lemma_inverse_of(a: int, m: int, x: int, y: int)
    requires
        m >= 1,
        a * x + m * y == 1,
        bezout(a, m).0 == x,
    ensures
        0 <= inverse_of(a, m) < m,
        (a * inverse_of(a, m)) % m == 1int % m,
{
    vstd::arithmetic::div_mod::lemma_mul_mod_noop_right(a, x, m);
    assert((a * x) % m == 1int % m) by {
        assert(a * x == m * (-y) + 1) by (nonlinear_arith)
            requires
                a * x + m * y == 1,
        ;
        vstd::arithmetic::div_mod::lemma_mod_multiples_vanish(-y, 1, m);
    }
}

/// Taking the remainder, adding the modulus and taking the remainder
/// again, as machine integers do it, gives the remainder that is never
/// negative.
pub proof fn lemma_remainder_lifted(x: int, m: int)
    requires
        m >= 1,
    ensures
        x >= 0 ==> ((x % m) + m) % m == x % m,
        x < 0 ==> ((-((-x) % m)) + m) % m == x % m,
{
    if x >= 0 {
        vstd::arithmetic::div_mod::lemma_mod_add_multiples_vanish(x % m, m);
        vstd::arithmetic::div_mod::lemma_mod_twice(x, m);
    } else {
        let t = (-x) % m;
        vstd::arithmetic::div_mod::lemma_fundamental_div_mod(-x, m);
        let q = (-x) / m;
        if t == 0 {
            assert(x == (-q) * m) by (nonlinear_arith)
                requires
                    -x == m * q + t,
                    t == 0,
            ;
            vstd::arithmetic::div_mod::lemma_mod_multiples_basic(-q, m);
            vstd::arithmetic::div_mod::lemma_mod_self_0(m);
        } else {
            assert(x == m * (-q - 1) + (m - t)) by (nonlinear_arith)
                requires
                    -x == m * q + t,
            ;
            vstd::arithmetic::div_mod::lemma_fundamental_div_mod_converse(x, m, -q - 1, m - t);
            vstd::arithmetic::div_mod::lemma_small_mod((m - t) as nat, m as nat);
        }
    }
}

/// The inverse of `a` modulo `m`: the number from 0 up to `m` whose
/// product with `a` leaves the remainder of 1; none where `a` and `m`
/// have a common divisor other than 1.
pub fn mod_inv(a: i64, m: i64) -> (inverse: Option<i64>)
    requires
        a >= 0,
        m >= 1,
        2 * m <= i64::MAX,
    ensures
        inverse is None <==> gcd_nat(a as nat, m as nat) != 1,
        inverse is Some ==> inverse->Some_0 == inverse_of(a as int, m as int) && 0
            <= inverse->Some_0 < m && (a * inverse->Some_0) % (m as int) == 1int % (m as int),
{
    let (g, x, other) = extended_gcd(a, m);
    if g != 1 {
        None
    } else {
        let reduced = ((x % m) + m) % m;
        proof {
            lemma_remainder_lifted(x as int, m as int);
            lemma_inverse_of(a as int, m as int, x as int, other as int);
        }
        Some(reduced)
    }
}

/// The inverses of the factorials from `0!` to `n!` modulo `modulo`,
/// worked back from the power `modulo - 2` of the last entry of
/// `factorial`: the inverse of `n!` where `modulo` is prime and `factorial`
/// holds the factorials modulo it.
pub fn mod_inv_factorial(n: usize, modulo: i64, factorial: &[i64]) -> (inverses: Vec<i64>)
    requires
        n < usize::MAX,
        n <= i64::MAX,
        modulo >= 1,
        (modulo - 1) * (modulo - 1) <= i64::MAX,
        (modulo - 1) * n <= i64::MAX,
        n > 0 ==> factorial@.len() > n && factorial@[n as int] >= 0,
    ensures
        inverses@.len() == n + 1,
        inverses@[0] == 1,
        n > 0 ==> inverses@[n as int] == power(
            factorial@[n as int] as int,
            if modulo > 2 {
                (modulo - 2) as nat
            } else {
                0nat
            },
        ) % (modulo as int),
        forall|i: int|
            1 <= i < n ==> #[trigger] inverses@[i] == (inverses@[i + 1] * (i + 1)) % (modulo as int),
{
    let mut inv_fact: Vec<i64> = vec![1i64; n + 1];
    if n > 0 {
        let last = mod_pow(factorial[n], modulo - 2, modulo);
        inv_fact.set(n, last);
        let mut i: usize = n - 1;
        while i >= 1
            invariant
                0 <= i < n,
                n < usize::MAX,
                n <= i64::MAX,
                modulo >= 1,
                (modulo - 1) * n <= i64::MAX,
                inv_fact@.len() == n + 1,
                inv_fact@[0] == 1,
                inv_fact@[n as int] == last,
                0 <= last < modulo,
                forall|k: int| i < k <= n ==> 0 <= #[trigger] inv_fact@[k] < modulo,
                forall|k: int|
                    i < k < n ==> #[trigger] inv_fact@[k] == (inv_fact@[k + 1] * (k + 1)) % (
                    modulo as int),
            decreases i,
        {
            let next = inv_fact[i + 1];
            proof {
                assert(0 <= next * (i + 1) <= (modulo - 1) * n) by (nonlinear_arith)
                    requires
                        0 <= next <= modulo - 1,
                        1 <= i + 1 <= n,
                ;
            }
            let value = (next * ((i + 1) as i64)) % modulo;
            inv_fact.set(i, value);
            i -= 1;
        }
    }
    inv_fact
}

/// Whether no number from 2 up to, not including, `bound` and below `k`
/// divides `k`.
pub open spec fn no_divisor_below(k: int, bound: int) -> bool {
    forall|d: int| 2 <= d < bound && d < k ==> #[trigger] (k % d) != 0
}

/// Whether `k` is prime: at least 2, and divided by no number from 2 up
/// to itself.
pub open spec fn is_prime(k: int) -> bool {
    k >= 2 && no_divisor_below(k, k)
}

/// A proper divisor of `k` comes with another: the quotient.
pub proof fn lemma_cofactor(k: int, d: int)
    requires
        2 <= d < k,
        k % d == 0,
    ensures
        2 <= k / d < k,
        k % (k / d) == 0,
        d * (k / d) == k,
{
    let c = k / d;
    vstd::arithmetic::div_mod::lemma_fundamental_div_mod(k, d);
    assert(k == d * c);
    assert(c >= 2) by (nonlinear_arith)
        requires
            k == d * c,
            2 <= d < k,
    ;
    assert(c < k) by (nonlinear_arith)
        requires
            k == d * c,
            2 <= d,
            c >= 2,
    ;
    assert(d * c == d * c + 0);
    vstd::arithmetic::div_mod::lemma_fundamental_div_mod_converse(k, c, d, 0);
}

/// What divides a divisor of `k` divides `k`.
pub proof fn lemma_divides_on(d: int, i: int, k: int)
    requires
        d > 0,
        i > 0,
        i % d == 0,
        k % i == 0,
    ensures
        k % d == 0,
{
    vstd::arithmetic::div_mod::lemma_fundamental_div_mod(i, d);
    vstd::arithmetic::div_mod::lemma_fundamental_div_mod(k, i);
    let a = i / d;
    let b = k / i;
    assert(k == (a * b) * d) by (nonlinear_arith)
        requires
            i == d * a,
            k == i * b,
    ;
    vstd::arithmetic::div_mod::lemma_mod_multiples_basic(a * b, d);
}

/// Crossing out the multiples of `i` from its square on, among the numbers
/// that nothing below `i` divides, leaves those that nothing up to `i`
/// divides.
pub proof fn lemma_sieve_step(k: int, i: int)
    requires
        2 <= i,
        2 <= k,
    ensures
        no_divisor_below(k, i + 1) == (no_divisor_below(k, i) && !(k >= i * i && k % i == 0)),
{
    let bound = i + 1;
    assert(i * i > i) by (nonlinear_arith)
        requires
            i >= 2,
    ;
    if no_divisor_below(k, i) {
        if i < k && k % i == 0 {
            lemma_cofactor(k, i);
            let c = k / i;
            if k < i * i {
                assert(c < i) by (nonlinear_arith)
                    requires
                        i * c == k,
                        k < i * i,
                        i >= 2,
                ;
                assert(k % c == 0);
            }
            assert(!no_divisor_below(k, bound));
        } else {
            assert forall|d: int| 2 <= d < bound && d < k implies #[trigger] (k % d) != 0 by {
                if d < i {
                    assert(k % d != 0);
                }
            }
        }
    } else {
        let d = choose|d: int| 2 <= d < i && d < k && #[trigger] (k % d) == 0;
        assert(k % d == 0);
    }
}

/// Where something below `i` divides `i`, what nothing below `i` divides
/// is not divided by `i` either.
pub proof fn lemma_sieve_skip(k: int, i: int)
    requires
        2 <= i,
        2 <= k,
        !no_divisor_below(i, i),
    ensures
        no_divisor_below(k, i + 1) == no_divisor_below(k, i),
{
    let bound = i + 1;
    let d = choose|d: int| 2 <= d < i && d < i && #[trigger] (i % d) == 0;
    if no_divisor_below(k, i) {
        if i < k && k % i == 0 {
            lemma_divides_on(d, i, k);
            assert(k % d == 0);
        }
        assert forall|e: int| 2 <= e < bound && e < k implies #[trigger] (k % e) != 0 by {
            if e < i {
                assert(k % e != 0);
            }
        }
    } else {
        let e = choose|e: int| 2 <= e < i && e < k && #[trigger] (k % e) == 0;
        assert(k % e == 0);
    }
}

/// Below the square of `i`, what nothing below `i` divides is prime.
pub proof fn lemma_sieve_done(k: int, i: int)
    requires
        2 <= i,
        2 <= k < i * i,
    ensures
        no_divisor_below(k, i) == is_prime(k),
{
    if no_divisor_below(k, i) {
        assert forall|d: int| 2 <= d < k && d < k implies #[trigger] (k % d) != 0 by {
            if d >= i && k % d == 0 {
                lemma_cofactor(k, d);
                let c = k / d;
                assert(c < i) by (nonlinear_arith)
                    requires
                        d * c == k,
                        k < i * i,
                        d >= i,
                        i >= 2,
                        c >= 2,
                ;
                assert(k % c == 0);
            }
        }
    } else {
        let d = choose|d: int| 2 <= d < i && d < k && #[trigger] (k % d) == 0;
        assert(k % d == 0);
    }
}

/// For every number up to `n` whether it is prime, by crossing out the
/// multiples of every prime from its square on.
#[verifier::rlimit(40)]
pub fn sieve(n: usize) -> (is_prime_table: Vec<bool>)
    requires
        n < usize::MAX,
    ensures
        is_prime_table@.len() == n + 1,
        forall|k: int| 0 <= k <= n ==> #[trigger] is_prime_table@[k] == is_prime(k),
{
    if n < 2 {
        return vec![false; n + 1];
    }
    let mut table: Vec<bool> = vec![true; n + 1];
    table.set(0, false);
    table.set(1, false);
    let mut i: usize = 2;
    while i <= n / i
        invariant
            2 <= i <= n,
            n < usize::MAX,
            table@.len() == n + 1,
            !table@[0],
            !table@[1],
            forall|k: int| 2 <= k <= n ==> #[trigger] table@[k] == no_divisor_below(k, i as int),
        decreases n - i,
    {
        proof {
            vstd::arithmetic::div_mod::lemma_fundamental_div_mod(n as int, i as int);
            assert(i * i <= n) by (nonlinear_arith)
                requires
                    i <= n / i,
                    n == i * (n / i) + n % i,
                    0 <= n % i,
                    i >= 2,
            ;
        }
        let ghost before = table@;
        proof {
            assert(i + 1 <= n) by (nonlinear_arith)
                requires
                    i * i <= n,
                    i >= 2,
            ;
            vstd::arithmetic::div_mod::lemma_mod_multiples_basic(i as int, i as int);
        }
        if table[i] {
            let mut j: usize = i * i;
            loop
                invariant_except_break
                    2 <= i,
                    i * i <= j <= n,
                    j % i == 0,
                    forall|k: int|
                        0 <= k <= n ==> #[trigger] table@[k] == (before[k] && !(i * i <= k < j && k
                            % (i as int) == 0)),
                invariant
                    n < usize::MAX,
                    table@.len() == n + 1,
                    before.len() == n + 1,
                    2 <= i <= n,
                    i * i <= n,
                ensures
                    forall|k: int|
                        0 <= k <= n ==> #[trigger] table@[k] == (before[k] && !(k >= i * i && k
                            % (i as int) == 0)),
                decreases n - j,
            {
                table.set(j, false);
                if n - j < i {
                    proof {
                        assert forall|k: int| 0 <= k <= n implies #[trigger] table@[k] == (before[k]
                            && !(k >= i * i && k % (i as int) == 0)) by {
                            if k > j {
                                lemma_next_multiple(k, j as int, i as int);
                            }
                        }
                    }
                    break ;
                }
                let ghost prev = j as int;
                j += i;
                proof {
                    vstd::arithmetic::div_mod::lemma_mod_add_multiples_vanish(prev, i as int);
                    assert forall|k: int| 0 <= k <= n implies #[trigger] table@[k] == (before[k]
                        && !(i * i <= k < j && k % (i as int) == 0)) by {
                        if prev < k < j {
                            lemma_next_multiple(k, prev, i as int);
                        }
                    }
                }
            }
            proof {
                assert forall|k: int| 2 <= k <= n implies #[trigger] table@[k] == no_divisor_below(
                    k,
                    i + 1,
                ) by {
                    lemma_sieve_step(k, i as int);
                }
            }
        } else {
            proof {
                assert forall|k: int| 2 <= k <= n implies #[trigger] table@[k] == no_divisor_below(
                    k,
                    i + 1,
                ) by {
                    lemma_sieve_skip(k, i as int);
                }
            }
        }
        i += 1;
    }
    proof {
        vstd::arithmetic::div_mod::lemma_fundamental_div_mod(n as int, i as int);
        assert(n < i * i) by (nonlinear_arith)
            requires
                i > n / i,
                n == i * (n / i) + n % i,
                n % i < i,
                i >= 2,
        ;
        assert forall|k: int| 0 <= k <= n implies #[trigger] table@[k] == is_prime(k) by {
            if k >= 2 {
                lemma_sieve_done(k, i as int);
            }
        }
    }
    table
}

/// No multiple of `i` lies strictly between a multiple and the next.
proof fn lemma_next_multiple(k: int, j: int, i: int)
    requires
        i > 0,
        j % i == 0,
        j < k < j + i,
    ensures
        k % i != 0,
{
    vstd::arithmetic::div_mod::lemma_fundamental_div_mod(j, i);
    vstd::arithmetic::div_mod::lemma_fundamental_div_mod(k, i);
    let a = j / i;
    let b = k / i;
    if k % i == 0 {
        assert(false) by (nonlinear_arith)
            requires
                j == i * a,
                k == i * b,
                j < k < j + i,
                i > 0,
        ;
    }
}

} // verus!
