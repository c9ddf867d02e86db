//! Sums over sequences of integers, and the 64-bit two's-complement value
//! that stands for an integer.

use vstd::prelude::*;

verus! {

/// The sum of the first `k` elements of `s`.
pub open spec fn prefix_sum_of(s: Seq<int>, k: int) -> int
    decreases k,
{
    if k <= 0 {
        0
    } else {
        prefix_sum_of(s, k - 1) + s[k - 1]
    }
}

/// The sum of the elements of `s` at the indices from `lo` up to, not
/// including, `hi`.
pub open spec fn range_sum_of(s: Seq<int>, lo: int, hi: int) -> int {
    prefix_sum_of(s, hi) - prefix_sum_of(s, lo)
}

/// The elements of a sequence of machine integers, as integers.
pub open spec fn ints_of(values: Seq<i64>) -> Seq<int> {
    Seq::new(values.len(), |i: int| values[i] as int)
}

/// `s` with `delta` added to the elements at the indices from `lo` up to,
/// not including, `hi`.
pub open spec fn add_to_range(s: Seq<int>, lo: int, hi: int, delta: int) -> Seq<int> {
    Seq::new(
        s.len(),
        |i: int|
            if lo <= i < hi {
                s[i] + delta
            } else {
                s[i]
            },
    )
}

/// `s` with `delta` added to the element at `idx`; `s` where `idx` is no
/// index of it.
pub open spec fn add_at(s: Seq<int>, idx: int, delta: int) -> Seq<int> {
    if 0 <= idx < s.len() {
        s.update(idx, s[idx] + delta)
    } else {
        s
    }
}

/// `s` with the element at `idx` replaced by `value`; `s` where `idx` is no
/// index of it.
pub open spec fn set_at(s: Seq<int>, idx: int, value: int) -> Seq<int> {
    if 0 <= idx < s.len() {
        s.update(idx, value)
    } else {
        s
    }
}

/// The 64-bit two's-complement integer congruent to `x` modulo 2^64: `x`
/// itself wherever `x` fits.
pub open spec fn wrap64(x: int) -> i64 {
    let m = x % 0x1_0000_0000_0000_0000;
    if m > i64::MAX {
        (m - 0x1_0000_0000_0000_0000) as i64
    } else {
        m as i64
    }
}

/// An integer that fits in 64 bits stands for itself.
pub proof fn lemma_wrap64_fits(x: int)
    requires
        i64::MIN <= x <= i64::MAX,
    ensures
        wrap64(x) == x,
{
}

/// Wrapping addition, subtraction and multiplication of the values that
/// stand for two integers give the value that stands for their sum,
/// difference and product.
pub proof fn lemma_wrap64_ops(a: int, b: int)
    ensures
        wrap64(a).wrapping_add(wrap64(b)) == wrap64(a + b),
        wrap64(a).wrapping_sub(wrap64(b)) == wrap64(a - b),
        wrap64(a).wrapping_mul(wrap64(b)) == wrap64(a * b),
{
    let r = 0x1_0000_0000_0000_0000int;
    let x = wrap64(a) as int;
    let y = wrap64(b) as int;
    assert(x % r == a % r);
    assert(y % r == b % r);
    vstd::arithmetic::div_mod::lemma_add_mod_noop(x, y, r);
    vstd::arithmetic::div_mod::lemma_add_mod_noop(a, b, r);
    vstd::arithmetic::div_mod::lemma_sub_mod_noop(x, y, r);
    vstd::arithmetic::div_mod::lemma_sub_mod_noop(a, b, r);
    vstd::arithmetic::div_mod::lemma_mul_mod_noop(x, y, r);
    vstd::arithmetic::div_mod::lemma_mul_mod_noop(a, b, r);
    assert((x + y) % r == (a + b) % r);
    assert((x - y) % r == (a - b) % r);
    assert((x * y) % r == (a * b) % r);
}

/// Changing one element changes every prefix sum that covers it by the
/// difference.
pub proof fn lemma_prefix_sum_update(s: Seq<int>, p: int, v: int, k: int)
    requires
        0 <= p < s.len(),
        0 <= k <= s.len(),
    ensures
        prefix_sum_of(s.update(p, v), k) == prefix_sum_of(s, k) + if p < k {
            v - s[p]
        } else {
            0
        },
    decreases k,
{
    if k > 0 {
        lemma_prefix_sum_update(s, p, v, k - 1);
    }
}

/// Adding `delta` to a range adds it to a prefix sum once for every element
/// of the range that the prefix covers.
pub proof fn lemma_prefix_sum_add_to_range(s: Seq<int>, lo: int, hi: int, delta: int, k: int)
    requires
        0 <= lo <= hi <= s.len(),
        0 <= k <= s.len(),
    ensures
        prefix_sum_of(add_to_range(s, lo, hi, delta), k) == prefix_sum_of(s, k) + delta * (if k
            <= lo {
            0
        } else if k <= hi {
            k - lo
        } else {
            hi - lo
        }),
    decreases k,
{
    if k > 0 {
        lemma_prefix_sum_add_to_range(s, lo, hi, delta, k - 1);
        let c = if k - 1 <= lo {
            0
        } else if k - 1 <= hi {
            k - 1 - lo
        } else {
            hi - lo
        };
        assert(delta * (c + 1) == delta * c + delta) by (nonlinear_arith);
    }
}

/// Where one sequence is another with `c` added to every element of a
/// range, its sum over the range is the other's plus `c` for every element.
pub proof fn lemma_range_sum_shifted(a: Seq<int>, b: Seq<int>, lo: int, hi: int, c: int)
    requires
        0 <= lo <= hi,
        hi <= a.len(),
        hi <= b.len(),
        forall|i: int| lo <= i < hi ==> a[i] == b[i] + c,
    ensures
        range_sum_of(a, lo, hi) == range_sum_of(b, lo, hi) + c * (hi - lo),
    decreases hi - lo,
{
    if lo < hi {
        lemma_range_sum_shifted(a, b, lo, hi - 1, c);
        assert(c * (hi - lo) == c * (hi - 1 - lo) + c) by (nonlinear_arith);
    } else {
        assert(c * (hi - lo) == 0) by (nonlinear_arith)
            requires
                hi - lo == 0,
        ;
    }
}

/// The sum over a range of one element is that element.
pub proof fn lemma_range_sum_one(s: Seq<int>, i: int)
    requires
        0 <= i,
    ensures
        range_sum_of(s, i, i + 1) == s[i],
{
}

/// `s` after the range additions of `updates` in turn: each adds its delta
/// to the elements from its first index to its second, both included.
pub open spec fn add_ranges(s: Seq<int>, updates: Seq<(int, int, int)>) -> Seq<int>
    decreases updates.len(),
{
    if updates.len() == 0 {
        s
    } else {
        add_to_range(
            add_ranges(s, updates.drop_last()),
            updates.last().0,
            updates.last().1 + 1,
            updates.last().2,
        )
    }
}

/// The number of indices that lie both from `l` to `r` and from `lo` to
/// `hi`, ends included.
pub open spec fn overlap(l: int, r: int, lo: int, hi: int) -> int {
    let first = if l >= lo {
        l
    } else {
        lo
    };
    let last = if r <= hi {
        r
    } else {
        hi
    };
    if first <= last {
        last - first + 1
    } else {
        0
    }
}

/// The sum of the deltas of `updates`, each counted once for every index
/// of its range that lies from `lo` to `hi`.
pub open spec fn deltas_over(updates: Seq<(int, int, int)>, lo: int, hi: int) -> int
    decreases updates.len(),
{
    if updates.len() == 0 {
        0
    } else {
        deltas_over(updates.drop_last(), lo, hi) + updates.last().2 * overlap(
            updates.last().0,
            updates.last().1,
            lo,
            hi,
        )
    }
}

/// After any sequence of range additions, the sum over a range is the sum
/// before them plus every delta once for each index it reached in the
/// range: what adding up a reference array gives that took the same
/// additions.
pub proof fn lemma_range_sum_after_range_adds(
    s: Seq<int>,
    updates: Seq<(int, int, int)>,
    lo: int,
    hi: int,
)
    requires
        0 <= lo <= hi < s.len(),
        forall|k: int|
            0 <= k < updates.len() ==> 0 <= (#[trigger] updates[k]).0 <= updates[k].1 < s.len(),
    ensures
        add_ranges(s, updates).len() == s.len(),
        range_sum_of(add_ranges(s, updates), lo, hi + 1) == range_sum_of(s, lo, hi + 1)
            + deltas_over(updates, lo, hi),
    decreases updates.len(),
{
    if updates.len() > 0 {
        let before = add_ranges(s, updates.drop_last());
        lemma_range_sum_after_range_adds(s, updates.drop_last(), lo, hi);
        let l = updates.last().0;
        let r = updates.last().1;
        let delta = updates.last().2;
        lemma_prefix_sum_add_to_range(before, l, r + 1, delta, hi + 1);
        lemma_prefix_sum_add_to_range(before, l, r + 1, delta, lo);
        let upper: int = if hi + 1 <= l {
            0
        } else if hi + 1 <= r + 1 {
            hi + 1 - l
        } else {
            r + 1 - l
        };
        let lower: int = if lo <= l {
            0
        } else if lo <= r + 1 {
            lo - l
        } else {
            r + 1 - l
        };
        assert(upper - lower == overlap(l, r, lo, hi));
        assert(delta * upper - delta * lower == delta * (upper - lower)) by (nonlinear_arith);
    }
}

} // verus!
