//! In-place rearrangements of vectors.

use vstd::prelude::*;

verus! {

/// `s` with the elements at the indices from `start` up to, not including,
/// `end` in reverse order.
pub open spec fn reversed_range<T>(s: Seq<T>, start: int, end: int) -> Seq<T> {
    Seq::new(
        s.len(),
        |i: int|
            if start <= i < end {
                s[start + end - 1 - i]
            } else {
                s[i]
            },
    )
}

/// `s` with its first `k` elements moved behind the others.
pub open spec fn rotated_left<T>(s: Seq<T>, k: int) -> Seq<T> {
    s.subrange(k, s.len() as int) + s.subrange(0, k)
}

/// `s` with the elements at `i` and `j` exchanged.
pub open spec fn swapped<T>(s: Seq<T>, i: int, j: int) -> Seq<T> {
    s.update(i, s[j]).update(j, s[i])
}

/// Reverses the part of `arr` from `start` up to, not including, `end`.
/// Where that is no part of `arr`, or holds no element, nothing changes.
pub fn reverse_range<T: Copy>(arr: &mut Vec<T>, start: usize, end: usize)
    ensures
        start < end <= old(arr)@.len() ==> final(arr)@ == reversed_range(
            old(arr)@,
            start as int,
            end as int,
        ),
        !(start < end <= old(arr)@.len()) ==> final(arr)@ == old(arr)@,
{
    if start < end && end <= arr.len() {
        let ghost before = arr@;
        let mut lo: usize = start;
        let mut hi: usize = end;
        while hi - lo > 1
            invariant
                start <= lo <= hi <= end <= arr@.len(),
                lo + hi == start + end,
                arr@.len() == before.len(),
                forall|i: int|
                    0 <= i < arr@.len() ==> #[trigger] arr@[i] == if start <= i < lo || hi <= i
                        < end {
                        before[start + end - 1 - i]
                    } else {
                        before[i]
                    },
            decreases hi - lo,
        {
            let front = arr[lo];
            let back = arr[hi - 1];
            arr.set(lo, back);
            arr.set(hi - 1, front);
            lo += 1;
            hi -= 1;
        }
        proof {
            assert(arr@ =~= reversed_range(before, start as int, end as int));
        }
    }
}

/// Moves the first `k` elements of `arr` behind the others, `k` taken
/// modulo the length.
pub fn rotate_left<T: Copy>(arr: &mut Vec<T>, k: usize)
    ensures
        old(arr)@.len() == 0 ==> final(arr)@ == old(arr)@,
        old(arr)@.len() > 0 ==> final(arr)@ == rotated_left(
            old(arr)@,
            (k as int) % (old(arr)@.len() as int),
        ),
{
    let n = arr.len();
    if n == 0 {
        return ;
    }
    let shift = k % n;
    let ghost before = arr@;
    if shift == 0 {
        proof {
            assert(arr@ =~= rotated_left(before, 0));
        }
        return ;
    }
    reverse_range(arr, 0, shift);
    reverse_range(arr, shift, n);
    reverse_range(arr, 0, n);
    proof {
        assert(arr@ =~= rotated_left(before, shift as int));
    }
}

/// Moves the last `k` elements of `arr` before the others, `k` taken
/// modulo the length.
pub fn rotate_right<T: Copy>(arr: &mut Vec<T>, k: usize)
    ensures
        old(arr)@.len() == 0 ==> final(arr)@ == old(arr)@,
        old(arr)@.len() > 0 ==> final(arr)@ == rotated_left(
            old(arr)@,
            (old(arr)@.len() - (k as int) % (old(arr)@.len() as int)) % (old(arr)@.len() as int),
        ),
{
    let n = arr.len();
    if n == 0 {
        return ;
    }
    let shift = k % n;
    let ghost before = arr@;
    if shift == 0 {
        proof {
            assert(arr@ =~= rotated_left(before, 0));
        }
        return ;
    }
    rotate_left(arr, n - shift);
}

/// Whether no element of `s` from index `from` on is smaller than the next.
pub open spec fn non_increasing_from(s: Seq<i64>, from: int) -> bool {
    forall|k: int| from <= k && k + 1 < s.len() ==> #[trigger] s[k] >= s[k + 1]
}

/// Whether no element of `s` from index `from` on is greater than the next.
pub open spec fn non_decreasing_from(s: Seq<i64>, from: int) -> bool {
    forall|k: int| from <= k && k + 1 < s.len() ==> #[trigger] s[k] <= s[k + 1]
}

/// Whether `i` is the last index of `s` whose element is smaller than the
/// next, and `j` the last index whose element is greater than that at `i`.
pub open spec fn is_ascent(s: Seq<i64>, i: int, j: int) -> bool {
    &&& 0 <= i < j < s.len()
    &&& s[i] < s[i + 1]
    &&& non_increasing_from(s, i + 1)
    &&& s[j] > s[i]
    &&& forall|k: int| j < k < s.len() ==> #[trigger] s[k] <= s[i]
}

/// Whether `i` is the last index of `s` whose element is greater than the
/// next, and `j` the last index whose element is smaller than that at `i`.
pub open spec fn is_descent(s: Seq<i64>, i: int, j: int) -> bool {
    &&& 0 <= i < j < s.len()
    &&& s[i] > s[i + 1]
    &&& non_decreasing_from(s, i + 1)
    &&& s[j] < s[i]
    &&& forall|k: int| j < k < s.len() ==> #[trigger] s[k] >= s[i]
}

/// `s` with the elements at `i` and `j` exchanged and everything behind
/// `i` reversed.
pub open spec fn stepped(s: Seq<i64>, i: int, j: int) -> Seq<i64> {
    reversed_range(swapped(s, i, j), i + 1, s.len() as int)
}

/// Turns `arr` into the next arrangement of its elements in lexicographic
/// order: the last element that is smaller than its successor changes
/// places with the last element greater than it, and what follows is
/// reversed. Returns `false`, leaving `arr` as it is, where no element is
/// smaller than its successor.
pub fn next_permutation(arr: &mut Vec<i64>) -> (advanced: bool)
    ensures
        advanced == !non_increasing_from(old(arr)@, 0),
        !advanced ==> final(arr)@ == old(arr)@,
        advanced ==> exists|i: int, j: int|
            is_ascent(old(arr)@, i, j) && final(arr)@ == stepped(old(arr)@, i, j),
        advanced ==> rearranged(final(arr)@, old(arr)@) && lex_less(old(arr)@, final(arr)@),
{
    let n = arr.len();
    if n <= 1 {
        return false;
    }
    let ghost before = arr@;
    let mut i: usize = n - 2;
    loop
        invariant_except_break
            arr@ == before,
            n == arr@.len(),
            i + 1 < n,
            non_increasing_from(before, i + 1),
        ensures
            arr@ == before,
            n == arr@.len(),
            i + 1 < n,
            non_increasing_from(before, i + 1),
            before[i as int] < before[i + 1],
        decreases i,
    {
        if arr[i] < arr[i + 1] {
            break ;
        }
        if i == 0 {
            return false;
        }
        i -= 1;
    }
    let mut j: usize = n - 1;
    while arr[i] >= arr[j]
        invariant
            arr@ == before,
            n == arr@.len(),
            i < j < n,
            before[i as int] < before[i + 1],
            forall|k: int| j < k < n ==> #[trigger] before[k] <= before[i as int],
        decreases j,
    {
        j -= 1;
    }
    let pivot = arr[i];
    let other = arr[j];
    arr.set(i, other);
    arr.set(j, pivot);
    proof {
        assert(arr@ =~= swapped(before, i as int, j as int));
    }
    reverse_range(arr, i + 1, n);
    proof {
        assert(is_ascent(before, i as int, j as int));
        assert(arr@ =~= stepped(before, i as int, j as int));
        lemma_stepped_rearranged(before, i as int, j as int);
        assert(lex_less_at(before, arr@, i as int));
    }
    true
}

/// Turns `arr` into the previous arrangement of its elements in
/// lexicographic order: the last element that is greater than its successor
/// changes places with the last element smaller than it, and what follows
/// is reversed. Returns `false`, leaving `arr` as it is, where no element
/// is greater than its successor.
pub fn prev_permutation(arr: &mut Vec<i64>) -> (advanced: bool)
    ensures
        advanced == !non_decreasing_from(old(arr)@, 0),
        !advanced ==> final(arr)@ == old(arr)@,
        advanced ==> exists|i: int, j: int|
            is_descent(old(arr)@, i, j) && final(arr)@ == stepped(old(arr)@, i, j),
        advanced ==> rearranged(final(arr)@, old(arr)@) && lex_less(final(arr)@, old(arr)@),
{
    let n = arr.len();
    if n <= 1 {
        return false;
    }
    let ghost before = arr@;
    let mut i: usize = n - 2;
    loop
        invariant_except_break
            arr@ == before,
            n == arr@.len(),
            i + 1 < n,
            non_decreasing_from(before, i + 1),
        ensures
            arr@ == before,
            n == arr@.len(),
            i + 1 < n,
            non_decreasing_from(before, i + 1),
            before[i as int] > before[i + 1],
        decreases i,
    {
        if arr[i] > arr[i + 1] {
            break ;
        }
        if i == 0 {
            return false;
        }
        i -= 1;
    }
    let mut j: usize = n - 1;
    while arr[i] <= arr[j]
        invariant
            arr@ == before,
            n == arr@.len(),
            i < j < n,
            before[i as int] > before[i + 1],
            forall|k: int| j < k < n ==> #[trigger] before[k] >= before[i as int],
        decreases j,
    {
        j -= 1;
    }
    let pivot = arr[i];
    let other = arr[j];
    arr.set(i, other);
    arr.set(j, pivot);
    proof {
        assert(arr@ =~= swapped(before, i as int, j as int));
    }
    reverse_range(arr, i + 1, n);
    proof {
        assert(is_descent(before, i as int, j as int));
        assert(arr@ =~= stepped(before, i as int, j as int));
        lemma_stepped_rearranged(before, i as int, j as int);
        assert(lex_less_at(arr@, before, i as int));
    }
    true
}

/// Whether `a` and `b` hold the same elements at all indices before `k`.
pub open spec fn agree_before(a: Seq<i64>, b: Seq<i64>, k: int) -> bool {
    forall|t: int| 0 <= t < k ==> a[t] == b[t]
}

/// Whether `a` and `b`, of one length, first differ at index `k`, where `a`
/// holds the smaller element.
pub open spec fn lex_less_at(a: Seq<i64>, b: Seq<i64>, k: int) -> bool {
    &&& a.len() == b.len()
    &&& 0 <= k < a.len()
    &&& agree_before(a, b, k)
    &&& a[k] < b[k]
}

/// Whether `a` comes before `b` in lexicographic order.
pub open spec fn lex_less(a: Seq<i64>, b: Seq<i64>) -> bool {
    exists|k: int| lex_less_at(a, b, k)
}

/// Whether `a` is an arrangement of the elements of `b`.
pub open spec fn rearranged(a: Seq<i64>, b: Seq<i64>) -> bool {
    a.len() == b.len() && a.to_multiset() == b.to_multiset()
}

/// Of two sequences neither comes before the other both ways.
pub proof fn lemma_lex_one_way(a: Seq<i64>, b: Seq<i64>)
    requires
        lex_less(a, b),
    ensures
        !lex_less(b, a),
{
    let k = choose|k: int| lex_less_at(a, b, k);
    if lex_less(b, a) {
        let m = choose|m: int| lex_less_at(b, a, m);
        if m < k {
            assert(a[m] == b[m]);
        } else if k < m {
            assert(b[k] == a[k]);
        }
    }
}

/// Arrangements of the same elements that agree before `k` are
/// arrangements of the same elements from `k` on.
pub proof fn lemma_rest_rearranged(a: Seq<i64>, b: Seq<i64>, k: int)
    requires
        rearranged(a, b),
        0 <= k <= a.len(),
        agree_before(a, b, k),
    ensures
        rearranged(a.subrange(k, a.len() as int), b.subrange(k, b.len() as int)),
{
    let n = a.len() as int;
    let a1 = a.subrange(0, k);
    let a2 = a.subrange(k, n);
    let b1 = b.subrange(0, k);
    let b2 = b.subrange(k, n);
    assert(a1 =~= b1);
    assert(a1 + a2 =~= a);
    assert(b1 + b2 =~= b);
    vstd::seq_lib::lemma_multiset_commutative(a1, a2);
    vstd::seq_lib::lemma_multiset_commutative(b1, b2);
    let front = a1.to_multiset();
    assert forall|v: i64| a2.to_multiset().count(v) == b2.to_multiset().count(v) by {
        assert(front.add(a2.to_multiset()).count(v) == front.add(b2.to_multiset()).count(v));
    }
    assert(a2.to_multiset() =~= b2.to_multiset());
}

/// An element of an arrangement is an element of what was arranged.
pub proof fn lemma_rearranged_holds(a: Seq<i64>, b: Seq<i64>, k: int)
    requires
        rearranged(a, b),
        0 <= k < a.len(),
    ensures
        exists|m: int| 0 <= m < b.len() && #[trigger] b[m] == a[k],
{
    broadcast use vstd::seq_lib::group_to_multiset_ensures;

    assert(a.contains(a[k]));
    assert(a.to_multiset().count(a[k]) > 0);
    assert(b.contains(a[k]));
}

/// No arrangement of the elements of a sequence in which no element is
/// smaller than the next comes after it.
pub proof fn lemma_non_increasing_is_last(x: Seq<i64>, y: Seq<i64>)
    requires
        non_increasing_from(x, 0),
        rearranged(y, x),
    ensures
        !lex_less(x, y),
{
    if lex_less(x, y) {
        let k = choose|k: int| lex_less_at(x, y, k);
        let n = x.len() as int;
        assert(agree_before(y, x, k));
        lemma_rest_rearranged(y, x, k);
        let ys = y.subrange(k, n);
        let xs = x.subrange(k, n);
        lemma_rearranged_holds(ys, xs, 0);
        let m = choose|m: int| 0 <= m < xs.len() && #[trigger] xs[m] == ys[0];
        lemma_non_increasing_falls(x, 0, k, k + m);
        assert(x[k + m] == y[k]);
    }
}

/// No arrangement of the elements of a sequence in which no element is
/// greater than the next comes before it.
pub proof fn lemma_non_decreasing_is_first(x: Seq<i64>, y: Seq<i64>)
    requires
        non_decreasing_from(x, 0),
        rearranged(y, x),
    ensures
        !lex_less(y, x),
{
    if lex_less(y, x) {
        let k = choose|k: int| lex_less_at(y, x, k);
        let n = x.len() as int;
        lemma_rest_rearranged(y, x, k);
        let ys = y.subrange(k, n);
        let xs = x.subrange(k, n);
        lemma_rearranged_holds(ys, xs, 0);
        let m = choose|m: int| 0 <= m < xs.len() && #[trigger] xs[m] == ys[0];
        lemma_non_decreasing_rises(x, 0, k, k + m);
        assert(x[k + m] == y[k]);
    }
}

/// Where no element from `from` on is smaller than the next, none is
/// smaller than any later one.
pub proof fn lemma_non_increasing_falls(x: Seq<i64>, from: int, a: int, b: int)
    requires
        non_increasing_from(x, from),
        from <= a,
        0 <= a <= b < x.len(),
    ensures
        x[a] >= x[b],
    decreases b - a,
{
    if a < b {
        lemma_non_increasing_falls(x, from, a, b - 1);
        assert(x[b - 1] >= x[b - 1 + 1]);
    }
}

/// Where no element from `from` on is greater than the next, none is
/// greater than any later one.
pub proof fn lemma_non_decreasing_rises(x: Seq<i64>, from: int, a: int, b: int)
    requires
        non_decreasing_from(x, from),
        from <= a,
        0 <= a <= b < x.len(),
    ensures
        x[a] <= x[b],
    decreases b - a,
{
    if a < b {
        lemma_non_decreasing_rises(x, from, a, b - 1);
        assert(x[b - 1] <= x[b - 1 + 1]);
    }
}

/// The step to the next arrangement rearranges the elements.
pub proof fn lemma_stepped_rearranged(s: Seq<i64>, i: int, j: int)
    requires
        0 <= i < j < s.len(),
    ensures
        rearranged(stepped(s, i, j), s),
{
    broadcast use vstd::seq_lib::group_to_multiset_ensures;

    let n = s.len() as int;
    let first = s.update(i, s[j]);
    let exchanged = swapped(s, i, j);
    vstd::seq_lib::to_multiset_update(s, i, s[j]);
    vstd::seq_lib::to_multiset_update(first, j, s[i]);
    assert(exchanged.to_multiset() =~= s.to_multiset()) by {
        assert(s.to_multiset().count(s[i]) > 0) by {
            assert(s.contains(s[i]));
        }
        assert(s.to_multiset().count(s[j]) > 0) by {
            assert(s.contains(s[j]));
        }
    }
    let head = exchanged.subrange(0, i + 1);
    let tail = exchanged.subrange(i + 1, n);
    assert(head + tail =~= exchanged);
    assert(head + tail.reverse() =~= stepped(s, i, j));
    vstd::seq_lib::lemma_multiset_commutative(head, tail);
    vstd::seq_lib::lemma_multiset_commutative(head, tail.reverse());
    tail.lemma_reverse_to_multiset();
}

/// The next arrangement is the successor in lexicographic order: it comes
/// after the arrangement it was stepped from, and no arrangement of the
/// same elements lies between the two.
pub proof fn lemma_next_is_successor(s: Seq<i64>, i: int, j: int, other: Seq<i64>)
    requires
        is_ascent(s, i, j),
        rearranged(other, s),
        lex_less(s, other),
    ensures
        rearranged(stepped(s, i, j), s),
        lex_less(s, stepped(s, i, j)),
        !lex_less(other, stepped(s, i, j)),
{
    let n = s.len() as int;
    let next = stepped(s, i, j);
    lemma_stepped_rearranged(s, i, j);
    assert(lex_less_at(s, next, i));
    let k = choose|k: int| lex_less_at(s, other, k);
    if k < i {
        assert(lex_less_at(next, other, k));
        lemma_lex_one_way(next, other);
    } else if k > i {
        assert(agree_before(other, s, i + 1)) by {
            assert forall|t: int| 0 <= t < i + 1 implies other[t] == s[t] by {
                assert(s[t] == other[t]);
            }
        }
        lemma_rest_rearranged(other, s, i + 1);
        let tail = s.subrange(i + 1, n);
        let other_tail = other.subrange(i + 1, n);
        assert(non_increasing_from(tail, 0)) by {
            assert forall|t: int| 0 <= t && t + 1 < tail.len() implies #[trigger] tail[t] >= tail[t
                + 1] by {
                assert(s[i + 1 + t] >= s[i + 1 + t + 1]);
            }
        }
        assert(lex_less_at(tail, other_tail, k - (i + 1))) by {
            assert forall|t: int| 0 <= t < k - (i + 1) implies tail[t] == other_tail[t] by {
                assert(s[i + 1 + t] == other[i + 1 + t]);
            }
        }
        lemma_non_increasing_is_last(tail, other_tail);
    } else {
        assert(agree_before(other, s, i)) by {
            assert forall|t: int| 0 <= t < i implies other[t] == s[t] by {
                assert(s[t] == other[t]);
            }
        }
        lemma_rest_rearranged(other, s, i);
        let rest = s.subrange(i, n);
        let other_rest = other.subrange(i, n);
        lemma_rearranged_holds(other_rest, rest, 0);
        let m = choose|m: int| 0 <= m < rest.len() && #[trigger] rest[m] == other_rest[0];
        let at = i + m;
        assert(s[at] == other[i]);
        assert(at > i);
        if at > j {
            assert(s[at] <= s[i]);
        }
        assert(at <= j);
        lemma_non_increasing_falls(s, i + 1, at, j);
        assert(other[i] >= s[j]);
        assert(next[i] == s[j]);
        if other[i] > next[i] {
            assert(lex_less_at(next, other, i));
            lemma_lex_one_way(next, other);
        } else {
            if lex_less(other, next) {
                let d = choose|d: int| lex_less_at(other, next, d);
                if d < i {
                    assert(other[d] == s[d]);
                }
                assert(d > i);
                assert(agree_before(other, next, i + 1)) by {
                    assert forall|t: int| 0 <= t < i + 1 implies other[t] == next[t] by {
                        if t < i {
                            assert(other[t] == s[t]);
                        }
                    }
                }
                lemma_rest_rearranged(other, next, i + 1);
                let next_tail = next.subrange(i + 1, n);
                let other_tail = other.subrange(i + 1, n);
                lemma_stepped_tail_rises(s, i, j);
                assert(lex_less_at(other_tail, next_tail, d - (i + 1))) by {
                    assert forall|t: int| 0 <= t < d - (i + 1) implies other_tail[t]
                        == next_tail[t] by {
                        assert(other[i + 1 + t] == next[i + 1 + t]);
                    }
                }
                lemma_non_decreasing_is_first(next_tail, other_tail);
            }
        }
    }
}

/// Behind the exchanged element the next arrangement holds no element that
/// is greater than the next.
pub proof fn lemma_stepped_tail_rises(s: Seq<i64>, i: int, j: int)
    requires
        is_ascent(s, i, j),
    ensures
        non_decreasing_from(stepped(s, i, j).subrange(i + 1, s.len() as int), 0),
{
    let n = s.len() as int;
    let exchanged = swapped(s, i, j);
    let next = stepped(s, i, j);
    let tail = next.subrange(i + 1, n);
    assert forall|a: int| i + 1 <= a && a + 1 < n implies #[trigger] exchanged[a] >= exchanged[a
        + 1] by {
        assert(s[a] >= s[a + 1]);
        if a == j {
            assert(s[j + 1] <= s[i]);
        } else if a + 1 == j {
            assert(s[a] >= s[j]);
        }
    }
    assert forall|t: int| 0 <= t && t + 1 < tail.len() implies #[trigger] tail[t] <= tail[t
        + 1] by {
        let a = i + 1 + n - 1 - (i + 1 + t + 1);
        assert(tail[t] == exchanged[i + 1 + n - 1 - (i + 1 + t)]);
        assert(tail[t + 1] == exchanged[a]);
        assert(exchanged[a] >= exchanged[a + 1]);
    }
}

/// The previous arrangement is the predecessor in lexicographic order: it
/// comes before the arrangement it was stepped from, and no arrangement of
/// the same elements lies between the two.
pub proof fn lemma_prev_is_predecessor(s: Seq<i64>, i: int, j: int, other: Seq<i64>)
    requires
        is_descent(s, i, j),
        rearranged(other, s),
        lex_less(other, s),
    ensures
        rearranged(stepped(s, i, j), s),
        lex_less(stepped(s, i, j), s),
        !lex_less(stepped(s, i, j), other),
{
    let n = s.len() as int;
    let prev = stepped(s, i, j);
    lemma_stepped_rearranged(s, i, j);
    assert(lex_less_at(prev, s, i));
    let k = choose|k: int| lex_less_at(other, s, k);
    if k < i {
        assert(lex_less_at(other, prev, k));
        lemma_lex_one_way(other, prev);
    } else if k > i {
        assert(agree_before(other, s, i + 1));
        lemma_rest_rearranged(other, s, i + 1);
        let tail = s.subrange(i + 1, n);
        let other_tail = other.subrange(i + 1, n);
        assert(non_decreasing_from(tail, 0)) by {
            assert forall|t: int| 0 <= t && t + 1 < tail.len() implies #[trigger] tail[t] <= tail[t
                + 1] by {
                assert(s[i + 1 + t] <= s[i + 1 + t + 1]);
            }
        }
        assert(lex_less_at(other_tail, tail, k - (i + 1))) by {
            assert forall|t: int| 0 <= t < k - (i + 1) implies other_tail[t] == tail[t] by {
                assert(other[i + 1 + t] == s[i + 1 + t]);
            }
        }
        lemma_non_decreasing_is_first(tail, other_tail);
    } else {
        assert(agree_before(other, s, i));
        lemma_rest_rearranged(other, s, i);
        let rest = s.subrange(i, n);
        let other_rest = other.subrange(i, n);
        lemma_rearranged_holds(other_rest, rest, 0);
        let m = choose|m: int| 0 <= m < rest.len() && #[trigger] rest[m] == other_rest[0];
        let at = i + m;
        assert(s[at] == other[i]);
        assert(at > i);
        if at > j {
            assert(s[at] >= s[i]);
        }
        assert(at <= j);
        lemma_non_decreasing_rises(s, i + 1, at, j);
        assert(other[i] <= s[j]);
        assert(prev[i] == s[j]);
        if other[i] < prev[i] {
            assert(lex_less_at(other, prev, i));
            lemma_lex_one_way(other, prev);
        } else {
            if lex_less(prev, other) {
                let d = choose|d: int| lex_less_at(prev, other, d);
                if d < i {
                    assert(other[d] == s[d]);
                }
                assert(d > i);
                assert(agree_before(other, prev, i + 1)) by {
                    assert forall|t: int| 0 <= t < i + 1 implies other[t] == prev[t] by {
                        if t < i {
                            assert(other[t] == s[t]);
                        }
                    }
                }
                lemma_rest_rearranged(other, prev, i + 1);
                let prev_tail = prev.subrange(i + 1, n);
                let other_tail = other.subrange(i + 1, n);
                lemma_stepped_tail_falls(s, i, j);
                assert(lex_less_at(prev_tail, other_tail, d - (i + 1))) by {
                    assert forall|t: int| 0 <= t < d - (i + 1) implies prev_tail[t]
                        == other_tail[t] by {
                        assert(prev[i + 1 + t] == other[i + 1 + t]);
                    }
                }
                lemma_non_increasing_is_last(prev_tail, other_tail);
            }
        }
    }
}

/// Behind the exchanged element the previous arrangement holds no element
/// that is smaller than the next.
pub proof fn lemma_stepped_tail_falls(s: Seq<i64>, i: int, j: int)
    requires
        is_descent(s, i, j),
    ensures
        non_increasing_from(stepped(s, i, j).subrange(i + 1, s.len() as int), 0),
{
    let n = s.len() as int;
    let exchanged = swapped(s, i, j);
    let prev = stepped(s, i, j);
    let tail = prev.subrange(i + 1, n);
    assert forall|a: int| i + 1 <= a && a + 1 < n implies #[trigger] exchanged[a] <= exchanged[a
        + 1] by {
        assert(s[a] <= s[a + 1]);
        if a == j {
            assert(s[j + 1] >= s[i]);
        } else if a + 1 == j {
            assert(s[a] <= s[j]);
        }
    }
    assert forall|t: int| 0 <= t && t + 1 < tail.len() implies #[trigger] tail[t] >= tail[t
        + 1] by {
        let a = i + 1 + n - 1 - (i + 1 + t + 1);
        assert(tail[t] == exchanged[i + 1 + n - 1 - (i + 1 + t)]);
        assert(tail[t + 1] == exchanged[a]);
        assert(exchanged[a] <= exchanged[a + 1]);
    }
}

} // verus!
