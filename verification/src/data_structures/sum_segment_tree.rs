//! Segment tree over sums, with range additions deferred as pending deltas.

use vstd::prelude::*;
use crate::data_structures::sums::{
    add_to_range, ints_of, lemma_range_sum_one, lemma_range_sum_shifted, lemma_wrap64_fits,
    lemma_wrap64_ops, range_sum_of, set_at, wrap64,
};

verus! {

/// The smallest power of two that is at least `len`.
pub open spec fn pow2_ceil(len: int) -> int
    decreases len,
{
    if len <= 1 {
        1
    } else {
        2 * pow2_ceil((len + 1) / 2)
    }
}

/// The power of two above a length is positive, grows with the length, and
/// stays under twice the length.
pub proof fn lemma_pow2_ceil(a: int, b: int)
    requires
        a <= b,
    ensures
        1 <= pow2_ceil(a) <= pow2_ceil(b),
        b >= 2 ==> pow2_ceil(b) <= 2 * b - 2,
    decreases b,
{
    if b >= 2 {
        lemma_pow2_ceil((a + 1) / 2, (b + 1) / 2);
        if (b + 1) / 2 < 2 {
            assert(pow2_ceil((b + 1) / 2) == 1);
        }
    }
}

/// Whether node `node`, over `len` leaves, lies where a tree over `n`
/// leaves keeps its nodes.
pub open spec fn placed(node: int, len: int, n: int) -> bool {
    node >= 1 && len >= 1 && (node + 1) * pow2_ceil(len) <= 2 * pow2_ceil(n)
}

/// A placed node has an index under `4 * n`, and so have both children of
/// one that is no leaf, which are placed too.
pub proof fn lemma_placed(node: int, start: int, end: int, n: int)
    requires
        placed(node, end - start + 1, n),
        0 <= start <= end,
        n >= 1,
    ensures
        node < 4 * n,
        start < end ==> placed(2 * node, (start + end) / 2 - start + 1, n) && placed(
            2 * node + 1,
            end - (start + end) / 2,
            n,
        ) && 2 * node + 1 < 4 * n,
    decreases end - start,
{
    let len = end - start + 1;
    lemma_pow2_ceil(1, len);
    lemma_pow2_ceil(1, n);
    let h = pow2_ceil(len);
    let top = pow2_ceil(n);
    assert(top <= 2 * n - 1) by {
        if n >= 2 {
            lemma_pow2_ceil(n, n);
        }
    }
    assert(node + 1 <= (node + 1) * h) by (nonlinear_arith)
        requires
            h >= 1,
            node >= 1,
    ;
    if start < end {
        let mid = (start + end) / 2;
        let left = mid - start + 1;
        let right = end - mid;
        assert(left == (len + 1) / 2);
        assert(h == 2 * pow2_ceil(left));
        lemma_pow2_ceil(right, left);
        lemma_pow2_ceil(1, right);
        let hl = pow2_ceil(left);
        let hr = pow2_ceil(right);
        assert((2 * node + 1) * hl <= (node + 1) * (2 * hl)) by (nonlinear_arith)
            requires
                hl >= 1,
                node >= 1,
        ;
        assert((2 * node + 2) * hr <= (node + 1) * (2 * hl)) by (nonlinear_arith)
            requires
                1 <= hr <= hl,
                node >= 1,
        ;
        assert(2 * node + 2 <= (2 * node + 2) * hr) by (nonlinear_arith)
            requires
                hr >= 1,
                node >= 1,
        ;
    }
}

/// Whether `k` is `node` or lies below it.
pub open spec fn below(k: int, node: int) -> bool
    decreases k,
{
    k == node || (k > node && node >= 1 && below(k / 2, node))
}

/// What lies below a child lies below its parent and is not the parent,
/// and nothing lies below both children.
pub proof fn lemma_below_child(k: int, node: int)
    requires
        node >= 1,
    ensures
        below(k, 2 * node) ==> below(k, node) && k != node && !below(k, 2 * node + 1),
        below(k, 2 * node + 1) ==> below(k, node) && k != node,
    decreases k,
{
    if k > 2 * node {
        lemma_below_child(k / 2, node);
    }
    if k == 2 * node + 1 {
        assert(k / 2 == node);
        assert(!below(node, 2 * node));
        assert(below(node, node));
        assert(below(k, node));
    }
    if k > 2 * node + 1 && below(k, 2 * node + 1) {
        assert(below(k / 2, 2 * node + 1));
        assert(below(k / 2, node));
        assert(below(k, node));
    }
    if k > 2 * node && below(k, 2 * node) {
        assert(below(k / 2, 2 * node));
        assert(below(k / 2, node));
        assert(below(k, node));
    }
    if k == 2 * node {
        assert(k / 2 == node);
        assert(below(node, node));
    }
}

/// The sum that a node stands for: what it stores, and its pending delta
/// once for every leaf under it.
pub open spec fn effective(sums: spec_fn(int) -> int, tags: spec_fn(int) -> int, node: int, start: int, end: int) -> int {
    sums(node) + tags(node) * (end - start + 1)
}

/// Every node under `node` that is no leaf stores the sum that its two
/// children stand for.
pub open spec fn consistent(sums: spec_fn(int) -> int, tags: spec_fn(int) -> int, node: int, start: int, end: int) -> bool
    decreases end - start,
{
    if start >= end {
        true
    } else {
        let mid = (start + end) / 2;
        &&& consistent(sums, tags, 2 * node, start, mid)
        &&& consistent(sums, tags, 2 * node + 1, mid + 1, end)
        &&& sums(node) == effective(sums, tags, 2 * node, start, mid) + effective(
            sums,
            tags,
            2 * node + 1,
            mid + 1,
            end,
        )
    }
}

/// The value of element `i` as the subtree at `node` holds it: what its
/// leaf stores, and every pending delta on the way down to it.
pub open spec fn value_under(
    sums: spec_fn(int) -> int,
    tags: spec_fn(int) -> int,
    node: int,
    start: int,
    end: int,
    i: int,
) -> int
    decreases end - start,
{
    if start >= end {
        sums(node) + tags(node)
    } else {
        let mid = (start + end) / 2;
        tags(node) + if i <= mid {
            value_under(sums, tags, 2 * node, start, mid, i)
        } else {
            value_under(sums, tags, 2 * node + 1, mid + 1, end, i)
        }
    }
}

/// The values of the elements as the subtree at `node` holds them, in a
/// sequence of `n` elements.
pub open spec fn values_under(
    sums: spec_fn(int) -> int,
    tags: spec_fn(int) -> int,
    node: int,
    start: int,
    end: int,
    n: int,
) -> Seq<int> {
    Seq::new(n as nat, |i: int| value_under(sums, tags, node, start, end, i))
}

/// The sum of the elements of `s` from `lo` to `hi`, both included; zero
/// for an empty range.
pub open spec fn clipped_sum(s: Seq<int>, lo: int, hi: int) -> int {
    if lo <= hi {
        range_sum_of(s, lo, hi + 1)
    } else {
        0
    }
}

/// Two trees that agree below `node`, but for the pending delta of `node`
/// itself, are consistent there together; where they agree on that too,
/// they hold the same values.
pub proof fn lemma_agree_below(
    sums: spec_fn(int) -> int,
    tags: spec_fn(int) -> int,
    sums2: spec_fn(int) -> int,
    tags2: spec_fn(int) -> int,
    node: int,
    start: int,
    end: int,
)
    requires
        node >= 1,
        forall|k: int| below(k, node) ==> #[trigger] sums2(k) == sums(k),
        forall|k: int| below(k, node) && k != node ==> #[trigger] tags2(k) == tags(k),
    ensures
        consistent(sums2, tags2, node, start, end) == consistent(sums, tags, node, start, end),
        forall|i: int|
            value_under(sums2, tags2, node, start, end, i) - tags2(node) == value_under(
                sums,
                tags,
                node,
                start,
                end,
                i,
            ) - tags(node),
    decreases end - start,
{
    assert(below(node, node));
    if start < end {
        let mid = (start + end) / 2;
        let lc = 2 * node;
        let rc = 2 * node + 1;
        assert forall|k: int| #[trigger] below(k, lc) implies sums2(k) == sums(k) && tags2(k)
            == tags(k) by {
            lemma_below_child(k, node);
        }
        assert forall|k: int| #[trigger] below(k, rc) implies sums2(k) == sums(k) && tags2(k)
            == tags(k) by {
            lemma_below_child(k, node);
        }
        assert(below(2 * node, 2 * node));
        assert(below(2 * node + 1, 2 * node + 1));
        lemma_agree_below(sums, tags, sums2, tags2, 2 * node, start, mid);
        lemma_agree_below(sums, tags, sums2, tags2, 2 * node + 1, mid + 1, end);
        assert forall|i: int|
            value_under(sums2, tags2, node, start, end, i) - tags2(node) == value_under(
                sums,
                tags,
                node,
                start,
                end,
                i,
            ) - tags(node) by {
            if i <= mid {
                assert(value_under(sums2, tags2, 2 * node, start, mid, i) - tags2(2 * node)
                    == value_under(sums, tags, 2 * node, start, mid, i) - tags(2 * node));
            } else {
                assert(value_under(sums2, tags2, 2 * node + 1, mid + 1, end, i) - tags2(2 * node
                    + 1) == value_under(sums, tags, 2 * node + 1, mid + 1, end, i) - tags(2 * node
                    + 1));
            }
        }
    }
}

/// The values under a consistent node add up to the sum that the node
/// stands for.
pub proof fn lemma_sum_under(
    sums: spec_fn(int) -> int,
    tags: spec_fn(int) -> int,
    node: int,
    start: int,
    end: int,
    n: int,
)
    requires
        0 <= start <= end < n,
        consistent(sums, tags, node, start, end),
    ensures
        range_sum_of(values_under(sums, tags, node, start, end, n), start, end + 1) == effective(
            sums,
            tags,
            node,
            start,
            end,
        ),
    decreases end - start,
{
    let all = values_under(sums, tags, node, start, end, n);
    if start == end {
        lemma_range_sum_one(all, start);
        assert(tags(node) * 1 == tags(node)) by (nonlinear_arith);
    } else {
        let mid = (start + end) / 2;
        let left = values_under(sums, tags, 2 * node, start, mid, n);
        let right = values_under(sums, tags, 2 * node + 1, mid + 1, end, n);
        lemma_sum_under(sums, tags, 2 * node, start, mid, n);
        lemma_sum_under(sums, tags, 2 * node + 1, mid + 1, end, n);
        lemma_range_sum_shifted(all, left, start, mid + 1, tags(node));
        lemma_range_sum_shifted(all, right, mid + 1, end + 1, tags(node));
        let t = tags(node);
        assert(t * (mid + 1 - start) + t * (end + 1 - (mid + 1)) == t * (end - start + 1))
            by (nonlinear_arith);
    }
}

/// The stored sums after the pending delta of `node` is applied to it.
pub open spec fn pushed_sums(
    sums: spec_fn(int) -> int,
    tags: spec_fn(int) -> int,
    node: int,
    start: int,
    end: int,
) -> spec_fn(int) -> int {
    |k: int|
        if k == node {
            effective(sums, tags, node, start, end)
        } else {
            sums(k)
        }
}

/// The pending deltas after that of `node` is handed to its children, or
/// dropped where `node` is a leaf.
pub open spec fn pushed_tags(tags: spec_fn(int) -> int, node: int, start: int, end: int) -> spec_fn(
    int,
) -> int {
    |k: int|
        if k == node {
            0
        } else if start < end && (k == 2 * node || k == 2 * node + 1) {
            tags(k) + tags(node)
        } else {
            tags(k)
        }
}

/// Whether two trees agree everywhere but below `node`.
pub open spec fn same_outside(
    sums: spec_fn(int) -> int,
    tags: spec_fn(int) -> int,
    sums2: spec_fn(int) -> int,
    tags2: spec_fn(int) -> int,
    node: int,
) -> bool {
    &&& forall|k: int| !below(k, node) ==> #[trigger] sums2(k) == sums(k)
    &&& forall|k: int| !below(k, node) ==> #[trigger] tags2(k) == tags(k)
}

/// Pushing the pending delta of a node down keeps its subtree consistent
/// and every value under it, clears the delta, and touches nothing outside
/// the subtree.
#[verifier::rlimit(40)]
pub proof fn lemma_push(sums: spec_fn(int) -> int, tags: spec_fn(int) -> int, node: int, start: int, end: int)
    requires
        node >= 1,
        0 <= start <= end,
        consistent(sums, tags, node, start, end),
    ensures
        consistent(
            pushed_sums(sums, tags, node, start, end),
            pushed_tags(tags, node, start, end),
            node,
            start,
            end,
        ),
        forall|i: int|
            value_under(
                pushed_sums(sums, tags, node, start, end),
                pushed_tags(tags, node, start, end),
                node,
                start,
                end,
                i,
            ) == value_under(sums, tags, node, start, end, i),
        pushed_tags(tags, node, start, end)(node) == 0,
        pushed_sums(sums, tags, node, start, end)(node) == effective(sums, tags, node, start, end),
        same_outside(
            sums,
            tags,
            pushed_sums(sums, tags, node, start, end),
            pushed_tags(tags, node, start, end),
            node,
        ),
{
    let s2 = pushed_sums(sums, tags, node, start, end);
    let t2 = pushed_tags(tags, node, start, end);
    let t = tags(node);
    assert(below(node, node));
    if start < end {
        let mid = (start + end) / 2;
        assert(below(2 * node, node) && below(2 * node + 1, node)) by {
            assert(below(2 * node, 2 * node));
            assert(below(2 * node + 1, 2 * node + 1));
            lemma_below_child(2 * node, node);
            lemma_below_child(2 * node + 1, node);
        }
        let lc = 2 * node;
        let rc = 2 * node + 1;
        assert forall|k: int| #[trigger] below(k, lc) implies s2(k) == sums(k) && (k != 2 * node
            ==> t2(k) == tags(k)) by {
            lemma_below_child(k, node);
            assert(below(2 * node + 1, 2 * node + 1));
        }
        assert forall|k: int| #[trigger] below(k, rc) implies s2(k) == sums(k) && (k != 2 * node
            + 1 ==> t2(k) == tags(k)) by {
            lemma_below_child(k, node);
            assert(below(2 * node, 2 * node));
            if k == 2 * node {
                lemma_below_child(2 * node, node);
            }
        }
        lemma_agree_below(sums, tags, s2, t2, 2 * node, start, mid);
        lemma_agree_below(sums, tags, s2, t2, 2 * node + 1, mid + 1, end);
        assert(t * (mid - start + 1) + t * (end - mid) == t * (end - start + 1))
            by (nonlinear_arith);
        assert((tags(2 * node) + t) * (mid - start + 1) == tags(2 * node) * (mid - start + 1) + t
            * (mid - start + 1)) by (nonlinear_arith);
        assert((tags(2 * node + 1) + t) * (end - mid) == tags(2 * node + 1) * (end - mid) + t * (
        end - mid)) by (nonlinear_arith);
        assert forall|i: int|
            value_under(s2, t2, node, start, end, i) == value_under(
                sums,
                tags,
                node,
                start,
                end,
                i,
            ) by {
            if i <= mid {
                assert(value_under(s2, t2, 2 * node, start, mid, i) - t2(2 * node) == value_under(
                    sums,
                    tags,
                    2 * node,
                    start,
                    mid,
                    i,
                ) - tags(2 * node));
            } else {
                assert(value_under(s2, t2, 2 * node + 1, mid + 1, end, i) - t2(2 * node + 1)
                    == value_under(sums, tags, 2 * node + 1, mid + 1, end, i) - tags(2 * node
                    + 1));
            }
        }
    } else {
        assert(t * 1 == t) by (nonlinear_arith);
    }
}

/// A subtree that an update elsewhere did not reach is as consistent as it
/// was and holds the values it held.
pub proof fn lemma_untouched(
    sums: spec_fn(int) -> int,
    tags: spec_fn(int) -> int,
    sums2: spec_fn(int) -> int,
    tags2: spec_fn(int) -> int,
    changed: int,
    node: int,
    start: int,
    end: int,
)
    requires
        node >= 1,
        same_outside(sums, tags, sums2, tags2, changed),
        forall|k: int| below(k, node) ==> !below(k, changed),
    ensures
        consistent(sums2, tags2, node, start, end) == consistent(sums, tags, node, start, end),
        forall|i: int|
            value_under(sums2, tags2, node, start, end, i) == value_under(
                sums,
                tags,
                node,
                start,
                end,
                i,
            ),
{
    assert(below(node, node));
    lemma_agree_below(sums, tags, sums2, tags2, node, start, end);
    assert forall|i: int|
        value_under(sums2, tags2, node, start, end, i) == value_under(
            sums,
            tags,
            node,
            start,
            end,
            i,
        ) by {
        assert(value_under(sums2, tags2, node, start, end, i) - tags2(node) == value_under(
            sums,
            tags,
            node,
            start,
            end,
            i,
        ) - tags(node));
    }
}

/// Where only `node` itself changed, the subtree at a child of it is as
/// consistent as it was and holds the values it held.
pub proof fn lemma_child_kept(
    sums: spec_fn(int) -> int,
    tags: spec_fn(int) -> int,
    sums2: spec_fn(int) -> int,
    tags2: spec_fn(int) -> int,
    node: int,
    child: int,
    start: int,
    end: int,
)
    requires
        node >= 1,
        child == 2 * node || child == 2 * node + 1,
        forall|k: int| k != node ==> #[trigger] sums2(k) == sums(k),
        forall|k: int| k != node ==> #[trigger] tags2(k) == tags(k),
    ensures
        consistent(sums2, tags2, child, start, end) == consistent(sums, tags, child, start, end),
        forall|i: int|
            value_under(sums2, tags2, child, start, end, i) == value_under(
                sums,
                tags,
                child,
                start,
                end,
                i,
            ),
{
    assert forall|k: int| #[trigger] below(k, child) implies k != node by {
        lemma_below_child(k, node);
    }
    lemma_agree_below(sums, tags, sums2, tags2, child, start, end);
    assert forall|i: int|
        value_under(sums2, tags2, child, start, end, i) == value_under(
            sums,
            tags,
            child,
            start,
            end,
            i,
        ) by {
        assert(value_under(sums2, tags2, child, start, end, i) - tags2(child) == value_under(
            sums,
            tags,
            child,
            start,
            end,
            i,
        ) - tags(child));
    }
}

/// An update below one child of `node` leaves `node` itself and everything
/// outside its subtree as they were, and the subtree of the other child as
/// consistent as it was, with the values it held.
pub proof fn lemma_sibling_kept(
    sums: spec_fn(int) -> int,
    tags: spec_fn(int) -> int,
    sums2: spec_fn(int) -> int,
    tags2: spec_fn(int) -> int,
    node: int,
    changed: int,
    kept: int,
    start: int,
    end: int,
)
    requires
        node >= 1,
        (changed == 2 * node && kept == 2 * node + 1) || (changed == 2 * node + 1 && kept == 2
            * node),
        same_outside(sums, tags, sums2, tags2, changed),
    ensures
        sums2(node) == sums(node),
        tags2(node) == tags(node),
        sums2(kept) == sums(kept),
        tags2(kept) == tags(kept),
        same_outside(sums, tags, sums2, tags2, node),
        consistent(sums2, tags2, kept, start, end) == consistent(sums, tags, kept, start, end),
        forall|i: int|
            value_under(sums2, tags2, kept, start, end, i) == value_under(
                sums,
                tags,
                kept,
                start,
                end,
                i,
            ),
{
    assert(below(node, node));
    lemma_below_child(node, node);
    assert forall|k: int| !below(k, node) implies !#[trigger] below(k, changed) by {
        lemma_below_child(k, node);
    }
    assert forall|k: int| #[trigger] below(k, kept) implies !below(k, changed) by {
        lemma_below_child(k, node);
    }
    assert(below(kept, kept));
    lemma_untouched(sums, tags, sums2, tags2, changed, kept, start, end);
}

/// A tree that stores zero everywhere, with nothing pending, is consistent
/// and holds zeros.
pub proof fn lemma_all_zero(
    sums: spec_fn(int) -> int,
    tags: spec_fn(int) -> int,
    node: int,
    start: int,
    end: int,
)
    requires
        forall|k: int| #[trigger] sums(k) == 0,
        forall|k: int| #[trigger] tags(k) == 0,
    ensures
        consistent(sums, tags, node, start, end),
        forall|i: int| value_under(sums, tags, node, start, end, i) == 0,
    decreases end - start,
{
    if start < end {
        let mid = (start + end) / 2;
        lemma_all_zero(sums, tags, 2 * node, start, mid);
        lemma_all_zero(sums, tags, 2 * node + 1, mid + 1, end);
        assert(tags(2 * node) * (mid - start + 1) == 0) by (nonlinear_arith)
            requires
                tags(2 * node) == 0,
        ;
        assert(tags(2 * node + 1) * (end - mid) == 0) by (nonlinear_arith)
            requires
                tags(2 * node + 1) == 0,
        ;
        assert forall|i: int| value_under(sums, tags, node, start, end, i) == 0 by {
            assert(value_under(sums, tags, 2 * node, start, mid, i) == 0);
            assert(value_under(sums, tags, 2 * node + 1, mid + 1, end, i) == 0);
        }
    }
}

/// What pushing a pending delta computes in 64 bits stands for what it
/// computes over the integers; a delta that stands for zero can be left
/// where it is.
pub proof fn lemma_push_wraps(sum: int, tag: int, len: int, child: int)
    requires
        1 <= len <= i64::MAX,
    ensures
        wrap64(sum).wrapping_add(wrap64(tag).wrapping_mul(len as i64)) == wrap64(sum + tag * len),
        wrap64(child).wrapping_add(wrap64(tag)) == wrap64(child + tag),
        wrap64(0) == 0,
        wrap64(tag) == 0 ==> wrap64(sum + tag * len) == wrap64(sum) && wrap64(child + tag)
            == wrap64(child),
{
    lemma_wrap64_fits(len);
    lemma_wrap64_fits(0);
    lemma_wrap64_ops(tag, len);
    lemma_wrap64_ops(sum, tag * len);
    lemma_wrap64_ops(child, tag);
    assert(0 * len == 0) by (nonlinear_arith);
}

/// The root of a tree is placed.
pub proof fn lemma_root_placed(n: int)
    requires
        n >= 1,
    ensures
        placed(1, n, n),
{
    lemma_pow2_ceil(1, n);
}

/// A sequence of integers under range additions and point assignments,
/// with range sums in logarithmic time. Sums are kept in 64-bit two's
/// complement: every result is the exact sum wherever that fits in an
/// `i64`.
pub struct SumSegmentTree {
    tree: Vec<i64>,
    lazy: Vec<i64>,
    size: usize,
    sums: Ghost<spec_fn(int) -> int>,
    tags: Ghost<spec_fn(int) -> int>,
}

impl View for SumSegmentTree {
    type V = Seq<int>;

    closed spec fn view(&self) -> Seq<int> {
        values_under(
            self.sums@,
            self.tags@,
            1,
            0,
            self.size - 1,
            self.size as int,
        )
    }
}

impl SumSegmentTree {
    /// Both arrays have four slots per element and hold, in 64 bits, the
    /// sums and pending deltas of the tree.
    pub closed spec fn linked(&self) -> bool {
        &&& 4 * self.size <= usize::MAX
        &&& self.tree@.len() == 4 * self.size
        &&& self.lazy@.len() == 4 * self.size
        &&& forall|k: int|
            0 <= k < self.tree@.len() ==> #[trigger] self.tree@[k] == wrap64((self.sums@)(k))
        &&& forall|k: int|
            0 <= k < self.lazy@.len() ==> #[trigger] self.lazy@[k] == wrap64((self.tags@)(k))
    }

    /// Every node stores the sum of its range as it was before any delta
    /// still pending at the node or above it.
    pub closed spec fn wf(&self) -> bool {
        &&& self.linked()
        &&& self.size > 0 ==> consistent(
            self.sums@,
            self.tags@,
            1,
            0,
            self.size - 1,
        )
    }

    /// `size` zeros.
    pub fn new(size: usize) -> (st: SumSegmentTree)
        requires
            4 * size <= usize::MAX,
        ensures
            st.wf(),
            st@ == Seq::new(size as nat, |i: int| 0int),
    {
        SumSegmentTree::zeros(size)
    }

    /// A tree over `size` zeros, with nothing pending anywhere.
    fn zeros(size: usize) -> (st: SumSegmentTree)
        requires
            4 * size <= usize::MAX,
        ensures
            st.wf(),
            st.size == size,
            st@ == Seq::new(size as nat, |i: int| 0int),
            forall|k: int| #[trigger] (st.tags@)(k) == 0,
    {
        let st = SumSegmentTree {
            tree: vec![0i64; 4 * size],
            lazy: vec![0i64; 4 * size],
            size,
            sums: Ghost(|k: int| 0int),
            tags: Ghost(|k: int| 0int),
        };
        proof {
            lemma_all_zero(st.sums@, st.tags@, 1, 0, size - 1);
            assert(st@ =~= Seq::new(size as nat, |i: int| 0int));
        }
        st
    }

    /// The values of `arr`.
    pub fn from_array(arr: &[i64]) -> (st: SumSegmentTree)
        requires
            4 * arr.len() <= usize::MAX,
        ensures
            st.wf(),
            st@ == ints_of(arr@),
    {
        let mut st = SumSegmentTree::zeros(arr.len());
        if arr.len() > 0 {
            proof {
                lemma_root_placed(arr.len() as int);
            }
            st.build(arr, 1, 0, arr.len() - 1);
        }
        proof {
            assert(st@ =~= ints_of(arr@));
        }
        st
    }

    /// Fills the nodes under `node`, over the values from `start` to `end`,
    /// from the leaves up.
    #[verifier::rlimit(40)]
    fn build(&mut self, arr: &[i64], node: usize, start: usize, end: usize)
        requires
            old(self).linked(),
            placed(node as int, end - start + 1, old(self).size as int),
            start <= end < old(self).size,
            arr@.len() == old(self).size,
            forall|k: int| #[trigger] (old(self).tags@)(k) == 0,
        ensures
            final(self).linked(),
            final(self).size == old(self).size,
            final(self).tags@ == old(self).tags@,
            consistent(final(self).sums@, final(self).tags@, node as int, start as int, end as int),
            forall|i: int|
                start <= i <= end ==> value_under(
                    final(self).sums@,
                    final(self).tags@,
                    node as int,
                    start as int,
                    end as int,
                    i,
                ) == arr@[i],
            forall|k: int|
                !#[trigger] below(k, node as int) ==> (final(self).sums@)(k) == (old(self).sums@)(k),
        decreases end - start,
    {
        let ghost n = self.size as int;
        let ghost s0 = self.sums@;
        let ghost t0 = self.tags@;
        proof {
            lemma_placed(node as int, start as int, end as int, n);
            assert(below(node as int, node as int));
        }
        if start == end {
            self.tree.set(node, arr[start]);
            proof {
                let v = arr@[start as int] as int;
                lemma_wrap64_fits(v);
                self.sums = Ghost(
                    |k: int|
                        if k == node {
                            v
                        } else {
                            s0(k)
                        },
                );
            }
        } else {
            let mid = (start + end) / 2;
            self.build(arr, 2 * node, start, mid);
            let ghost s1 = self.sums@;
            self.build(arr, 2 * node + 1, mid + 1, end);
            let ghost s2 = self.sums@;
            let total = self.tree[2 * node].wrapping_add(self.tree[2 * node + 1]);
            self.tree.set(node, total);
            proof {
                let lc = 2 * node as int;
                let rc = 2 * node + 1;
                assert(same_outside(s1, t0, s2, t0, rc));
                lemma_sibling_kept(s1, t0, s2, t0, node as int, rc, lc, start as int, mid as int);
                lemma_wrap64_ops(s2(lc), s2(rc));
                let s3 = |k: int|
                    if k == node {
                        s2(lc) + s2(rc)
                    } else {
                        s2(k)
                    };
                self.sums = Ghost(s3);
                lemma_child_kept(s2, t0, s3, t0, node as int, lc, start as int, mid as int);
                lemma_child_kept(s2, t0, s3, t0, node as int, rc, mid + 1, end as int);
                lemma_below_child(lc, node as int);
                lemma_below_child(rc, node as int);
                assert(below(lc, lc) && below(rc, rc));
                assert(t0(lc) * (mid - start + 1) == 0) by (nonlinear_arith)
                    requires
                        t0(lc) == 0,
                ;
                assert(t0(rc) * (end - mid) == 0) by (nonlinear_arith)
                    requires
                        t0(rc) == 0,
                ;
                assert forall|k: int| !#[trigger] below(k, node as int) implies s3(k) == s0(k) by {
                    lemma_below_child(k, node as int);
                }
            }
        }
    }

    /// Applies the pending delta of `node` to its sum and hands it to its
    /// children.
    #[verifier::rlimit(40)]
    fn push(&mut self, node: usize, start: usize, end: usize)
        requires
            old(self).linked(),
            placed(node as int, end - start + 1, old(self).size as int),
            start <= end < old(self).size,
        ensures
            final(self).linked(),
            final(self).size == old(self).size,
            final(self).sums@ == pushed_sums(
                old(self).sums@,
                old(self).tags@,
                node as int,
                start as int,
                end as int,
            ),
            final(self).tags@ == pushed_tags(old(self).tags@, node as int, start as int, end as int),
    {
        let ghost n = self.size as int;
        let ghost s0 = self.sums@;
        let ghost t0 = self.tags@;
        let ghost len = end - start + 1;
        let ghost t = t0(node as int);
        proof {
            lemma_placed(node as int, start as int, end as int, n);
            lemma_push_wraps(s0(node as int), t, len, t0(2 * node));
            lemma_push_wraps(s0(node as int), t, len, t0(2 * node + 1));
        }
        let pending = self.lazy[node];
        if pending != 0 {
            let range_size = (end - start + 1) as i64;
            let applied = self.tree[node].wrapping_add(pending.wrapping_mul(range_size));
            self.tree.set(node, applied);
            if start != end {
                let left = self.lazy[2 * node].wrapping_add(pending);
                self.lazy.set(2 * node, left);
                let right = self.lazy[2 * node + 1].wrapping_add(pending);
                self.lazy.set(2 * node + 1, right);
            }
            self.lazy.set(node, 0);
        }
        proof {
            self.sums = Ghost(pushed_sums(s0, t0, node as int, start as int, end as int));
            self.tags = Ghost(pushed_tags(t0, node as int, start as int, end as int));
        }
    }

    /// Applies what is pending at both children of `node` and stores the
    /// sum of the two at `node`.
    #[verifier::rlimit(40)]
    fn pull(&mut self, node: usize, start: usize, end: usize)
        requires
            old(self).linked(),
            placed(node as int, end - start + 1, old(self).size as int),
            start < end < old(self).size,
            (old(self).tags@)(node as int) == 0,
            consistent(
                old(self).sums@,
                old(self).tags@,
                2 * node,
                start as int,
                (start + end) / 2,
            ),
            consistent(
                old(self).sums@,
                old(self).tags@,
                2 * node + 1,
                (start + end) / 2 + 1,
                end as int,
            ),
        ensures
            final(self).linked(),
            final(self).size == old(self).size,
            (final(self).tags@)(node as int) == 0,
            consistent(final(self).sums@, final(self).tags@, node as int, start as int, end as int),
            forall|i: int|
                start <= i <= end ==> #[trigger] value_under(
                    final(self).sums@,
                    final(self).tags@,
                    node as int,
                    start as int,
                    end as int,
                    i,
                ) == if i <= (start + end) / 2 {
                    value_under(
                        old(self).sums@,
                        old(self).tags@,
                        2 * node,
                        start as int,
                        (start + end) / 2,
                        i,
                    )
                } else {
                    value_under(
                        old(self).sums@,
                        old(self).tags@,
                        2 * node + 1,
                        (start + end) / 2 + 1,
                        end as int,
                        i,
                    )
                },
            same_outside(
                old(self).sums@,
                old(self).tags@,
                final(self).sums@,
                final(self).tags@,
                node as int,
            ),
    {
        let ghost n = self.size as int;
        let ghost s0 = self.sums@;
        let ghost t0 = self.tags@;
        let ghost lc = 2 * node as int;
        let ghost rc = 2 * node + 1;
        proof {
            lemma_placed(node as int, start as int, end as int, n);
        }
        let mid = (start + end) / 2;
        self.push(2 * node, start, mid);
        let ghost s1 = self.sums@;
        let ghost t1 = self.tags@;
        proof {
            lemma_push(s0, t0, lc, start as int, mid as int);
            lemma_sibling_kept(s0, t0, s1, t1, node as int, lc, rc, mid + 1, end as int);
        }
        self.push(2 * node + 1, mid + 1, end);
        let ghost s2 = self.sums@;
        let ghost t2 = self.tags@;
        proof {
            lemma_push(s1, t1, rc, mid + 1, end as int);
            lemma_sibling_kept(s1, t1, s2, t2, node as int, rc, lc, start as int, mid as int);
            assert(t2(rc) == 0);
            assert(t2(lc) == 0) by {
                lemma_below_child(lc, node as int);
                assert(below(lc, lc));
                assert(!below(lc, rc));
            }
            lemma_wrap64_ops(s2(lc), s2(rc));
        }
        let total = self.tree[2 * node].wrapping_add(self.tree[2 * node + 1]);
        self.tree.set(node, total);
        proof {
            let s3 = |k: int|
                if k == node {
                    s2(lc) + s2(rc)
                } else {
                    s2(k)
                };
            self.sums = Ghost(s3);
            lemma_child_kept(s2, t2, s3, t2, node as int, lc, start as int, mid as int);
            lemma_child_kept(s2, t2, s3, t2, node as int, rc, mid + 1, end as int);
            assert(t2(lc) * (mid - start + 1) == 0) by (nonlinear_arith)
                requires
                    t2(lc) == 0,
            ;
            assert(t2(rc) * (end - mid) == 0) by (nonlinear_arith)
                requires
                    t2(rc) == 0,
            ;
            assert(below(node as int, node as int));
            assert(consistent(s3, t2, node as int, start as int, end as int));
            assert forall|i: int| start <= i <= end implies #[trigger] value_under(
                s3,
                t2,
                node as int,
                start as int,
                end as int,
                i,
            ) == if i <= mid {
                value_under(s0, t0, lc, start as int, mid as int, i)
            } else {
                value_under(s0, t0, rc, mid + 1, end as int, i)
            } by {
                if i <= mid {
                    assert(value_under(s3, t2, lc, start as int, mid as int, i) == value_under(
                        s2,
                        t2,
                        lc,
                        start as int,
                        mid as int,
                        i,
                    ));
                    assert(value_under(s2, t2, lc, start as int, mid as int, i) == value_under(
                        s1,
                        t1,
                        lc,
                        start as int,
                        mid as int,
                        i,
                    ));
                    assert(value_under(s1, t1, lc, start as int, mid as int, i) == value_under(
                        s0,
                        t0,
                        lc,
                        start as int,
                        mid as int,
                        i,
                    ));
                } else {
                    assert(value_under(s3, t2, rc, mid + 1, end as int, i) == value_under(
                        s2,
                        t2,
                        rc,
                        mid + 1,
                        end as int,
                        i,
                    ));
                    assert(value_under(s2, t2, rc, mid + 1, end as int, i) == value_under(
                        s1,
                        t1,
                        rc,
                        mid + 1,
                        end as int,
                        i,
                    ));
                    assert(value_under(s1, t1, rc, mid + 1, end as int, i) == value_under(
                        s0,
                        t0,
                        rc,
                        mid + 1,
                        end as int,
                        i,
                    ));
                }
            }
            assert(same_outside(s0, t0, s3, t2, node as int)) by {
                assert forall|k: int| !below(k, node as int) implies #[trigger] s3(k) == s0(k) by {
                    assert(s2(k) == s1(k));
                    assert(s1(k) == s0(k));
                }
                assert forall|k: int| !below(k, node as int) implies #[trigger] t2(k) == t0(k) by {
                    assert(t1(k) == t0(k));
                }
            }
        }
    }

    /// Adds `val` to every value at the indices from `l` to `r`, both
    /// included. Where the range is empty or reaches outside the structure
    /// nothing changes.
    pub fn update_range(&mut self, l: usize, r: usize, val: i64)
        requires
            old(self).wf(),
        ensures
            final(self).wf(),
            l <= r < old(self)@.len() ==> final(self)@ == add_to_range(
                old(self)@,
                l as int,
                r + 1,
                val as int,
            ),
            !(l <= r < old(self)@.len()) ==> final(self)@ == old(self)@,
    {
        if l <= r && r < self.size {
            proof {
                lemma_root_placed(self.size as int);
            }
            let ghost before = self@;
            let last = self.size - 1;
            self.update_range_helper(1, 0, last, l, r, val);
            proof {
                assert(self@ =~= add_to_range(before, l as int, r + 1, val as int));
            }
        }
    }

    /// Adds `val` to the values under `node` that lie from `l` to `r`: what is
    /// pending is pushed down before the children are looked at, and the sum
    /// of `node` is taken from them again afterwards.
    #[verifier::rlimit(40)]
    fn update_range_helper(
        &mut self,
        node: usize,
        start: usize,
        end: usize,
        l: usize,
        r: usize,
        val: i64,
    )
        requires
            old(self).linked(),
            placed(node as int, end - start + 1, old(self).size as int),
            start <= end < old(self).size,
            consistent(old(self).sums@, old(self).tags@, node as int, start as int, end as int),
            l <= r,
        ensures
            final(self).linked(),
            final(self).size == old(self).size,
            (final(self).tags@)(node as int) == 0,
            consistent(final(self).sums@, final(self).tags@, node as int, start as int, end as int),
            forall|i: int|
                start <= i <= end ==> #[trigger] value_under(
                    final(self).sums@,
                    final(self).tags@,
                    node as int,
                    start as int,
                    end as int,
                    i,
                ) == value_under(
                    old(self).sums@,
                    old(self).tags@,
                    node as int,
                    start as int,
                    end as int,
                    i,
                ) + if l <= i <= r {
                    val as int
                } else {
                    0
                },
            same_outside(
                old(self).sums@,
                old(self).tags@,
                final(self).sums@,
                final(self).tags@,
                node as int,
            ),
        decreases end - start,
    {
        let ghost n = self.size as int;
        let ghost s0 = self.sums@;
        let ghost t0 = self.tags@;
        let ghost lc = 2 * node as int;
        let ghost rc = 2 * node + 1;
        proof {
            lemma_placed(node as int, start as int, end as int, n);
            assert(below(node as int, node as int));
        }
        self.push(node, start, end);
        let ghost s1 = self.sums@;
        let ghost t1 = self.tags@;
        proof {
            lemma_push(s0, t0, node as int, start as int, end as int);
        }
        if start > r || end < l {
            return ;
        }
        if start >= l && end <= r {
            let bumped = self.lazy[node].wrapping_add(val);
            self.lazy.set(node, bumped);
            let ghost t2 = |k: int|
                if k == node {
                    val as int
                } else {
                    t1(k)
                };
            proof {
                self.tags = Ghost(t2);
                lemma_wrap64_fits(val as int);
                lemma_wrap64_ops(t1(node as int), val as int);
                lemma_agree_below(s1, t1, s1, t2, node as int, start as int, end as int);
            }
            self.push(node, start, end);
            proof {
                lemma_push(s1, t2, node as int, start as int, end as int);
                let s3 = self.sums@;
                let t3 = self.tags@;
                assert forall|i: int| start <= i <= end implies #[trigger] value_under(
                    s3,
                    t3,
                    node as int,
                    start as int,
                    end as int,
                    i,
                ) == value_under(s0, t0, node as int, start as int, end as int, i) + val by {
                    assert(value_under(s1, t2, node as int, start as int, end as int, i) - t2(
                        node as int,
                    ) == value_under(s1, t1, node as int, start as int, end as int, i) - t1(
                        node as int,
                    ));
                }
                assert(same_outside(s0, t0, s3, t3, node as int)) by {
                    assert forall|k: int| !below(k, node as int) implies #[trigger] s3(k) == s0(
                        k,
                    ) by {
                        assert(s1(k) == s0(k));
                    }
                    assert forall|k: int| !below(k, node as int) implies #[trigger] t3(k) == t0(
                        k,
                    ) by {
                        assert(t2(k) == t1(k));
                        assert(t1(k) == t0(k));
                    }
                }
            }
            return ;
        }
        let mid = (start + end) / 2;
        self.update_range_helper(2 * node, start, mid, l, r, val);
        let ghost s2 = self.sums@;
        let ghost t2 = self.tags@;
        proof {
            lemma_sibling_kept(s1, t1, s2, t2, node as int, lc, rc, mid + 1, end as int);
        }
        self.update_range_helper(2 * node + 1, mid + 1, end, l, r, val);
        let ghost s3 = self.sums@;
        let ghost t3 = self.tags@;
        proof {
            lemma_sibling_kept(s2, t2, s3, t3, node as int, rc, lc, start as int, mid as int);
        }
        self.pull(node, start, end);
        proof {
            let s4 = self.sums@;
            let t4 = self.tags@;
            assert forall|i: int| start <= i <= end implies #[trigger] value_under(
                s4,
                t4,
                node as int,
                start as int,
                end as int,
                i,
            ) == value_under(s0, t0, node as int, start as int, end as int, i) + if l <= i <= r {
                val as int
            } else {
                0
            } by {
                assert(value_under(s1, t1, node as int, start as int, end as int, i)
                    == value_under(s0, t0, node as int, start as int, end as int, i));
                if i <= mid {
                    assert(value_under(s3, t3, lc, start as int, mid as int, i) == value_under(
                        s2,
                        t2,
                        lc,
                        start as int,
                        mid as int,
                        i,
                    ));
                } else {
                    assert(value_under(s2, t2, rc, mid + 1, end as int, i) == value_under(
                        s1,
                        t1,
                        rc,
                        mid + 1,
                        end as int,
                        i,
                    ));
                }
            }
            assert(same_outside(s0, t0, s4, t4, node as int)) by {
                assert forall|k: int| !below(k, node as int) implies #[trigger] s4(k) == s0(k) by {
                    assert(s3(k) == s2(k));
                    assert(s2(k) == s1(k));
                    assert(s1(k) == s0(k));
                }
                assert forall|k: int| !below(k, node as int) implies #[trigger] t4(k) == t0(k) by {
                    assert(t3(k) == t2(k));
                    assert(t2(k) == t1(k));
                    assert(t1(k) == t0(k));
                }
            }
        }
    }

    /// Replaces the value at `idx` by `val`. An index outside the structure
    /// changes nothing.
    pub fn update_point(&mut self, idx: usize, val: i64)
        requires
            old(self).wf(),
        ensures
            final(self).wf(),
            final(self)@ == set_at(old(self)@, idx as int, val as int),
    {
        if idx < self.size {
            proof {
                lemma_root_placed(self.size as int);
            }
            let ghost before = self@;
            let last = self.size - 1;
            self.update_point_helper(1, 0, last, idx, val);
            proof {
                assert(self@ =~= set_at(before, idx as int, val as int));
            }
        }
    }

    /// Replaces the value at `idx` under `node`, pushing down what is pending
    /// on the way to its leaf.
    #[verifier::rlimit(40)]
    fn update_point_helper(&mut self, node: usize, start: usize, end: usize, idx: usize, val: i64)
        requires
            old(self).linked(),
            placed(node as int, end - start + 1, old(self).size as int),
            start <= idx <= end < old(self).size,
            consistent(old(self).sums@, old(self).tags@, node as int, start as int, end as int),
        ensures
            final(self).linked(),
            final(self).size == old(self).size,
            (final(self).tags@)(node as int) == 0,
            consistent(final(self).sums@, final(self).tags@, node as int, start as int, end as int),
            forall|i: int|
                start <= i <= end ==> #[trigger] value_under(
                    final(self).sums@,
                    final(self).tags@,
                    node as int,
                    start as int,
                    end as int,
                    i,
                ) == if i == idx {
                    val as int
                } else {
                    value_under(
                        old(self).sums@,
                        old(self).tags@,
                        node as int,
                        start as int,
                        end as int,
                        i,
                    )
                },
            same_outside(
                old(self).sums@,
                old(self).tags@,
                final(self).sums@,
                final(self).tags@,
                node as int,
            ),
        decreases end - start,
    {
        let ghost n = self.size as int;
        let ghost s0 = self.sums@;
        let ghost t0 = self.tags@;
        let ghost lc = 2 * node as int;
        let ghost rc = 2 * node + 1;
        proof {
            lemma_placed(node as int, start as int, end as int, n);
            assert(below(node as int, node as int));
        }
        self.push(node, start, end);
        let ghost s1 = self.sums@;
        let ghost t1 = self.tags@;
        proof {
            lemma_push(s0, t0, node as int, start as int, end as int);
        }
        if start == end {
            self.tree.set(node, val);
            proof {
                lemma_wrap64_fits(val as int);
                let s2 = |k: int|
                    if k == node {
                        val as int
                    } else {
                        s1(k)
                    };
                self.sums = Ghost(s2);
                assert(same_outside(s0, t0, s2, t1, node as int)) by {
                    assert forall|k: int| !below(k, node as int) implies #[trigger] s2(k) == s0(
                        k,
                    ) by {
                        assert(s1(k) == s0(k));
                    }
                }
            }
        } else {
            let mid = (start + end) / 2;
            if idx <= mid {
                self.update_point_helper(2 * node, start, mid, idx, val);
                proof {
                    lemma_sibling_kept(
                        s1,
                        t1,
                        self.sums@,
                        self.tags@,
                        node as int,
                        lc,
                        rc,
                        mid + 1,
                        end as int,
                    );
                }
            } else {
                self.update_point_helper(2 * node + 1, mid + 1, end, idx, val);
                proof {
                    lemma_sibling_kept(
                        s1,
                        t1,
                        self.sums@,
                        self.tags@,
                        node as int,
                        rc,
                        lc,
                        start as int,
                        mid as int,
                    );
                }
            }
            let ghost s2 = self.sums@;
            let ghost t2 = self.tags@;
            self.pull(node, start, end);
            proof {
                let s3 = self.sums@;
                let t3 = self.tags@;
                assert forall|i: int| start <= i <= end implies #[trigger] value_under(
                    s3,
                    t3,
                    node as int,
                    start as int,
                    end as int,
                    i,
                ) == if i == idx {
                    val as int
                } else {
                    value_under(s0, t0, node as int, start as int, end as int, i)
                } by {
                    assert(value_under(s1, t1, node as int, start as int, end as int, i)
                        == value_under(s0, t0, node as int, start as int, end as int, i));
                    if i <= mid {
                        if idx > mid {
                            assert(value_under(s2, t2, lc, start as int, mid as int, i)
                                == value_under(s1, t1, lc, start as int, mid as int, i));
                        }
                    } else {
                        if idx <= mid {
                            assert(value_under(s2, t2, rc, mid + 1, end as int, i) == value_under(
                                s1,
                                t1,
                                rc,
                                mid + 1,
                                end as int,
                                i,
                            ));
                        }
                    }
                }
                assert(same_outside(s0, t0, s3, t3, node as int)) by {
                    assert forall|k: int| !below(k, node as int) implies #[trigger] s3(k) == s0(
                        k,
                    ) by {
                        assert(s2(k) == s1(k));
                        assert(s1(k) == s0(k));
                    }
                    assert forall|k: int| !below(k, node as int) implies #[trigger] t3(k) == t0(
                        k,
                    ) by {
                        assert(t2(k) == t1(k));
                        assert(t1(k) == t0(k));
                    }
                }
            }
        }
    }

    /// The sum of the values at the indices from `l` to `r`, both included;
    /// zero where the range is empty or reaches outside the structure.
    /// Pending deltas are pushed down on the way; the values stay as they
    /// were.
    pub fn query(&mut self, l: usize, r: usize) -> (sum: i64)
        requires
            old(self).wf(),
        ensures
            final(self).wf(),
            final(self)@ == old(self)@,
            l <= r < old(self)@.len() ==> sum == wrap64(range_sum_of(old(self)@, l as int, r + 1)),
            !(l <= r < old(self)@.len()) ==> sum == 0,
    {
        if l <= r && r < self.size {
            proof {
                lemma_root_placed(self.size as int);
            }
            let ghost before = self@;
            let last = self.size - 1;
            let sum = self.query_helper(1, 0, last, l, r);
            proof {
                assert(self@ =~= before);
            }
            sum
        } else {
            0
        }
    }

    /// The sum of the values under `node` that lie from `l` to `r`, with what
    /// is pending pushed down on every way that is descended.
    #[verifier::rlimit(40)]
    fn query_helper(&mut self, node: usize, start: usize, end: usize, l: usize, r: usize) -> (sum:
        i64)
        requires
            old(self).linked(),
            placed(node as int, end - start + 1, old(self).size as int),
            start <= end < old(self).size,
            consistent(old(self).sums@, old(self).tags@, node as int, start as int, end as int),
            l <= r,
        ensures
            final(self).linked(),
            final(self).size == old(self).size,
            consistent(final(self).sums@, final(self).tags@, node as int, start as int, end as int),
            effective(final(self).sums@, final(self).tags@, node as int, start as int, end as int)
                == effective(
                old(self).sums@,
                old(self).tags@,
                node as int,
                start as int,
                end as int,
            ),
            forall|i: int|
                start <= i <= end ==> #[trigger] value_under(
                    final(self).sums@,
                    final(self).tags@,
                    node as int,
                    start as int,
                    end as int,
                    i,
                ) == value_under(
                    old(self).sums@,
                    old(self).tags@,
                    node as int,
                    start as int,
                    end as int,
                    i,
                ),
            same_outside(
                old(self).sums@,
                old(self).tags@,
                final(self).sums@,
                final(self).tags@,
                node as int,
            ),
            sum == wrap64(
                clipped_sum(
                    values_under(
                        old(self).sums@,
                        old(self).tags@,
                        node as int,
                        start as int,
                        end as int,
                        old(self).size as int,
                    ),
                    if start >= l {
                        start as int
                    } else {
                        l as int
                    },
                    if end <= r {
                        end as int
                    } else {
                        r as int
                    },
                ),
            ),
        decreases end - start,
    {
        let ghost n = self.size as int;
        let ghost s0 = self.sums@;
        let ghost t0 = self.tags@;
        let ghost lc = 2 * node as int;
        let ghost rc = 2 * node + 1;
        let ghost v0 = values_under(s0, t0, node as int, start as int, end as int, n);
        if start > r || end < l {
            proof {
                lemma_wrap64_fits(0);
            }
            return 0;
        }
        proof {
            lemma_placed(node as int, start as int, end as int, n);
            assert(below(node as int, node as int));
        }
        self.push(node, start, end);
        let ghost s1 = self.sums@;
        let ghost t1 = self.tags@;
        proof {
            lemma_push(s0, t0, node as int, start as int, end as int);
            assert(t1(node as int) * (end - start + 1) == 0) by (nonlinear_arith)
                requires
                    t1(node as int) == 0,
            ;
        }
        if start >= l && end <= r {
            proof {
                lemma_sum_under(s0, t0, node as int, start as int, end as int, n);
            }
            return self.tree[node];
        }
        let mid = (start + end) / 2;
        let left_query = self.query_helper(2 * node, start, mid, l, r);
        let ghost s2 = self.sums@;
        let ghost t2 = self.tags@;
        proof {
            lemma_sibling_kept(s1, t1, s2, t2, node as int, lc, rc, mid + 1, end as int);
        }
        let right_query = self.query_helper(2 * node + 1, mid + 1, end, l, r);
        proof {
            let s3 = self.sums@;
            let t3 = self.tags@;
            lemma_sibling_kept(s2, t2, s3, t3, node as int, rc, lc, start as int, mid as int);
            let vl = values_under(s1, t1, lc, start as int, mid as int, n);
            let vr = values_under(s2, t2, rc, mid + 1, end as int, n);
            let lo = if start >= l {
                start as int
            } else {
                l as int
            };
            let hi = if end <= r {
                end as int
            } else {
                r as int
            };
            let left_hi = if mid <= r {
                mid as int
            } else {
                r as int
            };
            let right_lo = if mid + 1 >= l {
                mid + 1
            } else {
                l as int
            };
            assert forall|i: int| start <= i <= mid implies vl[i] == v0[i] by {
                assert(value_under(s1, t1, node as int, start as int, end as int, i)
                    == value_under(s0, t0, node as int, start as int, end as int, i));
            }
            assert forall|i: int| mid < i <= end implies vr[i] == v0[i] by {
                assert(value_under(s1, t1, node as int, start as int, end as int, i)
                    == value_under(s0, t0, node as int, start as int, end as int, i));
                assert(value_under(s2, t2, rc, mid + 1, end as int, i) == value_under(
                    s1,
                    t1,
                    rc,
                    mid + 1,
                    end as int,
                    i,
                ));
            }
            if lo <= left_hi {
                lemma_range_sum_shifted(vl, v0, lo, left_hi + 1, 0);
            }
            if right_lo <= hi {
                lemma_range_sum_shifted(vr, v0, right_lo, hi + 1, 0);
            }
            assert(clipped_sum(v0, lo, hi) == clipped_sum(vl, lo, left_hi) + clipped_sum(
                vr,
                right_lo,
                hi,
            ));
            lemma_wrap64_ops(clipped_sum(vl, lo, left_hi), clipped_sum(vr, right_lo, hi));
            assert forall|i: int| start <= i <= end implies #[trigger] value_under(
                s3,
                t3,
                node as int,
                start as int,
                end as int,
                i,
            ) == value_under(s0, t0, node as int, start as int, end as int, i) by {
                assert(value_under(s1, t1, node as int, start as int, end as int, i)
                    == value_under(s0, t0, node as int, start as int, end as int, i));
                assert(t3(node as int) == 0);
                if i <= mid {
                    assert(value_under(s3, t3, lc, start as int, mid as int, i) == value_under(
                        s2,
                        t2,
                        lc,
                        start as int,
                        mid as int,
                        i,
                    ));
                    assert(value_under(s2, t2, lc, start as int, mid as int, i) == value_under(
                        s1,
                        t1,
                        lc,
                        start as int,
                        mid as int,
                        i,
                    ));
                } else {
                    assert(value_under(s3, t3, rc, mid + 1, end as int, i) == value_under(
                        s2,
                        t2,
                        rc,
                        mid + 1,
                        end as int,
                        i,
                    ));
                    assert(value_under(s2, t2, rc, mid + 1, end as int, i) == value_under(
                        s1,
                        t1,
                        rc,
                        mid + 1,
                        end as int,
                        i,
                    ));
                }
            }
            assert(effective(s3, t3, lc, start as int, mid as int) == effective(
                s1,
                t1,
                lc,
                start as int,
                mid as int,
            ));
            assert(effective(s3, t3, rc, mid + 1, end as int) == effective(
                s1,
                t1,
                rc,
                mid + 1,
                end as int,
            ));
            assert(s3(node as int) == s1(node as int));
            assert(consistent(s3, t3, node as int, start as int, end as int));
            assert(same_outside(s0, t0, s3, t3, node as int)) by {
                assert forall|k: int| !below(k, node as int) implies #[trigger] s3(k) == s0(k) by {
                    assert(s2(k) == s1(k));
                    assert(s1(k) == s0(k));
                }
                assert forall|k: int| !below(k, node as int) implies #[trigger] t3(k) == t0(k) by {
                    assert(t2(k) == t1(k));
                    assert(t1(k) == t0(k));
                }
            }
        }
        left_query.wrapping_add(right_query)
    }
}

} // verus!
