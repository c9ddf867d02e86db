//! A priority queue of distances and vertices: a binary heap in a vector.

use vstd::prelude::*;

verus! {

/// Whether `queue` holds `entry`.
pub open spec fn holds(queue: Seq<(i64, usize)>, entry: (i64, usize)) -> bool {
    exists|i: int| 0 <= i < queue.len() && #[trigger] queue[i] == entry
}

/// Whether `a` comes before `b`, or is `b`: by distance first, by vertex
/// where the distances are equal.
pub open spec fn at_most(a: (i64, usize), b: (i64, usize)) -> bool {
    a.0 < b.0 || (a.0 == b.0 && a.1 <= b.1)
}

/// Whether no entry of `items`, the entry at `skip` left aside, comes
/// before the entry above it in the heap.
pub open spec fn heap_but(items: Seq<(i64, usize)>, skip: int) -> bool {
    forall|i: int|
        1 <= i < items.len() && i != skip ==> at_most(#[trigger] items[(i - 1) / 2], items[i])
}

/// Whether no entry of `items`, the entries under `skip` left aside, comes
/// before the entry above it in the heap.
pub open spec fn heap_under(items: Seq<(i64, usize)>, skip: int) -> bool {
    forall|i: int|
        1 <= i < items.len() && (i - 1) / 2 != skip ==> at_most(
            #[trigger] items[(i - 1) / 2],
            items[i],
        )
}

/// Whether no entry of `items` comes before the entry above it in the
/// heap.
pub open spec fn is_heap(items: Seq<(i64, usize)>) -> bool {
    heap_but(items, 0)
}

/// In a heap no entry comes before the first.
pub proof fn lemma_heap_first(items: Seq<(i64, usize)>, k: int)
    requires
        is_heap(items),
        0 <= k < items.len(),
    ensures
        at_most(items[0], items[k]),
    decreases k,
{
    if k > 0 {
        lemma_heap_first(items, (k - 1) / 2);
        assert(at_most(items[(k - 1) / 2], items[k]));
    }
}

/// Exchanging two entries of a sequence changes nothing about what it
/// holds.
pub proof fn lemma_swap_holds(before: Seq<(i64, usize)>, after: Seq<(i64, usize)>, i: int, j: int)
    requires
        0 <= i < before.len(),
        0 <= j < before.len(),
        after == before.update(i, before[j]).update(j, before[i]),
    ensures
        forall|e: (i64, usize)| holds(before, e) <==> holds(after, e),
{
    assert forall|e: (i64, usize)| holds(before, e) implies holds(after, e) by {
        let k = choose|k: int| 0 <= k < before.len() && #[trigger] before[k] == e;
        let to = if k == i {
            j
        } else if k == j {
            i
        } else {
            k
        };
        assert(after[to] == e);
    }
    assert forall|e: (i64, usize)| holds(after, e) implies holds(before, e) by {
        let k = choose|k: int| 0 <= k < after.len() && #[trigger] after[k] == e;
        let from = if k == i {
            j
        } else if k == j {
            i
        } else {
            k
        };
        assert(before[from] == e);
    }
}

/// A queue that gives out the least of its entries first.
pub struct MinQueue {
    items: Vec<(i64, usize)>,
}

impl View for MinQueue {
    type V = Seq<(i64, usize)>;

    closed spec fn view(&self) -> Seq<(i64, usize)> {
        self.items@
    }
}

/// Whether `a` comes strictly before `b`.
fn comes_before(a: (i64, usize), b: (i64, usize)) -> (before: bool)
    ensures
        before == !at_most(b, a),
{
    a.0 < b.0 || (a.0 == b.0 && a.1 < b.1)
}

impl MinQueue {
    /// The entries are in heap order.
    pub closed spec fn wf(&self) -> bool {
        is_heap(self.items@)
    }

    /// A queue without entries.
    pub fn new() -> (queue: MinQueue)
        ensures
            queue.wf(),
            queue@.len() == 0,
    {
        MinQueue { items: Vec::new() }
    }

    /// The number of entries.
    pub fn len(&self) -> (n: usize)
        ensures
            n == self@.len(),
    {
        self.items.len()
    }

    /// Puts `entry` into the queue.
    #[verifier::rlimit(40)]
    pub fn push(&mut self, entry: (i64, usize))
        requires
            old(self).wf(),
        ensures
            final(self).wf(),
            final(self)@.len() == old(self)@.len() + 1,
            holds(final(self)@, entry),
            forall|e: (i64, usize)| holds(old(self)@, e) ==> holds(final(self)@, e),
            forall|e: (i64, usize)| holds(final(self)@, e) ==> holds(old(self)@, e) || e == entry,
    {
        let ghost before = self.items@;
        self.items.push(entry);
        let ghost pushed = self.items@;
        proof {
            assert(pushed[before.len() as int] == entry);
            assert(holds(pushed, entry));
            assert forall|e: (i64, usize)| holds(before, e) implies holds(pushed, e) by {
                let k = choose|k: int| 0 <= k < before.len() && #[trigger] before[k] == e;
                assert(pushed[k] == e);
            }
            assert forall|e: (i64, usize)| holds(pushed, e) implies holds(before, e) || e
                == entry by {
                let k = choose|k: int| 0 <= k < pushed.len() && #[trigger] pushed[k] == e;
                if k < before.len() {
                    assert(before[k] == e);
                }
            }
            assert(heap_but(pushed, before.len() as int)) by {
                assert forall|i: int| 1 <= i < pushed.len() && i != before.len() implies at_most(
                    #[trigger] pushed[(i - 1) / 2],
                    pushed[i],
                ) by {
                    assert(at_most(before[(i - 1) / 2], before[i]));
                }
            }
        }
        let mut i: usize = self.items.len() - 1;
        while i > 0 && comes_before(self.items[i], self.items[(i - 1) / 2])
            invariant
                i < self.items@.len(),
                self.items@.len() == pushed.len(),
                holds(pushed, entry),
                heap_but(self.items@, i as int),
                forall|c: int|
                    1 <= c < self.items@.len() && (c - 1) / 2 == i && i > 0 ==> at_most(
                        self.items@[(i - 1) / 2],
                        #[trigger] self.items@[c],
                    ),
                forall|e: (i64, usize)| holds(pushed, e) <==> holds(self.items@, e),
            decreases i,
        {
            let parent = (i - 1) / 2;
            let ghost now = self.items@;
            let lower = self.items[i];
            let upper = self.items[parent];
            self.items.set(i, upper);
            self.items.set(parent, lower);
            proof {
                let next = self.items@;
                lemma_swap_holds(now, next, i as int, parent as int);
                assert forall|k: int| 1 <= k < next.len() && k != parent implies at_most(
                    #[trigger] next[(k - 1) / 2],
                    next[k],
                ) by {
                    if k == i {
                    } else if (k - 1) / 2 == i {
                        assert(at_most(now[(i - 1) / 2], now[k]));
                    } else if (k - 1) / 2 == parent {
                        assert(at_most(now[(k - 1) / 2], now[k]));
                    } else {
                        assert(at_most(now[(k - 1) / 2], now[k]));
                    }
                }
                assert forall|c: int|
                    1 <= c < next.len() && (c - 1) / 2 == parent && parent > 0 implies at_most(
                    next[(parent - 1) / 2],
                    #[trigger] next[c],
                ) by {
                    assert(at_most(now[(parent - 1) / 2], now[parent as int]));
                    if c != i {
                        assert(at_most(now[(c - 1) / 2], now[c]));
                    }
                }
            }
            i = parent;
        }
        proof {
            assert(holds(self.items@, entry));
            assert forall|k: int| 1 <= k < self.items@.len() implies at_most(
                #[trigger] self.items@[(k - 1) / 2],
                self.items@[k],
            ) by {}
        }
    }

    /// Takes the least entry out of the queue.
    #[verifier::rlimit(40)]
    pub fn pop(&mut self) -> (least: (i64, usize))
        requires
            old(self).wf(),
            old(self)@.len() > 0,
        ensures
            final(self).wf(),
            final(self)@.len() == old(self)@.len() - 1,
            holds(old(self)@, least),
            forall|e: (i64, usize)| holds(old(self)@, e) ==> at_most(least, e),
            forall|e: (i64, usize)| holds(final(self)@, e) ==> holds(old(self)@, e),
            forall|e: (i64, usize)| holds(old(self)@, e) && e != least ==> holds(final(self)@, e),
    {
        let ghost before = self.items@;
        let least = self.items.swap_remove(0);
        let ghost start = self.items@;
        proof {
            assert(before[0] == least);
            assert forall|e: (i64, usize)| holds(before, e) implies at_most(least, e) by {
                let k = choose|k: int| 0 <= k < before.len() && #[trigger] before[k] == e;
                lemma_heap_first(before, k);
            }
            assert forall|e: (i64, usize)| holds(start, e) implies holds(before, e) by {
                let k = choose|k: int| 0 <= k < start.len() && #[trigger] start[k] == e;
                if k == 0 {
                    assert(before[before.len() - 1] == e);
                } else {
                    assert(before[k] == e);
                }
            }
            assert forall|e: (i64, usize)| holds(before, e) && e != least implies holds(
                start,
                e,
            ) by {
                let k = choose|k: int| 0 <= k < before.len() && #[trigger] before[k] == e;
                if k == before.len() - 1 {
                    assert(start[0] == e);
                } else {
                    assert(start[k] == e);
                }
            }
            assert(heap_under(start, 0)) by {
                assert forall|i: int| 1 <= i < start.len() && (i - 1) / 2 != 0 implies at_most(
                    #[trigger] start[(i - 1) / 2],
                    start[i],
                ) by {
                    assert(at_most(before[(i - 1) / 2], before[i]));
                }
            }
        }
        let n = self.items.len();
        let mut i: usize = 0;
        loop
            invariant_except_break
                heap_under(self.items@, i as int),
                forall|c: int|
                    1 <= c < n && (c - 1) / 2 == i && i > 0 ==> at_most(
                        self.items@[(i - 1) / 2],
                        #[trigger] self.items@[c],
                    ),
            invariant
                n == self.items@.len(),
                n == start.len(),
                i < n || n == 0,
                forall|e: (i64, usize)| holds(start, e) <==> holds(self.items@, e),
            ensures
                is_heap(self.items@),
            decreases n - i,
        {
            if n == 0 || i >= (n - 1) / 2 + 1 || 2 * i + 1 >= n {
                proof {
                    assert forall|k: int| 1 <= k < self.items@.len() implies at_most(
                        #[trigger] self.items@[(k - 1) / 2],
                        self.items@[k],
                    ) by {
                        if (k - 1) / 2 == i {
                            assert(k >= 2 * i + 1);
                        }
                    }
                }
                break ;
            }
            let left = 2 * i + 1;
            let mut child = left;
            if left + 1 < n && comes_before(self.items[left + 1], self.items[left]) {
                child = left + 1;
            }
            if !comes_before(self.items[child], self.items[i]) {
                proof {
                    let now = self.items@;
                    assert forall|k: int| 1 <= k < now.len() implies at_most(
                        #[trigger] now[(k - 1) / 2],
                        now[k],
                    ) by {
                        if (k - 1) / 2 == i {
                            assert(k == left || k == left + 1);
                        }
                    }
                }
                break ;
            }
            let ghost now = self.items@;
            let upper = self.items[i];
            let lower = self.items[child];
            self.items.set(i, lower);
            self.items.set(child, upper);
            proof {
                let next = self.items@;
                lemma_swap_holds(now, next, i as int, child as int);
                assert forall|k: int| 1 <= k < next.len() && (k - 1) / 2 != child implies at_most(
                    #[trigger] next[(k - 1) / 2],
                    next[k],
                ) by {
                    if (k - 1) / 2 == i {
                        assert(k == left || k == left + 1);
                    } else if k == i {
                        assert(at_most(now[(i - 1) / 2], now[child as int]));
                    } else {
                        assert(at_most(now[(k - 1) / 2], now[k]));
                    }
                }
                assert forall|c: int|
                    1 <= c < n && (c - 1) / 2 == child && child > 0 implies at_most(
                    next[(child - 1) / 2],
                    #[trigger] next[c],
                ) by {
                    assert(at_most(now[(c - 1) / 2], now[c]));
                }
            }
            i = child;
        }
        least
    }
}

} // verus!
