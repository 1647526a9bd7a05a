//! A binary max-heap of leaves keyed by cost.
//!
//! Which of several equally costly leaves comes out first is part of what the
//! heap promises: sifting up keeps the parent on ties, and sifting down moves
//! only a strictly larger child up.  So even a limited split budget always
//! gives the same tree.
use vstd::prelude::*;

use crate::geom::Aabb;

verus! {

/// A leaf waiting to be split: its cost, its node, its cell and its depth.
#[derive(Clone, Copy)]
pub struct Entry {
    pub cost: i64,
    pub idx: usize,
    pub cell: Aabb,
    pub depth: usize,
}

pub open spec fn parent(i: int) -> int {
    (i - 1) / 2
}

pub open spec fn swapped(a: Seq<Entry>, i: int, j: int) -> Seq<Entry> {
    a.update(i, a[j]).update(j, a[i])
}

/// The entry at `i` moved up until its parent is at least as costly.
pub open spec fn sifted_up(a: Seq<Entry>, i: int) -> Seq<Entry>
    decreases i,
{
    if i <= 0 || a[parent(i)].cost >= a[i].cost {
        a
    } else {
        sifted_up(swapped(a, parent(i), i), parent(i))
    }
}

/// The costliest of a position and its two children: the position itself, or
/// the left child where it is strictly costlier, or the right child where it is
/// strictly costlier than both.
pub open spec fn costliest(a: Seq<Entry>, i: int) -> int {
    let l = 2 * i + 1;
    let r = 2 * i + 2;
    let m = if l < a.len() && a[l].cost > a[i].cost {
        l
    } else {
        i
    };
    if r < a.len() && a[r].cost > a[m].cost {
        r
    } else {
        m
    }
}

/// The entry at `i` moved down while a child is strictly costlier.
pub open spec fn sifted_down(a: Seq<Entry>, i: int) -> Seq<Entry>
    decreases a.len() - i,
{
    let m = costliest(a, i);
    if i < 0 || i >= a.len() || m == i {
        a
    } else {
        sifted_down(swapped(a, m, i), m)
    }
}

/// The heap after a push.
pub open spec fn pushed(a: Seq<Entry>, e: Entry) -> Seq<Entry> {
    sifted_up(a.push(e), a.len() as int)
}

/// The heap after a pop.
pub open spec fn popped(a: Seq<Entry>) -> Seq<Entry> {
    if a.len() <= 1 {
        Seq::empty()
    } else {
        sifted_down(a.drop_last().update(0, a.last()), 0)
    }
}

/// No entry is costlier than its parent.
pub open spec fn is_heap(a: Seq<Entry>) -> bool {
    forall|i: int| 0 < i < a.len() ==> a[parent(i)].cost >= (#[trigger] a[i]).cost
}

/// The heap's entries, in heap order.
pub struct MaxHeap {
    pub a: Vec<Entry>,
}

impl MaxHeap {
    pub fn new() -> (r: MaxHeap)
        ensures
            r.a@.len() == 0,
    {
        MaxHeap { a: Vec::new() }
    }

    /// The entry that a pop would give.
    pub fn peek(&self) -> (r: Option<Entry>)
        ensures
            r == if self.a@.len() == 0 {
                None
            } else {
                Some(self.a@[0])
            },
    {
        if self.a.len() == 0 {
            None
        } else {
            Some(self.a[0])
        }
    }

    fn swap(&mut self, i: usize, j: usize)
        requires
            i < old(self).a@.len(),
            j < old(self).a@.len(),
        ensures
            final(self).a@ == swapped(old(self).a@, i as int, j as int),
    {
        let x = self.a[i];
        let y = self.a[j];
        self.a.set(i, y);
        self.a.set(j, x);
    }

    /// Add an entry.
    pub fn push(&mut self, e: Entry)
        ensures
            final(self).a@ == pushed(old(self).a@, e),
    {
        self.a.push(e);
        let mut i: usize = self.a.len() - 1;
        while i > 0 && self.a[(i - 1) / 2].cost < self.a[i].cost
            invariant
                i < self.a@.len(),
                sifted_up(self.a@, i as int) == pushed(old(self).a@, e),
            decreases i,
        {
            let p: usize = (i - 1) / 2;
            self.swap(p, i);
            i = p;
        }
    }

    /// Take out the entry at the top.
    pub fn pop(&mut self) -> (r: Option<Entry>)
        ensures
            r == if old(self).a@.len() == 0 {
                None
            } else {
                Some(old(self).a@[0])
            },
            final(self).a@ == popped(old(self).a@),
    {
        if self.a.len() == 0 {
            return None;
        }
        let top = self.a[0];
        let n = self.a.len();
        let last = self.a[n - 1];
        self.a.pop();
        if n == 1 {
            proof {
                assert(self.a@ =~= Seq::empty());
            }
            return Some(top);
        }
        self.a.set(0, last);
        self.sift_down();
        Some(top)
    }

    fn sift_down(&mut self)
        requires
            old(self).a@.len() > 0,
        ensures
            final(self).a@ == sifted_down(old(self).a@, 0),
    {
        let n = self.a.len();
        let mut i: usize = 0;
        let mut settled = false;
        while !settled
            invariant
                n == self.a@.len(),
                i < n,
                !settled ==> sifted_down(self.a@, i as int) == sifted_down(old(self).a@, 0),
                settled ==> self.a@ == sifted_down(old(self).a@, 0),
            decreases n - i, !settled as int,
        {
            let mut m: usize = i;
            if i < n - 1 - i && self.a[2 * i + 1].cost > self.a[m].cost {
                m = 2 * i + 1;
            }
            if i + 1 < n - 1 - i && self.a[2 * i + 2].cost > self.a[m].cost {
                m = 2 * i + 2;
            }
            proof {
                assert(m == costliest(self.a@, i as int));
            }
            if m == i {
                settled = true;
            } else {
                self.swap(m, i);
                i = m;
            }
        }
    }
}

proof fn lemma_update_multiset(a: Seq<Entry>, i: int, e: Entry)
    requires
        0 <= i < a.len(),
    ensures
        a.update(i, e).to_multiset() =~= a.to_multiset().remove(a[i]).insert(e),
{
    assert(a.update(i, e) =~= a.remove(i).insert(i, e));
    vstd::seq_lib::to_multiset_remove(a, i);
    vstd::seq_lib::to_multiset_insert(a.remove(i), i, e);
}

proof fn lemma_swap_multiset(a: Seq<Entry>, i: int, j: int)
    requires
        0 <= i < a.len(),
        0 <= j < a.len(),
    ensures
        swapped(a, i, j).to_multiset() =~= a.to_multiset(),
{
    broadcast use vstd::seq_lib::group_to_multiset_ensures;

    if i == j {
        assert(swapped(a, i, j) =~= a);
    } else {
        lemma_update_multiset(a, i, a[j]);
        lemma_update_multiset(a.update(i, a[j]), j, a[i]);
        assert(a.contains(a[i]));
        assert(a.contains(a[j]));
        assert(a.to_multiset().count(a[i]) > 0);
        assert(a.to_multiset().count(a[j]) > 0);
    }
}

/// Sifting up restores the heap where only the entry at `i` may be costlier
/// than its parent.
proof fn lemma_sift_up(a: Seq<Entry>, i: int)
    requires
        0 <= i < a.len(),
        forall|k: int| 0 < k < a.len() && k != i ==> a[parent(k)].cost >= (#[trigger] a[k]).cost,
        forall|k: int|
            0 < k < a.len() && parent(k) == i && i > 0 ==> a[parent(i)].cost >= (#[trigger] a[k]).cost,
    ensures
        is_heap(sifted_up(a, i)),
        sifted_up(a, i).to_multiset() == a.to_multiset(),
    decreases i,
{
    if i > 0 && a[parent(i)].cost < a[i].cost {
        let p = parent(i);
        let b = swapped(a, p, i);
        lemma_swap_multiset(a, p, i);
        assert forall|k: int| 0 < k < b.len() && k != p implies b[parent(k)].cost >= (
        #[trigger] b[k]).cost by {
            assert(a[k].cost == a[k].cost);
            if k == i {
            } else if parent(k) == i {
                assert(a[parent(k)].cost >= a[k].cost);
            } else if parent(k) == p {
                assert(a[parent(k)].cost >= a[k].cost);
            } else {
                assert(a[parent(k)].cost >= a[k].cost);
            }
        }
        assert forall|k: int| 0 < k < b.len() && parent(k) == p && p > 0 implies b[parent(p)].cost
            >= (#[trigger] b[k]).cost by {
            assert(a[parent(p)].cost >= a[p].cost);
            if k != i {
                assert(a[parent(k)].cost >= a[k].cost);
            }
        }
        lemma_sift_up(b, p);
    }
}

/// Sifting down restores the heap where only the children of `i` may be
/// costlier than their parent.
proof fn lemma_sift_down(a: Seq<Entry>, i: int)
    requires
        0 <= i < a.len(),
        forall|k: int| 0 < k < a.len() && parent(k) != i ==> a[parent(k)].cost >= (#[trigger] a[k]).cost,
        forall|k: int|
            0 < k < a.len() && parent(k) == i && i > 0 ==> a[parent(i)].cost >= (#[trigger] a[k]).cost,
    ensures
        is_heap(sifted_down(a, i)),
        sifted_down(a, i).to_multiset() == a.to_multiset(),
    decreases a.len() - i,
{
    let m = costliest(a, i);
    if m == i {
        assert forall|k: int| 0 < k < a.len() implies a[parent(k)].cost >= (#[trigger] a[k]).cost by {
            if parent(k) == i {
                assert(k == 2 * i + 1 || k == 2 * i + 2);
            }
        }
    } else {
        let b = swapped(a, m, i);
        lemma_swap_multiset(a, m, i);
        assert forall|k: int| 0 < k < b.len() && parent(k) != m implies b[parent(k)].cost >= (
        #[trigger] b[k]).cost by {
            assert(a[k].cost == a[k].cost);
            if parent(k) == i {
                assert(k == 2 * i + 1 || k == 2 * i + 2);
            } else if k == i {
                assert(parent(m) == i);
                assert(a[parent(i)].cost >= a[m].cost);
            }
        }
        assert forall|k: int| 0 < k < b.len() && parent(k) == m implies b[parent(m)].cost >= (
        #[trigger] b[k]).cost by {
            assert(a[parent(k)].cost >= a[k].cost);
        }
        lemma_sift_down(b, m);
    }
}

/// In a heap no entry is costlier than the top.
pub proof fn lemma_top_is_costliest(a: Seq<Entry>, i: int)
    requires
        is_heap(a),
        0 <= i < a.len(),
    ensures
        a[0].cost >= a[i].cost,
    decreases i,
{
    if i > 0 {
        assert(a[parent(i)].cost >= a[i].cost);
        lemma_top_is_costliest(a, parent(i));
    }
}

/// A push keeps the heap order and adds exactly the new entry.
pub proof fn law_push(a: Seq<Entry>, e: Entry)
    requires
        is_heap(a),
    ensures
        is_heap(pushed(a, e)),
        pushed(a, e).to_multiset() == a.to_multiset().insert(e),
{
    let b = a.push(e);
    vstd::seq_lib::to_multiset_build(a, e);
    assert forall|k: int| 0 < k < b.len() && k != a.len() implies b[parent(k)].cost >= (
    #[trigger] b[k]).cost by {
        assert(a[parent(k)].cost >= a[k].cost);
    }
    lemma_sift_up(b, a.len() as int);
}

/// A pop keeps the heap order and removes exactly the top, which is a costliest
/// entry.
pub proof fn law_pop(a: Seq<Entry>)
    requires
        is_heap(a),
        a.len() > 0,
    ensures
        is_heap(popped(a)),
        popped(a).to_multiset() == a.to_multiset().remove(a[0]),
        forall|i: int| 0 <= i < a.len() ==> a[0].cost >= (#[trigger] a[i]).cost,
{
    broadcast use vstd::seq_lib::group_to_multiset_ensures;

    assert forall|i: int| 0 <= i < a.len() implies a[0].cost >= (#[trigger] a[i]).cost by {
        lemma_top_is_costliest(a, i);
    }
    let n = a.len() as int;
    if n == 1 {
        assert(a.remove(0) =~= Seq::<Entry>::empty());
        vstd::seq_lib::to_multiset_remove(a, 0);
    } else {
        let b = a.drop_last().update(0, a.last());
        assert(a.drop_last() =~= a.remove(n - 1));
        vstd::seq_lib::to_multiset_remove(a, n - 1);
        lemma_update_multiset(a.drop_last(), 0, a.last());
        assert(a.contains(a.last()));
        assert(a.contains(a[0]));
        assert(a.to_multiset().count(a.last()) > 0);
        assert(b.to_multiset() =~= a.to_multiset().remove(a[0])) by {
            assert(a.drop_last().contains(a.drop_last()[0]));
            assert(a.drop_last().to_multiset().count(a[0]) > 0);
        }
        assert forall|k: int| 0 < k < b.len() && parent(k) != 0 implies b[parent(k)].cost >= (
        #[trigger] b[k]).cost by {
            assert(a[parent(k)].cost >= a[k].cost);
        }
        lemma_sift_down(b, 0);
    }
}

proof fn lemma_sift_up_moves(a: Seq<Entry>, i: int, k: int)
    requires
        0 <= i < a.len(),
        0 <= k < a.len(),
        k != i,
        a[k].cost >= a[i].cost,
    ensures
        sifted_up(a, i)[k] == a[k],
        sifted_up(a, i).len() == a.len(),
    decreases i,
{
    if i > 0 && a[parent(i)].cost < a[i].cost {
        lemma_sift_up_moves(swapped(a, parent(i), i), parent(i), k);
    }
}

/// A pushed entry passes only entries that are strictly cheaper: every other
/// entry stays where it is.
pub proof fn law_push_passes_cheaper_entries_only(a: Seq<Entry>, e: Entry, k: int)
    requires
        0 <= k < a.len(),
        a[k].cost >= e.cost,
    ensures
        pushed(a, e)[k] == a[k],
{
    lemma_sift_up_moves(a.push(e), a.len() as int, k);
}

proof fn lemma_sift_down_moves(a: Seq<Entry>, i: int, k: int)
    requires
        0 <= i < a.len(),
        0 <= k < a.len(),
        k != i,
        k < i || a[k].cost <= a[i].cost,
    ensures
        sifted_down(a, i)[k] == a[k],
        sifted_down(a, i).len() == a.len(),
    decreases a.len() - i,
{
    let m = costliest(a, i);
    if m != i {
        lemma_sift_down_moves(swapped(a, m, i), m, k);
    }
}

/// The position is the other one or lies below it.
pub open spec fn is_under(k: int, top: int) -> bool
    decreases k,
{
    k == top || (k > top && k > 0 && is_under(parent(k), top))
}

proof fn lemma_sift_down_elsewhere(a: Seq<Entry>, i: int, k: int)
    requires
        0 <= i < a.len(),
        0 <= k < a.len(),
        !is_under(k, i),
    ensures
        sifted_down(a, i)[k] == a[k],
    decreases a.len() - i,
{
    let m = costliest(a, i);
    if m != i {
        lemma_under_child(k, m, i);
        lemma_sift_down_elsewhere(swapped(a, m, i), m, k);
    }
}

proof fn lemma_under_child(k: int, m: int, i: int)
    requires
        0 <= i,
        m == 2 * i + 1 || m == 2 * i + 2,
        0 <= k,
        !is_under(k, i),
    ensures
        !is_under(k, m),
        k != i,
        k != m,
    decreases k,
{
    assert(parent(m) == i);
    assert(is_under(i, i));
    assert(is_under(m, i));
    if k > m && k > 0 {
        lemma_under_child(parent(k), m, i);
    }
}

/// A pop moves up only entries that are strictly costlier than the one that
/// takes the place of the top: every other entry stays where it is.
pub proof fn law_pop_moves_costlier_entries_only(a: Seq<Entry>, k: int)
    requires
        0 < k < a.len() - 1,
        a[k].cost <= a.last().cost,
    ensures
        popped(a)[k] == a[k],
{
    lemma_sift_down_moves(a.drop_last().update(0, a.last()), 0, k);
}

/// Of two equally costly entries below the top the left one moves up: where the
/// right one is not strictly costlier, nothing at or below it moves.
pub proof fn law_pop_prefers_the_left(a: Seq<Entry>, k: int)
    requires
        a.len() > 3,
        a[1].cost >= a[2].cost,
        is_under(k, 2),
        0 <= k < a.len() - 1,
    ensures
        popped(a)[k] == a[k],
{
    let b = a.drop_last().update(0, a.last());
    let m = costliest(b, 0);
    lemma_apart(k);
    if m != 0 {
        assert(m == 1);
        lemma_sift_down_elsewhere(swapped(b, 1, 0), 1, k);
    }
}

proof fn lemma_apart(k: int)
    requires
        is_under(k, 2),
    ensures
        !is_under(k, 1),
        k >= 2,
    decreases k,
{
    if k > 2 {
        lemma_apart(parent(k));
    } else {
        assert(!is_under(0, 1));
    }
}

} // verus!
