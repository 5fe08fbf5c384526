//! A circular doubly linked ring of values.
//!
//! Values live in an [`Arena`]: a slot table whose slots never move, so a
//! slot's index identifies it for its whole lifetime.  Each slot carries,
//! beside its value, the indices of the previous and the next slot of its
//! ring, and a [`LinkNode`] is a handle naming one slot.  A fresh node forms
//! a ring of one member; `add` moves a node out of its ring and in directly
//! behind another, `take` puts it back on its own, and the traversal
//! operations walk a ring once around in either direction.  Every operation
//! is a constant number of index rewrites, and every operation keeps the ring
//! invariant: the `next` and `prev` tables stay inverse to each other.
pub mod ring;

use vstd::prelude::*;

use crate::ring::{
    detach_next, detach_prev, iterate, is_ring_size, lemma_detach_ring, lemma_detach_wf,
    lemma_iterate_in_range, lemma_ring_reverse, lemma_ring_same_set, lemma_ring_seq,
    lemma_ring_seq_agree, lemma_ring_seq_unique, lemma_ring_size, lemma_splice_ring,
    lemma_splice_wf, links_wf, ring_seq, ring_size, splice_next, splice_prev,
};

verus! {

/// The slot table.  Slot `i` of a well formed arena holds its value in
/// `data[i]` and the neighbours of `i` in its ring in `prev[i]` and
/// `next[i]`.
pub struct Arena<T> {
    data: Vec<T>,
    next: Vec<usize>,
    prev: Vec<usize>,
}

/// A handle naming one slot of an [`Arena`].  Handles are plain indices:
/// copying one never copies the value, and every operation on a node borrows
/// the arena, which is what makes a mutating ring operation exclusive over
/// the whole ring it touches.
#[derive(Clone, Copy)]
pub struct LinkNode {
    idx: usize,
}

impl View for LinkNode {
    type V = int;

    closed spec fn view(&self) -> int {
        self.idx as int
    }
}

impl<T> Arena<T> {
    /// The values of the slots, by slot index.
    pub closed spec fn values(&self) -> Seq<T> {
        self.data@
    }

    /// The forward link table, by slot index.
    pub closed spec fn nexts(&self) -> Seq<int> {
        self.next@.map_values(|x: usize| x as int)
    }

    /// The backward link table, by slot index.
    pub closed spec fn prevs(&self) -> Seq<int> {
        self.prev@.map_values(|x: usize| x as int)
    }

    /// Number of slots.
    pub open spec fn node_count(&self) -> nat {
        self.values().len()
    }

    /// The ring invariant: one link table per slot in each direction, and
    /// the two tables inverse to each other.
    pub open spec fn wf(&self) -> bool {
        &&& self.nexts().len() == self.node_count()
        &&& self.prevs().len() == self.node_count()
        &&& links_wf(self.nexts(), self.prevs())
    }

    /// The members of the ring through slot `i`, in forward order, starting
    /// at `i`.
    pub open spec fn ring(self, i: int) -> Seq<int> {
        ring_seq(self.nexts(), i)
    }

    /// The members of the ring through slot `i`, in backward order, starting
    /// at `i`.
    pub open spec fn ring_rev(self, i: int) -> Seq<int> {
        ring_seq(self.prevs(), i)
    }

    /// The values of the ring through slot `i`, in forward order.
    pub open spec fn ring_values(self, i: int) -> Seq<T> {
        Seq::new(self.ring(i).len(), |t: int| self.values()[self.ring(i)[t]])
    }

    /// The values of the ring through slot `i`, in backward order.
    pub open spec fn ring_rev_values(self, i: int) -> Seq<T> {
        Seq::new(self.ring_rev(i).len(), |t: int| self.values()[self.ring_rev(i)[t]])
    }

    /// An empty arena.
    pub fn new() -> (arena: Arena<T>)
        ensures
            arena.wf(),
            arena.node_count() == 0,
    {
        let arena = Arena { data: Vec::new(), next: Vec::new(), prev: Vec::new() };
        proof {
            assert(arena.nexts() =~= Seq::<int>::empty());
            assert(arena.prevs() =~= Seq::<int>::empty());
        }
        arena
    }
}

impl LinkNode {
    /// Creates a node holding `value` in a fresh slot of `arena`, linked as
    /// a ring of one member.
    pub fn new<T>(arena: &mut Arena<T>, value: T) -> (h: LinkNode)
        requires
            old(arena).wf(),
        ensures
            final(arena).wf(),
            h@ == old(arena).node_count(),
            final(arena).node_count() == old(arena).node_count() + 1,
            final(arena).values() == old(arena).values().push(value),
            final(arena).nexts() == old(arena).nexts().push(h@),
            final(arena).prevs() == old(arena).prevs().push(h@),
            final(arena).ring(h@) == seq![h@],
            forall|j: int|
                0 <= j < old(arena).node_count() ==> final(arena).ring(j) == #[trigger] old(
                    arena,
                ).ring(j),
    {
        let i = arena.data.len();
        arena.data.push(value);
        arena.next.push(i);
        arena.prev.push(i);
        let h = LinkNode { idx: i };
        proof {
            let n0 = old(arena).nexts();
            let p0 = old(arena).prevs();
            assert(arena.nexts() =~= n0.push(i as int));
            assert(arena.prevs() =~= p0.push(i as int));
            assert(arena.wf());
            lemma_ring_seq_unique(arena.nexts(), seq![i as int], i as int);
            assert forall|j: int| 0 <= j < old(arena).node_count() implies arena.ring(j)
                == #[trigger] old(arena).ring(j) by {
                lemma_ring_seq(n0, p0, j);
                assert forall|x: int| ring_seq(n0, j).contains(x) implies 0 <= x
                    < arena.nexts().len() && arena.nexts()[x] == n0[x] by {
                    let t = choose|t: int| 0 <= t < ring_seq(n0, j).len() && ring_seq(n0, j)[t]
                        == x;
                }
                lemma_ring_seq_agree(n0, arena.nexts(), p0, j);
            }
        }
        h
    }

    /// Moves `other` out of its current ring (wherever it is, its old
    /// neighbours close over it) and in directly behind `self`, in `self`'s
    /// ring.  Moving a node that already stands directly behind `self`
    /// leaves every link as it was.
    pub fn add<T>(self, arena: &mut Arena<T>, other: LinkNode)
        requires
            old(arena).wf(),
            0 <= self@ < old(arena).node_count(),
            0 <= other@ < old(arena).node_count(),
            self@ != other@,
        ensures
            final(arena).wf(),
            final(arena).node_count() == old(arena).node_count(),
            final(arena).values() == old(arena).values(),
            final(arena).nexts() == splice_next(
                old(arena).nexts(),
                old(arena).prevs(),
                self@,
                other@,
            ),
            final(arena).prevs() == splice_prev(
                old(arena).nexts(),
                old(arena).prevs(),
                self@,
                other@,
            ),
            final(arena).ring(self@) == seq![self@, other@] + old(arena).ring(self@).skip(
                1,
            ).remove_value(other@),
            !old(arena).ring(self@).contains(other@) ==> final(arena).ring(self@) == seq![
                self@,
                other@,
            ] + old(arena).ring(self@).skip(1),
    {
        let a = self.idx;
        let b = other.idx;
        let p = arena.prev[b];
        let nb = arena.next[b];
        proof {
            assert(arena.prevs()[other@] == p as int);
            assert(arena.nexts()[other@] == nb as int);
            assert(0 <= arena.prevs()[other@] < arena.prevs().len());
            assert(0 <= arena.nexts()[other@] < arena.nexts().len());
        }
        arena.next[p] = nb;
        arena.prev[nb] = p;
        let n1 = arena.next[a];
        proof {
            assert(arena.nexts()[self@] == n1 as int);
            assert(n1 as int == nb as int || n1 as int == old(arena).nexts()[self@]);
            assert(0 <= old(arena).nexts()[self@] < old(arena).nexts().len());
            assert(arena.prevs().len() == old(arena).prevs().len());
        }
        arena.next[a] = b;
        arena.next[b] = n1;
        arena.prev[n1] = b;
        arena.prev[b] = a;
        proof {
            let n0 = old(arena).nexts();
            let p0 = old(arena).prevs();
            assert(arena.nexts() =~= splice_next(n0, p0, self@, other@));
            assert(arena.prevs() =~= splice_prev(n0, p0, self@, other@));
            lemma_splice_wf(n0, p0, self@, other@);
            lemma_splice_ring(n0, p0, self@, other@);
        }
    }

    /// Moves `self` in directly behind `other`: the mirror image of
    /// [`LinkNode::add`] with the two operands exchanged, and nothing more.
    pub fn add_to<T>(self, arena: &mut Arena<T>, other: LinkNode)
        requires
            old(arena).wf(),
            0 <= self@ < old(arena).node_count(),
            0 <= other@ < old(arena).node_count(),
            self@ != other@,
        ensures
            final(arena).wf(),
            final(arena).node_count() == old(arena).node_count(),
            final(arena).values() == old(arena).values(),
            final(arena).nexts() == splice_next(
                old(arena).nexts(),
                old(arena).prevs(),
                other@,
                self@,
            ),
            final(arena).prevs() == splice_prev(
                old(arena).nexts(),
                old(arena).prevs(),
                other@,
                self@,
            ),
            final(arena).ring(other@) == seq![other@, self@] + old(arena).ring(other@).skip(
                1,
            ).remove_value(self@),
            !old(arena).ring(other@).contains(self@) ==> final(arena).ring(other@) == seq![
                other@,
                self@,
            ] + old(arena).ring(other@).skip(1),
    {
        other.add(arena, self)
    }

    /// Moves `self` out of its current ring onto a ring of its own: its old
    /// neighbours close over it and `self` links to itself.  On a node
    /// already alone the links come out as they were.
    pub fn take<T>(self, arena: &mut Arena<T>)
        requires
            old(arena).wf(),
            0 <= self@ < old(arena).node_count(),
        ensures
            final(arena).wf(),
            final(arena).node_count() == old(arena).node_count(),
            final(arena).values() == old(arena).values(),
            final(arena).nexts() == detach_next(old(arena).nexts(), old(arena).prevs(), self@),
            final(arena).prevs() == detach_prev(old(arena).nexts(), old(arena).prevs(), self@),
            old(arena).nexts()[self@] == self@ ==> final(arena).nexts() == old(arena).nexts()
                && final(arena).prevs() == old(arena).prevs(),
            final(arena).ring(self@) == seq![self@],
            old(arena).ring(self@).len() >= 2 ==> final(arena).ring(old(arena).nexts()[self@])
                == old(arena).ring(self@).skip(1),
            old(arena).ring(self@) == seq![self@] ==> final(arena).nexts() == old(arena).nexts()
                && final(arena).prevs() == old(arena).prevs(),
    {
        let h = self.idx;
        let p = arena.prev[h];
        let nh = arena.next[h];
        proof {
            assert(arena.prevs()[self@] == p as int);
            assert(arena.nexts()[self@] == nh as int);
            assert(0 <= arena.prevs()[self@] < arena.prevs().len());
            assert(0 <= arena.nexts()[self@] < arena.nexts().len());
        }
        arena.next[p] = nh;
        arena.prev[nh] = p;
        arena.next[h] = h;
        arena.prev[h] = h;
        proof {
            let n0 = old(arena).nexts();
            let p0 = old(arena).prevs();
            assert(arena.nexts() =~= detach_next(n0, p0, self@));
            assert(arena.prevs() =~= detach_prev(n0, p0, self@));
            lemma_detach_wf(n0, p0, self@);
            lemma_detach_ring(n0, p0, self@);
            lemma_ring_seq(n0, p0, self@);
            if ring_seq(n0, self@) == seq![self@] {
                assert(n0[self@] == self@);
            }
            if n0[self@] == self@ {
                assert(p0[self@] == self@);
                assert(arena.nexts() =~= n0);
                assert(arena.prevs() =~= p0);
            }
        }
    }

    /// Walks the ring of `self` once around, forward, and returns the
    /// values met, in order, starting with `self`'s own.
    pub fn for_each<T: Copy>(self, arena: &Arena<T>) -> (r: Vec<T>)
        requires
            arena.wf(),
            0 <= self@ < arena.node_count(),
        ensures
            r@ == arena.ring_values(self@),
    {
        let ghost f = arena.nexts();
        let ghost g = arena.prevs();
        proof {
            lemma_ring_size(f, g, self@);
        }
        let ghost k = ring_size(f, self@);
        let start = self.idx;
        let mut r: Vec<T> = Vec::new();
        r.push(arena.data[start]);
        let mut cur: usize = arena.next[start];
        let ghost mut t: nat = 1;
        proof {
            assert(arena.nexts()[self@] == cur as int);
            assert(iterate(f, self@, 0) == self@);
            assert(iterate(f, self@, 1) == f[iterate(f, self@, 0)]);
            lemma_iterate_in_range(f, self@, 1);
        }
        while cur != start
            invariant
                arena.wf(),
                0 <= self@ < arena.node_count(),
                f == arena.nexts(),
                start == self.idx,
                is_ring_size(f, self@, k),
                1 <= t <= k,
                cur as int == iterate(f, self@, t),
                0 <= (cur as int) < arena.node_count(),
                r@.len() == t,
                forall|u: int|
                    0 <= u < t ==> r@[u] == arena.values()[iterate(f, self@, u as nat)],
            decreases k - t,
        {
            proof {
                if t == k {
                    assert(iterate(f, self@, k) == self@);
                    assert(false);
                }
            }
            r.push(arena.data[cur]);
            let next_cur = arena.next[cur];
            proof {
                assert(next_cur as int == arena.nexts()[cur as int]);
                assert(iterate(f, self@, (t + 1) as nat) == f[iterate(f, self@, t)]);
                t = t + 1;
                lemma_iterate_in_range(f, self@, t);
            }
            cur = next_cur;
        }
        proof {
            assert(iterate(f, self@, t) == self@);
            assert(t == k);
            assert(r@ =~= arena.ring_values(self@));
        }
        r
    }

    /// Walks the ring of `self` once around, backward, and returns the
    /// values met, in order, starting with `self`'s own.
    pub fn for_each_rev<T: Copy>(self, arena: &Arena<T>) -> (r: Vec<T>)
        requires
            arena.wf(),
            0 <= self@ < arena.node_count(),
        ensures
            r@ == arena.ring_rev_values(self@),
    {
        let ghost f = arena.nexts();
        let ghost g = arena.prevs();
        proof {
            assert(links_wf(g, f));
            lemma_ring_size(g, f, self@);
        }
        let ghost k = ring_size(g, self@);
        let start = self.idx;
        let mut r: Vec<T> = Vec::new();
        r.push(arena.data[start]);
        let mut cur: usize = arena.prev[start];
        let ghost mut t: nat = 1;
        proof {
            assert(arena.prevs()[self@] == cur as int);
            assert(iterate(g, self@, 0) == self@);
            assert(iterate(g, self@, 1) == g[iterate(g, self@, 0)]);
            lemma_iterate_in_range(g, self@, 1);
        }
        while cur != start
            invariant
                arena.wf(),
                0 <= self@ < arena.node_count(),
                g == arena.prevs(),
                start == self.idx,
                is_ring_size(g, self@, k),
                1 <= t <= k,
                cur as int == iterate(g, self@, t),
                0 <= (cur as int) < arena.node_count(),
                r@.len() == t,
                forall|u: int|
                    0 <= u < t ==> r@[u] == arena.values()[iterate(g, self@, u as nat)],
            decreases k - t,
        {
            proof {
                if t == k {
                    assert(iterate(g, self@, k) == self@);
                    assert(false);
                }
            }
            r.push(arena.data[cur]);
            let next_cur = arena.prev[cur];
            proof {
                assert(next_cur as int == arena.prevs()[cur as int]);
                assert(iterate(g, self@, (t + 1) as nat) == g[iterate(g, self@, t)]);
                t = t + 1;
                lemma_iterate_in_range(g, self@, t);
            }
            cur = next_cur;
        }
        proof {
            assert(iterate(g, self@, t) == self@);
            assert(t == k);
            assert(r@ =~= arena.ring_rev_values(self@));
        }
        r
    }

    /// Walks the ring of `self` once around, forward, and hands each slot
    /// met the matching entry of `new_values`: the slot met `u`-th (with
    /// `self`'s own slot met first) ends up holding `new_values[u]`.  No
    /// link moves, and no slot outside the ring changes.
    pub fn for_each_mut<T>(self, arena: &mut Arena<T>, new_values: Vec<T>)
        requires
            old(arena).wf(),
            0 <= self@ < old(arena).node_count(),
            new_values@.len() == old(arena).ring(self@).len(),
        ensures
            final(arena).wf(),
            final(arena).node_count() == old(arena).node_count(),
            final(arena).nexts() == old(arena).nexts(),
            final(arena).prevs() == old(arena).prevs(),
            forall|u: int|
                0 <= u < new_values@.len() ==> final(arena).values()[#[trigger] old(arena).ring(
                    self@,
                )[u]] == new_values@[u],
            forall|j: int|
                0 <= j < old(arena).node_count() && !old(arena).ring(self@).contains(j)
                    ==> final(arena).values()[j] == old(arena).values()[j],
    {
        let ghost f = old(arena).nexts();
        let ghost g = old(arena).prevs();
        let ghost vals0 = new_values@;
        let ghost s = ring_seq(f, self@);
        proof {
            lemma_ring_size(f, g, self@);
            lemma_ring_seq(f, g, self@);
        }
        let ghost k = ring_size(f, self@);
        let start = self.idx;
        let mut vals = new_values;
        let v0 = vals.remove(0);
        arena.data[start] = v0;
        let mut cur: usize = arena.next[start];
        let ghost mut t: nat = 1;
        proof {
            assert(vals@ =~= vals0.skip(1));
            assert(arena.nexts()[self@] == cur as int);
            assert(iterate(f, self@, 0) == self@);
            assert(iterate(f, self@, 1) == f[iterate(f, self@, 0)]);
            lemma_iterate_in_range(f, self@, 1);
            assert(s[0] == self@);
        }
        while cur != start
            invariant
                arena.wf(),
                0 <= self@ < arena.node_count(),
                f == arena.nexts(),
                g == arena.prevs(),
                start == self.idx,
                is_ring_size(f, self@, k),
                s == ring_seq(f, self@),
                s.len() == k,
                s.no_duplicates(),
                forall|u: int| 0 <= u < k ==> s[u] == iterate(f, self@, u as nat),
                forall|u: int| 0 <= u < k ==> 0 <= #[trigger] s[u] < arena.node_count(),
                vals0.len() == k,
                1 <= t <= k,
                vals@ == vals0.skip(t as int),
                cur as int == iterate(f, self@, t),
                0 <= (cur as int) < arena.node_count(),
                forall|u: int| 0 <= u < t ==> arena.values()[#[trigger] s[u]] == vals0[u],
                forall|j: int|
                    0 <= j < arena.node_count() && !s.contains(j) ==> arena.values()[j] == old(arena).values()[j],
            decreases k - t,
        {
            proof {
                if t == k {
                    assert(iterate(f, self@, k) == self@);
                    assert(false);
                }
                assert(s[t as int] == cur as int);
                assert(s.contains(cur as int));
            }
            let v = vals.remove(0);
            arena.data[cur] = v;
            let next_cur = arena.next[cur];
            proof {
                assert(vals@ =~= vals0.skip(t as int + 1));
                assert(next_cur as int == arena.nexts()[cur as int]);
                assert(iterate(f, self@, (t + 1) as nat) == f[iterate(f, self@, t)]);
                t = t + 1;
                lemma_iterate_in_range(f, self@, t);
            }
            cur = next_cur;
        }
        proof {
            assert(iterate(f, self@, t) == self@);
            assert(t == k);
        }
    }

    /// Walks the ring of `self` once around, backward, and hands each slot
    /// met the matching entry of `new_values`: the slot met `u`-th (with
    /// `self`'s own slot met first) ends up holding `new_values[u]`.  No
    /// link moves, and no slot outside the ring changes.
    pub fn for_each_mut_rev<T>(self, arena: &mut Arena<T>, new_values: Vec<T>)
        requires
            old(arena).wf(),
            0 <= self@ < old(arena).node_count(),
            new_values@.len() == old(arena).ring_rev(self@).len(),
        ensures
            final(arena).wf(),
            final(arena).node_count() == old(arena).node_count(),
            final(arena).nexts() == old(arena).nexts(),
            final(arena).prevs() == old(arena).prevs(),
            forall|u: int|
                0 <= u < new_values@.len() ==> final(arena).values()[#[trigger] old(
                    arena,
                ).ring_rev(self@)[u]] == new_values@[u],
            forall|j: int|
                0 <= j < old(arena).node_count() && !old(arena).ring_rev(self@).contains(j)
                    ==> final(arena).values()[j] == old(arena).values()[j],
    {
        let ghost f = old(arena).nexts();
        let ghost g = old(arena).prevs();
        let ghost vals0 = new_values@;
        let ghost s = ring_seq(g, self@);
        proof {
            assert(links_wf(g, f));
            lemma_ring_size(g, f, self@);
            lemma_ring_seq(g, f, self@);
        }
        let ghost k = ring_size(g, self@);
        let start = self.idx;
        let mut vals = new_values;
        let v0 = vals.remove(0);
        arena.data[start] = v0;
        let mut cur: usize = arena.prev[start];
        let ghost mut t: nat = 1;
        proof {
            assert(vals@ =~= vals0.skip(1));
            assert(arena.prevs()[self@] == cur as int);
            assert(iterate(g, self@, 0) == self@);
            assert(iterate(g, self@, 1) == g[iterate(g, self@, 0)]);
            lemma_iterate_in_range(g, self@, 1);
            assert(s[0] == self@);
        }
        while cur != start
            invariant
                arena.wf(),
                0 <= self@ < arena.node_count(),
                f == arena.nexts(),
                g == arena.prevs(),
                start == self.idx,
                is_ring_size(g, self@, k),
                s == ring_seq(g, self@),
                s.len() == k,
                s.no_duplicates(),
                forall|u: int| 0 <= u < k ==> s[u] == iterate(g, self@, u as nat),
                forall|u: int| 0 <= u < k ==> 0 <= #[trigger] s[u] < arena.node_count(),
                vals0.len() == k,
                1 <= t <= k,
                vals@ == vals0.skip(t as int),
                cur as int == iterate(g, self@, t),
                0 <= (cur as int) < arena.node_count(),
                forall|u: int| 0 <= u < t ==> arena.values()[#[trigger] s[u]] == vals0[u],
                forall|j: int|
                    0 <= j < arena.node_count() && !s.contains(j) ==> arena.values()[j] == old(arena).values()[j],
            decreases k - t,
        {
            proof {
                if t == k {
                    assert(iterate(g, self@, k) == self@);
                    assert(false);
                }
                assert(s[t as int] == cur as int);
                assert(s.contains(cur as int));
            }
            let v = vals.remove(0);
            arena.data[cur] = v;
            let next_cur = arena.prev[cur];
            proof {
                assert(vals@ =~= vals0.skip(t as int + 1));
                assert(next_cur as int == arena.prevs()[cur as int]);
                assert(iterate(g, self@, (t + 1) as nat) == g[iterate(g, self@, t)]);
                t = t + 1;
                lemma_iterate_in_range(g, self@, t);
            }
            cur = next_cur;
        }
        proof {
            assert(iterate(g, self@, t) == self@);
            assert(t == k);
        }
    }

    /// Reads the value held by `self`'s slot.
    pub fn value<T: Copy>(self, arena: &Arena<T>) -> (v: T)
        requires
            arena.wf(),
            0 <= self@ < arena.node_count(),
        ensures
            v == arena.values()[self@],
    {
        arena.data[self.idx]
    }

    /// Borrows the value held by `self`'s slot.
    pub fn value_ref<T>(self, arena: &Arena<T>) -> (v: &T)
        requires
            arena.wf(),
            0 <= self@ < arena.node_count(),
        ensures
            *v == arena.values()[self@],
    {
        &arena.data[self.idx]
    }

    /// Replaces the value held by `self`'s slot.  No link moves: every ring
    /// reads back afterwards exactly as before.
    pub fn set_value<T>(self, arena: &mut Arena<T>, value: T)
        requires
            old(arena).wf(),
            0 <= self@ < old(arena).node_count(),
        ensures
            final(arena).wf(),
            final(arena).node_count() == old(arena).node_count(),
            final(arena).nexts() == old(arena).nexts(),
            final(arena).prevs() == old(arena).prevs(),
            final(arena).values() == old(arena).values().update(self@, value),
            forall|j: int| final(arena).ring(j) == #[trigger] old(arena).ring(j),
            forall|j: int| final(arena).ring_rev(j) == #[trigger] old(arena).ring_rev(j),
    {
        arena.data[self.idx] = value;
        proof {
            assert(arena.nexts() =~= old(arena).nexts());
            assert(arena.prevs() =~= old(arena).prevs());
        }
    }
}

/// Ring closure.  A forward walk from any slot meets no slot twice, and a
/// walk from any member of the same ring meets exactly the same slots: the
/// members of a ring form one closed set, whichever member the walk starts
/// at.
pub proof fn lemma_traversal_closure<T>(arena: Arena<T>, i: int, j: int)
    requires
        arena.wf(),
        0 <= i < arena.node_count(),
        arena.ring(i).contains(j),
    ensures
        arena.ring(i).no_duplicates(),
        arena.ring(j).no_duplicates(),
        arena.ring(j).to_set() == arena.ring(i).to_set(),
        arena.ring(j).len() == arena.ring(i).len(),
        arena.ring(j).contains(i),
        arena.ring(i)[0] == i,
        forall|x: int| arena.ring(i).contains(x) ==> 0 <= x < arena.node_count(),
{
    lemma_ring_seq(arena.nexts(), arena.prevs(), i);
    lemma_ring_same_set(arena.nexts(), arena.prevs(), i, j);
    let x0 = choose|x0: int| 0 <= x0 < arena.ring(i).len() && arena.ring(i)[x0] == j;
    assert(0 <= j < arena.node_count());
    lemma_ring_seq(arena.nexts(), arena.prevs(), j);
    assert forall|x: int| arena.ring(i).contains(x) implies 0 <= x < arena.node_count() by {
        let u = choose|u: int| 0 <= u < arena.ring(i).len() && arena.ring(i)[u] == x;
    }
}

/// A backward walk meets exactly the members of the forward walk, the start
/// first and the rest in reverse order — for the slots and for the values
/// they hold alike.
pub proof fn lemma_backward_reverse<T>(arena: Arena<T>, i: int)
    requires
        arena.wf(),
        0 <= i < arena.node_count(),
    ensures
        arena.ring_rev(i) == seq![i] + arena.ring(i).skip(1).reverse(),
        arena.ring_rev_values(i) == seq![arena.values()[i]] + arena.ring_values(i).skip(
            1,
        ).reverse(),
{
    lemma_ring_seq(arena.nexts(), arena.prevs(), i);
    lemma_ring_reverse(arena.nexts(), arena.prevs(), i);
    let s = arena.ring(i);
    let k = s.len() as int;
    assert(arena.ring_rev(i).len() == k);
    assert(arena.ring_rev_values(i) =~= seq![arena.values()[i]] + arena.ring_values(i).skip(
        1,
    ).reverse()) by {
        assert forall|u: int| 0 <= u < k implies arena.ring_rev_values(i)[u] == (
        seq![arena.values()[i]] + arena.ring_values(i).skip(1).reverse())[u] by {
            if u >= 1 {
                assert(arena.ring_rev(i)[u] == (seq![i] + s.skip(1).reverse())[u]);
                assert(s.skip(1).reverse()[u - 1] == s.skip(1)[k - 1 - u]);
                assert(arena.ring_values(i).skip(1).reverse()[u - 1] == arena.ring_values(i).skip(
                    1,
                )[k - 1 - u]);
                assert(arena.ring_values(i)[k - u] == arena.values()[s[k - u]]);
            }
        }
    }
}

} // verus!
