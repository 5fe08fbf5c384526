//! The mathematical shape of a family of rings.
//!
//! A link table is a sequence `links` in which entry `i` names the slot that
//! follows slot `i`.  Two tables `next` and `prev` that are inverse to each
//! other partition the slots into disjoint rings: starting from any slot and
//! stepping through `next` repeatedly walks the slot's whole ring and comes
//! back to the start.  This module defines that walk, the ring through a
//! slot as a sequence, and proves the facts about walks that the executable
//! operations rely on.
use vstd::prelude::*;
use vstd::set_lib::{lemma_int_range, lemma_len_subset, set_int_range};

verus! {

/// Every entry of the table names a slot of the table.
pub open spec fn links_in_range(links: Seq<int>) -> bool {
    forall|i: int| 0 <= i < links.len() ==> 0 <= #[trigger] links[i] < links.len()
}

/// `next` and `prev` are inverse link tables of the same size.  This local
/// condition is the whole ring invariant: it forces the slots to fall into
/// disjoint rings, each walked by `next` one way and by `prev` the other way.
pub open spec fn links_wf(next: Seq<int>, prev: Seq<int>) -> bool {
    &&& next.len() == prev.len()
    &&& links_in_range(next)
    &&& links_in_range(prev)
    &&& forall|i: int| 0 <= i < next.len() ==> prev[#[trigger] next[i]] == i
    &&& forall|i: int| 0 <= i < next.len() ==> next[#[trigger] prev[i]] == i
}

/// The slot reached from `i` after `t` steps through `links`.
pub open spec fn iterate(links: Seq<int>, i: int, t: nat) -> int
    decreases t,
{
    if t == 0 {
        i
    } else {
        links[iterate(links, i, (t - 1) as nat)]
    }
}

/// `k` is the size of the ring through `i`: the first strictly positive
/// number of steps that leads back to `i`.
pub open spec fn is_ring_size(links: Seq<int>, i: int, k: nat) -> bool {
    &&& 1 <= k
    &&& iterate(links, i, k) == i
    &&& forall|j: nat| 1 <= j < k ==> iterate(links, i, j) != i
}

/// The number of members of the ring through `i` (meaningful when some walk
/// from `i` returns to `i`, which `links_wf` guarantees).
pub open spec fn ring_size(links: Seq<int>, i: int) -> nat {
    choose|k: nat| is_ring_size(links, i, k)
}

/// The members of the ring through `i`, in link order, starting at `i`.
pub open spec fn ring_seq(links: Seq<int>, i: int) -> Seq<int> {
    Seq::new(ring_size(links, i), |t: int| iterate(links, i, t as nat))
}

pub proof fn lemma_iterate_in_range(links: Seq<int>, i: int, t: nat)
    requires
        links_in_range(links),
        0 <= i < links.len(),
    ensures
        0 <= iterate(links, i, t) < links.len(),
    decreases t,
{
    if t > 0 {
        lemma_iterate_in_range(links, i, (t - 1) as nat);
    }
}

/// Walking `a + b` steps is walking `a` steps and then `b` more.
pub proof fn lemma_iterate_add(links: Seq<int>, i: int, a: nat, b: nat)
    ensures
        iterate(links, i, (a + b) as nat) == iterate(links, iterate(links, i, a), b),
    decreases b,
{
    if b > 0 {
        lemma_iterate_add(links, i, a, (b - 1) as nat);
    }
}

/// Steps can be cancelled from the right: `next` is injective because `prev`
/// inverts it, so equal walks of equal length start at the same slot.
pub proof fn lemma_iterate_cancel(next: Seq<int>, prev: Seq<int>, x: int, y: int, t: nat)
    requires
        links_wf(next, prev),
        0 <= x < next.len(),
        0 <= y < next.len(),
        iterate(next, x, t) == iterate(next, y, t),
    ensures
        x == y,
    decreases t,
{
    if t > 0 {
        let xp = iterate(next, x, (t - 1) as nat);
        let yp = iterate(next, y, (t - 1) as nat);
        lemma_iterate_in_range(next, x, (t - 1) as nat);
        lemma_iterate_in_range(next, y, (t - 1) as nat);
        assert(prev[next[xp]] == xp);
        assert(prev[next[yp]] == yp);
        lemma_iterate_cancel(next, prev, x, y, (t - 1) as nat);
    }
}

/// Some strictly positive number of steps, at most the size of the table,
/// leads from `i` back to `i`.
pub proof fn lemma_period_exists(next: Seq<int>, prev: Seq<int>, i: int)
    requires
        links_wf(next, prev),
        0 <= i < next.len(),
    ensures
        exists|k: nat| 1 <= k <= next.len() && iterate(next, i, k) == i,
{
    let n = next.len() as int;
    let s = Seq::new((n + 1) as nat, |t: int| iterate(next, i, t as nat));
    assert forall|t: int| 0 <= t < s.len() implies 0 <= #[trigger] s[t] < n by {
        lemma_iterate_in_range(next, i, t as nat);
    }
    if s.no_duplicates() {
        s.unique_seq_to_set();
        lemma_int_range(0, n);
        assert forall|x: int| s.to_set().contains(x) implies set_int_range(0, n).contains(x) by {
            let t = choose|t: int| 0 <= t < s.len() && s[t] == x;
            assert(0 <= s[t] < n);
        }
        assert(s.to_set().subset_of(set_int_range(0, n)));
        lemma_len_subset(s.to_set(), set_int_range(0, n));
        assert(false);
    }
    let (a, b) = choose|a: int, b: int| 0 <= a < b < s.len() && s[a] == s[b];
    let k = (b - a) as nat;
    lemma_iterate_add(next, i, k, a as nat);
    lemma_iterate_in_range(next, i, k);
    assert(iterate(next, iterate(next, i, k), a as nat) == iterate(next, i, a as nat));
    lemma_iterate_cancel(next, prev, iterate(next, i, k), i, a as nat);
    assert(1 <= k <= next.len() && iterate(next, i, k) == i);
}

proof fn lemma_min_period(next: Seq<int>, i: int, k: nat)
    requires
        1 <= k,
        iterate(next, i, k) == i,
    ensures
        exists|m: nat| is_ring_size(next, i, m),
    decreases k,
{
    if forall|j: nat| 1 <= j < k ==> iterate(next, i, j) != i {
        assert(is_ring_size(next, i, k));
    } else {
        let j = choose|j: nat| 1 <= j < k && iterate(next, i, j) == i;
        lemma_min_period(next, i, j);
    }
}

/// Two ring sizes for the same slot agree.
pub proof fn lemma_ring_size_unique(links: Seq<int>, i: int, k1: nat, k2: nat)
    requires
        is_ring_size(links, i, k1),
        is_ring_size(links, i, k2),
    ensures
        k1 == k2,
{
    if k1 < k2 {
        assert(iterate(links, i, k1) != i);
    }
    if k2 < k1 {
        assert(iterate(links, i, k2) != i);
    }
}

/// Under the ring invariant every slot has a well defined ring size, at most
/// the size of the table.
pub proof fn lemma_ring_size(next: Seq<int>, prev: Seq<int>, i: int)
    requires
        links_wf(next, prev),
        0 <= i < next.len(),
    ensures
        is_ring_size(next, i, ring_size(next, i)),
        1 <= ring_size(next, i) <= next.len(),
{
    lemma_period_exists(next, prev, i);
    let k0 = choose|k: nat| 1 <= k <= next.len() && iterate(next, i, k) == i;
    lemma_min_period(next, i, k0);
    let m = choose|m: nat| is_ring_size(next, i, m);
    assert(is_ring_size(next, i, m));
    assert(is_ring_size(next, i, ring_size(next, i)));
    let k = ring_size(next, i);
    if k > k0 {
        assert(iterate(next, i, k0) != i);
    }
}

/// The facts a walk around one ring gives: the ring sequence starts at its
/// slot, stays in range, steps through `next`, wraps around at its end, and
/// names no slot twice.
pub proof fn lemma_ring_seq(next: Seq<int>, prev: Seq<int>, i: int)
    requires
        links_wf(next, prev),
        0 <= i < next.len(),
    ensures
        ring_seq(next, i).len() == ring_size(next, i),
        1 <= ring_seq(next, i).len() <= next.len(),
        ring_seq(next, i)[0] == i,
        forall|t: int|
            0 <= t < ring_seq(next, i).len() ==> ring_seq(next, i)[t] == iterate(
                next,
                i,
                t as nat,
            ),
        forall|t: int|
            0 <= t < ring_seq(next, i).len() ==> 0 <= #[trigger] ring_seq(next, i)[t]
                < next.len(),
        forall|t: int|
            0 <= t < ring_seq(next, i).len() - 1 ==> next[#[trigger] ring_seq(next, i)[t]]
                == ring_seq(next, i)[t + 1],
        next[ring_seq(next, i)[ring_seq(next, i).len() - 1]] == i,
        ring_seq(next, i).no_duplicates(),
        ring_seq(next, i).contains(i),
{
    lemma_ring_size(next, prev, i);
    let k = ring_size(next, i);
    let s = ring_seq(next, i);
    assert forall|t: int| 0 <= t < s.len() implies 0 <= #[trigger] s[t] < next.len() by {
        lemma_iterate_in_range(next, i, t as nat);
    }
    assert forall|t: int| 0 <= t < s.len() - 1 implies next[#[trigger] s[t]] == s[t + 1] by {
        assert(iterate(next, i, (t + 1) as nat) == next[iterate(next, i, t as nat)]);
    }
    assert(iterate(next, i, k) == next[iterate(next, i, (k - 1) as nat)]);
    assert forall|a: int, b: int| 0 <= a < b < s.len() implies s[a] != s[b] by {
        if s[a] == s[b] {
            let d = (b - a) as nat;
            lemma_iterate_add(next, i, d, a as nat);
            lemma_iterate_in_range(next, i, d);
            assert(iterate(next, iterate(next, i, d), a as nat) == iterate(next, i, a as nat));
            lemma_iterate_cancel(next, prev, iterate(next, i, d), i, a as nat);
            assert(iterate(next, i, d) == i);
            assert(1 <= d < k);
            assert(false);
        }
    }
    assert(s[0] == i);
}

proof fn lemma_iterate_matches(next: Seq<int>, s: Seq<int>, i: int, t: nat)
    requires
        s.len() >= 1,
        s[0] == i,
        t < s.len(),
        forall|u: int| 0 <= u < s.len() - 1 ==> next[#[trigger] s[u]] == s[u + 1],
    ensures
        iterate(next, i, t) == s[t as int],
    decreases t,
{
    if t > 0 {
        lemma_iterate_matches(next, s, i, (t - 1) as nat);
    }
}

/// A ring sequence is pinned down by its local shape: any sequence that
/// starts at `i`, steps through `next`, wraps around at its end and repeats
/// no slot is the ring sequence of `i`.
pub proof fn lemma_ring_seq_unique(next: Seq<int>, s: Seq<int>, i: int)
    requires
        s.len() >= 1,
        s[0] == i,
        s.no_duplicates(),
        forall|u: int| 0 <= u < s.len() - 1 ==> next[#[trigger] s[u]] == s[u + 1],
        next[s[s.len() - 1]] == i,
    ensures
        ring_size(next, i) == s.len(),
        ring_seq(next, i) == s,
{
    assert forall|t: int| 0 <= t < s.len() implies iterate(next, i, t as nat) == s[t] by {
        lemma_iterate_matches(next, s, i, t as nat);
    }
    assert(iterate(next, i, s.len()) == next[iterate(next, i, (s.len() - 1) as nat)]);
    assert(iterate(next, i, s.len()) == i);
    assert forall|j: nat| 1 <= j < s.len() implies iterate(next, i, j) != i by {
        assert(iterate(next, i, j) == s[j as int]);
        assert(s[j as int] != s[0]);
    }
    assert(is_ring_size(next, i, s.len()));
    assert(is_ring_size(next, i, ring_size(next, i)));
    lemma_ring_size_unique(next, i, ring_size(next, i), s.len());
    assert(ring_seq(next, i) =~= s);
}

/// A ring is untouched by edits to the table that leave the links of its own
/// members alone.
pub proof fn lemma_ring_seq_agree(next1: Seq<int>, next2: Seq<int>, prev1: Seq<int>, i: int)
    requires
        links_wf(next1, prev1),
        0 <= i < next1.len(),
        forall|x: int|
            ring_seq(next1, i).contains(x) ==> 0 <= x < next2.len() && #[trigger] next2[x]
                == next1[x],
    ensures
        ring_seq(next2, i) == ring_seq(next1, i),
        ring_size(next2, i) == ring_size(next1, i),
{
    lemma_ring_seq(next1, prev1, i);
    let s = ring_seq(next1, i);
    assert forall|u: int| 0 <= u < s.len() - 1 implies next2[#[trigger] s[u]] == s[u + 1] by {
        assert(s.contains(s[u]));
    }
    assert(s.contains(s[s.len() - 1]));
    lemma_ring_seq_unique(next2, s, i);
}

/// A ring contains the successor of each of its members.
pub proof fn lemma_ring_contains_next(next: Seq<int>, prev: Seq<int>, i: int, x: int)
    requires
        links_wf(next, prev),
        0 <= i < next.len(),
        ring_seq(next, i).contains(x),
    ensures
        ring_seq(next, i).contains(next[x]),
{
    lemma_ring_seq(next, prev, i);
    let s = ring_seq(next, i);
    let u = choose|u: int| 0 <= u < s.len() && s[u] == x;
    if u < s.len() - 1 {
        assert(s[u + 1] == next[x]);
    } else {
        assert(s[0] == next[x]);
    }
}

/// Starting the walk at the `p`-th member of a ring yields the same ring,
/// rotated to start there.
#[verifier::rlimit(30)]
pub proof fn lemma_ring_rotate(next: Seq<int>, prev: Seq<int>, i: int, p: int)
    requires
        links_wf(next, prev),
        0 <= i < next.len(),
        0 <= p < ring_size(next, i),
    ensures
        ring_seq(next, ring_seq(next, i)[p]) == ring_seq(next, i).skip(p) + ring_seq(next, i).take(
            p,
        ),
{
    lemma_ring_seq(next, prev, i);
    let s = ring_seq(next, i);
    let k = s.len() as int;
    let j = s[p];
    let r = s.skip(p) + s.take(p);
    assert(r.len() == k);
    assert(r[0] == s[p]);
    assert forall|u: int| 0 <= u < k - 1 implies next[#[trigger] r[u]] == r[u + 1] by {
        if u < k - p - 1 {
            assert(r[u] == s[p + u]);
            assert(r[u + 1] == s[p + u + 1]);
        } else if u == k - p - 1 {
            assert(r[u] == s[k - 1]);
            assert(next[s[k - 1]] == i);
            assert(r[u + 1] == s[0]);
        } else {
            assert(r[u] == s[u - (k - p)]);
            assert(r[u + 1] == s[u + 1 - (k - p)]);
        }
    }
    if p == 0 {
        assert(r[k - 1] == s[k - 1]);
        assert(next[r[k - 1]] == s[0]);
    } else {
        assert(r[k - 1] == s[p - 1]);
        assert(next[r[k - 1]] == s[p]);
    }
    assert forall|x: int, y: int|
        0 <= x < r.len() && 0 <= y < r.len() && x != y implies r[x] != r[y] by {
        let xi = if x < k - p {
            p + x
        } else {
            x - (k - p)
        };
        let yi = if y < k - p {
            p + y
        } else {
            y - (k - p)
        };
        assert(r[x] == s[xi]);
        assert(r[y] == s[yi]);
        assert(xi != yi);
    }
    assert(r.no_duplicates());
    lemma_ring_seq_unique(next, r, j);
}

/// A ring is closed: every member's walk meets exactly the same slots.
pub proof fn lemma_ring_same_set(next: Seq<int>, prev: Seq<int>, i: int, j: int)
    requires
        links_wf(next, prev),
        0 <= i < next.len(),
        ring_seq(next, i).contains(j),
    ensures
        ring_seq(next, j).to_set() == ring_seq(next, i).to_set(),
        ring_seq(next, j).len() == ring_seq(next, i).len(),
        ring_seq(next, j).contains(i),
{
    lemma_ring_seq(next, prev, i);
    let s = ring_seq(next, i);
    let k = s.len() as int;
    let p = choose|p: int| 0 <= p < k && s[p] == j;
    lemma_ring_rotate(next, prev, i, p);
    let r = s.skip(p) + s.take(p);
    if p == 0 {
        assert(r[0] == i);
    } else {
        assert(r[k - p] == s[0]);
    }
    assert(ring_seq(next, j).contains(i));
    assert forall|x: int| s.to_set().contains(x) implies r.to_set().contains(x) by {
        let u = choose|u: int| 0 <= u < k && s[u] == x;
        if u >= p {
            assert(r[u - p] == x);
        } else {
            assert(r[u + (k - p)] == x);
        }
    }
    assert forall|x: int| r.to_set().contains(x) implies s.to_set().contains(x) by {
        let u = choose|u: int| 0 <= u < k && r[u] == x;
        if u < k - p {
            assert(s[p + u] == x);
        } else {
            assert(s[u - (k - p)] == x);
        }
    }
    assert(ring_seq(next, j).to_set() =~= s.to_set());
}

/// Walking backward from `i` meets exactly the members of the forward walk:
/// `i` first, and then the rest of the forward walk in reverse order.
pub proof fn lemma_ring_reverse(next: Seq<int>, prev: Seq<int>, i: int)
    requires
        links_wf(next, prev),
        0 <= i < next.len(),
    ensures
        ring_seq(prev, i) == seq![i] + ring_seq(next, i).skip(1).reverse(),
{
    lemma_ring_seq(next, prev, i);
    let s = ring_seq(next, i);
    let k = s.len() as int;
    let r = seq![i] + s.skip(1).reverse();
    assert(r.len() == k);
    assert(r[0] == i);
    assert forall|u: int| 1 <= u < k implies r[u] == s[k - u] by {
        assert(s.skip(1).reverse()[u - 1] == s.skip(1)[k - 1 - u]);
    }
    assert forall|u: int| 0 <= u < k - 1 implies prev[#[trigger] r[u]] == r[u + 1] by {
        if u == 0 {
            assert(next[s[k - 1]] == i);
            assert(prev[next[s[k - 1]]] == s[k - 1]);
            assert(r[1] == s[k - 1]);
        } else {
            assert(r[u] == s[k - u]);
            assert(r[u + 1] == s[k - u - 1]);
            assert(next[s[k - u - 1]] == s[k - u]);
            assert(prev[next[s[k - u - 1]]] == s[k - u - 1]);
        }
    }
    if k == 1 {
        assert(next[s[0]] == i);
        assert(prev[next[i]] == i);
        assert(prev[r[k - 1]] == i);
    } else {
        assert(r[k - 1] == s[1]);
        assert(next[s[0]] == s[1]);
        assert(prev[next[s[0]]] == s[0]);
        assert(prev[r[k - 1]] == i);
    }
    assert forall|x: int, y: int|
        0 <= x < r.len() && 0 <= y < r.len() && x != y implies r[x] != r[y] by {
        let xi = if x == 0 {
            0
        } else {
            k - x
        };
        let yi = if y == 0 {
            0
        } else {
            k - y
        };
        assert(r[x] == s[xi]);
        assert(r[y] == s[yi]);
        assert(xi != yi);
    }
    assert(r.no_duplicates());
    lemma_ring_seq_unique(prev, r, i);
}

/// The forward table after moving `b` directly behind `a`: `b` is first
/// taken out of its ring (its old neighbours close over it), then put in
/// between `a` and `a`'s successor, exactly as the executable code rewrites
/// the links.
pub open spec fn splice_next(next: Seq<int>, prev: Seq<int>, a: int, b: int) -> Seq<int> {
    let next1 = next.update(prev[b], next[b]);
    next1.update(a, b).update(b, next1[a])
}

/// The backward table after moving `b` directly behind `a`.
pub open spec fn splice_prev(next: Seq<int>, prev: Seq<int>, a: int, b: int) -> Seq<int> {
    let next1 = next.update(prev[b], next[b]);
    prev.update(next[b], prev[b]).update(next1[a], b).update(b, a)
}

/// The forward table after putting `h` on a ring of its own: `h`'s old
/// neighbours close over it and `h` links to itself.
pub open spec fn detach_next(next: Seq<int>, prev: Seq<int>, h: int) -> Seq<int> {
    next.update(prev[h], next[h]).update(h, h)
}

/// The backward table after putting `h` on a ring of its own.
pub open spec fn detach_prev(next: Seq<int>, prev: Seq<int>, h: int) -> Seq<int> {
    prev.update(next[h], prev[h]).update(h, h)
}

/// After a splice the slot behind `a` is never `b` itself once `b` has been
/// taken out, so the rewritten tables are inverse to each other again.
pub proof fn lemma_splice_wf(next: Seq<int>, prev: Seq<int>, a: int, b: int)
    requires
        links_wf(next, prev),
        0 <= a < next.len(),
        0 <= b < next.len(),
        a != b,
    ensures
        links_wf(splice_next(next, prev, a, b), splice_prev(next, prev, a, b)),
{
    let n = next.len() as int;
    let p = prev[b];
    let nb = next[b];
    let next1 = next.update(p, nb);
    let n1 = next1[a];
    let next2 = splice_next(next, prev, a, b);
    let prev2 = splice_prev(next, prev, a, b);
    assert(next[p] == b);
    assert(prev[nb] == b);
    if p == a {
        assert(n1 == nb);
        if nb == b {
            assert(prev[b] == b);
        }
    } else {
        assert(n1 == next[a]);
        if next[a] == b {
            assert(prev[b] == a);
        }
    }
    assert(n1 != b);
    assert forall|x: int| 0 <= x < n implies prev2[#[trigger] next2[x]] == x by {
        assert(prev[next[x]] == x);
        if x == a {
        } else if x == b {
        } else if x == p {
            assert(prev[nb] == b);
        } else {
            assert(next2[x] == next[x]);
            if next[x] == b {
                assert(prev[b] == x);
            }
            if next[x] == n1 {
                if p == a {
                    assert(prev[nb] == b);
                } else {
                    assert(prev[next[a]] == a);
                }
            }
            if next[x] == nb {
                assert(prev[nb] == x);
            }
        }
    }
    assert forall|x: int| 0 <= x < n implies next2[#[trigger] prev2[x]] == x by {
        assert(next[prev[x]] == x);
        if x == b {
        } else if x == n1 {
        } else if x == nb {
            assert(next2[p] == nb || p == a || p == b);
            if p == b {
                assert(prev[b] == b && next[b] == b);
            }
            if p == a {
                assert(n1 == nb);
            }
        } else {
            assert(prev2[x] == prev[x]);
            if prev[x] == a {
                assert(next[a] == x);
                if p == a {
                    assert(x == b);
                } else {
                    assert(n1 == x);
                }
            }
            if prev[x] == b {
                assert(next[b] == x);
            }
            if prev[x] == p {
                assert(next[p] == x);
            }
        }
    }
}

/// Closing `h`'s old neighbours over it and self-linking `h` leaves the two
/// tables inverse to each other.
pub proof fn lemma_detach_wf(next: Seq<int>, prev: Seq<int>, h: int)
    requires
        links_wf(next, prev),
        0 <= h < next.len(),
    ensures
        links_wf(detach_next(next, prev, h), detach_prev(next, prev, h)),
{
    let n = next.len() as int;
    let p = prev[h];
    let nh = next[h];
    let next2 = detach_next(next, prev, h);
    let prev2 = detach_prev(next, prev, h);
    assert(next[p] == h);
    assert(prev[nh] == h);
    assert forall|x: int| 0 <= x < n implies prev2[#[trigger] next2[x]] == x by {
        assert(prev[next[x]] == x);
        if x == h {
        } else if x == p {
            assert(prev[nh] == h);
        } else {
            assert(next2[x] == next[x]);
            if next[x] == h {
                assert(prev[h] == x);
            }
            if next[x] == nh {
                assert(prev[nh] == x);
            }
        }
    }
    assert forall|x: int| 0 <= x < n implies next2[#[trigger] prev2[x]] == x by {
        assert(next[prev[x]] == x);
        if x == h {
        } else if x == nh {
        } else {
            assert(prev2[x] == prev[x]);
            if prev[x] == h {
                assert(next[h] == x);
            }
            if prev[x] == p {
                assert(next[p] == x);
            }
        }
    }
}

/// What a detach does to rings: the detached slot ends on a ring of one
/// member, whatever the size of its old ring; the rest of the old ring, if
/// any, closes over it in the old order.
pub proof fn lemma_detach_ring(next: Seq<int>, prev: Seq<int>, h: int)
    requires
        links_wf(next, prev),
        0 <= h < next.len(),
    ensures
        ring_seq(detach_next(next, prev, h), h) == seq![h],
        ring_size(next, h) >= 2 ==> ring_seq(detach_next(next, prev, h), next[h]) == ring_seq(
            next,
            h,
        ).skip(1),
{
    lemma_detach_wf(next, prev, h);
    let next2 = detach_next(next, prev, h);
    assert(next2[h] == h);
    lemma_ring_seq_unique(next2, seq![h], h);
    lemma_ring_seq(next, prev, h);
    let s = ring_seq(next, h);
    let k = s.len() as int;
    if k >= 2 {
        let r = s.skip(1);
        assert(r.len() == k - 1);
        assert(s[1] == next[h]) by {
            assert(next[s[0]] == s[1]);
        }
        assert(r[0] == next[h]);
        assert(next[s[k - 1]] == h);
        assert(prev[next[s[k - 1]]] == s[k - 1]);
        assert(prev[h] == s[k - 1]);
        assert forall|u: int| 0 <= u < r.len() - 1 implies next2[#[trigger] r[u]] == r[u + 1] by {
            assert(r[u] == s[u + 1]);
            assert(r[u + 1] == s[u + 2]);
            assert(s[u + 1] != s[0]);
            assert(s[u + 1] != s[k - 1]);
            assert(next[s[u + 1]] == s[u + 2]);
        }
        assert(r[r.len() - 1] == s[k - 1]);
        assert(s[k - 1] != s[0]);
        assert(next2[s[k - 1]] == next[h]);
        assert(r.no_duplicates());
        lemma_ring_seq_unique(next2, r, next[h]);
    }
}

/// A ring that does not contain the detached slot is untouched by the
/// detach.
pub proof fn lemma_detach_frame(next: Seq<int>, prev: Seq<int>, h: int, j: int)
    requires
        links_wf(next, prev),
        0 <= h < next.len(),
        0 <= j < next.len(),
        !ring_seq(next, j).contains(h),
    ensures
        ring_seq(detach_next(next, prev, h), j) == ring_seq(next, j),
{
    lemma_ring_seq(next, prev, j);
    let next2 = detach_next(next, prev, h);
    assert forall|x: int| ring_seq(next, j).contains(x) implies 0 <= x < next2.len()
        && #[trigger] next2[x] == next[x] by {
        if x == prev[h] {
            lemma_ring_contains_next(next, prev, j, x);
            assert(next[prev[h]] == h);
        }
    }
    lemma_ring_seq_agree(next, next2, prev, j);
}

/// What a splice does to the ring of its anchor: afterwards the walk from
/// `a` reads `a`, then `b`, then the rest of `a`'s old ring — with `b` taken
/// out of its old place if it already was a member.
#[verifier::rlimit(100)]
#[verifier::spinoff_prover]
pub proof fn lemma_splice_ring(next: Seq<int>, prev: Seq<int>, a: int, b: int)
    requires
        links_wf(next, prev),
        0 <= a < next.len(),
        0 <= b < next.len(),
        a != b,
    ensures
        ring_seq(splice_next(next, prev, a, b), a) == seq![a, b] + ring_seq(next, a).skip(
            1,
        ).remove_value(b),
        !ring_seq(next, a).contains(b) ==> ring_seq(splice_next(next, prev, a, b), a) == seq![
            a,
            b,
        ] + ring_seq(next, a).skip(1),
{
    lemma_splice_wf(next, prev, a, b);
    lemma_ring_seq(next, prev, a);
    let n = next.len() as int;
    let p = prev[b];
    let nb = next[b];
    let next2 = splice_next(next, prev, a, b);
    let s = ring_seq(next, a);
    let k = s.len() as int;
    let rr = s.skip(1);
    assert(next[p] == b);
    assert(next2[a] == b);
    assert forall|x: int| 0 <= x < n && x != a && x != b && x != p implies #[trigger] next2[x]
        == next[x] by {}
    rr.index_of_first_ensures(b);
    if !s.contains(b) {
        if p == a {
            lemma_ring_contains_next(next, prev, a, a);
            assert(s.contains(next[a]));
            assert(false);
        }
        assert(next2[b] == next[a]);
        if s.contains(p) {
            lemma_ring_contains_next(next, prev, a, p);
            assert(false);
        }
        if rr.contains(b) {
            let u = choose|u: int| 0 <= u < rr.len() && rr[u] == b;
            assert(s[u + 1] == b);
            assert(false);
        }
        assert(rr.remove_value(b) == rr);
        let r = seq![a, b] + rr;
        assert(r.len() == k + 1);
        assert(r[0] == a);
        assert(r[1] == b);
        assert forall|u: int| 2 <= u <= k implies r[u] == s[u - 1] by {}
        assert forall|u: int| 0 <= u < r.len() - 1 implies next2[#[trigger] r[u]] == r[u + 1] by {
            if u == 0 {
            } else if u == 1 {
                if k >= 2 {
                    assert(next[s[0]] == s[1]);
                    assert(r[2] == s[1]);
                } else {
                    assert(next[s[0]] == a);
                }
            } else {
                assert(r[u] == s[u - 1]);
                assert(s[u - 1] != s[0]);
                assert(s[u - 1] != b);
                assert(s[u - 1] != p);
                assert(next[s[u - 1]] == s[u]);
            }
        }
        if k == 1 {
            assert(r[r.len() - 1] == b);
            assert(next[s[0]] == a);
            assert(next2[b] == a);
        } else {
            assert(r[r.len() - 1] == s[k - 1]);
            assert(s[k - 1] != s[0]);
            assert(s[k - 1] != b);
            assert(s[k - 1] != p);
            assert(next2[r[r.len() - 1]] == next[s[k - 1]]);
            assert(next2[r[r.len() - 1]] == a);
        }
        assert forall|x: int, y: int|
            0 <= x < r.len() && 0 <= y < r.len() && x != y implies r[x] != r[y] by {
            if x >= 2 {
                assert(r[x] == s[x - 1]);
            }
            if y >= 2 {
                assert(r[y] == s[y - 1]);
            }
        }
        assert(r.no_duplicates());
        lemma_ring_seq_unique(next2, r, a);
    } else {
        let q = choose|q: int| 0 <= q < k && s[q] == b;
        assert(q != 0);
        assert(next[s[q - 1]] == s[q]);
        assert(prev[next[s[q - 1]]] == s[q - 1]);
        assert(p == s[q - 1]);
        assert(rr[q - 1] == b);
        assert(rr.contains(b));
        let idx = rr.index_of_first(b)->Some_0;
        assert(idx <= q - 1);
        if idx < q - 1 {
            assert(rr[idx] == s[idx + 1]);
            assert(s[idx + 1] == s[q]);
            assert(false);
        }
        assert(rr.remove_value(b) == rr.remove(q - 1));
        if q == 1 {
            assert(p == a);
            assert(next2 =~= next) by {
                assert forall|x: int| 0 <= x < n implies next2[x] == next[x] by {
                    if x == a {
                        assert(next[a] == b);
                    }
                }
            }
            assert(s =~= seq![a, b] + rr.remove(0)) by {
                assert forall|u: int| 0 <= u < k implies (seq![a, b] + rr.remove(0))[u]
                    == s[u] by {
                    if u >= 2 {
                        assert(rr.remove(0)[u - 2] == rr[u - 1]);
                    }
                }
            }
        } else {
            assert(next2[b] == next[a]);
            assert(p != a);
            assert(p != b);
            let r = seq![a, b] + rr.remove(q - 1);
            assert(rr.remove(q - 1).len() == k - 2);
            assert(r.len() == k);
            assert(r[0] == a);
            assert(r[1] == b);
            assert forall|u: int| 2 <= u <= q - 1 + 1 implies r[u] == s[u - 1] by {
                assert(rr.remove(q - 1)[u - 2] == rr[u - 2]);
            }
            assert forall|u: int| q + 1 <= u < k implies r[u] == s[u] by {
                assert(rr.remove(q - 1)[u - 2] == rr[u - 1]);
            }
            assert(next[s[q]] == if q < k - 1 {
                s[q + 1]
            } else {
                a
            });
            assert forall|u: int| 0 <= u < r.len() - 1 implies next2[#[trigger] r[u]] == r[u
                + 1] by {
                if u == 0 {
                } else if u == 1 {
                    assert(next[s[0]] == s[1]);
                    assert(r[2] == s[1]);
                } else if u <= q - 1 {
                    assert(r[u] == s[u - 1]);
                    assert(s[u - 1] != s[0]);
                    assert(s[u - 1] != s[q]);
                    assert(s[u - 1] != s[q - 1]);
                    assert(next[s[u - 1]] == s[u]);
                    assert(r[u + 1] == s[u]);
                } else if u == q {
                    assert(r[u] == s[q - 1]);
                    assert(next2[p] == nb);
                    assert(nb == s[q + 1]);
                    assert(r[u + 1] == s[q + 1]);
                } else {
                    assert(r[u] == s[u]);
                    assert(s[u] != s[0]);
                    assert(s[u] != s[q]);
                    assert(s[u] != s[q - 1]);
                    assert(next[s[u]] == s[u + 1]);
                    assert(r[u + 1] == s[u + 1]);
                }
            }
            if q == k - 1 {
                assert(r[r.len() - 1] == s[q - 1]);
                assert(next2[p] == nb);
                assert(nb == a);
            } else {
                assert(r[r.len() - 1] == s[k - 1]);
                assert(s[k - 1] != s[0]);
                assert(s[k - 1] != s[q]);
                assert(s[k - 1] != s[q - 1]);
                assert(next2[s[k - 1]] == next[s[k - 1]]);
                assert(next[s[k - 1]] == a);
            }
            assert forall|x: int, y: int|
                0 <= x < r.len() && 0 <= y < r.len() && x != y implies r[x] != r[y] by {
                let xi = if x == 0 {
                    0
                } else if x == 1 {
                    q
                } else if x <= q {
                    x - 1
                } else {
                    x
                };
                let yi = if y == 0 {
                    0
                } else if y == 1 {
                    q
                } else if y <= q {
                    y - 1
                } else {
                    y
                };
                assert(r[x] == s[xi]);
                assert(r[y] == s[yi]);
                assert(xi != yi);
            }
            assert(r.no_duplicates());
            lemma_ring_seq_unique(next2, r, a);
        }
    }
}

/// What a splice does to the ring its moved node leaves, when that ring is
/// another one than the anchor's and has at least two members: the rest of
/// it closes over the moved node, in the old order.
pub proof fn lemma_splice_rest(next: Seq<int>, prev: Seq<int>, a: int, b: int)
    requires
        links_wf(next, prev),
        0 <= a < next.len(),
        0 <= b < next.len(),
        a != b,
        !ring_seq(next, a).contains(b),
        ring_size(next, b) >= 2,
    ensures
        ring_seq(splice_next(next, prev, a, b), next[b]) == ring_seq(next, b).skip(1),
{
    lemma_ring_seq(next, prev, b);
    let n = next.len() as int;
    let p = prev[b];
    let nb = next[b];
    let next2 = splice_next(next, prev, a, b);
    let s = ring_seq(next, b);
    let m = s.len() as int;
    if s.contains(a) {
        lemma_ring_same_set(next, prev, b, a);
        assert(ring_seq(next, a).contains(b));
        assert(false);
    }
    assert(next[s[m - 1]] == b);
    assert(prev[next[s[m - 1]]] == s[m - 1]);
    assert(p == s[m - 1]);
    assert(s[1] == nb) by {
        assert(next[s[0]] == s[1]);
    }
    let r = s.skip(1);
    assert(r.len() == m - 1);
    assert(r[0] == nb);
    assert forall|x: int| 0 <= x < n && x != a && x != b && x != p implies #[trigger] next2[x]
        == next[x] by {}
    assert forall|u: int| 0 <= u < r.len() - 1 implies next2[#[trigger] r[u]] == r[u + 1] by {
        assert(r[u] == s[u + 1]);
        assert(r[u + 1] == s[u + 2]);
        assert(s[u + 1] != s[0]);
        assert(s[u + 1] != s[m - 1]);
        assert(!s.contains(a) ==> s[u + 1] != a);
        assert(next[s[u + 1]] == s[u + 2]);
    }
    assert(r[r.len() - 1] == s[m - 1]);
    assert(s[m - 1] != s[0]);
    assert(p != a);
    assert(next2[p] == nb);
    assert(r.no_duplicates());
    lemma_ring_seq_unique(next2, r, nb);
}

/// A ring that contains neither operand of a splice is untouched by the
/// splice.
pub proof fn lemma_splice_frame(next: Seq<int>, prev: Seq<int>, a: int, b: int, j: int)
    requires
        links_wf(next, prev),
        0 <= a < next.len(),
        0 <= b < next.len(),
        a != b,
        0 <= j < next.len(),
        !ring_seq(next, j).contains(a),
        !ring_seq(next, j).contains(b),
    ensures
        ring_seq(splice_next(next, prev, a, b), j) == ring_seq(next, j),
{
    lemma_ring_seq(next, prev, j);
    let next2 = splice_next(next, prev, a, b);
    assert forall|x: int| ring_seq(next, j).contains(x) implies 0 <= x < next2.len()
        && #[trigger] next2[x] == next[x] by {
        if x == prev[b] {
            lemma_ring_contains_next(next, prev, j, x);
            assert(next[prev[b]] == b);
        }
    }
    lemma_ring_seq_agree(next, next2, prev, j);
}

} // verus!
