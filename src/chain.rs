use vstd::prelude::*;

use crate::interval::{IntervalView, Relation};

verus! {

/// `c` lists distinct item indices, each item before the next one.
pub open spec fn is_chain(xs: Seq<IntervalView>, c: Seq<int>) -> bool {
    &&& c.no_duplicates()
    &&& forall|k: int| 0 <= k < c.len() ==> 0 <= #[trigger] c[k] < xs.len()
    &&& forall|k: int| 0 <= k < c.len() - 1 ==> xs[#[trigger] c[k]].before(xs[c[k + 1]])
}

/// The total weight of the items that `c` lists.
pub open spec fn chain_weight(xs: Seq<IntervalView>, c: Seq<int>) -> nat
    decreases c.len(),
{
    if c.len() == 0 {
        0
    } else {
        xs[c[0]].weight + chain_weight(xs, c.drop_first())
    }
}

/// `c` is a chain of greatest total weight.
pub open spec fn is_heaviest_chain(xs: Seq<IntervalView>, c: Seq<int>) -> bool {
    &&& is_chain(xs, c)
    &&& forall|d: Seq<int>| is_chain(xs, d) ==> chain_weight(xs, d) <= chain_weight(xs, c)
}

/// Item indices as mathematical integers.
pub open spec fn as_ints(v: Seq<usize>) -> Seq<int> {
    v.map_values(|i: usize| i as int)
}

pub(crate) proof fn lemma_single_heaviest(xs: Seq<IntervalView>)
    requires
        xs.len() == 1,
        xs[0].wf(),
    ensures
        is_heaviest_chain(xs, seq![0int]),
{
    assert(seq![0int].drop_first().len() == 0);
    assert(chain_weight(xs, seq![0int].drop_first()) == 0);
    assert(chain_weight(xs, seq![0int]) == xs[0].weight);
    assert forall|d: Seq<int>| is_chain(xs, d) implies chain_weight(xs, d) <= chain_weight(
        xs,
        seq![0int],
    ) by {
        if d.len() >= 2 {
            assert(0 <= d[0] < 1 && 0 <= d[1] < 1);
            assert(xs[d[0]].before(xs[d[1]]));
        }
        if d.len() == 1 {
            assert(0 <= d[0] < 1);
            assert(d.drop_first().len() == 0);
            assert(chain_weight(xs, d.drop_first()) == 0);
        }
    }
}

/// Two different items are zero-length intervals at the same point: each is
/// before the other, so the precedence graph has a cycle.
pub open spec fn has_twin_points(xs: Seq<IntervalView>) -> bool {
    exists|i: int, j: int|
        0 <= i < xs.len() && 0 <= j < xs.len() && i != j && #[trigger] xs[i].before(xs[j])
            && #[trigger] xs[j].before(xs[i])
}

/// Every two different items of `s` are ordered one way or the other.
pub open spec fn pairwise_ordered(xs: Seq<IntervalView>, s: Set<int>) -> bool {
    forall|i: int, j: int|
        #[trigger] s.contains(i) && #[trigger] s.contains(j) && i != j ==> xs[i].relation(xs[j])
            != Relation::Incomparable
}

/// The sum of an item's bounds: it grows strictly from an item to any later
/// item of a chain, unless both are the same point.
pub open spec fn bound_sum(x: IntervalView) -> int {
    x.lower + x.upper
}

proof fn lemma_lowest_item(xs: Seq<IntervalView>, s: Set<int>) -> (m: int)
    requires
        s.finite(),
        s.len() > 0,
    ensures
        s.contains(m),
        forall|j: int| #[trigger] s.contains(j) ==> bound_sum(xs[m]) <= bound_sum(xs[j]),
    decreases s.len(),
{
    let x = s.choose();
    if s.len() == 1 {
        assert forall|j: int| #[trigger] s.contains(j) implies j == x by {
            if j != x {
                assert(s.remove(x).contains(j));
                assert(s.remove(x).len() == 0);
            }
        }
        x
    } else {
        let m0 = lemma_lowest_item(xs, s.remove(x));
        if bound_sum(xs[x]) <= bound_sum(xs[m0]) {
            assert forall|j: int| #[trigger] s.contains(j) implies bound_sum(xs[x]) <= bound_sum(xs[j]) by {
                if j != x {
                    assert(s.remove(x).contains(j));
                }
            }
            x
        } else {
            assert forall|j: int| #[trigger] s.contains(j) implies bound_sum(xs[m0]) <= bound_sum(xs[j]) by {
                if j != x {
                    assert(s.remove(x).contains(j));
                }
            }
            m0
        }
    }
}

/// A set of items that are pairwise ordered can be listed as a chain, each
/// item once; so no such set weighs more than a heaviest chain. Two
/// zero-length items at one point are left out, as they order both ways.
pub proof fn lemma_ordered_set_is_chain(xs: Seq<IntervalView>, s: Set<int>) -> (c: Seq<int>)
    requires
        forall|i: int| 0 <= i < xs.len() ==> (#[trigger] xs[i]).wf(),
        forall|i: int| #[trigger] s.contains(i) ==> 0 <= i < xs.len(),
        s.finite(),
        pairwise_ordered(xs, s),
        !has_twin_points(xs),
    ensures
        is_chain(xs, c),
        c.to_set() == s,
    decreases s.len(),
{
    if s.len() == 0 {
        assert(Seq::<int>::empty().to_set() =~= s);
        Seq::empty()
    } else {
        let m = lemma_lowest_item(xs, s);
        let rest = s.remove(m);
        let c0 = lemma_ordered_set_is_chain(xs, rest);
        let c = seq![m] + c0;
        assert(c.drop_first() =~= c0);
        if c0.len() > 0 {
            assert(c0.to_set().contains(c0[0]));
            let j = c0[0];
            assert(s.contains(j) && j != m);
            assert(xs[m].wf() && xs[j].wf());
            if !xs[m].before(xs[j]) {
                assert(xs[j].before(xs[m]));
            }
        }
        assert forall|k: int| 0 <= k < c.len() - 1 implies xs[#[trigger] c[k]].before(xs[c[k + 1]]) by {
            if k > 0 {
                assert(c[k] == c0[k - 1] && c[k + 1] == c0[(k - 1) + 1]);
            }
        }
        assert forall|k: int| 0 <= k < c.len() implies 0 <= #[trigger] c[k] < xs.len() by {
            if k > 0 {
                assert(c[k] == c0[k - 1]);
                assert(c0.to_set().contains(c0[k - 1]));
            }
        }
        assert(c.no_duplicates()) by {
            assert forall|a: int, b: int| 0 <= a < c.len() && 0 <= b < c.len() && a != b implies c[a]
                != c[b] by {
                if a > 0 {
                    assert(c0.to_set().contains(c0[a - 1]));
                }
                if b > 0 {
                    assert(c0.to_set().contains(c0[b - 1]));
                }
            }
        }
        assert forall|i: int| c.to_set().contains(i) <==> s.contains(i) by {
            if s.contains(i) && i != m {
                assert(rest.contains(i));
                assert(c0.to_set().contains(i));
                let k = choose|k: int| 0 <= k < c0.len() && c0[k] == i;
                assert(c[k + 1] == i);
            }
            if i == m {
                assert(c[0] == m);
            }
            if c.to_set().contains(i) && i != m {
                let k = choose|k: int| 0 <= k < c.len() && c[k] == i;
                assert(c0[k - 1] == i);
                assert(c0.to_set().contains(i));
            }
        }
        assert(c.to_set() =~= s);
        c
    }
}

/// Items of a chain are pairwise ordered: each one lies before every later
/// one, so no two of them overlap.
pub proof fn lemma_chain_pairwise_ordered(xs: Seq<IntervalView>, c: Seq<int>)
    requires
        forall|i: int| 0 <= i < xs.len() ==> (#[trigger] xs[i]).wf(),
        is_chain(xs, c),
    ensures
        forall|a: int, b: int|
            0 <= a < b < c.len() ==> xs[c[a]].relation(xs[c[b]]) == Relation::Before,
        forall|a: int, b: int|
            0 <= a < b < c.len() ==> xs[c[b]].relation(xs[c[a]]) != Relation::Incomparable,
{
    assert forall|a: int, b: int| 0 <= a < b < c.len() implies xs[c[a]].before(xs[c[b]]) by {
        lemma_chain_before(xs, c, a, b);
    }
}

proof fn lemma_chain_before(xs: Seq<IntervalView>, c: Seq<int>, a: int, b: int)
    requires
        forall|i: int| 0 <= i < xs.len() ==> (#[trigger] xs[i]).wf(),
        is_chain(xs, c),
        0 <= a < b < c.len(),
    ensures
        xs[c[a]].before(xs[c[b]]),
    decreases b - a,
{
    assert(xs[c[a]].before(xs[c[a + 1]]));
    if b > a + 1 {
        lemma_chain_before(xs, c, a + 1, b);
        assert(xs[c[a + 1]].wf());
    }
}

/// A degenerate interval weighs nothing and is ordered with no interval, so
/// it never stands in a chain beside another item: it cannot block any
/// interval from being chosen, and where it is chosen it adds no weight.
pub proof fn lemma_degenerate_item_inert(xs: Seq<IntervalView>, c: Seq<int>, k: int)
    requires
        forall|i: int| 0 <= i < xs.len() ==> (#[trigger] xs[i]).wf(),
        is_chain(xs, c),
        0 <= k < c.len(),
        !xs[c[k]].proper,
    ensures
        xs[c[k]].weight == 0,
        forall|y: IntervalView|
            xs[c[k]].relation(y) == Relation::Incomparable && y.relation(xs[c[k]])
                == Relation::Incomparable,
        c.len() == 1,
        chain_weight(xs, c) == 0,
{
    assert(xs[c[k]].wf());
    if c.len() > 1 {
        if k + 1 < c.len() {
            assert(xs[c[k]].before(xs[c[k + 1]]));
        } else {
            assert(xs[c[k - 1]].before(xs[c[(k - 1) + 1]]));
        }
    }
    assert(c.drop_first().len() == 0);
    assert(chain_weight(xs, c.drop_first()) == 0);
}

/// Item indices of a list with an item inserted at `k`, taken back to the
/// list without it.
pub open spec fn shift_down(c: Seq<int>, k: int) -> Seq<int> {
    c.map_values(|i: int| if i > k { i - 1 } else { i })
}

/// Item indices of a list, taken to the list with an item inserted at `k`.
pub open spec fn shift_up(c: Seq<int>, k: int) -> Seq<int> {
    c.map_values(|i: int| if i >= k { i + 1 } else { i })
}

proof fn lemma_shift_weight(xs: Seq<IntervalView>, k: int, d: IntervalView, c: Seq<int>)
    requires
        0 <= k <= xs.len(),
        forall|j: int| 0 <= j < c.len() ==> 0 <= #[trigger] c[j] < xs.len() + 1 && c[j] != k,
    ensures
        chain_weight(xs.insert(k, d), c) == chain_weight(xs, shift_down(c, k)),
    decreases c.len(),
{
    if c.len() > 0 {
        lemma_shift_weight(xs, k, d, c.drop_first());
        assert(shift_down(c, k).drop_first() =~= shift_down(c.drop_first(), k));
    }
}

/// Inserting a degenerate interval at `k` changes no chain's weight: a
/// chain of the longer list either is that interval alone, of weight zero,
/// or skips it and is a chain of the shorter list of the same weight; and
/// every chain of the shorter list stays one in the longer list. So the
/// heaviest weight is the same with or without it.
pub proof fn lemma_insert_degenerate(xs: Seq<IntervalView>, k: int, d: IntervalView, c: Seq<int>)
    requires
        forall|i: int| 0 <= i < xs.len() ==> (#[trigger] xs[i]).wf(),
        d.wf(),
        !d.proper,
        0 <= k <= xs.len(),
    ensures
        is_chain(xs.insert(k, d), c) && c.contains(k) ==> chain_weight(xs.insert(k, d), c) == 0,
        is_chain(xs.insert(k, d), c) && !c.contains(k) ==> is_chain(xs, shift_down(c, k))
            && chain_weight(xs, shift_down(c, k)) == chain_weight(xs.insert(k, d), c),
        is_chain(xs, c) ==> is_chain(xs.insert(k, d), shift_up(c, k)) && chain_weight(
            xs.insert(k, d),
            shift_up(c, k),
        ) == chain_weight(xs, c),
{
    let ys = xs.insert(k, d);
    assert forall|i: int| 0 <= i < ys.len() implies (#[trigger] ys[i]).wf() by {
        if i < k {
            assert(ys[i] == xs[i]);
        } else if i > k {
            assert(ys[i] == xs[i - 1]);
        }
    }
    if is_chain(ys, c) && c.contains(k) {
        let j = choose|j: int| 0 <= j < c.len() && c[j] == k;
        lemma_degenerate_item_inert(ys, c, j);
    }
    if is_chain(ys, c) && !c.contains(k) {
        let e = shift_down(c, k);
        assert forall|j: int| 0 <= j < c.len() implies 0 <= #[trigger] c[j] < xs.len() + 1 && c[j] != k by {
            if c[j] == k {
                assert(c.contains(k));
            }
        }
        assert forall|j: int| 0 <= j < c.len() implies #[trigger] ys[c[j]] == xs[e[j]] by {
            if c[j] == k {
                assert(c.contains(k));
            }
        }
        assert forall|j: int| 0 <= j < e.len() - 1 implies xs[#[trigger] e[j]].before(xs[e[j + 1]]) by {
            assert(ys[c[j]] == xs[e[j]]);
            assert(ys[c[j + 1]] == xs[e[j + 1]]);
        }
        assert forall|a: int, b: int| 0 <= a < e.len() && 0 <= b < e.len() && a != b implies e[a] != e[b] by {
            assert(c[a] != c[b]);
            if c[a] == k {
                assert(c.contains(k));
            }
            if c[b] == k {
                assert(c.contains(k));
            }
        }
        lemma_shift_weight(xs, k, d, c);
    }
    if is_chain(xs, c) {
        let u = shift_up(c, k);
        assert forall|j: int| 0 <= j < c.len() implies #[trigger] ys[u[j]] == xs[c[j]] && u[j] != k by {}
        assert forall|j: int| 0 <= j < u.len() - 1 implies ys[#[trigger] u[j]].before(ys[u[j + 1]]) by {
            assert(ys[u[j]] == xs[c[j]]);
            assert(ys[u[j + 1]] == xs[c[j + 1]]);
        }
        assert forall|a: int, b: int| 0 <= a < u.len() && 0 <= b < u.len() && a != b implies u[a] != u[b] by {
            assert(c[a] != c[b]);
        }
        assert forall|j: int| 0 <= j < u.len() implies 0 <= #[trigger] u[j] < ys.len() && u[j] != k by {}
        lemma_shift_weight(xs, k, d, u);
        assert(shift_down(u, k) =~= c);
    }
}

} // verus!
