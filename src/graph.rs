use vstd::prelude::*;

use crate::chain::{
    as_ints, chain_weight, has_twin_points, is_chain, is_heaviest_chain, lemma_single_heaviest,
};
use crate::interval::{Interval, IntervalView, Relation};

verus! {

/// The largest weight of a single item.
pub const MAX_WEIGHT: u128 = 0xFFFF_FFFF;

struct Node {
    predecessors: Vec<usize>,
    weight: u32,
}

/// The precedence graph of a list of items: node 0 is the source, node `i + 1`
/// stands for item `i`, and the last node is the sink.
pub struct Graph {
    nodes: Vec<Node>,
    items: Ghost<Seq<IntervalView>>,
}

/// Node `p` is a predecessor of node `v` in the graph of `xs`.
pub open spec fn is_pred(xs: Seq<IntervalView>, v: int, p: int) -> bool {
    let n = xs.len() as int;
    &&& 0 <= p < n + 2
    &&& if 1 <= v <= n {
        preds_of_item(xs, v - 1, p)
    } else if v == n + 1 {
        1 <= p <= n
    } else {
        false
    }
}

pub open spec fn item_weight(xs: Seq<IntervalView>, v: int) -> int {
    if 1 <= v <= xs.len() {
        xs[v - 1].weight as int
    } else {
        0
    }
}

/// `p` may be followed back from `v`: a predecessor of lower rank.
pub open spec fn steps_back(xs: Seq<IntervalView>, v: int, p: int) -> bool {
    is_pred(xs, v, p) && 0 <= graph_rank(xs)(p) < graph_rank(xs)(v)
}

/// Among the predecessors of `v` below `m`, the largest best distance and
/// the lowest node that has it; `-1` for the node where there is none.
pub open spec fn scan(xs: Seq<IntervalView>, v: int, m: int) -> (int, int)
    decreases graph_rank(xs)(v), m, 0int,
{
    if m <= 0 {
        (0, -1)
    } else {
        let (d, q) = scan(xs, v, m - 1);
        if steps_back(xs, v, m - 1) {
            let dp = best(xs, m - 1).0;
            if q == -1 || dp > d {
                (dp, m - 1)
            } else {
                (d, q)
            }
        } else {
            (d, q)
        }
    }
}

/// The best distance of node `v` and the predecessor that gives it (the
/// lowest one on a tie), `-1` where `v` has no predecessor.
pub open spec fn best(xs: Seq<IntervalView>, v: int) -> (int, int)
    decreases graph_rank(xs)(v), xs.len() + 3, 0int,
{
    let (d, q) = scan(xs, v, xs.len() as int + 2);
    if q == -1 {
        (item_weight(xs, v), -1)
    } else {
        (d + item_weight(xs, v), q)
    }
}

/// The items met when following best predecessors back from `v`, in chain
/// order.
pub open spec fn trace(xs: Seq<IntervalView>, v: int) -> Seq<int>
    decreases graph_rank(xs)(v),
{
    let q = best(xs, v).1;
    if steps_back(xs, v, q) {
        trace(xs, q) + if 1 <= v <= xs.len() { seq![v - 1] } else { Seq::empty() }
    } else {
        Seq::empty()
    }
}

/// The chain that the solver picks: following from the sink the predecessor
/// of largest best distance, the lowest-numbered one on a tie.
pub open spec fn heaviest_path(xs: Seq<IntervalView>) -> Seq<int> {
    trace(xs, xs.len() as int + 1)
}

/// Strictly increasing.
spec fn ascending(s: Seq<usize>) -> bool {
    forall|a: int, b: int| 0 <= a < b < s.len() ==> s[a] < s[b]
}

/// Node `p` is a predecessor of the node of item `i`: the source, or the
/// node of another item before item `i`.
pub open spec fn preds_of_item(xs: Seq<IntervalView>, i: int, p: int) -> bool {
    p == 0 || (1 <= p <= xs.len() && p - 1 != i && xs[p - 1].before(xs[i]))
}

spec fn node_weight(nodes: Seq<Node>, v: int) -> nat {
    nodes[v].weight as nat
}

spec fn has_pred(nodes: Seq<Node>, v: int, p: int) -> bool {
    nodes[v].predecessors@.contains(p as usize)
}

impl Graph {
    /// The items the graph was built from.
    pub closed spec fn items(&self) -> Seq<IntervalView> {
        self.items@
    }

    pub closed spec fn wf(&self) -> bool {
        let xs = self.items@;
        let nodes = self.nodes@;
        let n = xs.len() as int;
        &&& nodes.len() == n + 2
        &&& nodes.len() <= usize::MAX
        &&& forall|i: int| 0 <= i < n ==> (#[trigger] xs[i]).wf()
        &&& nodes[0].predecessors@.len() == 0
        &&& nodes[0].weight == 0
        &&& nodes[n + 1].weight == 0
        &&& forall|i: int| 0 <= i < n ==> #[trigger] node_weight(nodes, i + 1) == xs[i].weight
        &&& forall|i: int, p: int|
            0 <= i < n && 0 <= p < n + 2 ==> (#[trigger] has_pred(nodes, i + 1, p)
                <==> preds_of_item(xs, i, p))
        &&& forall|p: int| 0 <= p < n + 2 ==> (#[trigger] has_pred(nodes, n + 1, p) <==> 1 <= p <= n)
        &&& forall|v: int, j: int|
            0 <= v < nodes.len() && 0 <= j < nodes[v].predecessors@.len() ==> (
            #[trigger] nodes[v].predecessors@[j]) < nodes.len()
        &&& forall|v: int| 0 <= v < nodes.len() ==> ascending(#[trigger] nodes[v].predecessors@)
    }

    /// `s` lists every node once, each one ahead of its predecessors.
    pub closed spec fn is_reverse_topological(&self, s: Seq<usize>) -> bool {
        order_ok(self.nodes@, s)
    }
}

spec fn order_ok(nodes: Seq<Node>, s: Seq<usize>) -> bool {
    &&& s.no_duplicates()
    &&& forall|v: usize| 0 <= v < nodes.len() ==> s.contains(v)
    &&& forall|a: int| 0 <= a < s.len() ==> (#[trigger] s[a]) < nodes.len()
    &&& forall|a: int, b: int, j: int|
        0 <= a < s.len() && 0 <= b < s.len() && 0 <= j < nodes[s[a] as int].predecessors@.len()
            && #[trigger] s[b] == #[trigger] nodes[s[a] as int].predecessors@[j] ==> a < b
}

/// Node `v` has its best distance and the predecessor that gives it.
spec fn settled(nodes: Seq<Node>, dist: Seq<u128>, pp: Seq<Option<usize>>, v: int) -> bool {
    let ps = nodes[v].predecessors@;
    if ps.len() == 0 {
        pp[v] is None && dist[v] as int == nodes[v].weight as int
    } else {
        &&& pp[v] is Some
        &&& ps.contains(pp[v]->Some_0)
        &&& dist[v] as int == dist[pp[v]->Some_0 as int] as int + nodes[v].weight as int
        &&& forall|j: int|
            0 <= j < ps.len() ==> dist[#[trigger] ps[j] as int] <= dist[pp[v]->Some_0 as int]
        &&& forall|j: int|
            0 <= j < ps.len() && ps[j] < pp[v]->Some_0 ==> dist[#[trigger] ps[j] as int]
                < dist[pp[v]->Some_0 as int]
    }
}

/// `p` lists nodes, each one a predecessor of the next.
spec fn is_path(nodes: Seq<Node>, p: Seq<int>) -> bool {
    &&& forall|k: int| 0 <= k < p.len() ==> 0 <= #[trigger] p[k] < nodes.len()
    &&& forall|k: int| 0 <= k < p.len() - 1 ==> #[trigger] has_pred(nodes, p[k + 1], p[k])
}

spec fn path_sum(nodes: Seq<Node>, p: Seq<int>) -> nat
    decreases p.len(),
{
    if p.len() == 0 {
        0
    } else {
        node_weight(nodes, p[0]) + path_sum(nodes, p.drop_first())
    }
}

/// The nodes of a chain of items, followed by the sink.
spec fn node_path(d: Seq<int>, sink: int) -> Seq<int> {
    Seq::new((d.len() + 1) as nat, |k: int| if k < d.len() { d[k] + 1 } else { sink })
}

proof fn lemma_path_bound(nodes: Seq<Node>, dist: Seq<u128>, pp: Seq<Option<usize>>, p: Seq<int>)
    requires
        nodes.len() <= usize::MAX,
        dist.len() == nodes.len(),
        pp.len() == nodes.len(),
        forall|v: int| 0 <= v < nodes.len() ==> settled(nodes, dist, pp, v),
        is_path(nodes, p),
        p.len() >= 1,
    ensures
        dist[p[0]] + path_sum(nodes, p.drop_first()) <= dist[p.last()],
    decreases p.len(),
{
    if p.len() >= 2 {
        let q = p.drop_first();
        assert(is_path(nodes, q)) by {
            assert forall|k: int| 0 <= k < q.len() - 1 implies #[trigger] has_pred(
                nodes,
                q[k + 1],
                q[k],
            ) by {
                assert(q[k] == p[k + 1] && q[k + 1] == p[(k + 1) + 1]);
                assert(has_pred(nodes, p[(k + 1) + 1], p[k + 1]));
            }
        }
        lemma_path_bound(nodes, dist, pp, q);
        assert(has_pred(nodes, p[1], p[0]));
        assert(0 <= p[1] < nodes.len());
        assert(settled(nodes, dist, pp, p[1]));
        assert(0 <= p[0] < nodes.len());
        let ps = nodes[p[1]].predecessors@;
        assert(ps.contains(p[0] as usize));
        let j = choose|j: int| 0 <= j < ps.len() && ps[j] == p[0] as usize;
        assert(ps[j] as int == p[0]);
        assert(dist[ps[j] as int] <= dist[pp[p[1]]->Some_0 as int]);
        assert(q[0] == p[1]);
        assert(q.last() == p.last());
        assert(path_sum(nodes, q) == node_weight(nodes, q[0]) + path_sum(nodes, q.drop_first()));
    }
}

proof fn lemma_node_path_sum(nodes: Seq<Node>, xs: Seq<IntervalView>, d: Seq<int>)
    requires
        nodes.len() == xs.len() + 2,
        nodes[xs.len() as int + 1].weight == 0,
        forall|i: int| 0 <= i < xs.len() ==> #[trigger] node_weight(nodes, i + 1) == xs[i].weight,
        forall|k: int| 0 <= k < d.len() ==> 0 <= #[trigger] d[k] < xs.len(),
    ensures
        path_sum(nodes, node_path(d, (xs.len() + 1) as int)) == chain_weight(xs, d),
    decreases d.len(),
{
    let p = node_path(d, (xs.len() + 1) as int);
    if d.len() == 0 {
        assert(p.drop_first().len() == 0);
        assert(p[0] == xs.len() + 1);
        assert(path_sum(nodes, p) == node_weight(nodes, p[0]) + path_sum(nodes, p.drop_first()));
    } else {
        assert(p[0] == d[0] + 1);
        assert(path_sum(nodes, p) == node_weight(nodes, p[0]) + path_sum(nodes, p.drop_first()));
        lemma_node_path_sum(nodes, xs, d.drop_first());
        assert(p.drop_first() =~= node_path(d.drop_first(), (xs.len() + 1) as int));
        assert(node_weight(nodes, d[0] + 1) == xs[d[0]].weight);
    }
}

/// `rank` falls along every edge from a node to one of its predecessors, so
/// the graph has no cycle.
spec fn descends(nodes: Seq<Node>, rank: spec_fn(int) -> int) -> bool {
    forall|v: int, j: int|
        0 <= v < nodes.len() && 0 <= j < nodes[v].predecessors@.len() ==> rank(
            #[trigger] nodes[v].predecessors@[j] as int,
        ) < rank(v)
}

/// The nodes hold the graph of `xs`: the same predecessors and weights.
spec fn models(nodes: Seq<Node>, xs: Seq<IntervalView>) -> bool {
    &&& nodes.len() == xs.len() + 2
    &&& nodes.len() <= usize::MAX
    &&& forall|v: int, p: int|
        0 <= v < nodes.len() && 0 <= p < nodes.len() ==> (#[trigger] has_pred(nodes, v, p)
            <==> steps_back(xs, v, p))
    &&& forall|v: int| 0 <= v < nodes.len() ==> #[trigger] nodes[v].weight as int == item_weight(xs, v)
    &&& forall|v: int, j: int|
        0 <= v < nodes.len() && 0 <= j < nodes[v].predecessors@.len() ==> (
        #[trigger] nodes[v].predecessors@[j]) < nodes.len()
}

proof fn lemma_models(g: &Graph)
    requires
        g.wf(),
        !has_twin_points(g.items@),
        g.nodes@.len() <= usize::MAX,
    ensures
        models(g.nodes@, g.items@),
{
    let nodes = g.nodes@;
    let xs = g.items@;
    let n = xs.len() as int;
    lemma_graph_descends(g);
    assert forall|v: int, p: int| 0 <= v < nodes.len() && 0 <= p < nodes.len() implies (
    #[trigger] has_pred(nodes, v, p) <==> steps_back(xs, v, p)) by {
        if v == 0 {
            assert(!nodes[0].predecessors@.contains(p as usize));
        } else if v <= n {
            assert(has_pred(nodes, (v - 1) + 1, p) <==> preds_of_item(xs, v - 1, p));
        } else {
            assert(has_pred(nodes, n + 1, p) <==> 1 <= p <= n);
        }
        if has_pred(nodes, v, p) {
            let j = choose|j: int|
                0 <= j < nodes[v].predecessors@.len() && nodes[v].predecessors@[j] == p as usize;
            assert(graph_rank(xs)(nodes[v].predecessors@[j] as int) < graph_rank(xs)(v));
            if p >= 1 {
                assert(xs[p - 1].wf());
            }
        }
    }
    assert forall|v: int| 0 <= v < nodes.len() implies #[trigger] nodes[v].weight as int
        == item_weight(xs, v) by {
        if 1 <= v <= n {
            assert(node_weight(nodes, (v - 1) + 1) == xs[v - 1].weight);
        }
    }
}

proof fn lemma_scan(
    nodes: Seq<Node>,
    xs: Seq<IntervalView>,
    dist: Seq<u128>,
    pp: Seq<Option<usize>>,
    v: int,
    m: int,
)
    requires
        models(nodes, xs),
        dist.len() == nodes.len(),
        pp.len() == nodes.len(),
        forall|u: int| 0 <= u < nodes.len() ==> settled(nodes, dist, pp, u),
        0 <= v < nodes.len(),
        0 <= m <= nodes.len(),
    ensures
        scan(xs, v, m).1 == -1 <==> (forall|p: int| 0 <= p < m ==> !has_pred(nodes, v, p)),
        scan(xs, v, m).1 != -1 ==> {
            let (d, q) = scan(xs, v, m);
            &&& 0 <= q < m
            &&& has_pred(nodes, v, q)
            &&& d == dist[q] as int
            &&& forall|p: int| 0 <= p < m && has_pred(nodes, v, p) ==> dist[p] as int <= d
            &&& forall|p: int| 0 <= p < q && has_pred(nodes, v, p) ==> (dist[p] as int) < d
        },
    decreases graph_rank(xs)(v), m, 1int,
{
    if m > 0 {
        lemma_scan(nodes, xs, dist, pp, v, m - 1);
        if has_pred(nodes, v, m - 1) {
            assert(steps_back(xs, v, m - 1));
            lemma_best(nodes, xs, dist, pp, m - 1);
        }
    }
}

proof fn lemma_best(
    nodes: Seq<Node>,
    xs: Seq<IntervalView>,
    dist: Seq<u128>,
    pp: Seq<Option<usize>>,
    v: int,
)
    requires
        models(nodes, xs),
        dist.len() == nodes.len(),
        pp.len() == nodes.len(),
        forall|u: int| 0 <= u < nodes.len() ==> settled(nodes, dist, pp, u),
        0 <= v < nodes.len(),
    ensures
        best(xs, v).0 == dist[v] as int,
        best(xs, v).1 == if pp[v] is Some { pp[v]->Some_0 as int } else { -1 },
    decreases graph_rank(xs)(v), xs.len() + 3, 1int,
{
    let count = nodes.len() as int;
    lemma_scan(nodes, xs, dist, pp, v, count);
    let (d, q) = scan(xs, v, count);
    assert(settled(nodes, dist, pp, v));
    let ps = nodes[v].predecessors@;
    if q == -1 {
        if ps.len() > 0 {
            assert(ps.contains(ps[0]));
            assert(has_pred(nodes, v, ps[0] as int));
        }
    } else {
        assert(ps.contains(q as usize));
        let big_p = pp[v]->Some_0 as int;
        assert(has_pred(nodes, v, big_p));
        let jq = choose|j: int| 0 <= j < ps.len() && ps[j] == q as usize;
        let jp = choose|j: int| 0 <= j < ps.len() && ps[j] == big_p as usize;
        assert(dist[ps[jq] as int] <= dist[big_p]);
        if q < big_p {
            assert(dist[ps[jq] as int] < dist[big_p]);
        }
        if big_p < q {
            assert(dist[ps[jp] as int] as int <= d);
        }
    }
}

proof fn lemma_no_item_path(xs: Seq<IntervalView>)
    requires
        xs.len() == 0,
    ensures
        heaviest_path(xs) == Seq::<int>::empty(),
{
    reveal_with_fuel(scan, 3);
    assert(!steps_back(xs, 1, 1) && !steps_back(xs, 1, 0));
    assert(scan(xs, 1, 0) == (0int, -1int));
    assert(scan(xs, 1, 1) == scan(xs, 1, 0));
    assert(scan(xs, 1, 2) == scan(xs, 1, 1));
    assert(best(xs, 1).1 == -1);
}

proof fn lemma_single_item_path(xs: Seq<IntervalView>)
    requires
        xs.len() == 1,
        xs[0].wf(),
    ensures
        heaviest_path(xs) == seq![0int],
{
    reveal_with_fuel(scan, 4);
    let rank = graph_rank(xs);
    assert(rank(0) == 0 && rank(1) == xs[0].lower + xs[0].upper + 1 && rank(2)
        == 0x4_0000_0000_0000_0000);
    assert(!steps_back(xs, 2, 2) && steps_back(xs, 2, 1) && !steps_back(xs, 2, 0));
    assert(scan(xs, 2, 0) == (0int, -1int));
    assert(scan(xs, 2, 1) == scan(xs, 2, 0));
    assert(scan(xs, 2, 2).1 == 1);
    assert(scan(xs, 2, 3) == scan(xs, 2, 2));
    assert(best(xs, 2).1 == 1);
    assert(!steps_back(xs, 1, 2) && !steps_back(xs, 1, 1) && steps_back(xs, 1, 0));
    assert(scan(xs, 1, 0) == (0int, -1int));
    assert(scan(xs, 1, 1).1 == 0);
    assert(scan(xs, 1, 2) == scan(xs, 1, 1));
    assert(scan(xs, 1, 3) == scan(xs, 1, 2));
    assert(best(xs, 1).1 == 0);
    assert(!steps_back(xs, 0, 2) && !steps_back(xs, 0, 1) && !steps_back(xs, 0, 0));
    assert(scan(xs, 0, 0) == (0int, -1int));
    assert(scan(xs, 0, 1) == scan(xs, 0, 0));
    assert(scan(xs, 0, 2) == scan(xs, 0, 1));
    assert(scan(xs, 0, 3) == scan(xs, 0, 2));
    assert(best(xs, 0).1 == -1);
    assert(trace(xs, 0) =~= Seq::<int>::empty());
    assert(trace(xs, 1) =~= seq![0int]);
    assert(trace(xs, 2) =~= seq![0int]);
}

/// A graph with a topological order has no twin points.
proof fn lemma_order_no_twins(g: &Graph, s: Seq<usize>)
    requires
        g.wf(),
        order_ok(g.nodes@, s),
    ensures
        !has_twin_points(g.items@),
{
    let nodes = g.nodes@;
    let xs = g.items@;
    let n = xs.len() as int;
    if has_twin_points(xs) {
        let (i, j) = choose|i: int, j: int|
            0 <= i < xs.len() && 0 <= j < xs.len() && i != j && #[trigger] xs[i].before(xs[j])
                && #[trigger] xs[j].before(xs[i]);
        assert(has_pred(nodes, i + 1, j + 1) <==> preds_of_item(xs, i, j + 1));
        assert(has_pred(nodes, j + 1, i + 1) <==> preds_of_item(xs, j, i + 1));
        assert(preds_of_item(xs, i, j + 1) && preds_of_item(xs, j, i + 1));
        assert(has_pred(nodes, i + 1, j + 1) && has_pred(nodes, j + 1, i + 1));
        let a = lemma_position(s, nodes.len() as int, (i + 1) as usize);
        assert(s[a] as int == i + 1);
        let b = lemma_order_later(nodes, s, a, (j + 1) as usize);
        assert(s[b] as int == j + 1);
        let c = lemma_order_later(nodes, s, b, (i + 1) as usize);
        assert(s[a] == s[c]);
    }
}

/// Relies on pathfinding's `topological_sort`: on success it returns every
/// root once, with each node ahead of its successors; here the successors of
/// a node are its predecessors in the graph. It fails only on meeting a node
/// already on the current search path, which a graph without a cycle never
/// shows. Which valid order comes back depends on hash-set iteration, so
/// nothing more is stated of it.
#[verifier::external_body]
fn topological_order(nodes: &Vec<Node>) -> (r: Result<Vec<usize>, usize>)
    requires
        forall|v: int, j: int|
            0 <= v < nodes@.len() && 0 <= j < nodes@[v].predecessors@.len() ==> (
            #[trigger] nodes@[v].predecessors@[j]) < nodes@.len(),
    ensures
        r is Ok ==> order_ok(nodes@, r->Ok_0@),
        (exists|rank: spec_fn(int) -> int| descends(nodes@, rank)) ==> r is Ok,
{
    let roots: Vec<usize> = (0..nodes.len()).collect();
    pathfinding::directed::topological_sort::topological_sort(
        &roots,
        |id| nodes[*id].predecessors.iter().copied(),
    )
}

/// The predecessors of a node of a well-formed graph all rank lower: the
/// source lowest, an item by its lower bound, the sink highest.
proof fn lemma_graph_descends(g: &Graph)
    requires
        g.wf(),
        !has_twin_points(g.items@),
    ensures
        descends(g.nodes@, graph_rank(g.items@)),
{
    let nodes = g.nodes@;
    let xs = g.items@;
    let n = xs.len() as int;
    let rank = graph_rank(xs);
    assert forall|v: int, j: int|
        0 <= v < nodes.len() && 0 <= j < nodes[v].predecessors@.len() implies rank(
        #[trigger] nodes[v].predecessors@[j] as int,
    ) < rank(v) by {
        let p = nodes[v].predecessors@[j];
        assert(nodes[v].predecessors@.contains(p));
        assert(p < nodes.len());
        if v == n + 1 {
            assert(has_pred(nodes, n + 1, p as int));
            assert(xs[p - 1].wf());
            assert(rank(p as int) == xs[p - 1].lower + xs[p - 1].upper + 1);
            assert(rank(v) == 0x4_0000_0000_0000_0000);
        } else if v >= 1 {
            assert(has_pred(nodes, (v - 1) + 1, p as int));
            assert(preds_of_item(xs, v - 1, p as int));
            assert(xs[v - 1].wf());
            assert(rank(v) == xs[v - 1].lower + xs[v - 1].upper + 1);
            if p >= 1 {
                assert(xs[p - 1].wf());
                assert(rank(p as int) == xs[p - 1].lower + xs[p - 1].upper + 1);
                if rank(p as int) >= rank(v) {
                    assert(xs[v - 1].before(xs[p - 1]));
                    assert(has_twin_points(xs));
                }
            } else {
                assert(rank(p as int) == 0);
            }
        }
    }
}

/// Rank of each node: 0 for the source, one more than the sum of its bounds
/// for an item, and above every item for the sink.
pub open spec fn graph_rank(xs: Seq<IntervalView>) -> spec_fn(int) -> int {
    |v: int|
        if v == 0 {
            0
        } else if 1 <= v <= xs.len() {
            xs[v - 1].lower + xs[v - 1].upper + 1
        } else {
            0x4_0000_0000_0000_0000
        }
}

proof fn lemma_push_contains(s: Seq<usize>, x: usize, y: usize)
    ensures
        s.push(x).contains(y) <==> (s.contains(y) || y == x),
{
    if s.contains(y) {
        let j = choose|j: int| 0 <= j < s.len() && s[j] == y;
        assert(s.push(x)[j] == y);
    }
    if y == x {
        assert(s.push(x)[s.len() as int] == x);
    }
    if s.push(x).contains(y) {
        let j = choose|j: int| 0 <= j < s.push(x).len() && s.push(x)[j] == y;
        if j < s.len() {
            assert(s[j] == y);
        }
    }
}

proof fn lemma_order_later(nodes: Seq<Node>, s: Seq<usize>, a: int, q: usize) -> (b: int)
    requires
        order_ok(nodes, s),
        0 <= a < s.len(),
        nodes[s[a] as int].predecessors@.contains(q),
        q < nodes.len(),
    ensures
        a < b < s.len(),
        s[b] == q,
{
    assert(s.contains(q));
    let b = choose|b: int| 0 <= b < s.len() && s[b] == q;
    let j = choose|j: int|
        0 <= j < nodes[s[a] as int].predecessors@.len() && nodes[s[a] as int].predecessors@[j]
            == q;
    assert(s[b] == nodes[s[a] as int].predecessors@[j]);
    b
}

proof fn lemma_position(s: Seq<usize>, count: int, v: usize) -> (b: int)
    requires
        forall|u: usize| 0 <= u < count ==> s.contains(u),
        v < count,
    ensures
        0 <= b < s.len(),
        s[b] == v,
{
    assert(s.contains(v));
    choose|b: int| 0 <= b < s.len() && s[b] == v
}

/// No chain of items weighs more than the sink's best distance.
proof fn lemma_chain_bound(
    nodes: Seq<Node>,
    xs: Seq<IntervalView>,
    dist: Seq<u128>,
    pp: Seq<Option<usize>>,
    d: Seq<int>,
)
    requires
        nodes.len() <= usize::MAX,
        nodes.len() == xs.len() + 2,
        dist.len() == nodes.len(),
        pp.len() == nodes.len(),
        forall|v: int| 0 <= v < nodes.len() ==> settled(nodes, dist, pp, v),
        nodes[xs.len() as int + 1].weight == 0,
        forall|i: int| 0 <= i < xs.len() ==> #[trigger] node_weight(nodes, i + 1) == xs[i].weight,
        forall|i: int, p: int|
            0 <= i < xs.len() && 0 <= p < xs.len() + 2 ==> (#[trigger] has_pred(nodes, i + 1, p)
                <==> preds_of_item(xs, i, p)),
        forall|p: int|
            0 <= p < xs.len() + 2 ==> (#[trigger] has_pred(nodes, xs.len() as int + 1, p) <==> 1 <= p
                <= xs.len()),
        is_chain(xs, d),
    ensures
        chain_weight(xs, d) <= dist[xs.len() as int + 1],
{
    let sink = xs.len() as int + 1;
    let p = node_path(d, sink);
    lemma_node_path_sum(nodes, xs, d);
    assert(is_path(nodes, p)) by {
        assert forall|k: int| 0 <= k < p.len() - 1 implies #[trigger] has_pred(nodes, p[k + 1], p[k]) by {
            if k + 1 < d.len() {
                assert(has_pred(nodes, d[k + 1] + 1, d[k] + 1));
            } else {
                assert(has_pred(nodes, sink, d[k] + 1));
            }
        }
    }
    lemma_path_bound(nodes, dist, pp, p);
    assert(settled(nodes, dist, pp, p[0]));
    assert(path_sum(nodes, p) == node_weight(nodes, p[0]) + path_sum(nodes, p.drop_first()));
}

impl Graph {
    /// Gives node `v`, at position `k` of `order`, its best distance: the
    /// largest one among its predecessors plus its own weight, and the
    /// predecessor that gives it (on a tie, the first in the list). The
    /// predecessors come later in `order` and are already done.
    fn mark_longest_path_for(
        &self,
        v: usize,
        dist: &mut Vec<u128>,
        pp: &mut Vec<Option<usize>>,
        order: Ghost<Seq<usize>>,
        k: Ghost<int>,
    )
        requires
            self.wf(),
            order_ok(self.nodes@, order@),
            0 <= k@ < order@.len(),
            order@.len() <= usize::MAX,
            order@[k@] == v,
            old(dist)@.len() == self.nodes@.len(),
            old(pp)@.len() == self.nodes@.len(),
            forall|b: int|
                k@ < b < order@.len() ==> settled(self.nodes@, old(dist)@, old(pp)@, #[trigger] order@[b] as int),
            forall|b: int|
                k@ < b < order@.len() ==> old(dist)@[#[trigger] order@[b] as int] <= (order@.len() - b) * MAX_WEIGHT,
        ensures
            final(dist)@.len() == self.nodes@.len(),
            final(pp)@.len() == self.nodes@.len(),
            final(dist)@ == old(dist)@.update(v as int, final(dist)@[v as int]),
            final(pp)@ == old(pp)@.update(v as int, final(pp)@[v as int]),
            settled(self.nodes@, final(dist)@, final(pp)@, v as int),
            final(dist)@[v as int] <= (order@.len() - k@) * MAX_WEIGHT,
    {
        let ghost nodes = self.nodes@;
        let ghost len = order@.len();
        let ghost count = nodes.len();
        let ghost kk = k@;
        let ps = &self.nodes[v].predecessors;
        let w = self.nodes[v].weight;
        if ps.len() == 0 {
            dist.set(v, w as u128);
            pp.set(v, None);
        } else {
            let mut best: usize = ps[0];
            let ghost mut best_pos: int = lemma_order_later(nodes, order@, kk, best);
            let ghost mut best_idx: int = 0;
            assert(ascending(nodes[v as int].predecessors@));
            let mut j: usize = 1;
            while j < ps.len()
                invariant
                    self.wf(),
                    nodes == self.nodes@,
                    count == nodes.len(),
                    order_ok(nodes, order@),
                    0 <= kk < len,
                    len <= usize::MAX,
                    len == order@.len(),
                    v == order@[kk],
                    ps@ == nodes[v as int].predecessors@,
                    dist@.len() == count,
                    1 <= j <= ps@.len(),
                    ps@.contains(best),
                    kk < best_pos < len,
                    dist@ == old(dist)@,
                    pp@ == old(pp)@,
                    forall|b: int|
                        kk < b < len ==> settled(nodes, dist@, pp@, #[trigger] order@[b] as int),
                    forall|b: int|
                        kk < b < len ==> dist@[#[trigger] order@[b] as int] <= (len - b) * MAX_WEIGHT,
                    order@[best_pos] == best,
                    forall|i: int| 0 <= i < j ==> dist@[#[trigger] ps@[i] as int] <= dist@[best as int],
                    0 <= best_idx < j,
                    ps@[best_idx] == best,
                    ascending(ps@),
                    forall|i: int|
                        0 <= i < j && ps@[i] < best ==> dist@[#[trigger] ps@[i] as int] < dist@[best as int],
                decreases ps@.len() - j,
            {
                let q = ps[j];
                if dist[q] > dist[best] {
                    best = q;
                    proof {
                        best_pos = lemma_order_later(nodes, order@, kk, best);
                        best_idx = j as int;
                    }
                }
                j += 1;
            }
            let bd = dist[best];
            assert(settled(nodes, dist@, pp@, order@[best_pos] as int));
            assert(bd <= (len - best_pos) * MAX_WEIGHT);
            assert(bd + w <= (len - kk) * MAX_WEIGHT) by (nonlinear_arith)
                requires
                    bd <= (len - best_pos) * MAX_WEIGHT,
                    best_pos >= kk + 1,
                    w <= MAX_WEIGHT,
            ;
            assert((len - kk) * MAX_WEIGHT <= u128::MAX) by (nonlinear_arith)
                requires
                    len <= usize::MAX,
                    0 <= kk,
            ;
            dist.set(v, bd + w as u128);
            pp.set(v, Some(best));
        }
        proof {
            assert(order@[kk] as int == v as int);
            if ps@.len() > 0 {
                let q = pp@[v as int]->Some_0;
                assert forall|i: int| 0 <= i < ps@.len() implies dist@[#[trigger] ps@[i] as int]
                    <= dist@[q as int] by {
                    let bb = lemma_order_later(nodes, order@, kk, ps@[i]);
                }
                let bq = lemma_order_later(nodes, order@, kk, q);
            }
        }
    }

    /// Computes every node's best distance, taking the nodes in the reverse
    /// of `order`, so that each node comes after all of its predecessors.
    fn settle_all(&self, order: &Vec<usize>) -> (res: (Vec<u128>, Vec<Option<usize>>))
        requires
            self.wf(),
            order_ok(self.nodes@, order@),
        ensures
            res.0@.len() == self.nodes@.len(),
            res.1@.len() == self.nodes@.len(),
            forall|v: int| 0 <= v < self.nodes@.len() ==> settled(self.nodes@, res.0@, res.1@, v),
    {
        let ghost nodes = self.nodes@;
        let count = self.nodes.len();
        let len = order.len();
        let mut dist: Vec<u128> = Vec::new();
        let mut pp: Vec<Option<usize>> = Vec::new();
        let mut i: usize = 0;
        while i < count
            invariant
                i <= count,
                dist@.len() == i,
                pp@.len() == i,
            decreases count - i,
        {
            dist.push(0);
            pp.push(None);
            i += 1;
        }
        let mut k: usize = len;
        while k > 0
            invariant
                self.wf(),
                nodes == self.nodes@,
                count == nodes.len(),
                len == order@.len(),
                order_ok(nodes, order@),
                k <= len,
                dist@.len() == count,
                pp@.len() == count,
                forall|b: int|
                    k <= b < len ==> settled(nodes, dist@, pp@, #[trigger] order@[b] as int),
                forall|b: int|
                    k <= b < len ==> dist@[#[trigger] order@[b] as int] <= (len - b) * MAX_WEIGHT,
            decreases k,
        {
            k -= 1;
            let v = order[k];
            let ghost old_dist = dist@;
            let ghost old_pp = pp@;
            self.mark_longest_path_for(v, &mut dist, &mut pp, Ghost(order@), Ghost(k as int));
            proof {
                assert forall|b: int| k < b < len implies settled(
                    nodes,
                    dist@,
                    pp@,
                    #[trigger] order@[b] as int,
                ) && dist@[order@[b] as int] <= (len - b) * MAX_WEIGHT by {
                    let u = order@[b];
                    assert(u != v);
                    assert(settled(nodes, old_dist, old_pp, u as int));
                    let us = nodes[u as int].predecessors@;
                    assert forall|i: int| 0 <= i < us.len() implies dist@[#[trigger] us[i] as int]
                        == old_dist[us[i] as int] by {
                        assert(us.contains(us[i]));
                        let bb = lemma_order_later(nodes, order@, b, us[i]);
                    }
                    if us.len() > 0 {
                        let q = old_pp[u as int]->Some_0;
                        let i = choose|i: int| 0 <= i < us.len() && us[i] == q;
                        assert(dist@[us[i] as int] == old_dist[us[i] as int]);
                    }
                }
            }
        }
        proof {
            assert forall|v: int| 0 <= v < count implies settled(nodes, dist@, pp@, v) by {
                assert(order@.contains(v as usize));
                let b = choose|b: int| 0 <= b < len && order@[b] == v as usize;
                assert(settled(nodes, dist@, pp@, order@[b] as int));
            }
        }
        (dist, pp)
    }

    /// The heaviest chain of items along `order`, where `order` lists every
    /// node once, each one ahead of its predecessors; for any other `order`
    /// the result is empty. Items come in chain order.
    pub fn longest_path_along(&self, order: &Vec<usize>) -> (r: Vec<usize>)
        requires
            self.wf(),
        ensures
            self.is_reverse_topological(order@) ==> !has_twin_points(self.items()),
            self.is_reverse_topological(order@) ==> is_heaviest_chain(self.items(), as_ints(r@)),
            self.is_reverse_topological(order@) ==> as_ints(r@) == heaviest_path(self.items()),
            !self.is_reverse_topological(order@) ==> r@.len() == 0,
    {
        if self.accepts_order(order) {
            proof {
                lemma_order_no_twins(self, order@);
            }
            self.heaviest_along(order)
        } else {
            Vec::new()
        }
    }

    /// Whether `order` lists every node once, each one ahead of its
    /// predecessors.
    fn accepts_order(&self, order: &Vec<usize>) -> (b: bool)
        requires
            self.wf(),
        ensures
            b == order_ok(self.nodes@, order@),
    {
        let ghost nodes = self.nodes@;
        let count = self.nodes.len();
        let len = order.len();
        let mut pos: Vec<Option<usize>> = Vec::new();
        let mut i: usize = 0;
        while i < count
            invariant
                i <= count,
                pos@.len() == i,
                forall|v: int| 0 <= v < i ==> pos@[v] is None,
            decreases count - i,
        {
            pos.push(None);
            i += 1;
        }
        let mut a: usize = 0;
        while a < len
            invariant
                nodes == self.nodes@,
                count == nodes.len(),
                len == order@.len(),
                a <= len,
                pos@.len() == count,
                forall|b: int| 0 <= b < a ==> #[trigger] order@[b] < count,
                forall|b: int| 0 <= b < a ==> pos@[#[trigger] order@[b] as int] == Some(b as usize),
                forall|v: int|
                    0 <= v < count && #[trigger] pos@[v] is Some ==> pos@[v]->Some_0 < a
                        && order@[pos@[v]->Some_0 as int] == v,
                forall|b: int, c: int| 0 <= b < c < a ==> order@[b] != order@[c],
            decreases len - a,
        {
            let v = order[a];
            if v >= count {
                assert(!(order@[a as int] < nodes.len()));
                return false;
            }
            if pos[v].is_some() {
                proof {
                    let b = pos@[v as int]->Some_0 as int;
                    assert(order@[b] == order@[a as int]);
                }
                return false;
            }
            pos.set(v, Some(a));
            a += 1;
        }
        assert(order@.no_duplicates());
        let mut v: usize = 0;
        while v < count
            invariant
                nodes == self.nodes@,
                count == nodes.len(),
                len == order@.len(),
                pos@.len() == count,
                v <= count,
                forall|b: int| 0 <= b < len ==> #[trigger] order@[b] < count,
                forall|b: int| 0 <= b < len ==> pos@[#[trigger] order@[b] as int] == Some(b as usize),
                forall|u: int|
                    0 <= u < count && #[trigger] pos@[u] is Some ==> pos@[u]->Some_0 < len
                        && order@[pos@[u]->Some_0 as int] == u,
                forall|u: usize| 0 <= u < v ==> #[trigger] order@.contains(u),
            decreases count - v,
        {
            if pos[v].is_none() {
                proof {
                    assert forall|b: int| 0 <= b < len implies order@[b] != v by {
                        assert(pos@[order@[b] as int] == Some(b as usize));
                    }
                    assert(!order@.contains(v));
                }
                return false;
            }
            proof {
                let b = pos@[v as int]->Some_0 as int;
                assert(order@[b] == v);
            }
            v += 1;
        }
        proof {
            assert forall|w: int| 0 <= w < count implies #[trigger] pos@[w] is Some && pos@[w]->Some_0 < len
                && order@[pos@[w]->Some_0 as int] == w by {
                assert(order@.contains(w as usize));
                let b = choose|b: int| 0 <= b < len && order@[b] == w as usize;
                assert(pos@[order@[b] as int] == Some(b as usize));
            }
        }
        let mut u: usize = 0;
        while u < count
            invariant
                self.wf(),
                nodes == self.nodes@,
                count == nodes.len(),
                len == order@.len(),
                pos@.len() == count,
                u <= count,
                order@.no_duplicates(),
                forall|w: usize| 0 <= w < count ==> #[trigger] order@.contains(w),
                forall|b: int| 0 <= b < len ==> #[trigger] order@[b] < count,
                forall|b: int| 0 <= b < len ==> pos@[#[trigger] order@[b] as int] == Some(b as usize),
                forall|w: int|
                    0 <= w < count ==> #[trigger] pos@[w] is Some && pos@[w]->Some_0 < len
                        && order@[pos@[w]->Some_0 as int] == w,
                forall|w: int, j: int|
                    0 <= w < u && 0 <= j < nodes[w].predecessors@.len() ==> pos@[w]->Some_0
                        < pos@[#[trigger] nodes[w].predecessors@[j] as int]->Some_0,
            decreases count - u,
        {
            let ps = &self.nodes[u].predecessors;
            let pu = pos[u].unwrap();
            let mut j: usize = 0;
            while j < ps.len()
                invariant
                    self.wf(),
                    nodes == self.nodes@,
                    count == nodes.len(),
                    pos@.len() == count,
                    u < count,
                    ps@ == nodes[u as int].predecessors@,
                    pos@[u as int] == Some(pu),
                    j <= ps@.len(),
                    len == order@.len(),
                    forall|w: int|
                        0 <= w < count ==> #[trigger] pos@[w] is Some && pos@[w]->Some_0 < len
                            && order@[pos@[w]->Some_0 as int] == w,
                    forall|k: int| 0 <= k < j ==> pu < pos@[#[trigger] ps@[k] as int]->Some_0,
                decreases ps@.len() - j,
            {
                let p = ps[j];
                assert(p < count);
                let pp = pos[p].unwrap();
                if pu >= pp {
                    proof {
                        let b = pp as int;
                        let a = pu as int;
                        assert(order@[a] == u);
                        assert(order@[b] == p);
                        assert(order@[b] == nodes[order@[a] as int].predecessors@[j as int]);
                    }
                    return false;
                }
                j += 1;
            }
            u += 1;
        }
        proof {
            assert forall|a: int, b: int, j: int|
                0 <= a < order@.len() && 0 <= b < order@.len() && 0 <= j < nodes[order@[a] as int].predecessors@.len()
                    && #[trigger] order@[b] == #[trigger] nodes[order@[a] as int].predecessors@[j] implies a < b by {
                let w = order@[a] as int;
                assert(pos@[w] == Some(a as usize));
                assert(pos@[order@[b] as int] == Some(b as usize));
            }
        }
        true
    }

    /// The heaviest chain of items, given an order that lists every node
    /// once, each one ahead of its predecessors. Items come in chain order.
    fn heaviest_along(&self, order: &Vec<usize>) -> (r: Vec<usize>)
        requires
            self.wf(),
            self.is_reverse_topological(order@),
        ensures
            is_heaviest_chain(self.items(), as_ints(r@)),
            as_ints(r@) == heaviest_path(self.items()),
            self.items().len() >= 1 ==> r@.len() >= 1,
    {
        let ghost nodes = self.nodes@;
        let ghost xs = self.items@;
        let (dist, pp) = self.settle_all(order);
        let count = self.nodes.len();
        let sink = count - 1;
        proof {
            lemma_order_no_twins(self, order@);
            lemma_models(self);
            assert forall|v: int| 0 <= v < count implies #[trigger] best(xs, v) == (
            dist@[v] as int,
            if pp@[v] is Some { pp@[v]->Some_0 as int } else { -1 },
            ) by {
                lemma_best(nodes, xs, dist@, pp@, v);
            }
        }
        let mut cur: usize = sink;
        let mut next: Option<usize> = pp[cur];
        let mut rev: Vec<usize> = Vec::new();
        let ghost mut suffix: Seq<int> = Seq::empty();
        let ghost mut pos: int = lemma_position(order@, nodes.len() as int, sink);
        while next.is_some()
            invariant
                self.wf(),
                nodes == self.nodes@,
                xs == self.items@,
                count == nodes.len(),
                sink == count - 1,
                order_ok(nodes, order@),
                dist@.len() == count,
                pp@.len() == count,
                forall|v: int| 0 <= v < count ==> settled(nodes, dist@, pp@, v),
                cur < count,
                0 <= pos < order@.len(),
                order@[pos] == cur,
                next == pp@[cur as int],
                is_chain(xs, suffix),
                cur == sink ==> suffix.len() == 0,
                (1 <= cur < sink && suffix.len() > 0) ==> xs[cur - 1].before(xs[suffix[0]]),
                dist@[sink as int] as int == dist@[cur as int] as int + chain_weight(xs, suffix),
                models(nodes, xs),
                forall|v: int| 0 <= v < count ==> #[trigger] best(xs, v) == (
                    dist@[v] as int,
                    if pp@[v] is Some { pp@[v]->Some_0 as int } else { -1 },
                ),
                trace(xs, sink as int) == trace(xs, cur as int) + suffix,
                (count >= 3 && cur != sink) ==> (suffix.len() > 0 || 1 <= cur < sink),
                forall|k: int, b: int|
                    0 <= k < suffix.len() && 0 <= b < order@.len() && #[trigger] order@[b] as int == #[trigger] suffix[k]
                        + 1 ==> b < pos,
                rev@.len() == suffix.len(),
                forall|i: int| 0 <= i < rev@.len() ==> #[trigger] rev@[i] as int == suffix[suffix.len() - 1 - i],
            decreases order@.len() - pos,
        {
            let p = next.unwrap();
            assert(best(xs, cur as int).1 == p as int);
            assert(settled(nodes, dist@, pp@, cur as int));
            assert(has_pred(nodes, cur as int, p as int));
            assert(p < count);
            assert(steps_back(xs, cur as int, p as int));
            assert(trace(xs, cur as int) == trace(xs, p as int) + if 1 <= cur as int <= xs.len() {
                seq![cur as int - 1]
            } else {
                Seq::<int>::empty()
            });
            assert(settled(nodes, dist@, pp@, cur as int));
            assert(has_pred(nodes, cur as int, p as int));
            let ghost j = choose|j: int|
                0 <= j < nodes[cur as int].predecessors@.len() && nodes[cur as int].predecessors@[j] == p;
            assert(p < count);
            if cur < sink {
                assert(cur != 0);
                let ghost item = cur - 1;
                let ghost new_suffix = seq![item as int] + suffix;
                proof {
                    assert(node_weight(nodes, item + 1) == xs[item as int].weight);
                    assert(new_suffix.drop_first() =~= suffix);
                    assert(is_chain(xs, new_suffix)) by {
                        assert forall|a: int, b: int|
                            0 <= a < new_suffix.len() && 0 <= b < new_suffix.len() && a != b implies new_suffix[a]
                            != new_suffix[b] by {
                            if a == 0 && b > 0 {
                                assert(new_suffix[b] == suffix[b - 1]);
                                if new_suffix[b] == new_suffix[a] {
                                    assert(order@[pos] as int == suffix[b - 1] + 1);
                                }
                            } else if b == 0 && a > 0 {
                                assert(new_suffix[a] == suffix[a - 1]);
                                if new_suffix[b] == new_suffix[a] {
                                    assert(order@[pos] as int == suffix[a - 1] + 1);
                                }
                            } else if a > 0 && b > 0 {
                                assert(new_suffix[a] == suffix[a - 1]);
                                assert(new_suffix[b] == suffix[b - 1]);
                            }
                        }
                        assert forall|k: int| 0 <= k < new_suffix.len() - 1 implies xs[#[trigger] new_suffix[k]].before(
                            xs[new_suffix[k + 1]],
                        ) by {
                            if k > 0 {
                                assert(new_suffix[k] == suffix[k - 1]);
                                assert(new_suffix[k + 1] == suffix[(k - 1) + 1]);
                            }
                        }
                    }
                    if 1 <= p {
                        assert(preds_of_item(xs, item as int, p as int));
                    }
                    assert forall|i: int| 0 <= i < rev@.len() + 1 implies #[trigger] rev@.push(
                        item as usize,
                    )[i] as int == new_suffix[new_suffix.len() - 1 - i] by {
                        if i < rev@.len() {
                            assert(rev@.push(item as usize)[i] == rev@[i]);
                        }
                    }
                    assert(trace(xs, sink as int) =~= trace(xs, p as int) + new_suffix);
                    assert forall|k: int, b: int|
                        0 <= k < new_suffix.len() && 0 <= b < order@.len() && #[trigger] order@[b] as int
                            == #[trigger] new_suffix[k] + 1 implies b <= pos by {
                        if k == 0 {
                            assert(order@[b] == order@[pos]);
                        } else {
                            assert(new_suffix[k] == suffix[k - 1]);
                        }
                    }
                    suffix = new_suffix;
                }
                rev.push(cur - 1);
            } else {
                assert(1 <= p < sink);
                assert(trace(xs, sink as int) =~= trace(xs, p as int) + suffix);
            }
            proof {
                pos = lemma_order_later(nodes, order@, pos, p);
            }
            cur = p;
            next = pp[cur];
        }
        proof {
            let ps = nodes[cur as int].predecessors@;
            assert(settled(nodes, dist@, pp@, cur as int));
            assert(ps.len() == 0);
            if 1 <= cur < sink {
                assert(has_pred(nodes, (cur as int - 1) + 1, 0));
                assert(ps.contains(0));
            }
            if cur == sink && sink >= 2 {
                assert(has_pred(nodes, sink as int, 1));
                assert(ps.contains(1));
            }
            assert(dist@[cur as int] == 0);
            assert(best(xs, cur as int).1 == -1);
            assert(!steps_back(xs, cur as int, -1));
            assert(trace(xs, cur as int) =~= Seq::<int>::empty());
            assert(trace(xs, sink as int) =~= suffix);
            if count >= 3 {
                assert(cur != sink);
                assert(suffix.len() > 0);
            }
            assert(dist@[sink as int] as int == chain_weight(xs, suffix));
        }
        let mut r: Vec<usize> = Vec::new();
        let mut i: usize = rev.len();
        while i > 0
            invariant
                i <= rev@.len(),
                rev@.len() == suffix.len(),
                forall|k: int| 0 <= k < rev@.len() ==> #[trigger] rev@[k] as int == suffix[suffix.len() - 1 - k],
                r@.len() == rev@.len() - i,
                forall|k: int| 0 <= k < r@.len() ==> #[trigger] r@[k] as int == suffix[k],
            decreases i,
        {
            i -= 1;
            assert(rev@[i as int] as int == suffix[suffix.len() - 1 - i]);
            r.push(rev[i]);
        }
        proof {
            assert(as_ints(r@) =~= suffix);
            assert(sink as int == xs.len() as int + 1);
            assert forall|d: Seq<int>| is_chain(xs, d) implies chain_weight(xs, d) <= chain_weight(
                xs,
                suffix,
            ) by {
                lemma_chain_bound(nodes, xs, dist@, pp@, d);
            }
        }
        r
    }

    /// The heaviest chain of items, found along a topological order of the
    /// graph. With no items it is empty and with one item it is that item,
    /// whatever its weight. Where two zero-length items sit at the same
    /// point the graph has a cycle, no order exists, and the result is empty.
    pub fn longest_path(self) -> (r: Vec<usize>)
        requires
            self.wf(),
        ensures
            !has_twin_points(self.items()) ==> is_heaviest_chain(self.items(), as_ints(r@)),
            !has_twin_points(self.items()) ==> as_ints(r@) == heaviest_path(self.items()),
            has_twin_points(self.items()) ==> r@.len() == 0,
            !has_twin_points(self.items()) && self.items().len() >= 1 ==> r@.len() >= 1,
            self.items().len() == 0 ==> r@.len() == 0,
            self.items().len() == 1 ==> r@ == seq![0usize],
    {
        let count = self.nodes.len();
        if count == 2 {
            proof {
                lemma_no_item_path(self.items@);
                assert(as_ints(Seq::<usize>::empty()) =~= Seq::<int>::empty());
            }
            return Vec::new();
        }
        if count == 3 {
            let mut r: Vec<usize> = Vec::new();
            r.push(0);
            proof {
                lemma_single_heaviest(self.items@);
                lemma_single_item_path(self.items@);
                assert(as_ints(r@) =~= seq![0int]);
            }
            return r;
        }
        proof {
            if !has_twin_points(self.items@) {
                lemma_graph_descends(&self);
            }
        }
        match topological_order(&self.nodes) {
            Ok(order) => {
                proof {
                    lemma_order_no_twins(&self, order@);
                }
                self.heaviest_along(&order)
            },
            Err(_) => Vec::new(),
        }
    }
}

/// Builds the precedence graph of `xs`: item node `i + 1` has as predecessors
/// the source and the nodes of all items strictly before item `i`; the sink
/// has every item node as predecessor.
pub fn build_graph(xs: &Vec<Interval>) -> (g: Graph)
    requires
        xs@.len() + 2 <= usize::MAX,
    ensures
        g.wf(),
        g.items() == xs@.map_values(|x: Interval| x@),
{
    let n = xs.len();
    let ghost views = xs@.map_values(|x: Interval| x@);
    let mut nodes: Vec<Node> = Vec::new();
    nodes.push(Node { predecessors: Vec::new(), weight: 0 });
    let mut i: usize = 0;
    while i < n
        invariant
            n == xs@.len(),
            n + 2 <= usize::MAX,
            views == xs@.map_values(|x: Interval| x@),
            0 <= i <= n,
            nodes@.len() == i + 1,
            nodes@[0].predecessors@.len() == 0,
            nodes@[0].weight == 0,
            forall|k: int| 0 <= k < i ==> (#[trigger] views[k]).wf(),
            forall|k: int| 0 <= k < i ==> #[trigger] node_weight(nodes@, k + 1) == views[k].weight,
            forall|k: int, p: int|
                0 <= k < i && 0 <= p < n + 2 ==> (#[trigger] has_pred(nodes@, k + 1, p) <==> preds_of_item(
                    views,
                    k,
                    p,
                )),
            forall|v: int, j: int|
                0 <= v < nodes@.len() && 0 <= j < nodes@[v].predecessors@.len() ==> (
                #[trigger] nodes@[v].predecessors@[j]) < n + 2,
            forall|v: int| 0 <= v < nodes@.len() ==> ascending(#[trigger] nodes@[v].predecessors@),
        decreases n - i,
    {
        let x = &xs[i];
        x.check_wf();
        assert(views[i as int] == x@);
        let mut preds: Vec<usize> = Vec::new();
        proof {
            assert forall|p: int| 0 <= p < n + 2 implies (#[trigger] preds@.push(0).contains(p as usize)
                <==> p == 0) by {
                lemma_push_contains(preds@, 0, p as usize);
            }
        }
        preds.push(0);
        let mut j: usize = 0;
        while j < n
            invariant
                n == xs@.len(),
                n + 2 <= usize::MAX,
                views == xs@.map_values(|x: Interval| x@),
                0 <= i < n,
                0 <= j <= n,
                x@ == views[i as int],
                forall|p: int|
                    0 <= p < n + 2 ==> (#[trigger] preds@.contains(p as usize) <==> (p == 0 || (1
                        <= p <= j && p - 1 != i && views[p - 1].before(views[i as int])))),
                forall|k: int| 0 <= k < preds@.len() ==> #[trigger] preds@[k] < n + 2,
                forall|k: int| 0 <= k < preds@.len() ==> #[trigger] preds@[k] <= j,
                ascending(preds@),
            decreases n - j,
        {
            assert(views[j as int] == xs@[j as int]@);
            if j != i && xs[j].compare(x) == Relation::Before {
                proof {
                    assert forall|p: int| 0 <= p < n + 2 implies (#[trigger] preds@.push(
                        (j + 1) as usize,
                    ).contains(p as usize) <==> (preds@.contains(p as usize) || p == j + 1)) by {
                        lemma_push_contains(preds@, (j + 1) as usize, p as usize);
                    }
                }
                preds.push(j + 1);
            }
            j += 1;
        }
        let ghost old_nodes = nodes@;
        let ghost new_preds = preds@;
        nodes.push(Node { predecessors: preds, weight: x.weight() });
        proof {
            assert(nodes@[i + 1].predecessors@ == new_preds);
            assert forall|k: int| 0 <= k <= i implies #[trigger] node_weight(nodes@, k + 1)
                == views[k].weight by {
                if k < i {
                    assert(nodes@[k + 1] == old_nodes[k + 1]);
                    assert(node_weight(old_nodes, k + 1) == views[k].weight);
                }
            }
            assert forall|k: int, p: int| 0 <= k <= i && 0 <= p < n + 2 implies (#[trigger] has_pred(
                nodes@,
                k + 1,
                p,
            ) <==> preds_of_item(views, k, p)) by {
                if k < i {
                    assert(nodes@[k + 1] == old_nodes[k + 1]);
                    assert(has_pred(old_nodes, k + 1, p) <==> preds_of_item(views, k, p));
                }
            }
        }
        i += 1;
    }
    let mut sink_preds: Vec<usize> = Vec::new();
    let mut k: usize = 1;
    while k <= n
        invariant
            n + 2 <= usize::MAX,
            1 <= k <= n + 1,
            forall|p: int|
                0 <= p < n + 2 ==> (#[trigger] sink_preds@.contains(p as usize) <==> 1 <= p < k),
            forall|j: int| 0 <= j < sink_preds@.len() ==> #[trigger] sink_preds@[j] < n + 2,
            forall|j: int| 0 <= j < sink_preds@.len() ==> #[trigger] sink_preds@[j] < k,
            ascending(sink_preds@),
        decreases n + 1 - k,
    {
        proof {
            assert forall|p: int| 0 <= p < n + 2 implies (#[trigger] sink_preds@.push(k).contains(p as usize)
                <==> (sink_preds@.contains(p as usize) || p == k)) by {
                lemma_push_contains(sink_preds@, k, p as usize);
            }
        }
        sink_preds.push(k);
        k += 1;
    }
    let ghost old_nodes = nodes@;
    let ghost new_preds = sink_preds@;
    nodes.push(Node { predecessors: sink_preds, weight: 0 });
    proof {
        assert(nodes@[n + 1].predecessors@ == new_preds);
        assert forall|k: int| 0 <= k < n implies #[trigger] node_weight(nodes@, k + 1)
            == views[k].weight by {
            assert(nodes@[k + 1] == old_nodes[k + 1]);
            assert(node_weight(old_nodes, k + 1) == views[k].weight);
        }
        assert forall|k: int, p: int| 0 <= k < n && 0 <= p < n + 2 implies (#[trigger] has_pred(
            nodes@,
            k + 1,
            p,
        ) <==> preds_of_item(views, k, p)) by {
            assert(nodes@[k + 1] == old_nodes[k + 1]);
            assert(has_pred(old_nodes, k + 1, p) <==> preds_of_item(views, k, p));
        }
        assert forall|p: int| 0 <= p < n + 2 implies (#[trigger] has_pred(nodes@, n + 1, p) <==> 1
            <= p <= n) by {
            assert(new_preds.contains(p as usize) <==> 1 <= p < n + 1);
        }
    }
    Graph { nodes, items: Ghost(views) }
}

} // verus!
