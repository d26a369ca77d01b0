use vstd::prelude::*;
use std::collections::HashMap;

use crate::road_network::{Cost, Edge, NetworkError, Node, NodeIndex, RoadNetwork};

verus! {

broadcast use vstd::std_specs::hash::group_hash_axioms;

/// A frontier record: the cost of a candidate path from the start, the node
/// at its tip, and the node before the tip (none for the start itself).
#[derive(Clone, Copy, Debug, PartialEq, Eq)]
pub struct HeapEl {
    pub cost: Cost,
    pub node_index: NodeIndex,
    pub previous_node_index: Option<NodeIndex>,
}

/// The search frontier: a queue of records from which the one of least cost
/// leaves first.
pub struct Frontier {
    items: Vec<HeapEl>,
}

impl View for Frontier {
    type V = Seq<HeapEl>;

    closed spec fn view(&self) -> Seq<HeapEl> {
        self.items@
    }
}

impl Frontier {
    pub fn new() -> (r: Self)
        ensures
            r@ == Seq::<HeapEl>::empty(),
    {
        Frontier { items: Vec::new() }
    }

    pub fn push(&mut self, el: HeapEl)
        ensures
            final(self)@ == old(self)@.push(el),
    {
        self.items.push(el);
    }

    pub fn len(&self) -> (r: usize)
        ensures
            r == self@.len(),
    {
        self.items.len()
    }

    /// Removes and returns a record of least cost; `None` when empty.
    pub fn pop(&mut self) -> (r: Option<HeapEl>)
        ensures
            old(self)@.len() == 0 ==> r is None && final(self)@ == old(self)@,
            old(self)@.len() > 0 ==> r is Some && (exists|k: int|
                0 <= k < old(self)@.len() && old(self)@[k] == r.unwrap() && final(self)@ == old(
                    self,
                )@.remove(k) && k == min_index(old(self)@)) && (forall|j: int|
                0 <= j < old(self)@.len() ==> r.unwrap().cost <= #[trigger] old(self)@[j].cost),
    {
        if self.items.len() == 0 {
            None
        } else {
            Some(pop_min(&mut self.items))
        }
    }
}

/// A minimum-cost path and its cost.
#[derive(Debug, PartialEq, Eq)]
pub struct ShortestPath {
    pub cost: Cost,
    pub path: Vec<NodeIndex>,
}

/// The sum of a sequence of edge costs.
pub open spec fn total(cs: Seq<Cost>) -> int
    decreases cs.len(),
{
    if cs.len() == 0 {
        0
    } else {
        total(cs.drop_last()) + cs.last()
    }
}

/// `p` is a walk through the network whose `i`-th step follows an edge of
/// cost `cs[i]` from `p[i]` to `p[i + 1]`.
pub open spec fn is_walk(network: &RoadNetwork, p: Seq<NodeIndex>, cs: Seq<Cost>) -> bool {
    &&& p.len() == cs.len() + 1
    &&& forall|i: int| 0 <= i < p.len() ==> network.contains(#[trigger] p[i])
    &&& forall|i: int|
        #![trigger cs[i]]
        0 <= i < cs.len() ==> network.out_edges(p[i]).contains(
            Edge { destination: p[i + 1], cost: cs[i] },
        )
}

/// A walk from `s` to `t`.
pub open spec fn walk_between(
    network: &RoadNetwork,
    p: Seq<NodeIndex>,
    cs: Seq<Cost>,
    s: NodeIndex,
    t: NodeIndex,
) -> bool {
    is_walk(network, p, cs) && p[0] == s && p.last() == t
}

/// What a search from `s` to `t` must answer: a walk from `s` to `t` with
/// the stated cost that no walk from `s` to `t` undercuts; or nothing, when
/// every walk from `s` to `t` costs more than a `Cost` can hold.
pub open spec fn answers(
    network: &RoadNetwork,
    s: NodeIndex,
    t: NodeIndex,
    r: Option<ShortestPath>,
) -> bool {
    match r {
        Some(sp) => {
            &&& exists|cs: Seq<Cost>| #[trigger]
                walk_between(network, sp.path@, cs, s, t) && total(cs) == sp.cost
            &&& forall|p: Seq<NodeIndex>, cs: Seq<Cost>| #[trigger]
                walk_between(network, p, cs, s, t) ==> sp.cost <= total(cs)
        },
        None => forall|p: Seq<NodeIndex>, cs: Seq<Cost>| #[trigger]
            walk_between(network, p, cs, s, t) ==> total(cs) > Cost::MAX,
    }
}

/// Two answers to the same query agree on whether a path exists and on its
/// cost: the search's result is determined up to the choice among equally
/// cheap paths.
pub proof fn lemma_answers_agree(
    network: &RoadNetwork,
    s: NodeIndex,
    t: NodeIndex,
    r1: Option<ShortestPath>,
    r2: Option<ShortestPath>,
)
    requires
        answers(network, s, t, r1),
        answers(network, s, t, r2),
    ensures
        r1 is Some <==> r2 is Some,
        r1 is Some ==> r1.unwrap().cost == r2.unwrap().cost,
{
    match r1 {
        Some(a) => {
            let ca = choose|cs: Seq<Cost>| #[trigger]
                walk_between(network, a.path@, cs, s, t) && total(cs) == a.cost;
            match r2 {
                Some(b) => {
                    let cb = choose|cs: Seq<Cost>| #[trigger]
                        walk_between(network, b.path@, cs, s, t) && total(cs) == b.cost;
                    assert(walk_between(network, a.path@, ca, s, t));
                    assert(walk_between(network, b.path@, cb, s, t));
                },
                None => {
                    assert(walk_between(network, a.path@, ca, s, t));
                },
            }
        },
        None => {
            match r2 {
                Some(b) => {
                    let cb = choose|cs: Seq<Cost>| #[trigger]
                        walk_between(network, b.path@, cs, s, t) && total(cs) == b.cost;
                    assert(walk_between(network, b.path@, cb, s, t));
                },
                None => {},
            }
        },
    }
}

/// Predecessor links that descend in `rank`, ending at a node without predecessor.
pub open spec fn descends(prev: Map<NodeIndex, Option<NodeIndex>>, rank: Map<NodeIndex, nat>) -> bool {
    forall|v: NodeIndex| #[trigger]
        prev.contains_key(v) ==> match prev[v] {
            Some(p) => prev.contains_key(p) && rank[p] < rank[v],
            None => true,
        }
}

/// Following predecessor links from `v` ends, within `n` steps, at a node
/// without predecessor; every node met has an entry.
pub open spec fn follows(prev: Map<NodeIndex, Option<NodeIndex>>, v: NodeIndex, n: nat) -> bool
    decreases n,
{
    prev.contains_key(v) && match prev[v] {
        None => true,
        Some(p) => n > 0 && follows(prev, p, (n - 1) as nat),
    }
}

proof fn lemma_descends_follows(prev: Map<NodeIndex, Option<NodeIndex>>, rank: Map<NodeIndex, nat>, v: NodeIndex)
    requires
        descends(prev, rank),
        prev.contains_key(v),
    ensures
        follows(prev, v, rank[v]),
    decreases rank[v],
{
    match prev[v] {
        Some(p) => {
            lemma_descends_follows(prev, rank, p);
            lemma_follows_more(prev, p, rank[p], (rank[v] - 1) as nat);
        },
        None => {},
    }
}

proof fn lemma_follows_more(prev: Map<NodeIndex, Option<NodeIndex>>, v: NodeIndex, n: nat, m: nat)
    requires
        follows(prev, v, n),
        n <= m,
    ensures
        follows(prev, v, m),
    decreases n,
{
    match prev[v] {
        Some(p) => {
            lemma_follows_more(prev, p, (n - 1) as nat, (m - 1) as nat);
        },
        None => {},
    }
}

/// Along a traced path the ranks rise, so no node repeats.
proof fn lemma_traced_distinct(prev: Map<NodeIndex, Option<NodeIndex>>, rank: Map<NodeIndex, nat>, path: Seq<NodeIndex>)
    requires
        descends(prev, rank),
        traces(prev, path),
    ensures
        path.no_duplicates(),
{
    assert forall|i: int, j: int| 0 <= i < j < path.len() implies rank[path[i]] < rank[path[j]] by {
        lemma_ranks_rise(prev, rank, path, i, j);
    }
}

proof fn lemma_ranks_rise(prev: Map<NodeIndex, Option<NodeIndex>>, rank: Map<NodeIndex, nat>, path: Seq<NodeIndex>, i: int, j: int)
    requires
        descends(prev, rank),
        traces(prev, path),
        0 <= i < j < path.len(),
    ensures
        rank[path[i]] < rank[path[j]],
    decreases j - i,
{
    assert(prev[path[j]] == Some(path[j - 1]));
    assert(prev.contains_key(path[j]));
    if i < j - 1 {
        lemma_ranks_rise(prev, rank, path, i, j - 1);
    }
}

/// `path` follows the predecessor links back from its last node to a node
/// without predecessor, listed from there onwards.
pub open spec fn traces(prev: Map<NodeIndex, Option<NodeIndex>>, path: Seq<NodeIndex>) -> bool {
    &&& path.len() > 0
    &&& forall|i: int| 0 <= i < path.len() ==> prev.contains_key(#[trigger] path[i])
    &&& prev[path[0]] is None
    &&& forall|i: int|
        #![trigger path[i]]
        0 < i < path.len() ==> prev[path[i]] == Some(path[i - 1])
}

/// Walks the predecessor links back from `end_node` and returns the nodes
/// met, from the first node without predecessor to `end_node`.
pub fn trace_path(previous_nodes: HashMap<NodeIndex, Option<NodeIndex>>, end_node: NodeIndex) -> (r:
    Vec<NodeIndex>)
    requires
        exists|n: nat| follows(previous_nodes@, end_node, n),
    ensures
        traces(previous_nodes@, r@),
        r@.last() == end_node,
{
    let ghost prev = previous_nodes@;
    let ghost mut budget = choose|n: nat| follows(prev, end_node, n);
    let mut backwards: Vec<NodeIndex> = Vec::new();
    backwards.push(end_node);
    let mut current: NodeIndex = end_node;
    let mut link: Option<NodeIndex> = *previous_nodes.get(&end_node).unwrap();
    while link.is_some()
        invariant
            prev == previous_nodes@,
            follows(prev, current, budget),
            link == prev[current],
            backwards@.len() > 0,
            backwards@[0] == end_node,
            backwards@.last() == current,
            forall|i: int| 0 <= i < backwards@.len() ==> prev.contains_key(#[trigger] backwards@[i]),
            forall|i: int|
                #![trigger backwards@[i]]
                0 < i < backwards@.len() ==> prev[backwards@[i - 1]] == Some(backwards@[i]),
        decreases budget,
    {
        let p = link.unwrap();
        proof {
            assert(prev[current] == Some(p));
            assert(follows(prev, current, budget));
            assert(follows(prev, p, (budget - 1) as nat));
            budget = (budget - 1) as nat;
        }
        let ghost b0 = backwards@;
        backwards.push(p);
        proof {
            assert(backwards@[backwards@.len() - 1] == p);
            assert forall|i: int|
                #![trigger backwards@[i]]
                0 < i < backwards@.len() implies prev[backwards@[i - 1]] == Some(backwards@[i]) by {
                if i < b0.len() {
                    assert(b0[i] == backwards@[i]);
                    assert(b0[i - 1] == backwards@[i - 1]);
                } else {
                    assert(backwards@[i - 1] == b0.last());
                }
            }
        }
        current = p;
        link = *previous_nodes.get(&p).unwrap();
    }
    let mut path: Vec<NodeIndex> = Vec::new();
    let mut i: usize = backwards.len();
    while i > 0
        invariant
            i <= backwards@.len(),
            path@.len() == backwards@.len() - i,
            forall|j: int|
                0 <= j < path@.len() ==> #[trigger] path@[j] == backwards@[backwards@.len() - 1
                    - j],
        decreases i,
    {
        i = i - 1;
        path.push(backwards[i]);
    }
    proof {
        let n = backwards@.len() as int;
        assert(path@[0] == backwards@[n - 1]);
        assert(path@.last() == path@[n - 1]);
        assert(path@[n - 1] == backwards@[0]);
        assert forall|k: int| 0 <= k < path@.len() implies prev.contains_key(#[trigger] path@[k]) by {
            assert(path@[k] == backwards@[n - 1 - k]);
        }
        assert forall|k: int| #![trigger path@[k]] 0 < k < path@.len() implies prev[path@[k]] == Some(
            path@[k - 1],
        ) by {
            assert(path@[k] == backwards@[n - 1 - k]);
            assert(path@[k - 1] == backwards@[n - 1 - (k - 1)]);
            assert(backwards@[n - k] == backwards@[(n - 1 - k) + 1]);
        }
    }
    path
}

/// Removes and returns a record of least cost.
fn pop_min(frontier: &mut Vec<HeapEl>) -> (r: HeapEl)
    requires
        old(frontier)@.len() > 0,
    ensures
        exists|k: int|
            0 <= k < old(frontier)@.len() && old(frontier)@[k] == r && final(frontier)@ == old(
                frontier,
            )@.remove(k) && k == min_index(old(frontier)@),
        forall|j: int| 0 <= j < old(frontier)@.len() ==> r.cost <= #[trigger] old(frontier)@[j].cost,
{
    let ghost f = frontier@;
    let mut best: usize = 0;
    let mut i: usize = 1;
    while i < frontier.len()
        invariant
            0 <= best < frontier@.len(),
            1 <= i <= frontier@.len(),
            best < i,
            forall|j: int| 0 <= j < i ==> frontier@[best as int].cost <= #[trigger] frontier@[j].cost,
            forall|j: int| 0 <= j < best ==> frontier@[best as int].cost < #[trigger] frontier@[j].cost,
            f == frontier@,
        decreases frontier@.len() - i,
    {
        if frontier[i].cost < frontier[best].cost {
            best = i;
        }
        i = i + 1;
    }
    proof {
        lemma_min_index(f, best as int);
    }
    frontier.remove(best)
}

/// `k` is the first position of least cost in `f`.
spec fn is_min_index(f: Seq<HeapEl>, k: int) -> bool {
    &&& 0 <= k < f.len()
    &&& forall|j: int| 0 <= j < f.len() ==> f[k].cost <= #[trigger] f[j].cost
    &&& forall|j: int| 0 <= j < k ==> f[k].cost < #[trigger] f[j].cost
}

/// The first position of least cost in a non-empty frontier.
pub closed spec fn min_index(f: Seq<HeapEl>) -> int {
    choose|k: int| is_min_index(f, k)
}

proof fn lemma_min_index(f: Seq<HeapEl>, k: int)
    requires
        is_min_index(f, k),
    ensures
        min_index(f) == k,
{
    let m = choose|m: int| is_min_index(f, m);
    assert(is_min_index(f, m));
    if m < k {
        assert(f[k].cost < f[m].cost);
    } else if k < m {
        assert(f[m].cost < f[k].cost);
    }
}

/// The cost of each step of `path`, read off the settled costs `d`.
pub open spec fn steps(path: Seq<NodeIndex>, d: Map<NodeIndex, int>) -> Seq<Cost> {
    Seq::new((path.len() - 1) as nat, |i: int| (d[path[i + 1]] - d[path[i]]) as Cost)
}

/// The settled part of a search: each node reached from `start` with cost
/// `d[v]`, through a predecessor whose edge accounts for the difference.
spec fn settled_ok(
    network: &RoadNetwork,
    prev: Map<NodeIndex, Option<NodeIndex>>,
    d: Map<NodeIndex, int>,
    start: NodeIndex,
) -> bool {
    forall|v: NodeIndex| #[trigger]
        prev.contains_key(v) ==> {
            &&& network.contains(v)
            &&& d.contains_key(v)
            &&& 0 <= d[v] <= Cost::MAX
            &&& match prev[v] {
                None => v == start && d[v] == 0,
                Some(p) => {
                    &&& prev.contains_key(p)
                    &&& d[p] <= d[v]
                    &&& network.out_edges(p).contains(
                        Edge { destination: v, cost: (d[v] - d[p]) as Cost },
                    )
                },
            }
        }
}

proof fn lemma_total_nonneg(cs: Seq<Cost>)
    ensures
        total(cs) >= 0,
    decreases cs.len(),
{
    if cs.len() > 0 {
        lemma_total_nonneg(cs.drop_last());
    }
}

proof fn lemma_total_prefix(cs: Seq<Cost>, i: int)
    requires
        0 <= i < cs.len(),
    ensures
        total(cs.take(i + 1)) == total(cs.take(i)) + cs[i],
        total(cs.take(i + 1)) <= total(cs),
    decreases cs.len(),
{
    assert(cs.take(i + 1).drop_last() =~= cs.take(i));
    if i + 1 < cs.len() {
        assert(cs.drop_last().take(i + 1) =~= cs.take(i + 1));
        assert(cs.drop_last().take(i) =~= cs.take(i));
        lemma_total_prefix(cs.drop_last(), i);
    } else {
        assert(cs.take(i + 1) =~= cs);
    }
}

proof fn lemma_walk_prefix(network: &RoadNetwork, p: Seq<NodeIndex>, cs: Seq<Cost>, i: int)
    requires
        is_walk(network, p, cs),
        0 <= i < p.len(),
    ensures
        is_walk(network, p.take(i + 1), cs.take(i)),
        p.take(i + 1)[0] == p[0],
        p.take(i + 1).last() == p[i],
{
    let q = p.take(i + 1);
    let ds = cs.take(i);
    assert forall|j: int| #![trigger ds[j]] 0 <= j < ds.len() implies network.out_edges(q[j]).contains(
        Edge { destination: q[j + 1], cost: ds[j] },
    ) by {
        assert(cs[j] == ds[j]);
    }
    assert forall|j: int| 0 <= j < q.len() implies network.contains(#[trigger] q[j]) by {
        assert(q[j] == p[j]);
    }
}

/// A walk that starts in `settled` and ends outside it has a step that leaves it.
pub(crate) proof fn lemma_walk_exit(
    network: &RoadNetwork,
    p: Seq<NodeIndex>,
    cs: Seq<Cost>,
    settled: Set<NodeIndex>,
) -> (i: int)
    requires
        is_walk(network, p, cs),
        settled.contains(p[0]),
        !settled.contains(p.last()),
    ensures
        0 <= i < cs.len(),
        settled.contains(p[i]),
        !settled.contains(p[i + 1]),
    decreases p.len(),
{
    let n = cs.len() as int;
    if settled.contains(p[n - 1]) {
        n - 1
    } else {
        lemma_walk_prefix(network, p, cs, n - 1);
        let q = p.take(n);
        let i = lemma_walk_exit(network, q, cs.take(n - 1), settled);
        assert(q[i] == p[i] && q[i + 1] == p[i + 1]);
        i
    }
}

proof fn lemma_traced_walk(
    network: &RoadNetwork,
    prev: Map<NodeIndex, Option<NodeIndex>>,
    d: Map<NodeIndex, int>,
    start: NodeIndex,
    path: Seq<NodeIndex>,
)
    requires
        traces(prev, path),
        settled_ok(network, prev, d, start),
    ensures
        walk_between(network, path, steps(path, d), start, path.last()),
        total(steps(path, d)) == d[path.last()],
    decreases path.len(),
{
    let cs = steps(path, d);
    assert(prev.contains_key(path[0]));
    if path.len() == 1 {
        assert(cs =~= Seq::<Cost>::empty());
    } else {
        let q = path.drop_last();
        assert forall|i: int| 0 <= i < q.len() implies prev.contains_key(#[trigger] q[i]) by {
            assert(q[i] == path[i]);
        }
        assert forall|i: int| #![trigger q[i]] 0 < i < q.len() implies prev[q[i]] == Some(q[i - 1]) by {
            assert(q[i] == path[i]);
            assert(q[i - 1] == path[i - 1]);
            assert(prev[path[i]] == Some(path[i - 1]));
        }
        lemma_traced_walk(network, prev, d, start, q);
        assert(steps(q, d) =~= cs.drop_last());
        let n = path.len() as int;
        let v = path[n - 1];
        assert(prev[path[n - 1]] == Some(path[n - 2]));
        assert(prev.contains_key(v));
        assert(q.last() == path[n - 2]);
        assert forall|i: int| #![trigger cs[i]] 0 <= i < cs.len() implies network.out_edges(path[i]).contains(
            Edge { destination: path[i + 1], cost: cs[i] },
        ) by {
            if i < cs.len() - 1 {
                assert(steps(q, d)[i] == cs[i]);
                assert(q[i] == path[i] && q[i + 1] == path[i + 1]);
            } else {
                assert(prev.contains_key(path[i + 1]));
                assert(prev[path[i + 1]] == Some(path[i]));
            }
        }
        assert forall|i: int| 0 <= i < path.len() implies network.contains(#[trigger] path[i]) by {
            assert(prev.contains_key(path[i]));
        }
    }
}

/// A frontier record is sound: the start with cost zero, or an edge out of a
/// settled node whose cost is the record's cost less the settled cost.
spec fn record_ok(
    network: &RoadNetwork,
    prev: Map<NodeIndex, Option<NodeIndex>>,
    d: Map<NodeIndex, int>,
    start: NodeIndex,
    h: HeapEl,
) -> bool {
    &&& network.contains(h.node_index)
    &&& match h.previous_node_index {
        None => h.node_index == start && h.cost == 0,
        Some(p) => {
            &&& prev.contains_key(p)
            &&& d[p] <= h.cost
            &&& network.out_edges(p).contains(
                Edge { destination: h.node_index, cost: (h.cost - d[p]) as Cost },
            )
        },
    }
}

spec fn frontier_ok(
    network: &RoadNetwork,
    prev: Map<NodeIndex, Option<NodeIndex>>,
    d: Map<NodeIndex, int>,
    start: NodeIndex,
    f: Seq<HeapEl>,
) -> bool {
    forall|j: int| 0 <= j < f.len() ==> record_ok(network, prev, d, start, #[trigger] f[j])
}

/// The record that settling `u` pushes for its `k`-th outgoing edge.
spec fn record_for(network: &RoadNetwork, d: Map<NodeIndex, int>, u: NodeIndex, k: int) -> HeapEl {
    HeapEl {
        cost: (d[u] + network.out_edges(u)[k].cost) as Cost,
        node_index: network.out_edges(u)[k].destination,
        previous_node_index: Some(u),
    }
}

/// The `k`-th edge of the settled node `u`, if it leads out of the settled
/// set at a cost that fits, has its record in the frontier.
spec fn covered(
    network: &RoadNetwork,
    prev: Map<NodeIndex, Option<NodeIndex>>,
    d: Map<NodeIndex, int>,
    f: Seq<HeapEl>,
    u: NodeIndex,
    k: int,
) -> bool {
    prev.contains_key(u) && 0 <= k < network.out_edges(u).len() && !prev.contains_key(
        network.out_edges(u)[k].destination,
    ) && d[u] + network.out_edges(u)[k].cost <= Cost::MAX ==> f.contains(
        record_for(network, d, u, k),
    )
}

/// No walk from `start` to a settled node costs less than its settled cost.
spec fn settled_optimal(
    network: &RoadNetwork,
    prev: Map<NodeIndex, Option<NodeIndex>>,
    d: Map<NodeIndex, int>,
    start: NodeIndex,
) -> bool {
    forall|p: Seq<NodeIndex>, cs: Seq<Cost>| #[trigger]
        is_walk(network, p, cs) && p[0] == start && prev.contains_key(p.last()) ==> d[p.last()]
            <= total(cs)
}

proof fn lemma_remove_keeps<T>(s: Seq<T>, k: int, x: T)
    requires
        0 <= k < s.len(),
        s.contains(x),
        s[k] != x,
    ensures
        s.remove(k).contains(x),
{
    let j = choose|j: int| 0 <= j < s.len() && s[j] == x;
    if j < k {
        assert(s.remove(k)[j] == x);
    } else {
        assert(s.remove(k)[j - 1] == x);
    }
}

proof fn lemma_push_keeps<T>(s: Seq<T>, y: T, x: T)
    requires
        s.contains(x),
    ensures
        s.push(y).contains(x),
{
    let j = choose|j: int| 0 <= j < s.len() && s[j] == x;
    assert(s.push(y)[j] == x);
}

proof fn lemma_pop_keeps(
    network: &RoadNetwork,
    prev: Map<NodeIndex, Option<NodeIndex>>,
    d: Map<NodeIndex, int>,
    start: NodeIndex,
    f0: Seq<HeapEl>,
    k: int,
)
    requires
        0 <= k < f0.len(),
        frontier_ok(network, prev, d, start, f0),
    ensures
        frontier_ok(network, prev, d, start, f0.remove(k)),
        record_ok(network, prev, d, start, f0[k]),
{
    let f = f0.remove(k);
    assert forall|j: int| 0 <= j < f.len() implies record_ok(network, prev, d, start, #[trigger] f[j]) by {
        if j < k {
            assert(f[j] == f0[j]);
        } else {
            assert(f[j] == f0[j + 1]);
        }
    }
}

proof fn lemma_discard_keeps(
    network: &RoadNetwork,
    prev: Map<NodeIndex, Option<NodeIndex>>,
    d: Map<NodeIndex, int>,
    f0: Seq<HeapEl>,
    k: int,
)
    requires
        0 <= k < f0.len(),
        prev.contains_key(f0[k].node_index),
        forall|u: NodeIndex, kk: int| #[trigger] covered(network, prev, d, f0, u, kk),
    ensures
        forall|u: NodeIndex, kk: int| #[trigger] covered(network, prev, d, f0.remove(k), u, kk),
{
    assert forall|u: NodeIndex, kk: int| #[trigger] covered(network, prev, d, f0.remove(k), u, kk) by {
        assert(covered(network, prev, d, f0, u, kk));
        if prev.contains_key(u) && 0 <= kk < network.out_edges(u).len() && !prev.contains_key(
            network.out_edges(u)[kk].destination,
        ) && d[u] + network.out_edges(u)[kk].cost <= Cost::MAX {
            lemma_remove_keeps(f0, k, record_for(network, d, u, kk));
        }
    }
}

/// The record of least cost for a node not yet settled carries that node's
/// cost from the start: no walk there is cheaper.
proof fn lemma_pop_optimal(
    network: &RoadNetwork,
    prev: Map<NodeIndex, Option<NodeIndex>>,
    d: Map<NodeIndex, int>,
    start: NodeIndex,
    f0: Seq<HeapEl>,
    k: int,
)
    requires
        network.wf(),
        0 <= k < f0.len(),
        record_ok(network, prev, d, start, f0[k]),
        forall|j: int| 0 <= j < f0.len() ==> f0[k].cost <= #[trigger] f0[j].cost,
        !prev.contains_key(f0[k].node_index),
        prev.contains_key(start) || prev.dom() == Set::<NodeIndex>::empty(),
        settled_ok(network, prev, d, start),
        forall|u: NodeIndex, kk: int| #[trigger] covered(network, prev, d, f0, u, kk),
        settled_optimal(network, prev, d, start),
    ensures
        forall|p: Seq<NodeIndex>, cs: Seq<Cost>|
            #[trigger] is_walk(network, p, cs) && p[0] == start && p.last() == f0[k].node_index
                ==> f0[k].cost <= total(cs),
{
    let el = f0[k];
    let settled = prev.dom();
    assert forall|p: Seq<NodeIndex>, cs: Seq<Cost>|
        #[trigger] is_walk(network, p, cs) && p[0] == start && p.last() == el.node_index implies el.cost
        <= total(cs) by {
        lemma_total_nonneg(cs);
        if settled.contains(start) {
            let i = lemma_walk_exit(network, p, cs, settled);
            lemma_walk_prefix(network, p, cs, i);
            lemma_total_prefix(cs, i);
            let u = p[i];
            let e = Edge { destination: p[i + 1], cost: cs[i] };
            assert(network.out_edges(p[i]).contains(e));
            let kk = choose|kk: int|
                0 <= kk < network.out_edges(u).len() && network.out_edges(u)[kk] == e;
            assert(is_walk(network, p.take(i + 1), cs.take(i)));
            assert(d[u] <= total(cs.take(i)));
            assert(covered(network, prev, d, f0, u, kk));
            if d[u] + cs[i] <= Cost::MAX {
                let want = record_for(network, d, u, kk);
                assert(f0.contains(want));
                let j = choose|j: int| 0 <= j < f0.len() && f0[j] == want;
                assert(el.cost <= f0[j].cost);
            }
        } else {
            match el.previous_node_index {
                Some(q) => {
                    assert(prev.contains_key(q));
                },
                None => {},
            }
        }
    }
}

/// Settling the popped node keeps every invariant of the search, but for the
/// records of the new node's own edges, which are pushed next.
proof fn lemma_settle_keeps(
    network: &RoadNetwork,
    prev0: Map<NodeIndex, Option<NodeIndex>>,
    d0: Map<NodeIndex, int>,
    rank0: Map<NodeIndex, nat>,
    count: nat,
    start: NodeIndex,
    f0: Seq<HeapEl>,
    k: int,
    prev1: Map<NodeIndex, Option<NodeIndex>>,
)
    requires
        network.wf(),
        0 <= k < f0.len(),
        record_ok(network, prev0, d0, start, f0[k]),
        !prev0.contains_key(f0[k].node_index),
        prev0.contains_key(start) || prev0.dom() == Set::<NodeIndex>::empty(),
        prev1 == prev0.insert(f0[k].node_index, f0[k].previous_node_index),
        settled_ok(network, prev0, d0, start),
        descends(prev0, rank0),
        forall|v: NodeIndex| #[trigger] prev0.contains_key(v) ==> rank0.contains_key(v) && rank0[v] < count,
        frontier_ok(network, prev0, d0, start, f0.remove(k)),
        forall|u: NodeIndex, kk: int| #[trigger] covered(network, prev0, d0, f0, u, kk),
        settled_optimal(network, prev0, d0, start),
        forall|p: Seq<NodeIndex>, cs: Seq<Cost>|
            #[trigger] is_walk(network, p, cs) && p[0] == start && p.last() == f0[k].node_index
                ==> f0[k].cost <= total(cs),
    ensures
        ({
            let x = f0[k].node_index;
            let d1 = d0.insert(x, f0[k].cost as int);
            let rank1 = rank0.insert(x, count);
            &&& settled_ok(network, prev1, d1, start)
            &&& descends(prev1, rank1)
            &&& forall|v: NodeIndex| #[trigger]
                prev1.contains_key(v) ==> rank1.contains_key(v) && rank1[v] < count + 1
            &&& prev1.contains_key(start)
            &&& frontier_ok(network, prev1, d1, start, f0.remove(k))
            &&& forall|u: NodeIndex, kk: int| #[trigger]
                covered(network, prev1, d1, f0.remove(k), u, kk) || u == x
            &&& settled_optimal(network, prev1, d1, start)
        }),
{
    let el = f0[k];
    let x = el.node_index;
    let d = d0.insert(x, el.cost as int);
    let rank = rank0.insert(x, count);
    let frontier = f0.remove(k);
    assert forall|v: NodeIndex| #[trigger] prev1.contains_key(v) implies {
        &&& network.contains(v)
        &&& d.contains_key(v)
        &&& 0 <= d[v] <= Cost::MAX
        &&& match prev1[v] {
            None => v == start && d[v] == 0,
            Some(p) => {
                &&& prev1.contains_key(p)
                &&& d[p] <= d[v]
                &&& network.out_edges(p).contains(Edge { destination: v, cost: (d[v] - d[p]) as Cost })
            },
        }
    } by {
        if v != x {
            assert(prev0.contains_key(v));
            match prev0[v] {
                Some(p) => {
                    assert(prev0.contains_key(p));
                },
                None => {},
            }
        } else {
            match el.previous_node_index {
                Some(p) => {
                    assert(prev0.contains_key(p));
                },
                None => {},
            }
        }
    }
    assert forall|v: NodeIndex| #[trigger] prev1.contains_key(v) implies match prev1[v] {
        Some(p) => prev1.contains_key(p) && rank[p] < rank[v],
        None => true,
    } by {
        if v != x {
            assert(prev0.contains_key(v));
            match prev0[v] {
                Some(p) => {
                    assert(prev0.contains_key(p));
                },
                None => {},
            }
        } else {
            match el.previous_node_index {
                Some(p) => {
                    assert(prev0.contains_key(p));
                },
                None => {},
            }
        }
    }
    assert forall|p: Seq<NodeIndex>, cs: Seq<Cost>| #[trigger]
        is_walk(network, p, cs) && p[0] == start && prev1.contains_key(p.last()) implies d[p.last()]
        <= total(cs) by {
        if p.last() != x {
            assert(prev0.contains_key(p.last()));
        }
    }
    assert forall|j: int| 0 <= j < frontier.len() implies record_ok(
        network,
        prev1,
        d,
        start,
        #[trigger] frontier[j],
    ) by {
        assert(record_ok(network, prev0, d0, start, frontier[j]));
        match frontier[j].previous_node_index {
            Some(p) => {
                assert(prev0.contains_key(p));
            },
            None => {},
        }
    }
    assert forall|u: NodeIndex, kk: int| #[trigger]
        covered(network, prev1, d, frontier, u, kk) || u == x by {
        if u != x {
            assert(covered(network, prev0, d0, f0, u, kk));
            if prev1.contains_key(u) && 0 <= kk < network.out_edges(u).len() && !prev1.contains_key(
                network.out_edges(u)[kk].destination,
            ) && d[u] + network.out_edges(u)[kk].cost <= Cost::MAX {
                assert(prev0.contains_key(u));
                assert(record_for(network, d, u, kk) == record_for(network, d0, u, kk));
                lemma_remove_keeps(f0, k, record_for(network, d0, u, kk));
            }
        }
    }
    if !prev0.contains_key(start) {
        match el.previous_node_index {
            Some(p) => {
                assert(prev0.contains_key(p));
            },
            None => {},
        }
    }
}

/// The records that settling `x` at cost `cost` pushes: one per outgoing
/// edge, in order, whose cost from the start fits in a `Cost`.
spec fn succ_records(es: Seq<Edge>, x: NodeIndex, cost: Cost) -> Seq<HeapEl>
    decreases es.len(),
{
    if es.len() == 0 {
        Seq::empty()
    } else {
        let before = succ_records(es.drop_last(), x, cost);
        let e = es.last();
        if cost + e.cost <= Cost::MAX {
            before.push(HeapEl { cost: (cost + e.cost) as Cost, node_index: e.destination, previous_node_index: Some(x) })
        } else {
            before
        }
    }
}

/// One step of the search on (frontier, predecessors, reached the end):
/// take the first record of least cost; drop it if its node is settled,
/// otherwise settle the node, and stop at `end` or push its successors.
spec fn search_step(
    network: &RoadNetwork,
    end: NodeIndex,
    s: (Seq<HeapEl>, Map<NodeIndex, Option<NodeIndex>>, bool),
) -> (Seq<HeapEl>, Map<NodeIndex, Option<NodeIndex>>, bool) {
    if s.2 || s.0.len() == 0 {
        s
    } else {
        let k = min_index(s.0);
        let el = s.0[k];
        let f = s.0.remove(k);
        if s.1.contains_key(el.node_index) {
            (f, s.1, false)
        } else if el.node_index == end {
            (f, s.1.insert(el.node_index, el.previous_node_index), true)
        } else {
            (
                f + succ_records(network.out_edges(el.node_index), el.node_index, el.cost),
                s.1.insert(el.node_index, el.previous_node_index),
                false,
            )
        }
    }
}

spec fn search_run(network: &RoadNetwork, start: NodeIndex, end: NodeIndex, n: nat) -> (
    Seq<HeapEl>,
    Map<NodeIndex, Option<NodeIndex>>,
    bool,
)
    decreases n,
{
    if n == 0 {
        (seq![HeapEl { cost: 0, node_index: start, previous_node_index: None }], Map::empty(), false)
    } else {
        search_step(network, end, search_run(network, start, end, (n - 1) as nat))
    }
}

spec fn search_done(s: (Seq<HeapEl>, Map<NodeIndex, Option<NodeIndex>>, bool)) -> bool {
    s.2 || s.0.len() == 0
}

/// The predecessor links that the search from `start` to `end` has set when
/// it stops.
pub closed spec fn search_prev(network: &RoadNetwork, start: NodeIndex, end: NodeIndex) -> Map<
    NodeIndex,
    Option<NodeIndex>,
> {
    let n = choose|n: nat| search_done(#[trigger] search_run(network, start, end, n));
    search_run(network, start, end, n).1
}

proof fn lemma_search_fixed(network: &RoadNetwork, start: NodeIndex, end: NodeIndex, n: nat, m: nat)
    requires
        search_done(search_run(network, start, end, n)),
        n <= m,
    ensures
        search_run(network, start, end, m) == search_run(network, start, end, n),
    decreases m - n,
{
    if m > n {
        lemma_search_fixed(network, start, end, n, (m - 1) as nat);
    }
}

proof fn lemma_search_prev(network: &RoadNetwork, start: NodeIndex, end: NodeIndex, n: nat)
    requires
        search_done(search_run(network, start, end, n)),
    ensures
        search_prev(network, start, end) == search_run(network, start, end, n).1,
{
    let m = choose|m: nat| search_done(#[trigger] search_run(network, start, end, m));
    if m <= n {
        lemma_search_fixed(network, start, end, m, n);
    } else {
        lemma_search_fixed(network, start, end, n, m);
    }
}

/// A path traced back from a given node is unique.
proof fn lemma_traces_unique(prev: Map<NodeIndex, Option<NodeIndex>>, p1: Seq<NodeIndex>, p2: Seq<NodeIndex>)
    requires
        traces(prev, p1),
        traces(prev, p2),
        p1.last() == p2.last(),
    ensures
        p1 == p2,
    decreases p1.len(),
{
    let n1 = p1.len() as int;
    let n2 = p2.len() as int;
    assert(prev.contains_key(p1[n1 - 1]));
    if n1 == 1 {
        if n2 > 1 {
            assert(prev[p2[n2 - 1]] == Some(p2[n2 - 2]));
        }
        assert(p1 =~= p2);
    } else {
        assert(prev[p1[n1 - 1]] == Some(p1[n1 - 2]));
        if n2 == 1 {
            assert(prev[p2[0]] is None);
        }
        assert(prev[p2[n2 - 1]] == Some(p2[n2 - 2]));
        let q1 = p1.drop_last();
        let q2 = p2.drop_last();
        assert forall|i: int| 0 <= i < q1.len() implies prev.contains_key(#[trigger] q1[i]) by {
            assert(q1[i] == p1[i]);
        }
        assert forall|i: int| #![trigger q1[i]] 0 < i < q1.len() implies prev[q1[i]] == Some(q1[i - 1]) by {
            assert(q1[i] == p1[i] && q1[i - 1] == p1[i - 1]);
            assert(prev[p1[i]] == Some(p1[i - 1]));
        }
        assert forall|i: int| 0 <= i < q2.len() implies prev.contains_key(#[trigger] q2[i]) by {
            assert(q2[i] == p2[i]);
        }
        assert forall|i: int| #![trigger q2[i]] 0 < i < q2.len() implies prev[q2[i]] == Some(q2[i - 1]) by {
            assert(q2[i] == p2[i] && q2[i - 1] == p2[i - 1]);
            assert(prev[p2[i]] == Some(p2[i - 1]));
        }
        assert(q1[0] == p1[0] && q2[0] == p2[0]);
        lemma_traces_unique(prev, q1, q2);
        assert(p1 =~= q1.push(p1.last()));
        assert(p2 =~= q2.push(p2.last()));
    }
}

/// Searching twice on an unchanged network gives equal results: the same
/// presence, the same cost and the same path.
pub proof fn lemma_search_deterministic(
    network: &RoadNetwork,
    s: NodeIndex,
    t: NodeIndex,
    r1: Option<ShortestPath>,
    r2: Option<ShortestPath>,
)
    requires
        answers(network, s, t, r1),
        answers(network, s, t, r2),
        r1 is Some ==> traces(search_prev(network, s, t), r1.unwrap().path@) && r1.unwrap().path@.last() == t,
        r2 is Some ==> traces(search_prev(network, s, t), r2.unwrap().path@) && r2.unwrap().path@.last() == t,
    ensures
        r1 is Some <==> r2 is Some,
        r1 is Some ==> r1.unwrap().cost == r2.unwrap().cost && r1.unwrap().path@ == r2.unwrap().path@,
{
    lemma_answers_agree(network, s, t, r1, r2);
    if r1 is Some {
        lemma_traces_unique(search_prev(network, s, t), r1.unwrap().path@, r2.unwrap().path@);
    }
}

/// Reads the path to the settled node `end` off the predecessor links.
fn found_path(
    network: &RoadNetwork,
    previous_nodes: HashMap<NodeIndex, Option<NodeIndex>>,
    end: NodeIndex,
    cost: Cost,
    d: Ghost<Map<NodeIndex, int>>,
    start: Ghost<NodeIndex>,
) -> (r: ShortestPath)
    requires
        previous_nodes@.contains_key(end),
        d@.contains_key(end),
        d@[end] == cost,
        settled_ok(network, previous_nodes@, d@, start@),
        exists|rank: Map<NodeIndex, nat>| descends(previous_nodes@, rank),
        settled_optimal(network, previous_nodes@, d@, start@),
    ensures
        answers(network, start@, end, Some(r)),
        traces(previous_nodes@, r.path@),
        r.path@.last() == end,
        r.path@.no_duplicates(),
        end == start@ ==> r.cost == 0 && r.path@ == seq![end],
{
    let ghost prev = previous_nodes@;
    let ghost rank = choose|rank: Map<NodeIndex, nat>| descends(prev, rank);
    proof {
        lemma_descends_follows(prev, rank, end);
    }
    let path = trace_path(previous_nodes, end);
    proof {
        lemma_traced_walk(network, prev, d@, start@, path@);
        lemma_traced_distinct(prev, rank, path@);
        assert(prev.contains_key(path@[0]));
        if end == start@ && path@.len() > 1 {
            assert(path@[0] == path@[path@.len() - 1]);
        }
        if end == start@ {
            assert(path@ =~= seq![end]);
        }
    }
    let ghost cs = steps(path@, d@);
    let r = ShortestPath { cost, path };
    proof {
        assert(walk_between(network, r.path@, cs, start@, end));
        assert(exists|c: Seq<Cost>| #[trigger]
            walk_between(network, r.path@, c, start@, end) && total(c) == r.cost);
        assert forall|p: Seq<NodeIndex>, c: Seq<Cost>| #[trigger]
            walk_between(network, p, c, start@, end) implies r.cost <= total(c) by {
            assert(is_walk(network, p, c) && p[0] == start@ && prev.contains_key(p.last()));
        }
        let found = Some(r);
        assert(found->0 == r);
        assert(exists|c: Seq<Cost>| #[trigger]
            walk_between(network, found->0.path@, c, start@, end) && total(c) == found->0.cost);
    }
    r
}

/// Pushes a record for each outgoing edge of the settled node `x` whose
/// cost from the start fits in a `Cost`.
fn push_successors(
    network: &RoadNetwork,
    frontier: &mut Frontier,
    x: NodeIndex,
    cost: Cost,
    prev: Ghost<Map<NodeIndex, Option<NodeIndex>>>,
    d: Ghost<Map<NodeIndex, int>>,
    start: Ghost<NodeIndex>,
)
    requires
        network.wf(),
        network.contains(x),
        prev@.contains_key(x),
        d@[x] == cost,
        frontier_ok(network, prev@, d@, start@, old(frontier)@),
        forall|u: NodeIndex, kk: int| #[trigger]
            covered(network, prev@, d@, old(frontier)@, u, kk) || u == x,
    ensures
        frontier_ok(network, prev@, d@, start@, final(frontier)@),
        forall|u: NodeIndex, kk: int| #[trigger] covered(network, prev@, d@, final(frontier)@, u, kk),
        final(frontier)@ == old(frontier)@ + succ_records(network.out_edges(x), x, cost),
{
    let ghost f_init = frontier@;
    let node = network.get_node(x).unwrap();
    let mut e: usize = 0;
    proof {
        assert(f_init + succ_records(network.out_edges(x).take(0), x, cost) =~= f_init);
    }
    while e < node.neighbours.len()
        invariant
            network.wf(),
            network.contains(x),
            *node == network.node_map()[x],
            prev@.contains_key(x),
            d@[x] == cost,
            e <= node.neighbours@.len(),
            frontier_ok(network, prev@, d@, start@, frontier@),
            forall|u: NodeIndex, kk: int| #[trigger]
                covered(network, prev@, d@, frontier@, u, kk) || (u == x && kk >= e),
            frontier@ == f_init + succ_records(network.out_edges(x).take(e as int), x, cost),
        decreases node.neighbours@.len() - e,
    {
        let edge = node.neighbours[e];
        proof {
            assert(network.out_edges(x)[e as int] == edge);
            assert(network.contains(network.node_map()[x].neighbours@[e as int].destination));
        }
        let ghost f1 = frontier@;
        proof {
            let es = network.out_edges(x).take(e as int + 1);
            assert(es.drop_last() =~= network.out_edges(x).take(e as int));
            assert(es.last() == edge);
        }
        match cost.checked_add(edge.cost) {
            Some(c) => {
                let h = HeapEl { cost: c, node_index: edge.destination, previous_node_index: Some(x) };
                frontier.push(h);
                proof {
                    assert(frontier@ == f1.push(h));
                    assert(frontier@ =~= f_init + succ_records(network.out_edges(x).take(e as int + 1), x, cost));
                    assert(network.out_edges(x).contains(edge)) by {
                        assert(network.out_edges(x)[e as int] == edge);
                    }
                    assert(edge == Edge { destination: h.node_index, cost: (h.cost - d@[x]) as Cost });
                    assert(record_ok(network, prev@, d@, start@, h));
                    assert forall|j: int| 0 <= j < frontier@.len() implies record_ok(
                        network,
                        prev@,
                        d@,
                        start@,
                        #[trigger] frontier@[j],
                    ) by {
                        if j < f1.len() {
                            assert(frontier@[j] == f1[j]);
                        }
                    }
                    assert forall|u: NodeIndex, kk: int| #[trigger]
                        covered(network, prev@, d@, frontier@, u, kk) || (u == x && kk >= e + 1) by {
                        if u == x && kk == e {
                            assert(record_for(network, d@, u, kk) == h);
                            assert(frontier@[frontier@.len() - 1] == h);
                        } else if !(u == x && kk >= e + 1) {
                            assert(covered(network, prev@, d@, f1, u, kk));
                            if prev@.contains_key(u) && 0 <= kk < network.out_edges(u).len()
                                && !prev@.contains_key(network.out_edges(u)[kk].destination) && d@[u]
                                + network.out_edges(u)[kk].cost <= Cost::MAX {
                                lemma_push_keeps(f1, h, record_for(network, d@, u, kk));
                            }
                        }
                    }
                }
            },
            None => {
                proof {
                    assert(frontier@ =~= f_init + succ_records(network.out_edges(x).take(e as int + 1), x, cost));
                    assert forall|u: NodeIndex, kk: int| #[trigger]
                        covered(network, prev@, d@, frontier@, u, kk) || (u == x && kk >= e + 1) by {
                        if !(u == x && kk >= e) {
                            assert(covered(network, prev@, d@, f1, u, kk));
                        }
                    }
                }
            },
        }
        e = e + 1;
    }
    proof {
        assert(network.out_edges(x).take(e as int) =~= network.out_edges(x));
        assert forall|u: NodeIndex, kk: int| #[trigger]
            covered(network, prev@, d@, frontier@, u, kk) by {
            if !(u == x && kk >= node.neighbours@.len()) {
                assert(covered(network, prev@, d@, frontier@, u, kk) || (u == x && kk >= e));
            }
        }
    }
}

/// Finds a minimum-cost path from `start_node` to `end_node` by best-first
/// search over non-negative edge costs, or `None` when `end_node` cannot be
/// reached (paths whose cost would exceed `Cost::MAX` are not followed).
pub fn shortest_path(network: &RoadNetwork, start_node: &Node, end_node: &Node) -> (r: Option<
    ShortestPath,
>)
    requires
        network.wf(),
        network.contains(start_node.id),
        network.contains(end_node.id),
    ensures
        answers(network, start_node.id, end_node.id, r),
        r is Some ==> r.unwrap().path@.no_duplicates(),
        r is Some ==> traces(search_prev(network, start_node.id, end_node.id), r.unwrap().path@)
            && r.unwrap().path@.last() == end_node.id,
        start_node.id == end_node.id ==> r is Some && r.unwrap().cost == 0 && r.unwrap().path@ == seq![
            start_node.id,
        ],
{
    let start = start_node.id;
    let end = end_node.id;
    let ghost ids = network.node_ids();
    let ghost n = ids.len();
    let mut frontier = Frontier::new();
    let mut previous_nodes: HashMap<NodeIndex, Option<NodeIndex>> = HashMap::new();
    let ghost mut d: Map<NodeIndex, int> = Map::empty();
    let ghost mut rank: Map<NodeIndex, nat> = Map::empty();
    let ghost mut count: nat = 0;
    let ghost mut steps: nat = 0;
    frontier.push(HeapEl { cost: 0, node_index: start, previous_node_index: None });
    proof {
        assert(frontier@[0] == HeapEl { cost: 0, node_index: start, previous_node_index: None });
        assert(previous_nodes@.dom() =~= Set::<NodeIndex>::empty());
        assert(frontier@ =~= seq![HeapEl { cost: 0, node_index: start, previous_node_index: None }]);
        assert(previous_nodes@ =~= Map::<NodeIndex, Option<NodeIndex>>::empty());
    }
    while frontier.len() > 0
        invariant
            network.wf(),
            ids == network.node_ids(),
            n == ids.len(),
            start == start_node.id,
            end == end_node.id,
            network.contains(start),
            network.contains(end),
            settled_ok(network, previous_nodes@, d, start),
            descends(previous_nodes@, rank),
            forall|v: NodeIndex| #[trigger]
                previous_nodes@.contains_key(v) ==> rank.contains_key(v) && rank[v] < count,
            !previous_nodes@.contains_key(end),
            previous_nodes@.contains_key(start) || (previous_nodes@.dom() == Set::<
                NodeIndex,
            >::empty() && frontier@.len() > 0),
            frontier_ok(network, previous_nodes@, d, start, frontier@),
            forall|u: NodeIndex, k: int| #[trigger]
                covered(network, previous_nodes@, d, frontier@, u, k),
            settled_optimal(network, previous_nodes@, d, start),
            search_run(network, start, end, steps) == (frontier@, previous_nodes@, false),
        decreases n - previous_nodes@.dom().len(), frontier@.len(),
    {
        proof {
            crate::connected_components::lemma_marked_bound(ids, network, previous_nodes@.dom());
        }
        let ghost f0 = frontier@;
        let ghost settled = previous_nodes@.dom();
        let el = frontier.pop().unwrap();
        let ghost k = choose|k: int|
            0 <= k < f0.len() && f0[k] == el && frontier@ == f0.remove(k) && k == min_index(f0);
        proof {
            lemma_pop_keeps(network, previous_nodes@, d, start, f0, k);
            steps = steps + 1;
            assert(search_run(network, start, end, steps) == search_step(
                network,
                end,
                search_run(network, start, end, (steps - 1) as nat),
            ));
        }
        if previous_nodes.contains_key(&el.node_index) {
            proof {
                lemma_discard_keeps(network, previous_nodes@, d, f0, k);
            }
        } else {
            let x = el.node_index;
            proof {
                lemma_pop_optimal(network, previous_nodes@, d, start, f0, k);
            }
            let ghost d0 = d;
            let ghost prev0 = previous_nodes@;
            let ghost rank0 = rank;
            previous_nodes.insert(x, el.previous_node_index);
            proof {
                d = d.insert(x, el.cost as int);
                rank = rank.insert(x, count);
                lemma_settle_keeps(network, prev0, d0, rank0, count, start, f0, k, previous_nodes@);
                count = count + 1;
                assert(previous_nodes@.dom() =~= settled.insert(x));
                crate::connected_components::lemma_marked_bound(ids, network, previous_nodes@.dom());
            }
            if x == end {
                proof {
                    lemma_search_prev(network, start, end, steps);
                }
                return Some(found_path(network, previous_nodes, end, el.cost, Ghost(d), Ghost(start)));
            }
            push_successors(network, &mut frontier, x, el.cost, Ghost(previous_nodes@), Ghost(d), Ghost(start));
        }
    }
    proof {
        assert forall|p: Seq<NodeIndex>, cs: Seq<Cost>| #[trigger]
            walk_between(network, p, cs, start, end) implies total(cs) > Cost::MAX by {
            let settled = previous_nodes@.dom();
            assert(is_walk(network, p, cs));
            let i = lemma_walk_exit(network, p, cs, settled);
            lemma_walk_prefix(network, p, cs, i);
            lemma_total_prefix(cs, i);
            lemma_total_nonneg(cs.take(i));
            let u = p[i];
            let e = Edge { destination: p[i + 1], cost: cs[i] };
            assert(network.out_edges(u).contains(e));
            let kk = choose|kk: int| 0 <= kk < network.out_edges(u).len() && network.out_edges(u)[kk] == e;
            assert(is_walk(network, p.take(i + 1), cs.take(i)));
            assert(d[u] <= total(cs.take(i)));
            assert(covered(network, previous_nodes@, d, frontier@, u, kk));
        }
    }
    None
}

/// Looks up the start and end nodes by identifier and searches a minimum-cost
/// path between them; an identifier not in the network is `UnknownNode`.
pub fn shortest_path_between(network: &RoadNetwork, start: NodeIndex, end: NodeIndex) -> (r: Result<
    Option<ShortestPath>,
    NetworkError,
>)
    requires
        network.wf(),
    ensures
        !network.contains(start) ==> r == Err::<Option<ShortestPath>, NetworkError>(
            NetworkError::UnknownNode(start),
        ),
        network.contains(start) && !network.contains(end) ==> r == Err::<
            Option<ShortestPath>,
            NetworkError,
        >(NetworkError::UnknownNode(end)),
        network.contains(start) && network.contains(end) ==> {
            &&& r is Ok
            &&& answers(network, start, end, r.unwrap())
            &&& r.unwrap() is Some ==> r.unwrap().unwrap().path@.no_duplicates()
            &&& r.unwrap() is Some ==> traces(search_prev(network, start, end), r.unwrap().unwrap().path@)
                && r.unwrap().unwrap().path@.last() == end
            &&& start == end ==> r.unwrap() is Some && r.unwrap().unwrap().cost == 0
                && r.unwrap().unwrap().path@ == seq![start]
        },
{
    let start_node = match network.get_node(start) {
        Some(n) => n,
        None => {
            return Err(NetworkError::UnknownNode(start));
        },
    };
    let end_node = match network.get_node(end) {
        Some(n) => n,
        None => {
            return Err(NetworkError::UnknownNode(end));
        },
    };
    proof {
        assert(start_node.id == start);
        assert(end_node.id == end);
    }
    Ok(shortest_path(network, start_node, end_node))
}

} // verus!
