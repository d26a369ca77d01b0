use vstd::prelude::*;
use std::collections::{HashMap, HashSet};

use crate::connected_components::{
    component_views,
    components_in_order,
    is_component,
    lemma_reach_within_component,
    mutual,
    partitions,
    strongly_connected_components,
    ConnectedComponent,
};
use crate::geo_utils::Location;

verus! {

broadcast use vstd::std_specs::hash::group_hash_axioms;

pub type NodeIndex = u64;

pub type Cost = u64;

/// An outgoing edge, stored on its origin node.
#[derive(Clone, Copy, Debug, PartialEq, Eq, Structural)]
pub struct Edge {
    pub destination: NodeIndex,
    pub cost: Cost,
}

/// The mirror of an edge, stored on its destination node.
#[derive(Clone, Copy, Debug, PartialEq, Eq, Structural)]
pub struct ReverseEdge {
    pub origin: NodeIndex,
    pub cost: Cost,
}

/// A road junction with its outgoing and incoming edges, in insertion order.
pub struct Node {
    pub id: NodeIndex,
    pub neighbours: Vec<Edge>,
    pub reverse_neighbours: Vec<ReverseEdge>,
    pub location: Location,
}

/// Errors of the store's mutations and lookups.
#[derive(Clone, Copy, Debug, PartialEq, Eq, Structural)]
pub enum NetworkError {
    DuplicateNode(NodeIndex),
    UnknownEndpoint(NodeIndex),
    UnknownNode(NodeIndex),
}

impl Node {
    pub fn new(id: NodeIndex, location: Location) -> (r: Self)
        ensures
            r.id == id,
            r.location == location,
            r.neighbours@.len() == 0,
            r.reverse_neighbours@.len() == 0,
    {
        Node { id, location, neighbours: Vec::new(), reverse_neighbours: Vec::new() }
    }

    pub fn out_degree(&self) -> (r: usize)
        ensures
            r == self.neighbours@.len(),
    {
        self.neighbours.len()
    }

    pub fn in_degree(&self) -> (r: usize)
        ensures
            r == self.reverse_neighbours@.len(),
    {
        self.reverse_neighbours.len()
    }
}

/// How many times the edge `(v, c)` occurs in an outgoing sequence.
pub open spec fn count_out(s: Seq<Edge>, v: NodeIndex, c: Cost) -> nat
    decreases s.len(),
{
    if s.len() == 0 {
        0
    } else {
        count_out(s.drop_last(), v, c) + if s.last() == (Edge { destination: v, cost: c }) {
            1nat
        } else {
            0nat
        }
    }
}

/// How many times the reverse edge `(u, c)` occurs in an incoming sequence.
pub open spec fn count_in(s: Seq<ReverseEdge>, u: NodeIndex, c: Cost) -> nat
    decreases s.len(),
{
    if s.len() == 0 {
        0
    } else {
        count_in(s.drop_last(), u, c) + if s.last() == (ReverseEdge { origin: u, cost: c }) {
            1nat
        } else {
            0nat
        }
    }
}

/// Sum of the out-degrees of the nodes listed in `ids`.
pub open spec fn sum_out(ids: Seq<NodeIndex>, m: Map<NodeIndex, Node>) -> nat
    decreases ids.len(),
{
    if ids.len() == 0 {
        0
    } else {
        sum_out(ids.drop_last(), m) + m[ids.last()].neighbours@.len()
    }
}

/// Sum of the in-degrees of the nodes listed in `ids`.
pub open spec fn sum_in(ids: Seq<NodeIndex>, m: Map<NodeIndex, Node>) -> nat
    decreases ids.len(),
{
    if ids.len() == 0 {
        0
    } else {
        sum_in(ids.drop_last(), m) + m[ids.last()].reverse_neighbours@.len()
    }
}

/// Every node is stored under its own identifier.
pub open spec fn keys_match(m: Map<NodeIndex, Node>) -> bool {
    forall|u: NodeIndex| #[trigger] m.contains_key(u) ==> m[u].id == u
}

/// No edge record names a node outside the map.
pub open spec fn endpoints_present(m: Map<NodeIndex, Node>) -> bool {
    &&& forall|u: NodeIndex, i: int|
        #![trigger m[u].neighbours@[i]]
        m.contains_key(u) && 0 <= i < m[u].neighbours@.len() ==> m.contains_key(
            m[u].neighbours@[i].destination,
        )
    &&& forall|v: NodeIndex, i: int|
        #![trigger m[v].reverse_neighbours@[i]]
        m.contains_key(v) && 0 <= i < m[v].reverse_neighbours@.len() ==> m.contains_key(
            m[v].reverse_neighbours@[i].origin,
        )
}

/// Forward and reverse adjacency agree in multiplicity for every pair of nodes and cost.
pub open spec fn mirrored(m: Map<NodeIndex, Node>) -> bool {
    forall|u: NodeIndex, v: NodeIndex, c: Cost|
        #![trigger count_out(m[u].neighbours@, v, c)]
        #![trigger count_in(m[v].reverse_neighbours@, u, c)]
        m.contains_key(u) && m.contains_key(v) ==> count_out(m[u].neighbours@, v, c) == count_in(
            m[v].reverse_neighbours@,
            u,
            c,
        )
}

/// `ids` lists the keys of `m`, each once.
pub open spec fn lists_keys(ids: Seq<NodeIndex>, m: Map<NodeIndex, Node>) -> bool {
    &&& ids.no_duplicates()
    &&& forall|i: int| 0 <= i < ids.len() ==> m.contains_key(#[trigger] ids[i])
    &&& forall|u: NodeIndex| #[trigger] m.contains_key(u) ==> ids.contains(u)
}

/// The edges of `s` whose destination lies in `keep`, in their order.
pub open spec fn edges_into(s: Seq<Edge>, keep: Set<NodeIndex>) -> Seq<Edge> {
    s.filter(|e: Edge| keep.contains(e.destination))
}

/// The incoming edges of `s` whose origin lies in `keep`, in their order.
pub open spec fn edges_from_kept(s: Seq<ReverseEdge>, keep: Set<NodeIndex>) -> Seq<ReverseEdge> {
    s.filter(|r: ReverseEdge| keep.contains(r.origin))
}

/// The identifiers of `s` that lie in `keep`, in their order.
pub open spec fn ids_in(s: Seq<NodeIndex>, keep: Set<NodeIndex>) -> Seq<NodeIndex> {
    s.filter(|u: NodeIndex| keep.contains(u))
}

/// Block `k` of `cs` is of maximal size, and every block before it is smaller.
pub open spec fn first_largest(cs: Seq<Seq<NodeIndex>>, k: int) -> bool {
    &&& 0 <= k < cs.len()
    &&& forall|j: int| 0 <= j < cs.len() ==> #[trigger] cs[j].len() <= cs[k].len()
    &&& forall|j: int| 0 <= j < k ==> #[trigger] cs[j].len() < cs[k].len()
}

/// `kept` is the first block of maximal size of `cs`, or empty when `cs` is.
pub open spec fn largest_block_kept(cs: Seq<Seq<NodeIndex>>, kept: Set<NodeIndex>) -> bool {
    if cs.len() == 0 {
        kept == Set::<NodeIndex>::empty()
    } else {
        exists|k: int| #[trigger]
            first_largest(cs, k) && (forall|u: NodeIndex| #[trigger]
                kept.contains(u) <==> cs[k].contains(u))
    }
}

/// A directed multigraph of road junctions, keyed by node identifier, with
/// forward and reverse adjacency kept in step.
pub struct RoadNetwork {
    nodes: HashMap<NodeIndex, Node>,
    order: Vec<NodeIndex>,
    edge_total: usize,
}

impl RoadNetwork {
    /// The nodes of the network, by identifier.
    pub closed spec fn node_map(&self) -> Map<NodeIndex, Node> {
        self.nodes@
    }

    /// The identifiers of the nodes, in the order in which they are walked.
    pub closed spec fn node_ids(&self) -> Seq<NodeIndex> {
        self.order@
    }

    /// The number of edges, as kept alongside the adjacency.
    pub closed spec fn edge_count(&self) -> nat {
        self.edge_total as nat
    }

    pub open spec fn contains(&self, id: NodeIndex) -> bool {
        self.node_map().contains_key(id)
    }

    pub open spec fn out_edges(&self, id: NodeIndex) -> Seq<Edge> {
        self.node_map()[id].neighbours@
    }

    pub open spec fn in_edges(&self, id: NodeIndex) -> Seq<ReverseEdge> {
        self.node_map()[id].reverse_neighbours@
    }

    /// The store's invariant.
    pub open spec fn wf(&self) -> bool {
        let m = self.node_map();
        &&& lists_keys(self.node_ids(), m)
        &&& keys_match(m)
        &&& endpoints_present(m)
        &&& mirrored(m)
        &&& sum_out(self.node_ids(), m) == self.edge_count()
        &&& sum_in(self.node_ids(), m) == self.edge_count()
        &&& self.edge_count() <= usize::MAX
    }

    /// Construct an empty network.
    pub fn new() -> (r: Self)
        ensures
            r.wf(),
            r.node_map() == Map::<NodeIndex, Node>::empty(),
            r.node_ids() == Seq::<NodeIndex>::empty(),
            r.edge_count() == 0,
    {
        RoadNetwork { nodes: HashMap::new(), order: Vec::new(), edge_total: 0 }
    }

    /// Adds a node, which has no edges yet, under its identifier; a node with
    /// that identifier already present is an error and leaves the store unchanged.
    pub fn add_node(&mut self, node: Node) -> (r: Result<(), NetworkError>)
        requires
            old(self).wf(),
            node.neighbours@.len() == 0,
            node.reverse_neighbours@.len() == 0,
        ensures
            final(self).wf(),
            final(self).edge_count() == old(self).edge_count(),
            old(self).contains(node.id) ==> {
                &&& r == Err::<(), NetworkError>(NetworkError::DuplicateNode(node.id))
                &&& final(self).node_map() == old(self).node_map()
                &&& final(self).node_ids() == old(self).node_ids()
            },
            !old(self).contains(node.id) ==> {
                &&& r is Ok
                &&& final(self).node_ids() == old(self).node_ids().push(node.id)
                &&& final(self).node_map() == old(self).node_map().insert(node.id, node)
            },
    {
        if self.nodes.contains_key(&node.id) {
            return Err(NetworkError::DuplicateNode(node.id));
        }
        let id = node.id;
        let ghost added = node;
        let ghost m0 = self.nodes@;
        let ghost ids0 = self.order@;
        self.nodes.insert(id, node);
        self.order.push(id);
        proof {
            let m = self.nodes@;
            let ids = self.order@;
            assert(m == m0.insert(id, added));
            assert(ids.drop_last() =~= ids0);
            lemma_sums_extend(ids0, m0, id, added);
            assert forall|u: NodeIndex| #[trigger] m.contains_key(u) implies ids.contains(u) by {
                if u != id {
                    assert(ids0.contains(u));
                    let j = choose|j: int| 0 <= j < ids0.len() && ids0[j] == u;
                    assert(ids[j] == u);
                } else {
                    assert(ids[ids.len() - 1] == u);
                }
            }
            assert(lists_keys(ids, m)) by {
                assert forall|i: int| 0 <= i < ids.len() implies m.contains_key(#[trigger] ids[i]) by {
                    if i < ids0.len() {
                        assert(ids[i] == ids0[i]);
                    }
                }
                assert forall|i: int, j: int| 0 <= i < j < ids.len() implies ids[i] != ids[j] by {
                    if j == ids0.len() {
                        assert(ids0[i] == ids[i]);
                        assert(m0.contains_key(ids0[i]));
                    } else {
                        assert(ids0[i] == ids[i] && ids0[j] == ids[j]);
                    }
                }
            }
            assert(keys_match(m));
            assert(endpoints_present(m)) by {
                assert forall|u: NodeIndex, i: int|
                    m.contains_key(u) && 0 <= i < m[u].neighbours@.len() implies m.contains_key(
                    #[trigger] m[u].neighbours@[i].destination,
                ) by {
                    assert(u != id);
                    assert(m[u] == m0[u]);
                    assert(m0.contains_key(m0[u].neighbours@[i].destination));
                }
                assert forall|v: NodeIndex, i: int|
                    m.contains_key(v) && 0 <= i < m[v].reverse_neighbours@.len() implies m.contains_key(
                    #[trigger] m[v].reverse_neighbours@[i].origin,
                ) by {
                    assert(v != id);
                    assert(m[v] == m0[v]);
                    assert(m0.contains_key(m0[v].reverse_neighbours@[i].origin));
                }
            }
            assert forall|u: NodeIndex, v: NodeIndex, c: Cost|
                m.contains_key(u) && m.contains_key(v) implies #[trigger] count_out(
                m[u].neighbours@,
                v,
                c,
            ) == count_in(m[v].reverse_neighbours@, u, c) by {
                if u == id {
                    assert(m[u].neighbours@ =~= Seq::<Edge>::empty());
                    if v != id {
                        lemma_count_in_absent(m0[v].reverse_neighbours@, m0, v, u, c);
                    } else {
                        assert(m[v].reverse_neighbours@ =~= Seq::<ReverseEdge>::empty());
                    }
                } else if v == id {
                    assert(m[v].reverse_neighbours@ =~= Seq::<ReverseEdge>::empty());
                    lemma_count_out_absent(m0[u].neighbours@, m0, u, v, c);
                } else {
                    assert(m[u] == m0[u] && m[v] == m0[v]);
                }
            }
            assert(mirrored(m));
        }
        Ok(())
    }

    /// Appends `(to, cost)` to the outgoing edges of `from` and `(from, cost)`
    /// to the incoming edges of `to`. An endpoint that is not in the store is
    /// an error, reported before anything changes.
    pub fn add_edge(&mut self, from: NodeIndex, to: NodeIndex, cost: Cost) -> (r: Result<(), NetworkError>)
        requires
            old(self).wf(),
            old(self).edge_count() < usize::MAX,
        ensures
            final(self).wf(),
            final(self).node_ids() == old(self).node_ids(),
            !old(self).contains(from) ==> r == Err::<(), NetworkError>(NetworkError::UnknownEndpoint(from)),
            old(self).contains(from) && !old(self).contains(to) ==> r == Err::<(), NetworkError>(
                NetworkError::UnknownEndpoint(to),
            ),
            r is Err ==> final(self).node_map() == old(self).node_map() && final(self).edge_count()
                == old(self).edge_count(),
            old(self).contains(from) && old(self).contains(to) ==> {
                &&& r is Ok
                &&& final(self).edge_count() == old(self).edge_count() + 1
                &&& final(self).node_map().dom() == old(self).node_map().dom()
                &&& final(self).out_edges(from) == old(self).out_edges(from).push(Edge { destination: to, cost })
                &&& final(self).in_edges(to) == old(self).in_edges(to).push(ReverseEdge { origin: from, cost })
                &&& forall|u: NodeIndex| #![trigger final(self).node_map()[u]]
                    old(self).contains(u) && u != from ==> final(self).out_edges(u) == old(self).out_edges(u)
                &&& forall|u: NodeIndex| #![trigger final(self).node_map()[u]]
                    old(self).contains(u) && u != to ==> final(self).in_edges(u) == old(self).in_edges(u)
                &&& forall|u: NodeIndex| #![trigger final(self).node_map()[u]]
                    old(self).contains(u) ==> final(self).node_map()[u].id == old(self).node_map()[u].id
                        && final(self).node_map()[u].location == old(self).node_map()[u].location
            },
    {
        if !self.nodes.contains_key(&from) {
            return Err(NetworkError::UnknownEndpoint(from));
        }
        if !self.nodes.contains_key(&to) {
            return Err(NetworkError::UnknownEndpoint(to));
        }
        let ghost m0 = self.nodes@;
        let ghost ids = self.order@;
        let mut from_node = self.nodes.remove(&from).unwrap();
        let ghost from_old = from_node;
        from_node.neighbours.push(Edge { destination: to, cost });
        let ghost from_new = from_node;
        self.nodes.insert(from, from_node);
        let ghost m1 = self.nodes@;
        proof {
            assert(m1 == m0.insert(from, from_new));
            lemma_sum_update(ids, m0, from, from_new);
            assert(from_new.neighbours@.drop_last() =~= from_old.neighbours@);
        }
        let mut to_node = self.nodes.remove(&to).unwrap();
        let ghost to_old = to_node;
        to_node.reverse_neighbours.push(ReverseEdge { origin: from, cost });
        let ghost to_new = to_node;
        self.nodes.insert(to, to_node);
        self.edge_total = self.edge_total + 1;
        proof {
            let m2 = self.nodes@;
            assert(m2 == m1.insert(to, to_new));
            lemma_sum_update(ids, m1, to, to_new);
            assert(to_new.reverse_neighbours@.drop_last() =~= to_old.reverse_neighbours@);
            assert forall|u: NodeIndex, v: NodeIndex, c: Cost|
                m2.contains_key(u) && m2.contains_key(v) implies #[trigger] count_out(
                m2[u].neighbours@,
                v,
                c,
            ) == count_in(m2[v].reverse_neighbours@, u, c) by {
                assert(count_out(m0[u].neighbours@, v, c) == count_in(
                    m0[v].reverse_neighbours@,
                    u,
                    c,
                ));
            }
            assert(mirrored(m2));
            assert forall|u: NodeIndex, i: int|
                m2.contains_key(u) && 0 <= i < m2[u].neighbours@.len() implies m2.contains_key(
                #[trigger] m2[u].neighbours@[i].destination,
            ) by {
                if u == from && i == m2[u].neighbours@.len() - 1 {
                } else {
                    assert(m0[u].neighbours@[i] == m2[u].neighbours@[i]);
                }
            }
            assert forall|v: NodeIndex, i: int|
                m2.contains_key(v) && 0 <= i < m2[v].reverse_neighbours@.len() implies m2.contains_key(
                #[trigger] m2[v].reverse_neighbours@[i].origin,
            ) by {
                if v == to && i == m2[v].reverse_neighbours@.len() - 1 {
                } else {
                    assert(m0[v].reverse_neighbours@[i] == m2[v].reverse_neighbours@[i]);
                }
            }
        }
        Ok(())
    }

    /// The number of nodes in the network.
    pub fn num_nodes(&self) -> (r: usize)
        requires
            self.wf(),
        ensures
            r == self.node_map().dom().len(),
    {
        proof {
            lemma_keys_len(self.order@, self.nodes@);
        }
        self.order.len()
    }

    /// The number of edges: the sum of all out-degrees.
    pub fn num_edges(&self) -> (r: usize)
        requires
            self.wf(),
        ensures
            r == sum_out(self.node_ids(), self.node_map()),
            r == self.edge_count(),
    {
        let mut total: usize = 0;
        let mut i: usize = 0;
        while i < self.order.len()
            invariant
                self.wf(),
                i <= self.order@.len(),
                total == sum_out(self.order@.take(i as int), self.nodes@),
            decreases self.order@.len() - i,
        {
            let id = self.order[i];
            let node = self.nodes.get(&id).unwrap();
            proof {
                assert(self.order@.take(i as int + 1).drop_last() =~= self.order@.take(i as int));
                lemma_sum_out_prefix_bound(self.order@, self.nodes@, i as int + 1);
            }
            total = total + node.neighbours.len();
            i = i + 1;
        }
        proof {
            assert(self.order@.take(i as int) =~= self.order@);
        }
        total
    }

    /// The number of reverse edges: the sum of all in-degrees.
    pub fn num_reverse_edges(&self) -> (r: usize)
        requires
            self.wf(),
        ensures
            r == sum_in(self.node_ids(), self.node_map()),
            r == self.edge_count(),
    {
        let mut total: usize = 0;
        let mut i: usize = 0;
        while i < self.order.len()
            invariant
                self.wf(),
                i <= self.order@.len(),
                total == sum_in(self.order@.take(i as int), self.nodes@),
            decreases self.order@.len() - i,
        {
            let id = self.order[i];
            let node = self.nodes.get(&id).unwrap();
            proof {
                assert(self.order@.take(i as int + 1).drop_last() =~= self.order@.take(i as int));
                lemma_sum_in_prefix_bound(self.order@, self.nodes@, i as int + 1);
            }
            total = total + node.reverse_neighbours.len();
            i = i + 1;
        }
        proof {
            assert(self.order@.take(i as int) =~= self.order@);
        }
        total
    }

    /// The node stored under `id`, if any.
    pub fn get_node(&self, id: NodeIndex) -> (r: Option<&Node>)
        requires
            self.wf(),
        ensures
            self.contains(id) ==> r == Some(&self.node_map()[id]),
            !self.contains(id) ==> r is None,
    {
        self.nodes.get(&id)
    }

    /// Replaces the incoming edges of `v` by a sequence with the same
    /// multiplicities: only their order changes.
    fn set_in_edges(&mut self, v: NodeIndex, list: Vec<ReverseEdge>)
        requires
            old(self).wf(),
            old(self).contains(v),
            forall|u: NodeIndex, c: Cost| #[trigger]
                count_in(list@, u, c) == count_in(old(self).in_edges(v), u, c),
            forall|i: int| 0 <= i < list@.len() ==> old(self).contains(#[trigger] list@[i].origin),
        ensures
            final(self).wf(),
            final(self).node_ids() == old(self).node_ids(),
            final(self).node_map().dom() == old(self).node_map().dom(),
            final(self).edge_count() == old(self).edge_count(),
            final(self).in_edges(v) == list@,
            forall|u: NodeIndex| u != v ==> #[trigger] final(self).node_map()[u] == old(self).node_map()[u],
            forall|u: NodeIndex| #![trigger final(self).node_map()[u]]
                old(self).contains(u) ==> final(self).out_edges(u) == old(self).out_edges(u)
                    && final(self).node_map()[u].location == old(self).node_map()[u].location
                    && final(self).node_map()[u].id == old(self).node_map()[u].id,
    {
        let ghost m0 = self.nodes@;
        let ghost ids = self.order@;
        let mut node = self.nodes.remove(&v).unwrap();
        node.reverse_neighbours = list;
        let ghost n2 = node;
        self.nodes.insert(v, node);
        proof {
            let m = self.nodes@;
            assert(m == m0.insert(v, n2));
            lemma_same_counts_same_len(n2.reverse_neighbours@, m0[v].reverse_neighbours@);
            lemma_sum_update(ids, m0, v, n2);
            assert forall|x: NodeIndex, y: NodeIndex, c: Cost|
                m.contains_key(x) && m.contains_key(y) implies #[trigger] count_out(
                m[x].neighbours@,
                y,
                c,
            ) == count_in(m[y].reverse_neighbours@, x, c) by {
                assert(count_out(m0[x].neighbours@, y, c) == count_in(m0[y].reverse_neighbours@, x, c));
            }
            assert(mirrored(m));
            assert forall|x: NodeIndex, i: int|
                m.contains_key(x) && 0 <= i < m[x].reverse_neighbours@.len() implies m.contains_key(
                #[trigger] m[x].reverse_neighbours@[i].origin,
            ) by {
                if x != v {
                    assert(m[x] == m0[x]);
                    assert(m0.contains_key(m0[x].reverse_neighbours@[i].origin));
                }
            }
            assert forall|x: NodeIndex, i: int|
                m.contains_key(x) && 0 <= i < m[x].neighbours@.len() implies m.contains_key(
                #[trigger] m[x].neighbours@[i].destination,
            ) by {
                assert(m[x].neighbours@ == m0[x].neighbours@);
                assert(m0.contains_key(m0[x].neighbours@[i].destination));
            }
        }
    }

    /// Rebuilds the store with the nodes of `keep` only, each with its
    /// location and with the edges whose both endpoints are kept.
    fn retain_nodes(&mut self, keep: &HashSet<NodeIndex>)
        requires
            old(self).wf(),
        ensures
            final(self).wf(),
            final(self).node_ids() == ids_in(old(self).node_ids(), keep@),
            forall|u: NodeIndex| #[trigger]
                final(self).contains(u) <==> old(self).contains(u) && keep@.contains(u),
            forall|u: NodeIndex| #[trigger]
                final(self).contains(u) ==> final(self).node_map()[u].location == old(
                    self,
                ).node_map()[u].location,
            forall|u: NodeIndex| #[trigger]
                final(self).contains(u) ==> final(self).out_edges(u) == edges_into(
                    old(self).out_edges(u),
                    keep@,
                ),
            forall|u: NodeIndex| #[trigger]
                final(self).contains(u) ==> final(self).in_edges(u) == edges_from_kept(
                    old(self).in_edges(u),
                    keep@,
                ),
    {
        let ghost ids = self.order@;
        let ghost m = self.nodes@;
        let ghost kept = keep@;
        let mut net = RoadNetwork::new();
        let mut i: usize = 0;
        while i < self.order.len()
            invariant
                self.wf(),
                ids == self.order@,
                m == self.nodes@,
                kept == keep@,
                i <= ids.len(),
                net.wf(),
                net.edge_count() == 0,
                net.node_ids() == ids_in(ids.take(i as int), kept),
                forall|u: NodeIndex| #[trigger]
                    net.contains(u) <==> ids.take(i as int).contains(u) && kept.contains(u),
                forall|u: NodeIndex| #[trigger]
                    net.contains(u) ==> net.node_map()[u].location == m[u].location
                        && net.out_edges(u).len() == 0,
            decreases ids.len() - i,
        {
            let id = self.order[i];
            proof {
                lemma_ids_in_step(ids, kept, i as int);
                lemma_take_step_contains(ids, i as int);
                assert(!ids.take(i as int).contains(id)) by {
                    if ids.take(i as int).contains(id) {
                        let t = choose|t: int| 0 <= t < i && ids.take(i as int)[t] == id;
                        assert(ids[t] == ids[i as int]);
                    }
                }
            }
            let ghost net0 = net;
            if keep.contains(&id) {
                let node = self.nodes.get(&id).unwrap();
                let _ = net.add_node(Node::new(id, node.location));
            }
            proof {
                assert forall|u: NodeIndex| #[trigger] net.contains(u) <==> ids.take(
                    i as int + 1,
                ).contains(u) && kept.contains(u) by {
                    assert(ids.take(i as int + 1).contains(u) <==> ids.take(i as int).contains(u)
                        || u == id);
                    assert(net0.contains(u) <==> ids.take(i as int).contains(u)
                        && kept.contains(u));
                }
                assert forall|u: NodeIndex| #[trigger] net.contains(u) implies net.node_map()[u].location
                    == m[u].location && net.out_edges(u).len() == 0 by {
                    if u != id {
                        assert(net0.contains(u));
                        assert(net0.node_map()[u].location == m[u].location && net0.out_edges(u).len()
                            == 0);
                    }
                }
            }
            i = i + 1;
        }
        proof {
            assert(ids.take(ids.len() as int) =~= ids);
            assert forall|t: int| 0 <= t < ids.len() && kept.contains(ids[t]) implies #[trigger] net.out_edges(
                ids[t],
            ).len() == 0 by {
                assert(ids.contains(ids[t]));
                assert(net.contains(ids[t]));
            }
            assert forall|u: NodeIndex| #[trigger]
                net.node_map().dom().contains(u) <==> m.contains_key(u) && kept.contains(u) by {
                assert(net.contains(u) <==> ids.contains(u) && kept.contains(u));
                if m.contains_key(u) {
                    assert(ids.contains(u));
                }
            }
        }
        let ghost fixed_ids = net.node_ids();
        let ghost fixed_dom = net.node_map().dom();
        i = 0;
        while i < self.order.len()
            invariant
                self.wf(),
                ids == self.order@,
                m == self.nodes@,
                kept == keep@,
                i <= ids.len(),
                net.wf(),
                net.node_ids() == fixed_ids,
                net.node_map().dom() == fixed_dom,
                forall|u: NodeIndex| #[trigger]
                    fixed_dom.contains(u) <==> m.contains_key(u) && kept.contains(u),
                net.edge_count() <= sum_out(ids.take(i as int), m),
                forall|u: NodeIndex| #[trigger]
                    net.contains(u) ==> net.node_map()[u].location == m[u].location,
                forall|t: int|
                    0 <= t < i && kept.contains(ids[t]) ==> #[trigger] net.out_edges(ids[t])
                        == edges_into(m[ids[t]].neighbours@, kept),
                forall|t: int|
                    i <= t < ids.len() && kept.contains(ids[t]) ==> #[trigger] net.out_edges(
                        ids[t],
                    ).len() == 0,
            decreases ids.len() - i,
        {
            let id = self.order[i];
            proof {
                assert(ids.take(i as int + 1).drop_last() =~= ids.take(i as int));
                lemma_sum_out_prefix_bound(ids, m, i as int + 1);
            }
            if keep.contains(&id) {
                let node = self.nodes.get(&id).unwrap();
                let mut j: usize = 0;
                while j < node.neighbours.len()
                    invariant
                        self.wf(),
                        ids == self.order@,
                        m == self.nodes@,
                        kept == keep@,
                        i < ids.len(),
                        id == ids[i as int],
                        kept.contains(id),
                        *node == m[id],
                        j <= node.neighbours@.len(),
                        net.wf(),
                        net.node_ids() == fixed_ids,
                        net.node_map().dom() == fixed_dom,
                        forall|u: NodeIndex| #[trigger]
                            fixed_dom.contains(u) <==> m.contains_key(u) && kept.contains(u),
                        net.edge_count() <= sum_out(ids.take(i as int), m) + j,
                        sum_out(ids.take(i as int), m) + node.neighbours@.len() <= sum_out(
                            ids,
                            m,
                        ),
                        sum_out(ids, m) <= usize::MAX,
                        forall|u: NodeIndex| #[trigger]
                            net.contains(u) ==> net.node_map()[u].location == m[u].location,
                        forall|t: int|
                            0 <= t < i && kept.contains(ids[t]) ==> #[trigger] net.out_edges(
                                ids[t],
                            ) == edges_into(m[ids[t]].neighbours@, kept),
                        forall|t: int|
                            i < t < ids.len() && kept.contains(ids[t]) ==> #[trigger] net.out_edges(
                                ids[t],
                            ).len() == 0,
                        net.out_edges(id) == edges_into(node.neighbours@.take(j as int), kept),
                    decreases node.neighbours@.len() - j,
                {
                    let e = node.neighbours[j];
                    proof {
                        lemma_edges_into_step(node.neighbours@, kept, j as int);
                        assert(m.contains_key(m[id].neighbours@[j as int].destination));
                    }
                    if keep.contains(&e.destination) {
                        let _ = net.add_edge(id, e.destination, e.cost);
                        proof {
                            assert forall|t: int|
                                0 <= t < i && kept.contains(ids[t]) implies #[trigger] net.out_edges(
                                ids[t],
                            ) == edges_into(m[ids[t]].neighbours@, kept) by {
                                assert(ids[t] != id);
                            }
                            assert forall|t: int|
                                i < t < ids.len() && kept.contains(ids[t]) implies #[trigger] net.out_edges(
                                ids[t],
                            ).len() == 0 by {
                                assert(ids[t] != id);
                            }
                        }
                    }
                    j = j + 1;
                }
                proof {
                    assert(node.neighbours@.take(j as int) =~= node.neighbours@);
                }
            }
            i = i + 1;
        }
        proof {
            assert(ids.take(ids.len() as int) =~= ids);
            assert forall|u: NodeIndex| #[trigger] net.contains(u) implies net.out_edges(u)
                == edges_into(m[u].neighbours@, kept) by {
                let t = choose|t: int| 0 <= t < ids.len() && ids[t] == u;
                assert(net.out_edges(ids[t]) == edges_into(m[ids[t]].neighbours@, kept));
            }
            let old_net = *self;
            assert forall|u: NodeIndex, v: NodeIndex, c: Cost|
                net.contains(u) && net.contains(v) implies #[trigger] count_in(net.in_edges(v), u, c)
                == count_in(old_net.in_edges(v), u, c) by {
                lemma_in_counts_kept(&old_net, &net, kept, u, v, c);
            }
        }
        let ghost built = net;
        i = 0;
        while i < self.order.len()
            invariant
                self.wf(),
                ids == self.order@,
                m == self.nodes@,
                kept == keep@,
                i <= ids.len(),
                net.wf(),
                net.node_ids() == fixed_ids,
                net.node_map().dom() == fixed_dom,
                forall|u: NodeIndex| #[trigger]
                    fixed_dom.contains(u) <==> m.contains_key(u) && kept.contains(u),
                forall|u: NodeIndex| #![trigger net.node_map()[u]]
                    net.contains(u) ==> net.out_edges(u) == built.out_edges(u)
                        && net.node_map()[u].location == m[u].location,
                forall|u: NodeIndex, v: NodeIndex, c: Cost|
                    net.contains(u) && net.contains(v) ==> #[trigger] count_in(net.in_edges(v), u, c)
                        == count_in(m[v].reverse_neighbours@, u, c),
                forall|t: int|
                    0 <= t < i && kept.contains(ids[t]) ==> #[trigger] net.in_edges(ids[t])
                        == edges_from_kept(m[ids[t]].reverse_neighbours@, kept),
            decreases ids.len() - i,
        {
            let id = self.order[i];
            if keep.contains(&id) {
                let node = self.nodes.get(&id).unwrap();
                let mut list: Vec<ReverseEdge> = Vec::new();
                let mut j: usize = 0;
                while j < node.reverse_neighbours.len()
                    invariant
                        self.wf(),
                        m == self.nodes@,
                        kept == keep@,
                        *node == m[id],
                        m.contains_key(id),
                        j <= node.reverse_neighbours@.len(),
                        list@ == edges_from_kept(node.reverse_neighbours@.take(j as int), kept),
                        forall|k: int| 0 <= k < list@.len() ==> kept.contains(#[trigger] list@[k].origin)
                            && m.contains_key(list@[k].origin),
                    decreases node.reverse_neighbours@.len() - j,
                {
                    let r = node.reverse_neighbours[j];
                    proof {
                        lemma_edges_from_kept_step(node.reverse_neighbours@, kept, j as int);
                    }
                    proof {
                        assert(m.contains_key(m[id].reverse_neighbours@[j as int].origin));
                    }
                    let ghost list0 = list@;
                    if keep.contains(&r.origin) {
                        list.push(r);
                        proof {
                            assert forall|k: int| 0 <= k < list@.len() implies kept.contains(
                                #[trigger] list@[k].origin,
                            ) && m.contains_key(list@[k].origin) by {
                                if k < list0.len() {
                                    assert(list@[k] == list0[k]);
                                }
                            }
                        }
                    }
                    j = j + 1;
                }
                proof {
                    assert(node.reverse_neighbours@.take(j as int) =~= node.reverse_neighbours@);
                    assert(list@ == edges_from_kept(m[id].reverse_neighbours@, kept));
                    let s_old = m[id].reverse_neighbours@;
                    assert(fixed_dom.contains(id));
                    assert forall|u: NodeIndex, c: Cost| #[trigger]
                        count_in(list@, u, c) == count_in(net.in_edges(id), u, c) by {
                        lemma_count_in_filter(s_old, kept, u, c);
                        if net.contains(u) {
                            assert(count_in(net.in_edges(id), u, c) == count_in(s_old, u, c));
                        } else {
                            assert(!kept.contains(u) || !m.contains_key(u));
                            if kept.contains(u) {
                                lemma_count_in_absent(s_old, m, id, u, c);
                            }
                            lemma_count_in_absent(net.in_edges(id), net.node_map(), id, u, c);
                        }
                    }
                    assert forall|k: int| 0 <= k < list@.len() implies net.contains(#[trigger] list@[k].origin) by {
                        assert(fixed_dom.contains(list@[k].origin));
                    }
                }
                let ghost net0 = net;
                net.set_in_edges(id, list);
                proof {
                    assert forall|u: NodeIndex, v: NodeIndex, c: Cost|
                        net.contains(u) && net.contains(v) implies #[trigger] count_in(net.in_edges(v), u, c)
                        == count_in(m[v].reverse_neighbours@, u, c) by {
                        assert(fixed_dom.contains(u));
                        if v == id {
                            lemma_count_in_filter(m[v].reverse_neighbours@, kept, u, c);
                        } else {
                            assert(net.node_map()[v] == net0.node_map()[v]);
                            assert(count_in(net0.in_edges(v), u, c) == count_in(m[v].reverse_neighbours@, u, c));
                        }
                    }
                    assert forall|t: int|
                        0 <= t < i + 1 && kept.contains(ids[t]) implies #[trigger] net.in_edges(ids[t])
                        == edges_from_kept(m[ids[t]].reverse_neighbours@, kept) by {
                        if t < i {
                            assert(ids[t] != id);
                            assert(net.node_map()[ids[t]] == net0.node_map()[ids[t]]);
                            assert(net0.in_edges(ids[t]) == edges_from_kept(m[ids[t]].reverse_neighbours@, kept));
                        } else {
                            assert(ids[t] == id);
                        }
                    }
                }
            }
            i = i + 1;
        }
        proof {
            assert forall|u: NodeIndex| #[trigger] net.contains(u) implies net.in_edges(u)
                == edges_from_kept(m[u].reverse_neighbours@, kept) by {
                let t = choose|t: int| 0 <= t < ids.len() && ids[t] == u;
                assert(net.in_edges(ids[t]) == edges_from_kept(m[ids[t]].reverse_neighbours@, kept));
            }
        }
        *self = net;
    }

    /// Removes every node without outgoing edges, together with the edges
    /// that point at a removed node.
    pub fn remove_unused_nodes(&mut self)
        requires
            old(self).wf(),
        ensures
            final(self).wf(),
            forall|u: NodeIndex| #[trigger]
                final(self).contains(u) <==> old(self).contains(u) && old(self).out_edges(u).len()
                    > 0,
            forall|u: NodeIndex| #[trigger]
                final(self).contains(u) ==> final(self).node_map()[u].location == old(
                    self,
                ).node_map()[u].location,
            forall|u: NodeIndex| #[trigger]
                final(self).contains(u) ==> final(self).out_edges(u) == edges_into(
                    old(self).out_edges(u),
                    final(self).node_map().dom(),
                ),
            forall|u: NodeIndex| #[trigger]
                final(self).contains(u) ==> final(self).in_edges(u) == edges_from_kept(
                    old(self).in_edges(u),
                    final(self).node_map().dom(),
                ),
    {
        let mut keep: HashSet<NodeIndex> = HashSet::new();
        let mut i: usize = 0;
        while i < self.order.len()
            invariant
                self.wf(),
                i <= self.order@.len(),
                forall|u: NodeIndex| #[trigger]
                    keep@.contains(u) <==> self.order@.take(i as int).contains(u)
                        && self.out_edges(u).len() > 0,
            decreases self.order@.len() - i,
        {
            let id = self.order[i];
            let node = self.nodes.get(&id).unwrap();
            proof {
                lemma_take_step_contains(self.order@, i as int);
            }
            if node.neighbours.len() > 0 {
                keep.insert(id);
            }
            i = i + 1;
        }
        proof {
            assert(self.order@.take(i as int) =~= self.order@);
        }
        let ghost old_dom = self.nodes@.dom();
        let ghost ord0 = self.order@;
        let ghost m0 = self.nodes@;
        proof {
            assert forall|u: NodeIndex| #[trigger]
                keep@.contains(u) <==> old_dom.contains(u) && m0[u].neighbours@.len() > 0 by {
                if old_dom.contains(u) {
                    assert(ord0.contains(u));
                }
            }
        }
        self.retain_nodes(&keep);
        proof {
            assert forall|u: NodeIndex| #[trigger]
                self.node_map().dom().contains(u) <==> keep@.contains(u) by {
                assert(self.contains(u) <==> old_dom.contains(u) && keep@.contains(u));
            }
            assert(self.node_map().dom() =~= keep@);
        }
    }

    /// Keeps only the nodes of the largest strongly connected component, and
    /// the edges between them. Of several largest components the one that
    /// the component search lists first is kept: the result that the search
    /// promises is unique (`lemma_components_unique`).
    pub fn reduce_to_largest_strongly_connected_component(&mut self)
        requires
            old(self).wf(),
        ensures
            final(self).wf(),
            exists|cs: Seq<Seq<NodeIndex>>| #[trigger]
                components_in_order(old(self), cs) && largest_block_kept(cs, final(self).node_map().dom()),
            forall|a: NodeIndex, b: NodeIndex|
                final(self).contains(a) && final(self).contains(b) ==> #[trigger] mutual(
                    final(self),
                    a,
                    b,
                ),
            (exists|u: NodeIndex| old(self).contains(u)) ==> (exists|u: NodeIndex|
                final(self).contains(u)),
            forall|u: NodeIndex| #[trigger]
                final(self).contains(u) ==> old(self).contains(u) && final(self).node_map()[u].location
                    == old(self).node_map()[u].location,
            forall|u: NodeIndex| #[trigger]
                final(self).contains(u) ==> final(self).out_edges(u) == edges_into(
                    old(self).out_edges(u),
                    final(self).node_map().dom(),
                ),
            forall|u: NodeIndex| #[trigger]
                final(self).contains(u) ==> final(self).in_edges(u) == edges_from_kept(
                    old(self).in_edges(u),
                    final(self).node_map().dom(),
                ),
    {
        let components = strongly_connected_components(self);
        let ghost cs = component_views(components@);
        let ghost old_dom = self.nodes@.dom();
        let ghost old_net = *self;
        proof {
            assert forall|i: int| 0 <= i < cs.len() implies is_component(&old_net, #[trigger] cs[i]) by {
                assert(cs[i] == components@[i]@);
            }
        }
        if components.len() == 0 {
            proof {
                assert forall|u: NodeIndex| !#[trigger] old_dom.contains(u) by {
                    if old_dom.contains(u) {
                        let i = choose|i: int| 0 <= i < cs.len() && #[trigger] cs[i].contains(u);
                    }
                }
                assert(self.node_map().dom() =~= Set::<NodeIndex>::empty());
                assert(largest_block_kept(cs, self.node_map().dom()));
            }
            return;
        }
        let mut best: usize = 0;
        let mut k: usize = 1;
        while k < components.len()
            invariant
                cs == component_views(components@),
                0 <= best < k <= components@.len(),
                forall|j: int| 0 <= j < k ==> #[trigger] cs[j].len() <= cs[best as int].len(),
                forall|j: int| 0 <= j < best ==> #[trigger] cs[j].len() < cs[best as int].len(),
            decreases components@.len() - k,
        {
            if components[k].len() > components[best].len() {
                best = k;
            }
            k = k + 1;
        }
        let component: &ConnectedComponent = &components[best];
        let mut keep: HashSet<NodeIndex> = HashSet::new();
        let mut i: usize = 0;
        while i < component.len()
            invariant
                i <= component@.len(),
                forall|u: NodeIndex| #[trigger]
                    keep@.contains(u) <==> component@.take(i as int).contains(u),
            decreases component@.len() - i,
        {
            proof {
                lemma_take_step_contains(component@, i as int);
            }
            keep.insert(component[i]);
            i = i + 1;
        }
        proof {
            assert(component@.take(i as int) =~= component@);
            assert(cs[best as int] == component@);
        }
        self.retain_nodes(&keep);
        proof {
            assert forall|u: NodeIndex| #[trigger]
                self.node_map().dom().contains(u) <==> cs[best as int].contains(u) by {
                assert(self.contains(u) <==> old_dom.contains(u) && keep@.contains(u));
                if cs[best as int].contains(u) {
                    let j = choose|j: int| 0 <= j < cs[best as int].len() && cs[best as int][j] == u;
                    assert(old_dom.contains(cs[best as int][j]));
                }
            }
            assert(self.node_map().dom() =~= keep@);
            assert(first_largest(cs, best as int));
            assert(largest_block_kept(cs, self.node_map().dom()));
            let c = cs[best as int];
            assert(keep@ =~= c.to_set());
            assert(is_component(&old_net, c));
            assert forall|u: NodeIndex| #[trigger] c.contains(u) implies self.contains(u) && self.out_edges(u)
                == edges_into(old_net.out_edges(u), c.to_set()) by {
                assert(self.node_map().dom().contains(u));
            }
            assert forall|a: NodeIndex, b: NodeIndex|
                self.contains(a) && self.contains(b) implies #[trigger] mutual(self, a, b) by {
                assert(c.contains(a) && c.contains(b));
                lemma_reach_within_component(&old_net, self, c, a, b);
                lemma_reach_within_component(&old_net, self, c, b, a);
            }
            assert(c.len() > 0);
            assert(c.contains(c[0]));
            assert(self.contains(c[0]));
        }
    }

    /// The identifiers of all nodes, each once.
    pub fn node_indices(&self) -> (r: &Vec<NodeIndex>)
        requires
            self.wf(),
        ensures
            r@ == self.node_ids(),
            r@.no_duplicates(),
            forall|u: NodeIndex| self.contains(u) <==> #[trigger] r@.contains(u),
    {
        &self.order
    }
}

/// Each outgoing edge `(u, v, c)` of a well-formed store (and every store that
/// the public mutations produce is well formed) points at a node of the store,
/// and `v` holds the incoming edge `(u, c)` exactly as many times as `u` holds
/// `(v, c)`: at least once.
pub proof fn lemma_out_edge_mirrored(network: &RoadNetwork, u: NodeIndex, i: int)
    requires
        network.wf(),
        network.contains(u),
        0 <= i < network.out_edges(u).len(),
    ensures
        ({
            let e = network.out_edges(u)[i];
            &&& network.contains(e.destination)
            &&& count_in(network.in_edges(e.destination), u, e.cost) == count_out(
                network.out_edges(u),
                e.destination,
                e.cost,
            )
            &&& count_in(network.in_edges(e.destination), u, e.cost) >= 1
        }),
{
    let m = network.node_map();
    let e = m[u].neighbours@[i];
    assert(m.contains_key(e.destination));
    lemma_count_out_positive(m[u].neighbours@, i);
    assert(count_out(m[u].neighbours@, e.destination, e.cost) == count_in(
        m[e.destination].reverse_neighbours@,
        u,
        e.cost,
    ));
}

/// In a well-formed store the number of edges equals the number of reverse
/// edges: the out-degrees and the in-degrees have the same sum.
pub proof fn lemma_edge_counts_agree(network: &RoadNetwork)
    requires
        network.wf(),
    ensures
        sum_out(network.node_ids(), network.node_map()) == sum_in(
            network.node_ids(),
            network.node_map(),
        ),
{
}

/// Each incoming edge `(u, c)` stored on `v` stands for an outgoing edge
/// `(v, c)` stored on `u`.
pub(crate) proof fn lemma_in_edge_has_out_edge(network: &RoadNetwork, v: NodeIndex, i: int)
    requires
        network.wf(),
        network.contains(v),
        0 <= i < network.in_edges(v).len(),
    ensures
        network.contains(network.in_edges(v)[i].origin),
        network.out_edges(network.in_edges(v)[i].origin).contains(
            Edge { destination: v, cost: network.in_edges(v)[i].cost },
        ),
{
    let m = network.node_map();
    let re = m[v].reverse_neighbours@[i];
    assert(m.contains_key(re.origin));
    lemma_count_in_positive(m[v].reverse_neighbours@, i);
    assert(count_out(m[re.origin].neighbours@, v, re.cost) == count_in(
        m[v].reverse_neighbours@,
        re.origin,
        re.cost,
    ));
    lemma_count_out_contains(m[re.origin].neighbours@, v, re.cost);
}

/// Each outgoing edge `(v, c)` stored on `u` stands for an incoming edge
/// `(u, c)` stored on `v`.
pub(crate) proof fn lemma_out_edge_has_in_edge(network: &RoadNetwork, u: NodeIndex, i: int)
    requires
        network.wf(),
        network.contains(u),
        0 <= i < network.out_edges(u).len(),
    ensures
        network.contains(network.out_edges(u)[i].destination),
        network.in_edges(network.out_edges(u)[i].destination).contains(
            ReverseEdge { origin: u, cost: network.out_edges(u)[i].cost },
        ),
{
    let m = network.node_map();
    let e = m[u].neighbours@[i];
    assert(m.contains_key(e.destination));
    lemma_count_out_positive(m[u].neighbours@, i);
    assert(count_out(m[u].neighbours@, e.destination, e.cost) == count_in(
        m[e.destination].reverse_neighbours@,
        u,
        e.cost,
    ));
    lemma_count_in_contains(m[e.destination].reverse_neighbours@, u, e.cost);
}

proof fn lemma_count_in_contains(s: Seq<ReverseEdge>, u: NodeIndex, c: Cost)
    requires
        count_in(s, u, c) > 0,
    ensures
        s.contains(ReverseEdge { origin: u, cost: c }),
    decreases s.len(),
{
    if s.last() == (ReverseEdge { origin: u, cost: c }) {
        assert(s[s.len() - 1] == s.last());
    } else {
        lemma_count_in_contains(s.drop_last(), u, c);
        let j = choose|j: int|
            0 <= j < s.drop_last().len() && s.drop_last()[j] == (ReverseEdge { origin: u, cost: c });
        assert(s[j] == s.drop_last()[j]);
    }
}

proof fn lemma_count_in_positive(s: Seq<ReverseEdge>, i: int)
    requires
        0 <= i < s.len(),
    ensures
        count_in(s, s[i].origin, s[i].cost) >= 1,
    decreases s.len(),
{
    if i < s.len() - 1 {
        assert(s.drop_last()[i] == s[i]);
        lemma_count_in_positive(s.drop_last(), i);
    }
}

proof fn lemma_count_out_contains(s: Seq<Edge>, v: NodeIndex, c: Cost)
    requires
        count_out(s, v, c) > 0,
    ensures
        s.contains(Edge { destination: v, cost: c }),
    decreases s.len(),
{
    if s.last() == (Edge { destination: v, cost: c }) {
        assert(s[s.len() - 1] == s.last());
    } else {
        lemma_count_out_contains(s.drop_last(), v, c);
        let j = choose|j: int|
            0 <= j < s.drop_last().len() && s.drop_last()[j] == (Edge { destination: v, cost: c });
        assert(s[j] == s.drop_last()[j]);
    }
}

proof fn lemma_count_out_positive(s: Seq<Edge>, i: int)
    requires
        0 <= i < s.len(),
    ensures
        count_out(s, s[i].destination, s[i].cost) >= 1,
    decreases s.len(),
{
    if i < s.len() - 1 {
        assert(s.drop_last()[i] == s[i]);
        lemma_count_out_positive(s.drop_last(), i);
    }
}

/// Filtering edges by destination keeps the count of an edge whose
/// destination passes.
proof fn lemma_count_out_filter(s: Seq<Edge>, keep: Set<NodeIndex>, v: NodeIndex, c: Cost)
    requires
        keep.contains(v),
    ensures
        count_out(edges_into(s, keep), v, c) == count_out(s, v, c),
    decreases s.len(),
{
    reveal(Seq::filter);
    if s.len() > 0 {
        lemma_count_out_filter(s.drop_last(), keep, v, c);
        let pred = |e: Edge| keep.contains(e.destination);
        let rest = s.drop_last().filter(pred);
        assert(edges_into(s, keep) == s.filter(pred));
        assert(edges_into(s.drop_last(), keep) == rest);
        if pred(s.last()) {
            assert(s.filter(pred) == rest.push(s.last()));
            assert(rest.push(s.last()).drop_last() =~= rest);
        } else {
            assert(s.filter(pred) == rest);
        }
    }
}

/// Between kept nodes, incoming edges keep their multiplicities when both
/// stores are well formed and outgoing edges are filtered by destination.
proof fn lemma_in_counts_kept(
    old_net: &RoadNetwork,
    new_net: &RoadNetwork,
    keep: Set<NodeIndex>,
    u: NodeIndex,
    v: NodeIndex,
    c: Cost,
)
    requires
        old_net.wf(),
        new_net.wf(),
        new_net.contains(u),
        new_net.contains(v),
        old_net.contains(u),
        old_net.contains(v),
        keep.contains(v),
        new_net.out_edges(u) == edges_into(old_net.out_edges(u), keep),
    ensures
        count_in(new_net.in_edges(v), u, c) == count_in(old_net.in_edges(v), u, c),
{
    lemma_count_out_filter(old_net.out_edges(u), keep, v, c);
    assert(count_out(new_net.out_edges(u), v, c) == count_in(new_net.in_edges(v), u, c));
    assert(count_out(old_net.out_edges(u), v, c) == count_in(old_net.in_edges(v), u, c));
}

proof fn lemma_count_in_multiset(s: Seq<ReverseEdge>, r: ReverseEdge)
    ensures
        count_in(s, r.origin, r.cost) == s.to_multiset().count(r),
    decreases s.len(),
{
    if s.len() > 0 {
        lemma_count_in_multiset(s.drop_last(), r);
        assert(s.drop_last().push(s.last()) =~= s);
        s.drop_last().to_multiset_ensures();
    } else {
        s.to_multiset_ensures();
        assert(s.to_multiset().len() == 0);
    }
}

/// Two incoming-edge sequences with the same multiplicities have the same length.
proof fn lemma_same_counts_same_len(a: Seq<ReverseEdge>, b: Seq<ReverseEdge>)
    requires
        forall|u: NodeIndex, c: Cost| #[trigger] count_in(a, u, c) == count_in(b, u, c),
    ensures
        a.len() == b.len(),
{
    assert forall|r: ReverseEdge| a.to_multiset().count(r) == b.to_multiset().count(r) by {
        lemma_count_in_multiset(a, r);
        lemma_count_in_multiset(b, r);
        assert(count_in(a, r.origin, r.cost) == count_in(b, r.origin, r.cost));
    }
    assert(a.to_multiset() =~= b.to_multiset());
    a.to_multiset_ensures();
    b.to_multiset_ensures();
}

proof fn lemma_count_in_filter(s: Seq<ReverseEdge>, keep: Set<NodeIndex>, u: NodeIndex, c: Cost)
    ensures
        count_in(edges_from_kept(s, keep), u, c) == if keep.contains(u) {
            count_in(s, u, c)
        } else {
            0
        },
    decreases s.len(),
{
    reveal(Seq::filter);
    if s.len() > 0 {
        lemma_count_in_filter(s.drop_last(), keep, u, c);
        let pred = |r: ReverseEdge| keep.contains(r.origin);
        let rest = s.drop_last().filter(pred);
        assert(edges_from_kept(s, keep) == s.filter(pred));
        assert(edges_from_kept(s.drop_last(), keep) == rest);
        if pred(s.last()) {
            assert(s.filter(pred) == rest.push(s.last()));
            assert(rest.push(s.last()).drop_last() =~= rest);
        } else {
            assert(s.filter(pred) == rest);
        }
    }
}

proof fn lemma_edges_from_kept_step(s: Seq<ReverseEdge>, keep: Set<NodeIndex>, j: int)
    requires
        0 <= j < s.len(),
    ensures
        edges_from_kept(s.take(j + 1), keep) == if keep.contains(s[j].origin) {
            edges_from_kept(s.take(j), keep).push(s[j])
        } else {
            edges_from_kept(s.take(j), keep)
        },
{
    reveal(Seq::filter);
    assert(s.take(j + 1).drop_last() =~= s.take(j));
    assert(s.take(j + 1).last() == s[j]);
}

proof fn lemma_keys_len(ids: Seq<NodeIndex>, m: Map<NodeIndex, Node>)
    requires
        lists_keys(ids, m),
    ensures
        ids.len() == m.dom().len(),
{
    ids.unique_seq_to_set();
    assert(ids.to_set() =~= m.dom());
}

proof fn lemma_sum_out_prefix_bound(ids: Seq<NodeIndex>, m: Map<NodeIndex, Node>, k: int)
    requires
        0 <= k <= ids.len(),
    ensures
        sum_out(ids.take(k), m) <= sum_out(ids, m),
    decreases ids.len(),
{
    if k < ids.len() {
        assert(ids.drop_last().take(k) =~= ids.take(k));
        lemma_sum_out_prefix_bound(ids.drop_last(), m, k);
    } else {
        assert(ids.take(k) =~= ids);
    }
}

proof fn lemma_sum_in_prefix_bound(ids: Seq<NodeIndex>, m: Map<NodeIndex, Node>, k: int)
    requires
        0 <= k <= ids.len(),
    ensures
        sum_in(ids.take(k), m) <= sum_in(ids, m),
    decreases ids.len(),
{
    if k < ids.len() {
        assert(ids.drop_last().take(k) =~= ids.take(k));
        lemma_sum_in_prefix_bound(ids.drop_last(), m, k);
    } else {
        assert(ids.take(k) =~= ids);
    }
}

/// Replacing one listed node changes each degree sum by the change in its degree.
proof fn lemma_sum_update(ids: Seq<NodeIndex>, m: Map<NodeIndex, Node>, k: NodeIndex, n: Node)
    requires
        ids.no_duplicates(),
        ids.contains(k),
        forall|i: int| 0 <= i < ids.len() ==> m.contains_key(#[trigger] ids[i]),
    ensures
        sum_out(ids, m.insert(k, n)) == sum_out(ids, m) - m[k].neighbours@.len()
            + n.neighbours@.len(),
        sum_in(ids, m.insert(k, n)) == sum_in(ids, m) - m[k].reverse_neighbours@.len()
            + n.reverse_neighbours@.len(),
    decreases ids.len(),
{
    let rest = ids.drop_last();
    if ids.last() == k {
        lemma_sums_absent(rest, m, k, n);
    } else {
        assert(rest.contains(k)) by {
            let j = choose|j: int| 0 <= j < ids.len() && ids[j] == k;
            assert(rest[j] == k);
        }
        lemma_sum_update(rest, m, k, n);
    }
}

/// Replacing a node that `ids` does not list leaves the degree sums alone.
proof fn lemma_sums_absent(ids: Seq<NodeIndex>, m: Map<NodeIndex, Node>, k: NodeIndex, n: Node)
    requires
        !ids.contains(k),
        forall|i: int| 0 <= i < ids.len() ==> m.contains_key(#[trigger] ids[i]),
    ensures
        sum_out(ids, m.insert(k, n)) == sum_out(ids, m),
        sum_in(ids, m.insert(k, n)) == sum_in(ids, m),
    decreases ids.len(),
{
    if ids.len() > 0 {
        let rest = ids.drop_last();
        assert(ids.last() != k) by {
            assert(ids[ids.len() - 1] == ids.last());
        }
        assert(!rest.contains(k)) by {
            if rest.contains(k) {
                let j = choose|j: int| 0 <= j < rest.len() && rest[j] == k;
                assert(ids[j] == k);
            }
        }
        lemma_sums_absent(rest, m, k, n);
    }
}

/// Adding a node that `ids` does not list and appending it to `ids` adds its degrees.
proof fn lemma_sums_extend(ids: Seq<NodeIndex>, m: Map<NodeIndex, Node>, k: NodeIndex, n: Node)
    requires
        !ids.contains(k),
        forall|i: int| 0 <= i < ids.len() ==> m.contains_key(#[trigger] ids[i]),
    ensures
        sum_out(ids.push(k), m.insert(k, n)) == sum_out(ids, m) + n.neighbours@.len(),
        sum_in(ids.push(k), m.insert(k, n)) == sum_in(ids, m) + n.reverse_neighbours@.len(),
{
    assert(ids.push(k).drop_last() =~= ids);
    lemma_sums_absent(ids, m, k, n);
}

/// In a well-formed map no outgoing edge points at a node outside it.
proof fn lemma_count_out_absent(
    s: Seq<Edge>,
    m: Map<NodeIndex, Node>,
    u: NodeIndex,
    v: NodeIndex,
    c: Cost,
)
    requires
        forall|i: int| 0 <= i < s.len() ==> m.contains_key(#[trigger] s[i].destination),
        !m.contains_key(v),
    ensures
        count_out(s, v, c) == 0,
    decreases s.len(),
{
    if s.len() > 0 {
        assert(m.contains_key(s[s.len() - 1].destination));
        lemma_count_out_absent(s.drop_last(), m, u, v, c);
    }
}

/// In a well-formed map no incoming edge comes from a node outside it.
proof fn lemma_count_in_absent(
    s: Seq<ReverseEdge>,
    m: Map<NodeIndex, Node>,
    v: NodeIndex,
    u: NodeIndex,
    c: Cost,
)
    requires
        forall|i: int| 0 <= i < s.len() ==> m.contains_key(#[trigger] s[i].origin),
        !m.contains_key(u),
    ensures
        count_in(s, u, c) == 0,
    decreases s.len(),
{
    if s.len() > 0 {
        assert(m.contains_key(s[s.len() - 1].origin));
        lemma_count_in_absent(s.drop_last(), m, v, u, c);
    }
}

proof fn lemma_take_step_contains(s: Seq<NodeIndex>, i: int)
    requires
        0 <= i < s.len(),
    ensures
        forall|u: NodeIndex| #[trigger]
            s.take(i + 1).contains(u) <==> s.take(i).contains(u) || u == s[i],
{
    let longer = s.take(i + 1);
    let shorter = s.take(i);
    assert forall|u: NodeIndex| #[trigger]
        longer.contains(u) <==> shorter.contains(u) || u == s[i] by {
        if longer.contains(u) && u != s[i] {
            let t = choose|t: int| 0 <= t < longer.len() && longer[t] == u;
            assert(shorter[t] == u);
        }
        if shorter.contains(u) {
            let t = choose|t: int| 0 <= t < shorter.len() && shorter[t] == u;
            assert(longer[t] == u);
        }
        if u == s[i] {
            assert(longer[i] == u);
        }
    }
}

proof fn lemma_ids_in_step(s: Seq<NodeIndex>, keep: Set<NodeIndex>, i: int)
    requires
        0 <= i < s.len(),
    ensures
        ids_in(s.take(i + 1), keep) == if keep.contains(s[i]) {
            ids_in(s.take(i), keep).push(s[i])
        } else {
            ids_in(s.take(i), keep)
        },
{
    reveal(Seq::filter);
    assert(s.take(i + 1).drop_last() =~= s.take(i));
    assert(s.take(i + 1).last() == s[i]);
}

proof fn lemma_edges_into_step(s: Seq<Edge>, keep: Set<NodeIndex>, j: int)
    requires
        0 <= j < s.len(),
    ensures
        edges_into(s.take(j + 1), keep) == if keep.contains(s[j].destination) {
            edges_into(s.take(j), keep).push(s[j])
        } else {
            edges_into(s.take(j), keep)
        },
{
    reveal(Seq::filter);
    assert(s.take(j + 1).drop_last() =~= s.take(j));
    assert(s.take(j + 1).last() == s[j]);
}

} // verus!
