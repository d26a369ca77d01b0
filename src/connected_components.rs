use vstd::prelude::*;
use std::collections::HashSet;

use crate::road_network::{
    lemma_in_edge_has_out_edge,
    lemma_out_edge_has_in_edge,
    Cost,
    Edge,
    edges_into,
    NodeIndex,
    ReverseEdge,
    RoadNetwork,
};
use crate::shortest_path::{is_walk, walk_between};

verus! {

broadcast use vstd::std_specs::hash::group_hash_axioms;

pub type ConnectedComponent = Vec<NodeIndex>;

/// `s` is in ascending order with no repeats.
pub open spec fn strictly_ascending(s: Seq<NodeIndex>) -> bool {
    forall|i: int, j: int| 0 <= i < j < s.len() ==> s[i] < s[j]
}

/// `cs` partitions the node set `nodes`: each block is non-empty and
/// ascending, blocks are disjoint, and their union is `nodes`.
pub open spec fn partitions(cs: Seq<Seq<NodeIndex>>, nodes: Set<NodeIndex>) -> bool {
    &&& forall|i: int| 0 <= i < cs.len() ==> #[trigger] cs[i].len() > 0
    &&& forall|i: int| 0 <= i < cs.len() ==> strictly_ascending(#[trigger] cs[i])
    &&& forall|i: int, j: int|
        0 <= i < cs.len() && 0 <= j < cs[i].len() ==> nodes.contains(#[trigger] cs[i][j])
    &&& forall|v: NodeIndex| #[trigger]
        nodes.contains(v) ==> exists|i: int| 0 <= i < cs.len() && #[trigger] cs[i].contains(v)
    &&& forall|i: int, k: int, v: NodeIndex|
        0 <= i < cs.len() && 0 <= k < cs.len() && #[trigger] cs[i].contains(v)
            && #[trigger] cs[k].contains(v) ==> i == k
}

/// `a` reaches `b` by a walk along outgoing edges.
pub open spec fn reaches(network: &RoadNetwork, a: NodeIndex, b: NodeIndex) -> bool {
    exists|p: Seq<NodeIndex>, cs: Seq<Cost>| #[trigger] walk_between(network, p, cs, a, b)
}

/// `a` and `b` reach each other.
pub open spec fn mutual(network: &RoadNetwork, a: NodeIndex, b: NodeIndex) -> bool {
    reaches(network, a, b) && reaches(network, b, a)
}

/// `c` is a strongly connected component: for any member `a`, a node of the
/// network is in `c` exactly when it and `a` reach each other.
pub open spec fn is_component(network: &RoadNetwork, c: Seq<NodeIndex>) -> bool {
    forall|a: NodeIndex, b: NodeIndex|
        #![trigger c.contains(a), c.contains(b)]
        c.contains(a) && network.contains(b) ==> (c.contains(b) <==> mutual(network, a, b))
}

/// The views of a sequence of components.
pub open spec fn component_views(cs: Seq<ConnectedComponent>) -> Seq<Seq<NodeIndex>> {
    cs.map_values(|c: ConnectedComponent| c@)
}

/// Relies on `slice::sort_unstable`: the result holds the same values in ascending order.
#[verifier::external_body]
fn sort_ascending(v: &mut Vec<NodeIndex>)
    ensures
        final(v)@.to_multiset() == old(v)@.to_multiset(),
        forall|i: int, j: int| 0 <= i < j < final(v)@.len() ==> final(v)@[i] <= final(v)@[j],
{
    v.sort_unstable();
}

/// The strongly connected components of the network, found with the
/// two-pass method of Kosaraju and Sharir; each component is in ascending
/// order. They partition the nodes, two nodes share a component exactly when
/// each reaches the other, and no edge leads to an earlier component.
pub fn strongly_connected_components(network: &RoadNetwork) -> (r: Vec<ConnectedComponent>)
    requires
        network.wf(),
    ensures
        partitions(component_views(r@), network.node_map().dom()),
        forall|i: int| 0 <= i < r@.len() ==> is_component(network, #[trigger] r@[i]@),
        topologically_ordered(network, component_views(r@)),
        components_in_order(network, component_views(r@)),
{
    let order = nodes_in_order(network);
    assign_nodes_to_components(network, &order)
}

/// A stack entry of the first pass: a node to enter, or a node to finish.
#[derive(Clone, Copy)]
enum Visit {
    Enter(NodeIndex),
    Exit(NodeIndex),
}

pub(crate) proof fn lemma_marked_bound(ids: Seq<NodeIndex>, network: &RoadNetwork, marked: Set<NodeIndex>)
    requires
        network.wf(),
        ids == network.node_ids(),
        forall|v: NodeIndex| #[trigger] marked.contains(v) ==> network.contains(v),
    ensures
        marked.finite(),
        marked.len() <= ids.len(),
{
    ids.unique_seq_to_set();
    assert(marked.subset_of(ids.to_set()));
    vstd::set_lib::lemma_len_subset(marked, ids.to_set());
}

/// The node that a stack entry names.
spec fn visit_node(v: Visit) -> NodeIndex {
    match v {
        Visit::Enter(n) => n,
        Visit::Exit(n) => n,
    }
}

/// The first `lim` outgoing edges of `g`, whose finish marker is at `st[i]`,
/// lead to visited nodes or to nodes still to be entered above it.
spec fn exit_covered(
    network: &RoadNetwork,
    vis: Set<NodeIndex>,
    st: Seq<Visit>,
    i: int,
    g: NodeIndex,
    lim: int,
) -> bool {
    forall|e: int|
        0 <= e < lim && e < network.out_edges(g).len() ==> vis.contains(
            #[trigger] network.out_edges(g)[e].destination,
        ) || exists|j: int|
            i < j < st.len() && st[j] == Visit::Enter(network.out_edges(g)[e].destination)
}

/// After `x = fin[i]` finished, a node that `x` reaches and that had not
/// finished yet is reached through a node of `x`'s component that had not
/// finished either.
spec fn finish_escape(network: &RoadNetwork, fin: Seq<NodeIndex>, i: int, b: NodeIndex) -> bool {
    reaches(network, fin[i], b) && !fin.take(i + 1).contains(b) ==> exists|y: NodeIndex|
        !fin.take(i + 1).contains(y) && #[trigger] mutual(network, y, fin[i])
}

/// The state of the first pass: visited nodes, finished nodes in order, and
/// the stack. The finish marker at `st[t]` has its first `lim` edges covered;
/// every other one has all of them covered.
spec fn dfs_ok(
    network: &RoadNetwork,
    vis: Set<NodeIndex>,
    fin: Seq<NodeIndex>,
    st: Seq<Visit>,
    t: int,
    lim: int,
) -> bool {
    &&& forall|v: NodeIndex| #[trigger] vis.contains(v) ==> network.contains(v)
    &&& forall|v: NodeIndex| #[trigger]
        vis.contains(v) ==> fin.contains(v) || st.contains(Visit::Exit(v))
    &&& forall|i: int| 0 <= i < fin.len() ==> vis.contains(#[trigger] fin[i])
    &&& fin.no_duplicates()
    &&& forall|i: int|
        0 <= i < st.len() ==> match #[trigger] st[i] {
            Visit::Enter(v) => network.contains(v),
            Visit::Exit(v) => vis.contains(v) && !fin.contains(v),
        }
    &&& forall|i: int, j: int|
        0 <= i < j < st.len() && #[trigger] st[i] is Exit && #[trigger] st[j] is Exit ==> visit_node(
            st[i],
        ) != visit_node(st[j])
    &&& forall|i: int, j: int|
        0 <= i < j < st.len() && #[trigger] st[i] is Exit ==> reaches(
            network,
            visit_node(st[i]),
            visit_node(#[trigger] st[j]),
        )
    &&& forall|i: int|
        0 <= i < st.len() && #[trigger] st[i] is Exit ==> exit_covered(
            network,
            vis,
            st,
            i,
            visit_node(st[i]),
            if i == t {
                lim
            } else {
                network.out_edges(visit_node(st[i])).len() as int
            },
        )
    &&& forall|i: int, e: int|
        0 <= i < fin.len() && 0 <= e < network.out_edges(fin[i]).len() ==> vis.contains(
            #[trigger] network.out_edges(fin[i])[e].destination,
        )
    &&& forall|i: int, b: NodeIndex| 0 <= i < fin.len() ==> #[trigger] finish_escape(network, fin, i, b)
}

proof fn lemma_dfs_start(network: &RoadNetwork, vis: Set<NodeIndex>, fin: Seq<NodeIndex>, s: NodeIndex)
    requires
        dfs_ok(network, vis, fin, Seq::empty(), -1, 0),
        network.contains(s),
    ensures
        dfs_ok(network, vis, fin, seq![Visit::Enter(s)], -1, 0),
{
    let st = seq![Visit::Enter(s)];
    assert(st[0] == Visit::Enter(s));
    assert forall|v: NodeIndex| #[trigger] vis.contains(v) implies fin.contains(v) || st.contains(
        Visit::Exit(v),
    ) by {
        assert(fin.contains(v) || Seq::<Visit>::empty().contains(Visit::Exit(v)));
    }
}

/// Popping an entry for a node already visited keeps the invariant.
proof fn lemma_dfs_skip(network: &RoadNetwork, vis: Set<NodeIndex>, fin: Seq<NodeIndex>, st: Seq<Visit>)
    requires
        dfs_ok(network, vis, fin, st, -1, 0),
        st.len() > 0,
        st.last() is Enter,
        vis.contains(visit_node(st.last())),
    ensures
        dfs_ok(network, vis, fin, st.drop_last(), -1, 0),
{
    let s2 = st.drop_last();
    let top = st.len() - 1;
    assert(st[top] == st.last());
    assert forall|v: NodeIndex| #[trigger] vis.contains(v) implies fin.contains(v) || s2.contains(
        Visit::Exit(v),
    ) by {
        if !fin.contains(v) {
            let j = choose|j: int| 0 <= j < st.len() && st[j] == Visit::Exit(v);
            assert(j != top);
            assert(s2[j] == st[j]);
        }
    }
    assert forall|i: int| 0 <= i < s2.len() && #[trigger] s2[i] is Exit implies exit_covered(
        network,
        vis,
        s2,
        i,
        visit_node(s2[i]),
        network.out_edges(visit_node(s2[i])).len() as int,
    ) by {
        assert(s2[i] == st[i]);
        let g = visit_node(st[i]);
        assert(exit_covered(network, vis, st, i, g, network.out_edges(g).len() as int));
        assert forall|e: int|
            0 <= e < network.out_edges(g).len() implies vis.contains(
            #[trigger] network.out_edges(g)[e].destination,
        ) || exists|j: int|
            i < j < s2.len() && s2[j] == Visit::Enter(network.out_edges(g)[e].destination) by {
            let d = network.out_edges(g)[e].destination;
            if !vis.contains(d) {
                let j = choose|j: int| i < j < st.len() && st[j] == Visit::Enter(d);
                if j == top {
                    assert(visit_node(st.last()) == d);
                } else {
                    assert(s2[j] == st[j]);
                }
            }
        }
    }
    assert forall|i: int, j: int| 0 <= i < j < s2.len() && #[trigger] s2[i] is Exit implies reaches(
        network,
        visit_node(s2[i]),
        visit_node(#[trigger] s2[j]),
    ) by {
        assert(s2[i] == st[i] && s2[j] == st[j]);
    }
    assert forall|i: int, j: int|
        0 <= i < j < s2.len() && #[trigger] s2[i] is Exit && #[trigger] s2[j] is Exit implies visit_node(
        s2[i],
    ) != visit_node(s2[j]) by {
        assert(s2[i] == st[i] && s2[j] == st[j]);
    }
    assert forall|i: int| 0 <= i < s2.len() implies match #[trigger] s2[i] {
        Visit::Enter(v) => network.contains(v),
        Visit::Exit(v) => vis.contains(v) && !fin.contains(v),
    } by {
        assert(s2[i] == st[i]);
    }
}

/// Entering a new node: mark it visited and put its finish marker on top.
proof fn lemma_dfs_enter(network: &RoadNetwork, vis: Set<NodeIndex>, fin: Seq<NodeIndex>, st: Seq<Visit>)
    requires
        dfs_ok(network, vis, fin, st, -1, 0),
        st.len() > 0,
        st.last() is Enter,
        !vis.contains(visit_node(st.last())),
    ensures
        dfs_ok(
            network,
            vis.insert(visit_node(st.last())),
            fin,
            st.drop_last().push(Visit::Exit(visit_node(st.last()))),
            st.len() - 1,
            0,
        ),
{
    let u = visit_node(st.last());
    let top = st.len() - 1;
    let vis2 = vis.insert(u);
    let s2 = st.drop_last().push(Visit::Exit(u));
    assert(st[top] == st.last());
    assert(s2[top] == Visit::Exit(u));
    assert(network.contains(u));
    assert(!fin.contains(u)) by {
        if fin.contains(u) {
            let j = choose|j: int| 0 <= j < fin.len() && fin[j] == u;
            assert(vis.contains(fin[j]));
        }
    }
    assert forall|v: NodeIndex| #[trigger] vis2.contains(v) implies fin.contains(v) || s2.contains(
        Visit::Exit(v),
    ) by {
        if v != u && !fin.contains(v) {
            let j = choose|j: int| 0 <= j < st.len() && st[j] == Visit::Exit(v);
            assert(j != top);
            assert(s2[j] == st[j]);
        }
    }
    assert forall|i: int| 0 <= i < fin.len() implies vis2.contains(#[trigger] fin[i]) by {
        assert(vis.contains(fin[i]));
    }
    assert forall|i: int| 0 <= i < s2.len() implies match #[trigger] s2[i] {
        Visit::Enter(v) => network.contains(v),
        Visit::Exit(v) => vis2.contains(v) && !fin.contains(v),
    } by {
        if i < top {
            assert(s2[i] == st[i]);
        }
    }
    assert forall|i: int, j: int|
        0 <= i < j < s2.len() && #[trigger] s2[i] is Exit && #[trigger] s2[j] is Exit implies visit_node(
        s2[i],
    ) != visit_node(s2[j]) by {
        assert(s2[i] == st[i]);
        if j < top {
            assert(s2[j] == st[j]);
        } else {
            assert(vis.contains(visit_node(st[i])));
        }
    }
    assert forall|i: int, j: int| 0 <= i < j < s2.len() && #[trigger] s2[i] is Exit implies reaches(
        network,
        visit_node(s2[i]),
        visit_node(#[trigger] s2[j]),
    ) by {
        assert(s2[i] == st[i]);
        if j < top {
            assert(s2[j] == st[j]);
        } else {
            assert(reaches(network, visit_node(st[i]), visit_node(st[top])));
        }
    }
    assert forall|i: int| 0 <= i < s2.len() && #[trigger] s2[i] is Exit implies exit_covered(
        network,
        vis2,
        s2,
        i,
        visit_node(s2[i]),
        if i == top {
            0
        } else {
            network.out_edges(visit_node(s2[i])).len() as int
        },
    ) by {
        if i < top {
            assert(s2[i] == st[i]);
            let g = visit_node(st[i]);
            assert(exit_covered(network, vis, st, i, g, network.out_edges(g).len() as int));
            assert forall|e: int|
                0 <= e < network.out_edges(g).len() implies vis2.contains(
                #[trigger] network.out_edges(g)[e].destination,
            ) || exists|j: int|
                i < j < s2.len() && s2[j] == Visit::Enter(network.out_edges(g)[e].destination) by {
                let d = network.out_edges(g)[e].destination;
                if !vis.contains(d) {
                    let j = choose|j: int| i < j < st.len() && st[j] == Visit::Enter(d);
                    if j == top {
                        assert(d == u);
                    } else {
                        assert(s2[j] == st[j]);
                    }
                }
            }
        }
    }
    assert forall|i: int, e: int|
        0 <= i < fin.len() && 0 <= e < network.out_edges(fin[i]).len() implies vis2.contains(
        #[trigger] network.out_edges(fin[i])[e].destination,
    ) by {
        assert(vis.contains(network.out_edges(fin[i])[e].destination));
    }
    assert forall|i: int, b: NodeIndex| 0 <= i < fin.len() implies #[trigger] finish_escape(
        network,
        fin,
        i,
        b,
    ) by {
    }
}

/// Pushing an entry for the `e`-th outgoing edge of the node whose finish
/// marker is at `st[t]`.
proof fn lemma_dfs_push(
    network: &RoadNetwork,
    vis: Set<NodeIndex>,
    fin: Seq<NodeIndex>,
    st: Seq<Visit>,
    t: int,
    e: int,
)
    requires
        network.wf(),
        dfs_ok(network, vis, fin, st, t, e),
        0 <= t < st.len(),
        st[t] is Exit,
        forall|j: int| t < j < st.len() ==> #[trigger] st[j] is Enter,
        0 <= e < network.out_edges(visit_node(st[t])).len(),
    ensures
        dfs_ok(
            network,
            vis,
            fin,
            st.push(Visit::Enter(network.out_edges(visit_node(st[t]))[e].destination)),
            t,
            e + 1,
        ),
{
    let u = visit_node(st[t]);
    let w = network.out_edges(u)[e].destination;
    let s2 = st.push(Visit::Enter(w));
    let n = st.len() as int;
    assert(s2[n] == Visit::Enter(w));
    assert(vis.contains(u));
    assert(network.contains(w)) by {
        assert(network.node_map()[u].neighbours@[e] == network.out_edges(u)[e]);
    }
    assert(network.out_edges(u)[e] == Edge { destination: w, cost: network.out_edges(u)[e].cost });
    assert(network.out_edges(u).contains(Edge { destination: w, cost: network.out_edges(u)[e].cost }));
    lemma_reaches_edge(network, u, w, network.out_edges(u)[e].cost);
    assert forall|v: NodeIndex| #[trigger] vis.contains(v) implies fin.contains(v) || s2.contains(
        Visit::Exit(v),
    ) by {
        if !fin.contains(v) {
            let j = choose|j: int| 0 <= j < st.len() && st[j] == Visit::Exit(v);
            assert(s2[j] == st[j]);
        }
    }
    assert forall|i: int| 0 <= i < s2.len() implies match #[trigger] s2[i] {
        Visit::Enter(v) => network.contains(v),
        Visit::Exit(v) => vis.contains(v) && !fin.contains(v),
    } by {
        if i < n {
            assert(s2[i] == st[i]);
        }
    }
    assert forall|i: int, j: int|
        0 <= i < j < s2.len() && #[trigger] s2[i] is Exit && #[trigger] s2[j] is Exit implies visit_node(
        s2[i],
    ) != visit_node(s2[j]) by {
        assert(s2[i] == st[i] && s2[j] == st[j]);
    }
    assert forall|i: int, j: int| 0 <= i < j < s2.len() && #[trigger] s2[i] is Exit implies reaches(
        network,
        visit_node(s2[i]),
        visit_node(#[trigger] s2[j]),
    ) by {
        assert(s2[i] == st[i]);
        if j < n {
            assert(s2[j] == st[j]);
        } else if i == t {
        } else if i < t {
            assert(reaches(network, visit_node(st[i]), visit_node(st[t])));
            lemma_reaches_trans(network, visit_node(st[i]), u, w);
        } else {
            assert(st[i] is Enter);
        }
    }
    assert forall|i: int| 0 <= i < s2.len() && #[trigger] s2[i] is Exit implies exit_covered(
        network,
        vis,
        s2,
        i,
        visit_node(s2[i]),
        if i == t {
            e + 1
        } else {
            network.out_edges(visit_node(s2[i])).len() as int
        },
    ) by {
        assert(s2[i] == st[i]);
        let g = visit_node(st[i]);
        let lim = if i == t {
            e
        } else {
            network.out_edges(g).len() as int
        };
        assert(exit_covered(network, vis, st, i, g, lim));
        assert forall|f: int|
            0 <= f < (if i == t {
                e + 1
            } else {
                network.out_edges(g).len() as int
            }) && f < network.out_edges(g).len() implies vis.contains(
            #[trigger] network.out_edges(g)[f].destination,
        ) || exists|j: int|
            i < j < s2.len() && s2[j] == Visit::Enter(network.out_edges(g)[f].destination) by {
            let d = network.out_edges(g)[f].destination;
            if i == t && f == e {
                assert(s2[n] == Visit::Enter(d));
            } else if !vis.contains(d) {
                let j = choose|j: int| i < j < st.len() && st[j] == Visit::Enter(d);
                assert(s2[j] == st[j]);
            }
        }
    }
}

/// Once every edge of the node at `st[t]` is covered, no marker is partial.
proof fn lemma_dfs_edges_done(
    network: &RoadNetwork,
    vis: Set<NodeIndex>,
    fin: Seq<NodeIndex>,
    st: Seq<Visit>,
    t: int,
)
    requires
        dfs_ok(network, vis, fin, st, t, network.out_edges(visit_node(st[t])).len() as int),
        0 <= t < st.len(),
    ensures
        dfs_ok(network, vis, fin, st, -1, 0),
{
    assert forall|i: int| 0 <= i < st.len() && #[trigger] st[i] is Exit implies exit_covered(
        network,
        vis,
        st,
        i,
        visit_node(st[i]),
        network.out_edges(visit_node(st[i])).len() as int,
    ) by {
        if i == t {
            assert(exit_covered(
                network,
                vis,
                st,
                i,
                visit_node(st[i]),
                network.out_edges(visit_node(st[t])).len() as int,
            ));
        }
    }
}

/// Finishing the node whose marker is on top. Every node it reaches that has
/// not finished is reached through an unfinished member of its component:
/// the first unfinished node on a walk is still on the stack, below it.
proof fn lemma_dfs_exit(network: &RoadNetwork, vis: Set<NodeIndex>, fin: Seq<NodeIndex>, st: Seq<Visit>)
    requires
        network.wf(),
        dfs_ok(network, vis, fin, st, -1, 0),
        st.len() > 0,
        st.last() is Exit,
    ensures
        dfs_ok(network, vis, fin.push(visit_node(st.last())), st.drop_last(), -1, 0),
{
    let x = visit_node(st.last());
    let top = st.len() - 1;
    let f2 = fin.push(x);
    let s2 = st.drop_last();
    assert(st[top] == st.last());
    assert(vis.contains(x) && !fin.contains(x));
    assert(exit_covered(network, vis, st, top, x, network.out_edges(x).len() as int));
    assert forall|e: int| 0 <= e < network.out_edges(x).len() implies vis.contains(
        #[trigger] network.out_edges(x)[e].destination,
    ) by {
        let d = network.out_edges(x)[e].destination;
        if !vis.contains(d) {
            let j = choose|j: int| top < j < st.len() && st[j] == Visit::Enter(d);
        }
    }
    assert forall|v: NodeIndex| #[trigger] f2.contains(v) <==> fin.contains(v) || v == x by {
        if f2.contains(v) && v != x {
            let j = choose|j: int| 0 <= j < f2.len() && f2[j] == v;
            assert(fin[j] == v);
        }
        if fin.contains(v) {
            let j = choose|j: int| 0 <= j < fin.len() && fin[j] == v;
            assert(f2[j] == v);
        }
        if v == x {
            assert(f2[fin.len() as int] == x);
        }
    }
    assert forall|v: NodeIndex| #[trigger] vis.contains(v) implies f2.contains(v) || s2.contains(
        Visit::Exit(v),
    ) by {
        if !fin.contains(v) && v != x {
            let j = choose|j: int| 0 <= j < st.len() && st[j] == Visit::Exit(v);
            assert(j != top);
            assert(s2[j] == st[j]);
        }
    }
    assert forall|i: int| 0 <= i < f2.len() implies vis.contains(#[trigger] f2[i]) by {
        if i < fin.len() {
            assert(f2[i] == fin[i]);
        }
    }
    assert(f2.no_duplicates()) by {
        assert forall|i: int, j: int| 0 <= i < j < f2.len() implies f2[i] != f2[j] by {
            if j == fin.len() {
                assert(fin.contains(f2[i]));
            } else {
                assert(f2[i] == fin[i] && f2[j] == fin[j]);
            }
        }
    }
    assert forall|i: int| 0 <= i < s2.len() implies match #[trigger] s2[i] {
        Visit::Enter(v) => network.contains(v),
        Visit::Exit(v) => vis.contains(v) && !f2.contains(v),
    } by {
        assert(s2[i] == st[i]);
        if st[i] is Exit {
            assert(visit_node(st[i]) != visit_node(st[top]));
        }
    }
    assert forall|i: int, j: int|
        0 <= i < j < s2.len() && #[trigger] s2[i] is Exit && #[trigger] s2[j] is Exit implies visit_node(
        s2[i],
    ) != visit_node(s2[j]) by {
        assert(s2[i] == st[i] && s2[j] == st[j]);
    }
    assert forall|i: int, j: int| 0 <= i < j < s2.len() && #[trigger] s2[i] is Exit implies reaches(
        network,
        visit_node(s2[i]),
        visit_node(#[trigger] s2[j]),
    ) by {
        assert(s2[i] == st[i] && s2[j] == st[j]);
    }
    assert forall|i: int| 0 <= i < s2.len() && #[trigger] s2[i] is Exit implies exit_covered(
        network,
        vis,
        s2,
        i,
        visit_node(s2[i]),
        network.out_edges(visit_node(s2[i])).len() as int,
    ) by {
        assert(s2[i] == st[i]);
        let g = visit_node(st[i]);
        assert(exit_covered(network, vis, st, i, g, network.out_edges(g).len() as int));
        assert forall|e: int|
            0 <= e < network.out_edges(g).len() implies vis.contains(
            #[trigger] network.out_edges(g)[e].destination,
        ) || exists|j: int|
            i < j < s2.len() && s2[j] == Visit::Enter(network.out_edges(g)[e].destination) by {
            let d = network.out_edges(g)[e].destination;
            if !vis.contains(d) {
                let j = choose|j: int| i < j < st.len() && st[j] == Visit::Enter(d);
                assert(j != top);
                assert(s2[j] == st[j]);
            }
        }
    }
    assert forall|i: int, e: int|
        0 <= i < f2.len() && 0 <= e < network.out_edges(f2[i]).len() implies vis.contains(
        #[trigger] network.out_edges(f2[i])[e].destination,
    ) by {
        if i < fin.len() {
            assert(f2[i] == fin[i]);
        }
    }
    assert forall|i: int, b: NodeIndex| 0 <= i < f2.len() implies #[trigger] finish_escape(
        network,
        f2,
        i,
        b,
    ) by {
        if i < fin.len() {
            assert(f2.take(i + 1) =~= fin.take(i + 1));
            assert(f2[i] == fin[i]);
            assert(finish_escape(network, fin, i, b));
        } else {
            assert(f2.take(i + 1) =~= f2);
            if reaches(network, x, b) && !f2.contains(b) {
                let y = lemma_escape_witness(network, vis, fin, st, b);
                assert(mutual(network, y, f2[i]));
            }
        }
    }
}

/// The first node of a walk from the top node `x` that has not finished is
/// visited, so its marker sits below `x`'s: it reaches `x`, and `x` reaches it.
proof fn lemma_escape_witness(
    network: &RoadNetwork,
    vis: Set<NodeIndex>,
    fin: Seq<NodeIndex>,
    st: Seq<Visit>,
    b: NodeIndex,
) -> (y: NodeIndex)
    requires
        network.wf(),
        dfs_ok(network, vis, fin, st, -1, 0),
        st.len() > 0,
        st.last() is Exit,
        reaches(network, visit_node(st.last()), b),
        !fin.push(visit_node(st.last())).contains(b),
    ensures
        !fin.push(visit_node(st.last())).contains(y),
        mutual(network, y, visit_node(st.last())),
{
    let x = visit_node(st.last());
    let top = st.len() - 1;
    let f2 = fin.push(x);
    assert(st[top] == st.last());
    let (p, cs) = choose|p: Seq<NodeIndex>, cs: Seq<Cost>| #[trigger] walk_between(network, p, cs, x, b);
    let done = Set::new(|v: NodeIndex| f2.contains(v));
    assert(f2[fin.len() as int] == x);
    assert(done.contains(p[0]));
    let i = crate::shortest_path::lemma_walk_exit(network, p, cs, done);
    let a = p[i];
    let y = p[i + 1];
    assert(network.out_edges(a).contains(Edge { destination: y, cost: cs[i] }));
    let e = choose|e: int|
        0 <= e < network.out_edges(a).len() && network.out_edges(a)[e] == Edge {
            destination: y,
            cost: cs[i],
        };
    if a == x {
        assert(exit_covered(network, vis, st, top, x, network.out_edges(x).len() as int));
        if !vis.contains(y) {
            let j = choose|j: int| top < j < st.len() && st[j] == Visit::Enter(network.out_edges(x)[e].destination);
        }
    } else {
        let k = choose|k: int| 0 <= k < f2.len() && f2[k] == a;
        assert(k < fin.len());
        assert(fin[k] == a);
        assert(vis.contains(network.out_edges(fin[k])[e].destination));
    }
    assert(vis.contains(y));
    assert(!fin.contains(y)) by {
        if fin.contains(y) {
            let k = choose|k: int| 0 <= k < fin.len() && fin[k] == y;
            assert(f2[k] == y);
        }
    }
    let jy = choose|j: int| 0 <= j < st.len() && st[j] == Visit::Exit(y);
    assert(jy != top) by {
        if jy == top {
            assert(f2.contains(y));
        }
    }
    assert(reaches(network, visit_node(st[jy]), visit_node(st[top])));
    lemma_walk_sub(network, p, cs, 0, i + 1);
    y
}

/// Entries to push for the outgoing edges `es`, in order.
spec fn enters(es: Seq<Edge>) -> Seq<Visit> {
    es.map_values(|e: Edge| Visit::Enter(e.destination))
}

/// One step of the first pass on (visited, finished, stack, start nodes
/// taken): finish the node on top, skip a visited one, or enter a new one and
/// stack its outgoing edges; with an empty stack, take the next start node.
spec fn dfs_step(
    network: &RoadNetwork,
    s: (Set<NodeIndex>, Seq<NodeIndex>, Seq<Visit>, nat),
) -> (Set<NodeIndex>, Seq<NodeIndex>, Seq<Visit>, nat) {
    if s.2.len() > 0 {
        match s.2.last() {
            Visit::Exit(x) => (s.0, s.1.push(x), s.2.drop_last(), s.3),
            Visit::Enter(u) => if s.0.contains(u) {
                (s.0, s.1, s.2.drop_last(), s.3)
            } else {
                (
                    s.0.insert(u),
                    s.1,
                    s.2.drop_last().push(Visit::Exit(u)) + enters(network.out_edges(u)),
                    s.3,
                )
            },
        }
    } else if s.3 < network.node_ids().len() {
        (s.0, s.1, seq![Visit::Enter(network.node_ids()[s.3 as int])], s.3 + 1)
    } else {
        s
    }
}

/// The state of the first pass after `n` steps.
spec fn dfs_run(network: &RoadNetwork, n: nat) -> (Set<NodeIndex>, Seq<NodeIndex>, Seq<Visit>, nat)
    decreases n,
{
    if n == 0 {
        (Set::empty(), Seq::empty(), Seq::empty(), 0)
    } else {
        dfs_step(network, dfs_run(network, (n - 1) as nat))
    }
}

spec fn dfs_done(network: &RoadNetwork, s: (Set<NodeIndex>, Seq<NodeIndex>, Seq<Visit>, nat)) -> bool {
    s.2.len() == 0 && s.3 == network.node_ids().len()
}

/// The nodes in decreasing order of finishing time of the first pass: a
/// depth-first search started from each node in the store's walking order,
/// following outgoing edges with the last stacked edge first.
pub closed spec fn finish_order(network: &RoadNetwork) -> Seq<NodeIndex> {
    let n = choose|n: nat| dfs_done(network, #[trigger] dfs_run(network, n));
    dfs_run(network, n).1.reverse()
}

/// Once the first pass is done it stays done, so every finished run agrees.
proof fn lemma_dfs_fixed(network: &RoadNetwork, n: nat, m: nat)
    requires
        dfs_done(network, dfs_run(network, n)),
        n <= m,
    ensures
        dfs_run(network, m) == dfs_run(network, n),
    decreases m - n,
{
    if m > n {
        lemma_dfs_fixed(network, n, (m - 1) as nat);
    }
}

proof fn lemma_finish_order(network: &RoadNetwork, n: nat)
    requires
        dfs_done(network, dfs_run(network, n)),
    ensures
        finish_order(network) == dfs_run(network, n).1.reverse(),
{
    let m = choose|m: nat| dfs_done(network, #[trigger] dfs_run(network, m));
    if m <= n {
        lemma_dfs_fixed(network, m, n);
    } else {
        lemma_dfs_fixed(network, n, m);
    }
}

/// Nodes in decreasing order of finishing time of a depth-first search
/// along outgoing edges: every node once, and a node that reaches a node of
/// another component that cannot reach back has a member of its own
/// component earlier in the order.
fn nodes_in_order(network: &RoadNetwork) -> (r: Vec<NodeIndex>)
    requires
        network.wf(),
    ensures
        r@ == finish_order(network),
        r@.no_duplicates(),
        forall|i: int| 0 <= i < r@.len() ==> network.contains(#[trigger] r@[i]),
        forall|v: NodeIndex| #[trigger] network.contains(v) ==> r@.contains(v),
        forall|k: int, a: NodeIndex|
            0 <= k < r@.len() && #[trigger] reaches(network, a, r@[k]) && !reaches(network, r@[k], a)
                ==> exists|i: int| 0 <= i < k && #[trigger] mutual(network, r@[i], a),
{
    let ids = network.node_indices();
    let ghost n = ids@.len();
    let mut visited: HashSet<NodeIndex> = HashSet::new();
    let mut finished: Vec<NodeIndex> = Vec::new();
    let mut k: usize = 0;
    let ghost mut steps: nat = 0;
    proof {
        assert(dfs_ok(network, visited@, finished@, Seq::empty(), -1, 0));
        assert(visited@ =~= Set::<NodeIndex>::empty());
    }
    while k < ids.len()
        invariant
            network.wf(),
            ids@ == network.node_ids(),
            n == ids@.len(),
            k <= n,
            dfs_ok(network, visited@, finished@, Seq::empty(), -1, 0),
            forall|i: int| 0 <= i < k ==> visited@.contains(#[trigger] ids@[i]),
            dfs_run(network, steps) == (visited@, finished@, Seq::<Visit>::empty(), k as nat),
        decreases n - k,
    {
        let start = ids[k];
        let mut stack: Vec<Visit> = Vec::new();
        stack.push(Visit::Enter(start));
        proof {
            assert(stack@ =~= seq![Visit::Enter(start)]);
            lemma_dfs_start(network, visited@, finished@, start);
            assert(stack@[0] == Visit::Enter(start));
            steps = steps + 1;
            assert(dfs_run(network, steps) == dfs_step(network, dfs_run(network, (steps - 1) as nat)));
        }
        while stack.len() > 0
            invariant
                network.wf(),
                ids@ == network.node_ids(),
                n == ids@.len(),
                k < n,
                start == ids@[k as int],
                dfs_ok(network, visited@, finished@, stack@, -1, 0),
                forall|i: int| 0 <= i < k ==> visited@.contains(#[trigger] ids@[i]),
                visited@.contains(start) || stack@.contains(Visit::Enter(start)),
                dfs_run(network, steps) == (visited@, finished@, stack@, (k + 1) as nat),
            decreases n - visited@.len(), stack@.len(),
        {
            proof {
                lemma_marked_bound(ids@, network, visited@);
            }
            let ghost stack0 = stack@;
            let top = stack.pop().unwrap();
            proof {
                assert(stack0.drop_last() =~= stack@);
                assert(stack0.last() == top);
                steps = steps + 1;
                assert(dfs_run(network, steps) == dfs_step(network, dfs_run(network, (steps - 1) as nat)));
            }
            match top {
                Visit::Exit(u) => {
                    proof {
                        lemma_dfs_exit(network, visited@, finished@, stack0);
                    }
                    finished.push(u);
                    proof {
                        if !visited@.contains(start) {
                            let j = choose|j: int| 0 <= j < stack0.len() && stack0[j] == Visit::Enter(start);
                            assert(stack@[j] == Visit::Enter(start));
                        }
                    }
                },
                Visit::Enter(u) => {
                    if !visited.contains(&u) {
                        proof {
                            lemma_dfs_enter(network, visited@, finished@, stack0);
                        }
                        visited.insert(u);
                        let t = stack.len();
                        stack.push(Visit::Exit(u));
                        proof {
                            assert(stack@ =~= stack0.drop_last().push(Visit::Exit(u)));
                            lemma_marked_bound(ids@, network, visited@);
                            if !visited@.contains(start) {
                                let j = choose|j: int|
                                    0 <= j < stack0.len() && stack0[j] == Visit::Enter(start);
                                assert(j != stack0.len() - 1);
                                assert(stack@[j] == Visit::Enter(start));
                            }
                        }
                        let ghost base = stack@;
                        let node = network.get_node(u).unwrap();
                        let mut e: usize = 0;
                        proof {
                            assert(base + enters(network.out_edges(u).take(0)) =~= base);
                        }
                        while e < node.neighbours.len()
                            invariant
                                network.wf(),
                                network.contains(u),
                                *node == network.node_map()[u],
                                e <= node.neighbours@.len(),
                                visited@.contains(start) || stack@.contains(Visit::Enter(start)),
                                t < stack@.len(),
                                stack@[t as int] == Visit::Exit(u),
                                forall|j: int| t < j < stack@.len() ==> #[trigger] stack@[j] is Enter,
                                dfs_ok(network, visited@, finished@, stack@, t as int, e as int),
                                stack@ == base + enters(network.out_edges(u).take(e as int)),
                                dfs_run(network, steps) == (visited@, finished@, base + enters(network.out_edges(u)), (k + 1) as nat),
                            decreases node.neighbours@.len() - e,
                        {
                            let w = node.neighbours[e].destination;
                            proof {
                                assert(network.out_edges(u)[e as int].destination == w);
                                lemma_dfs_push(network, visited@, finished@, stack@, t as int, e as int);
                            }
                            let ghost s1 = stack@;
                            stack.push(Visit::Enter(w));
                            proof {
                                assert(base + enters(network.out_edges(u).take(e as int + 1)) =~= s1.push(
                                    Visit::Enter(w),
                                ));
                            }
                            proof {
                                if !visited@.contains(start) {
                                    let j = choose|j: int|
                                        0 <= j < s1.len() && s1[j] == Visit::Enter(start);
                                    assert(stack@[j] == Visit::Enter(start));
                                }
                            }
                            e = e + 1;
                        }
                        proof {
                            lemma_dfs_edges_done(network, visited@, finished@, stack@, t as int);
                            assert(network.out_edges(u).take(e as int) =~= network.out_edges(u));
                        }
                    } else {
                        proof {
                            lemma_dfs_skip(network, visited@, finished@, stack0);
                            if !visited@.contains(start) {
                                let j = choose|j: int|
                                    0 <= j < stack0.len() && stack0[j] == Visit::Enter(start);
                                if j == stack0.len() - 1 {
                                } else {
                                    assert(stack@[j] == Visit::Enter(start));
                                }
                            }
                        }
                    }
                },
            }
        }
        proof {
            assert(stack@ =~= Seq::<Visit>::empty());
        }
        k = k + 1;
    }
    let ghost fin = finished@;
    proof {
        assert forall|v: NodeIndex| #[trigger] network.contains(v) implies fin.contains(v) by {
            assert(ids@.contains(v));
            let j = choose|j: int| 0 <= j < ids@.len() && ids@[j] == v;
            assert(visited@.contains(ids@[j]));
            assert(fin.contains(v) || Seq::<Visit>::empty().contains(Visit::Exit(v)));
        }
    }
    let mut order: Vec<NodeIndex> = Vec::new();
    let mut i: usize = finished.len();
    while i > 0
        invariant
            fin == finished@,
            i <= fin.len(),
            order@.len() == fin.len() - i,
            forall|j: int| 0 <= j < order@.len() ==> #[trigger] order@[j] == fin[fin.len() - 1 - j],
        decreases i,
    {
        i = i - 1;
        order.push(finished[i]);
    }
    proof {
        lemma_reversed_order(network, fin, order@);
        assert(dfs_done(network, dfs_run(network, steps)));
        lemma_finish_order(network, steps);
        assert(order@ =~= fin.reverse());
    }
    order
}

/// The last position in `fin`, below `hi`, of a node that `a` reaches and
/// that reaches `a`.
proof fn lemma_last_mutual(network: &RoadNetwork, fin: Seq<NodeIndex>, a: NodeIndex, hi: int) -> (m: int)
    requires
        hi <= fin.len(),
        exists|i: int| 0 <= i < hi && #[trigger] mutual(network, fin[i], a),
    ensures
        0 <= m < hi,
        mutual(network, fin[m], a),
        forall|q: int| m < q < hi ==> !#[trigger] mutual(network, fin[q], a),
    decreases hi,
{
    if mutual(network, fin[hi - 1], a) {
        hi - 1
    } else {
        let i = choose|i: int| 0 <= i < hi && #[trigger] mutual(network, fin[i], a);
        assert(i < hi - 1);
        lemma_last_mutual(network, fin, a, hi - 1)
    }
}

/// Reading the finishing order backwards: a node that reaches `order[k]`
/// without being reached back has a member of its component before `k`.
proof fn lemma_reversed_order(network: &RoadNetwork, fin: Seq<NodeIndex>, order: Seq<NodeIndex>)
    requires
        fin.no_duplicates(),
        forall|i: int, b: NodeIndex| 0 <= i < fin.len() ==> #[trigger] finish_escape(network, fin, i, b),
        forall|i: int| 0 <= i < fin.len() ==> network.contains(#[trigger] fin[i]),
        forall|v: NodeIndex| #[trigger] network.contains(v) ==> fin.contains(v),
        order.len() == fin.len(),
        forall|j: int| 0 <= j < order.len() ==> #[trigger] order[j] == fin[fin.len() - 1 - j],
    ensures
        order.no_duplicates(),
        forall|i: int| 0 <= i < order.len() ==> network.contains(#[trigger] order[i]),
        forall|v: NodeIndex| #[trigger] network.contains(v) ==> order.contains(v),
        forall|k: int, a: NodeIndex|
            0 <= k < order.len() && #[trigger] reaches(network, a, order[k]) && !reaches(network, order[k], a)
                ==> exists|i: int| 0 <= i < k && #[trigger] mutual(network, order[i], a),
{
    let n = fin.len() as int;
    assert forall|i: int, j: int| 0 <= i < j < order.len() implies order[i] != order[j] by {
        assert(order[i] == fin[n - 1 - i] && order[j] == fin[n - 1 - j]);
    }
    assert forall|i: int| 0 <= i < order.len() implies network.contains(#[trigger] order[i]) by {
        assert(order[i] == fin[n - 1 - i]);
    }
    assert forall|v: NodeIndex| #[trigger] network.contains(v) implies order.contains(v) by {
        let j = choose|j: int| 0 <= j < n && fin[j] == v;
        assert(order[n - 1 - j] == fin[n - 1 - (n - 1 - j)]);
    }
    assert forall|k: int, a: NodeIndex|
        0 <= k < order.len() && #[trigger] reaches(network, a, order[k]) && !reaches(network, order[k], a)
        implies exists|i: int| 0 <= i < k && #[trigger] mutual(network, order[i], a) by {
        let b = order[k];
        let jb = n - 1 - k;
        assert(fin[jb] == b);
        lemma_reaches_nodes(network, a, b);
        lemma_reaches_self(network, a);
        let ja = choose|j: int| 0 <= j < n && fin[j] == a;
        assert(mutual(network, fin[ja], a));
        let m = lemma_last_mutual(network, fin, a, n);
        if m < jb {
            lemma_reaches_trans(network, fin[m], a, b);
            let pre = fin.take(m + 1);
            assert(!pre.contains(b)) by {
                if pre.contains(b) {
                    let q = choose|q: int| 0 <= q < pre.len() && pre[q] == b;
                    assert(fin[q] == fin[jb]);
                }
            }
            assert(finish_escape(network, fin, m, b));
            let y = choose|y: NodeIndex| !fin.take(m + 1).contains(y) && #[trigger] mutual(network, y, fin[m]);
            lemma_reaches_trans(network, y, fin[m], a);
            lemma_reaches_trans(network, a, fin[m], y);
            lemma_reaches_nodes(network, y, a);
            let q = choose|q: int| 0 <= q < n && fin[q] == y;
            if q <= m {
                assert(pre[q] == y);
            }
            assert(mutual(network, fin[q], a));
        } else if m == jb {
        } else {
            assert(order[n - 1 - m] == fin[m]);
            assert(mutual(network, order[n - 1 - m], a));
        }
    }
}

/// In a partition of `asg` into components, `asg` is closed under reaching
/// each other.
proof fn lemma_assigned_closed(
    network: &RoadNetwork,
    cs: Seq<Seq<NodeIndex>>,
    asg: Set<NodeIndex>,
    a: NodeIndex,
    b: NodeIndex,
)
    requires
        partitions(cs, asg),
        forall|i: int| 0 <= i < cs.len() ==> is_component(network, #[trigger] cs[i]),
        asg.contains(a),
        mutual(network, a, b),
    ensures
        asg.contains(b),
{
    let i = choose|i: int| 0 <= i < cs.len() && #[trigger] cs[i].contains(a);
    lemma_reaches_nodes(network, a, b);
    assert(is_component(network, cs[i]));
    assert(cs[i].contains(a) && network.contains(b) ==> (cs[i].contains(b) <==> mutual(network, a, b)));
    let j = choose|j: int| 0 <= j < cs[i].len() && cs[i][j] == b;
    assert(asg.contains(cs[i][j]));
}

/// A block grown from the first node of `order` not yet assigned is that
/// node's strongly connected component.
proof fn lemma_new_block(
    network: &RoadNetwork,
    order: Seq<NodeIndex>,
    k: int,
    initial: Set<NodeIndex>,
    cs0: Seq<Seq<NodeIndex>>,
    c: Seq<NodeIndex>,
)
    requires
        0 <= k < order.len(),
        forall|kk: int, a: NodeIndex|
            0 <= kk < order.len() && #[trigger] reaches(network, a, order[kk]) && !reaches(network, order[kk], a)
                ==> exists|i: int| 0 <= i < kk && #[trigger] mutual(network, order[i], a),
        forall|i: int| 0 <= i < k ==> initial.contains(#[trigger] order[i]),
        partitions(cs0, initial),
        forall|i: int| 0 <= i < cs0.len() ==> is_component(network, #[trigger] cs0[i]),
        !initial.contains(order[k]),
        c.contains(order[k]),
        forall|v: NodeIndex| #[trigger] c.contains(v) ==> !initial.contains(v),
        forall|v: NodeIndex| #[trigger] c.contains(v) ==> reaches(network, v, order[k]),
        forall|u: NodeIndex| #[trigger] reaches_avoiding(network, u, order[k], initial) ==> c.contains(u),
    ensures
        is_component(network, c),
{
    let root = order[k];
    assert forall|v: NodeIndex| network.contains(v) implies (c.contains(v) <==> #[trigger] mutual(network, root, v)) by {
        if c.contains(v) {
            assert(reaches(network, v, root));
            if !reaches(network, root, v) {
                let i = choose|i: int| 0 <= i < k && #[trigger] mutual(network, order[i], v);
                assert(initial.contains(order[i]));
                lemma_assigned_closed(network, cs0, initial, order[i], v);
            }
        }
        if mutual(network, root, v) {
            let (p, cs) = choose|p: Seq<NodeIndex>, cs: Seq<Cost>| #[trigger] walk_between(network, p, cs, v, root);
            assert forall|i: int| 0 <= i < p.len() implies !initial.contains(#[trigger] p[i]) by {
                lemma_walk_sub(network, p, cs, i, p.len() - 1);
                lemma_walk_sub(network, p, cs, 0, i);
                lemma_reaches_trans(network, root, v, p[i]);
                if initial.contains(p[i]) {
                    lemma_assigned_closed(network, cs0, initial, p[i], root);
                }
            }
            assert(reaches_avoiding(network, v, root, initial));
        }
    }
    assert forall|a: NodeIndex, b: NodeIndex|
        #![trigger c.contains(a), c.contains(b)]
        c.contains(a) && network.contains(b) implies (c.contains(b) <==> mutual(network, a, b)) by {
        lemma_reaches_nodes(network, a, root);
        assert(mutual(network, root, a));
        assert(c.contains(b) <==> mutual(network, root, b));
        if mutual(network, root, b) {
            lemma_reaches_trans(network, a, root, b);
            lemma_reaches_trans(network, b, root, a);
        }
        if mutual(network, a, b) {
            lemma_reaches_trans(network, root, a, b);
            lemma_reaches_trans(network, b, a, root);
        }
    }
}

/// A walk between two members of a component stays inside it, so it
/// survives in a store that keeps the component with its inner edges.
pub(crate) proof fn lemma_reach_within_component(
    old_net: &RoadNetwork,
    new_net: &RoadNetwork,
    c: Seq<NodeIndex>,
    a: NodeIndex,
    b: NodeIndex,
)
    requires
        is_component(old_net, c),
        c.contains(a),
        c.contains(b),
        reaches(old_net, a, b),
        forall|u: NodeIndex| #[trigger] c.contains(u) ==> new_net.contains(u) && new_net.out_edges(u)
            == edges_into(old_net.out_edges(u), c.to_set()),
    ensures
        reaches(new_net, a, b),
{
    let (p, cs) = choose|p: Seq<NodeIndex>, cs: Seq<Cost>| #[trigger] walk_between(old_net, p, cs, a, b);
    lemma_reaches_nodes(old_net, a, b);
    assert(mutual(old_net, a, b));
    assert forall|i: int| 0 <= i < p.len() implies c.contains(#[trigger] p[i]) by {
        lemma_walk_sub(old_net, p, cs, 0, i);
        lemma_walk_sub(old_net, p, cs, i, p.len() - 1);
        lemma_reaches_trans(old_net, p[i], b, a);
        assert(old_net.contains(p[i]));
    }
    assert forall|i: int| 0 <= i < p.len() implies new_net.contains(#[trigger] p[i]) by {
        assert(c.contains(p[i]));
    }
    assert forall|i: int| #![trigger cs[i]] 0 <= i < cs.len() implies new_net.out_edges(p[i]).contains(
        Edge { destination: p[i + 1], cost: cs[i] },
    ) by {
        assert(c.contains(p[i]));
        assert(c.contains(p[i + 1]));
        let e = Edge { destination: p[i + 1], cost: cs[i] };
        assert(old_net.out_edges(p[i]).contains(e));
        assert(c.to_set().contains(e.destination));
        old_net.out_edges(p[i]).lemma_filter_contains_rev(|f: Edge| c.to_set().contains(f.destination), e);
    }
    assert(walk_between(new_net, p, cs, a, b));
}

/// In a non-empty store whose nodes all reach each other, a partition of
/// the nodes into strongly connected components has exactly one block: the
/// component search on the store that the reducer leaves returns one component.
pub proof fn lemma_strongly_connected_single_component(network: &RoadNetwork, cs: Seq<Seq<NodeIndex>>)
    requires
        partitions(cs, network.node_map().dom()),
        forall|i: int| 0 <= i < cs.len() ==> is_component(network, #[trigger] cs[i]),
        forall|a: NodeIndex, b: NodeIndex|
            network.contains(a) && network.contains(b) ==> #[trigger] mutual(network, a, b),
        exists|u: NodeIndex| network.contains(u),
    ensures
        cs.len() == 1,
{
    let u = choose|u: NodeIndex| network.contains(u);
    assert(network.node_map().dom().contains(u));
    let i = choose|i: int| 0 <= i < cs.len() && #[trigger] cs[i].contains(u);
    if cs.len() > 1 {
        let other = if i == 0 { 1int } else { 0int };
        assert(cs[other].len() > 0);
        let b = cs[other][0];
        assert(cs[other].contains(b));
        assert(network.node_map().dom().contains(cs[other][0]));
        assert(mutual(network, u, b));
        assert(is_component(network, cs[i]));
        assert(cs[i].contains(b));
    }
}

/// No edge leads from a block of `cs` to an earlier block: the blocks come
/// in a topological order of the component graph, sources first.
pub open spec fn topologically_ordered(network: &RoadNetwork, cs: Seq<Seq<NodeIndex>>) -> bool {
    forall|i: int, j: int, u: NodeIndex, e: int|
        #![trigger cs[i].contains(u), cs[j].contains(network.out_edges(u)[e].destination)]
        0 <= i < cs.len() && 0 <= j < cs.len() && cs[i].contains(u) && 0 <= e < network.out_edges(
            u,
        ).len() && cs[j].contains(network.out_edges(u)[e].destination) ==> i <= j
}

/// Blocks started at rising positions of `order`, where every position is
/// covered by a block started no later, come in topological order.
proof fn lemma_blocks_in_order(
    network: &RoadNetwork,
    order: Seq<NodeIndex>,
    cs: Seq<Seq<NodeIndex>>,
    roots: Seq<int>,
)
    requires
        network.wf(),
        partitions(cs, network.node_map().dom()),
        forall|b: int| 0 <= b < cs.len() ==> is_component(network, #[trigger] cs[b]),
        blocks_started(order, order.len() as int, cs, roots),
        forall|k: int, a: NodeIndex|
            0 <= k < order.len() && #[trigger] reaches(network, a, order[k]) && !reaches(network, order[k], a)
                ==> exists|i: int| 0 <= i < k && #[trigger] mutual(network, order[i], a),
    ensures
        topologically_ordered(network, cs),
{
    assert forall|i: int, j: int, u: NodeIndex, e: int|
        #![trigger cs[i].contains(u), cs[j].contains(network.out_edges(u)[e].destination)]
        0 <= i < cs.len() && 0 <= j < cs.len() && cs[i].contains(u) && 0 <= e < network.out_edges(
            u,
        ).len() && cs[j].contains(network.out_edges(u)[e].destination) implies i <= j by {
        if j < i {
            let v = network.out_edges(u)[e].destination;
            let rj = order[roots[j]];
            let pu = choose|q: int| 0 <= q < cs[i].len() && cs[i][q] == u;
            assert(network.node_map().dom().contains(cs[i][pu]));
            let pv = choose|q: int| 0 <= q < cs[j].len() && cs[j][q] == v;
            assert(network.node_map().dom().contains(cs[j][pv]));
            assert(is_component(network, cs[j]));
            assert(cs[j].contains(rj));
            let pr = choose|q: int| 0 <= q < cs[j].len() && cs[j][q] == rj;
            assert(network.node_map().dom().contains(cs[j][pr]));
            assert(mutual(network, v, rj));
            assert(network.out_edges(u).contains(network.out_edges(u)[e]));
            lemma_reaches_edge(network, u, v, network.out_edges(u)[e].cost);
            lemma_reaches_trans(network, u, v, rj);
            if reaches(network, rj, u) {
                lemma_reaches_trans(network, v, rj, u);
                assert(mutual(network, v, u));
                assert(cs[j].contains(u));
            } else {
                let ip = choose|ip: int| 0 <= ip < roots[j] && #[trigger] mutual(network, order[ip], u);
                assert(is_component(network, cs[i]));
                lemma_reaches_nodes(network, order[ip], u);
                assert(mutual(network, u, order[ip]));
                assert(cs[i].contains(order[ip]));
                assert(covered_at(order, cs, roots, ip));
                let b = choose|b: int|
                    0 <= b < roots.len() && roots[b] <= ip && #[trigger] cs[b].contains(order[ip]);
                assert(b == i);
                assert(roots[j] < roots[i]);
            }
        }
    }
}

/// The bookkeeping of the second pass: `roots[b]` is where block `b` was
/// started, the starts rise, and each of the first `k` positions of `order`
/// lies in a block started no later.
spec fn blocks_started(order: Seq<NodeIndex>, k: int, cs: Seq<Seq<NodeIndex>>, roots: Seq<int>) -> bool {
    &&& roots.len() == cs.len()
    &&& forall|b: int| 0 <= b < roots.len() ==> 0 <= #[trigger] roots[b] < k && cs[b].contains(order[roots[b]])
    &&& forall|b1: int, b2: int| 0 <= b1 < b2 < roots.len() ==> #[trigger] roots[b1] < #[trigger] roots[b2]
    &&& forall|t: int| 0 <= t < k ==> #[trigger] covered_at(order, cs, roots, t)
}

/// Position `t` of `order` lies in a block started at or before `t`.
spec fn covered_at(order: Seq<NodeIndex>, cs: Seq<Seq<NodeIndex>>, roots: Seq<int>, t: int) -> bool {
    exists|b: int| 0 <= b < roots.len() && roots[b] <= t && #[trigger] cs[b].contains(order[t])
}

/// Adding the block grown from `order[k]` keeps the partition and the bookkeeping.
proof fn lemma_add_block(
    order: Seq<NodeIndex>,
    k: int,
    cs0: Seq<Seq<NodeIndex>>,
    before: Set<NodeIndex>,
    c: Seq<NodeIndex>,
    after: Set<NodeIndex>,
    roots: Seq<int>,
)
    requires
        0 <= k < order.len(),
        partitions(cs0, before),
        blocks_started(order, k, cs0, roots),
        c.len() > 0,
        strictly_ascending(c),
        c.contains(order[k]),
        forall|v: NodeIndex| #[trigger] c.contains(v) ==> !before.contains(v),
        after == before.union(c.to_set()),
    ensures
        partitions(cs0.push(c), after),
        blocks_started(order, k + 1, cs0.push(c), roots.push(k)),
{
    let cs = cs0.push(c);
    let r2 = roots.push(k);
    assert(cs[cs.len() - 1] == c);
    assert forall|v: NodeIndex| #[trigger] after.contains(v) implies exists|i: int|
        0 <= i < cs.len() && #[trigger] cs[i].contains(v) by {
        if before.contains(v) {
            let i = choose|i: int| 0 <= i < cs0.len() && #[trigger] cs0[i].contains(v);
            assert(cs[i] == cs0[i]);
        }
    }
    assert forall|i: int, j: int, v: NodeIndex|
        0 <= i < cs.len() && 0 <= j < cs.len() && #[trigger] cs[i].contains(v) && #[trigger] cs[j].contains(v)
        implies i == j by {
        if i < cs0.len() {
            assert(cs[i] == cs0[i]);
        }
        if j < cs0.len() {
            assert(cs[j] == cs0[j]);
        }
        if i < cs0.len() && j >= cs0.len() {
            let q = choose|q: int| 0 <= q < cs0[i].len() && cs0[i][q] == v;
            assert(before.contains(cs0[i][q]));
        }
        if j < cs0.len() && i >= cs0.len() {
            let q = choose|q: int| 0 <= q < cs0[j].len() && cs0[j][q] == v;
            assert(before.contains(cs0[j][q]));
        }
    }
    assert forall|i: int, j: int| 0 <= i < cs.len() && 0 <= j < cs[i].len() implies after.contains(
        #[trigger] cs[i][j],
    ) by {
        if i < cs0.len() {
            assert(cs[i] == cs0[i]);
        } else {
            assert(c.contains(c[j]));
        }
    }
    assert forall|i: int| 0 <= i < cs.len() implies #[trigger] cs[i].len() > 0 && strictly_ascending(cs[i]) by {
        if i < cs0.len() {
            assert(cs[i] == cs0[i]);
        }
    }
    assert forall|b: int| 0 <= b < r2.len() implies 0 <= #[trigger] r2[b] < k + 1 && cs[b].contains(
        order[r2[b]],
    ) by {
        if b < roots.len() {
            assert(r2[b] == roots[b]);
            assert(cs[b] == cs0[b]);
        } else {
            assert(r2[b] == k);
            assert(cs[b] == c);
        }
    }
    assert forall|b1: int, b2: int| 0 <= b1 < b2 < r2.len() implies #[trigger] r2[b1] < #[trigger] r2[b2] by {
        assert(r2[b1] == roots[b1]);
        if b2 < roots.len() {
            assert(r2[b2] == roots[b2]);
        }
    }
    assert forall|t: int| 0 <= t < k + 1 implies #[trigger] covered_at(order, cs, r2, t) by {
        if t < k {
            assert(covered_at(order, cs0, roots, t));
            let b = choose|b: int| 0 <= b < roots.len() && roots[b] <= t && #[trigger] cs0[b].contains(order[t]);
            assert(r2[b] == roots[b]);
            assert(cs[b] == cs0[b]);
        } else {
            let last = r2.len() - 1;
            assert(r2[last] == k);
            assert(cs[last] == c);
            assert(cs[last].contains(order[t]));
        }
    }
}

/// Passing over `order[k]`, which block `b0` already holds, keeps the bookkeeping.
proof fn lemma_keep_blocks(order: Seq<NodeIndex>, k: int, cs: Seq<Seq<NodeIndex>>, roots: Seq<int>, b0: int)
    requires
        0 <= k < order.len(),
        blocks_started(order, k, cs, roots),
        0 <= b0 < cs.len(),
        cs[b0].contains(order[k]),
    ensures
        blocks_started(order, k + 1, cs, roots),
{
    assert forall|b: int| 0 <= b < roots.len() implies 0 <= #[trigger] roots[b] < k + 1 && cs[b].contains(
        order[roots[b]],
    ) by {
        assert(roots[b] < k);
    }
    assert(roots[b0] < k);
    assert forall|t: int| 0 <= t < k + 1 implies #[trigger] covered_at(order, cs, roots, t) by {
        if t == k {
            assert(cs[b0].contains(order[t]));
        } else {
            assert(covered_at(order, cs, roots, t));
        }
    }
}

/// Some member of `a` stands in `order` before every member of `b`.
pub open spec fn starts_before(order: Seq<NodeIndex>, a: Seq<NodeIndex>, b: Seq<NodeIndex>) -> bool {
    exists|s: int|
        0 <= s < order.len() && #[trigger] a.contains(order[s]) && forall|t: int|
            0 <= t < order.len() && #[trigger] b.contains(order[t]) ==> s < t
}

/// The blocks of `cs` come in the order in which `order` first meets them.
pub open spec fn ordered_by_first(order: Seq<NodeIndex>, cs: Seq<Seq<NodeIndex>>) -> bool {
    forall|i: int, j: int| 0 <= i < j < cs.len() ==> #[trigger] starts_before(order, cs[i], cs[j])
}

/// Blocks started at rising positions, each position covered by a block
/// started no later, come in the order of their first members.
proof fn lemma_blocks_by_first(order: Seq<NodeIndex>, cs: Seq<Seq<NodeIndex>>, asg: Set<NodeIndex>, roots: Seq<int>)
    requires
        partitions(cs, asg),
        blocks_started(order, order.len() as int, cs, roots),
    ensures
        ordered_by_first(order, cs),
{
    assert forall|i: int, j: int| 0 <= i < j < cs.len() implies #[trigger] starts_before(order, cs[i], cs[j]) by {
        let s0 = roots[i];
        assert(0 <= roots[i] < order.len() && cs[i].contains(order[roots[i]]));
        assert(roots[i] < roots[j]);
        assert forall|t: int| 0 <= t < order.len() && #[trigger] cs[j].contains(order[t]) implies s0 < t by {
            assert(covered_at(order, cs, roots, t));
            let b = choose|b: int| 0 <= b < roots.len() && roots[b] <= t && #[trigger] cs[b].contains(order[t]);
            assert(b == j);
        }
        assert(0 <= s0 < order.len() && cs[i].contains(order[s0]) && forall|t: int|
            0 <= t < order.len() && #[trigger] cs[j].contains(order[t]) ==> s0 < t);
    }
}

/// Position `t` of `order` lies in one of the first `i` blocks of `cs`.
spec fn covered_by_first(order: Seq<NodeIndex>, cs: Seq<Seq<NodeIndex>>, i: int, t: int) -> bool {
    exists|b: int| 0 <= b < i && #[trigger] cs[b].contains(order[t])
}

/// `t` is the first position of `order` outside the first `i` blocks.
spec fn first_uncovered(order: Seq<NodeIndex>, cs: Seq<Seq<NodeIndex>>, i: int, t: int) -> bool {
    &&& 0 <= t < order.len()
    &&& !covered_by_first(order, cs, i, t)
    &&& forall|u: int| 0 <= u < t ==> #[trigger] covered_by_first(order, cs, i, u)
}

/// What the component search promises of its result: the strongly
/// connected components, each ascending, in the order in which the finishing
/// order first meets them.
pub open spec fn components_in_order(network: &RoadNetwork, cs: Seq<Seq<NodeIndex>>) -> bool {
    &&& forall|v: NodeIndex| #[trigger] network.contains(v) ==> finish_order(network).contains(v)
    &&& forall|k: int|
        0 <= k < finish_order(network).len() ==> network.contains(#[trigger] finish_order(network)[k])
    &&& partitions(cs, network.node_map().dom())
    &&& forall|i: int| 0 <= i < cs.len() ==> is_component(network, #[trigger] cs[i])
    &&& ordered_by_first(finish_order(network), cs)
}

proof fn lemma_first_position(order: Seq<NodeIndex>, c: Seq<NodeIndex>, hi: int) -> (t: int)
    requires
        0 <= hi <= order.len(),
        exists|u: int| 0 <= u < hi && #[trigger] c.contains(order[u]),
    ensures
        0 <= t < hi,
        c.contains(order[t]),
        forall|u: int| 0 <= u < t ==> !#[trigger] c.contains(order[u]),
    decreases hi,
{
    let w = choose|u: int| 0 <= u < hi && #[trigger] c.contains(order[u]);
    if exists|u: int| 0 <= u < hi - 1 && #[trigger] c.contains(order[u]) {
        lemma_first_position(order, c, hi - 1)
    } else {
        assert(w == hi - 1);
        hi - 1
    }
}

/// Block `i` holds the first position of `order` that no earlier block holds.
proof fn lemma_block_first_uncovered(network: &RoadNetwork, order: Seq<NodeIndex>, cs: Seq<Seq<NodeIndex>>, i: int) -> (t: int)
    requires
        partitions(cs, network.node_map().dom()),
        ordered_by_first(order, cs),
        forall|v: NodeIndex| #[trigger] network.contains(v) ==> order.contains(v),
        forall|k: int| 0 <= k < order.len() ==> network.contains(#[trigger] order[k]),
        0 <= i < cs.len(),
    ensures
        first_uncovered(order, cs, i, t),
        cs[i].contains(order[t]),
{
    assert(cs[i].len() > 0);
    let v = cs[i][0];
    assert(cs[i].contains(v));
    assert(network.node_map().dom().contains(cs[i][0]));
    assert(network.contains(v));
    let pv = choose|k: int| 0 <= k < order.len() && order[k] == v;
    assert(cs[i].contains(order[pv]));
    let t = lemma_first_position(order, cs[i], order.len() as int);
    assert(!covered_by_first(order, cs, i, t)) by {
        if covered_by_first(order, cs, i, t) {
            let b = choose|b: int| 0 <= b < i && #[trigger] cs[b].contains(order[t]);
        }
    }
    assert forall|u: int| 0 <= u < t implies #[trigger] covered_by_first(order, cs, i, u) by {
        assert(network.node_map().dom().contains(order[u]));
        let b = choose|b: int| 0 <= b < cs.len() && #[trigger] cs[b].contains(order[u]);
        if b > i {
            assert(starts_before(order, cs[i], cs[b]));
            let s0 = choose|s0: int|
                0 <= s0 < order.len() && #[trigger] cs[i].contains(order[s0]) && forall|t2: int|
                    0 <= t2 < order.len() && #[trigger] cs[b].contains(order[t2]) ==> s0 < t2;
            assert(s0 < u);
        } else if b == i {
        } else {
            assert(cs[b].contains(order[u]));
        }
    }
    t
}

/// Two ascending sequences with the same members are equal.
proof fn lemma_ascending_unique(a: Seq<NodeIndex>, b: Seq<NodeIndex>)
    requires
        strictly_ascending(a),
        strictly_ascending(b),
        forall|v: NodeIndex| a.contains(v) <==> b.contains(v),
    ensures
        a == b,
    decreases a.len(),
{
    if a.len() == 0 {
        if b.len() > 0 {
            assert(b.contains(b[0]));
        }
        assert(a =~= b);
    } else {
        assert(a.contains(a[0]));
        assert(b.len() > 0);
        assert(b.contains(b[0]));
        let j = choose|j: int| 0 <= j < b.len() && b[j] == a[0];
        let k = choose|k: int| 0 <= k < a.len() && a[k] == b[0];
        if j > 0 && k > 0 {
            assert(b[0] < b[j]);
            assert(a[0] < a[k]);
        }
        assert(a[0] == b[0]) by {
            if j > 0 {
                assert(b[0] < b[j]);
                if k > 0 {
                    assert(a[0] < a[k]);
                }
            }
        }
        let a1 = a.drop_first();
        let b1 = b.drop_first();
        assert forall|v: NodeIndex| a1.contains(v) <==> b1.contains(v) by {
            if a1.contains(v) {
                let q = choose|q: int| 0 <= q < a1.len() && a1[q] == v;
                assert(a[q + 1] == v);
                assert(a[0] < a[q + 1]);
                assert(a.contains(v));
                assert(b.contains(v));
                let q2 = choose|q2: int| 0 <= q2 < b.len() && b[q2] == v;
                assert(q2 != 0);
                assert(b1[q2 - 1] == v);
            }
            if b1.contains(v) {
                let q = choose|q: int| 0 <= q < b1.len() && b1[q] == v;
                assert(b[q + 1] == v);
                assert(b[0] < b[q + 1]);
                assert(b.contains(v));
                assert(a.contains(v));
                let q2 = choose|q2: int| 0 <= q2 < a.len() && a[q2] == v;
                assert(q2 != 0);
                assert(a1[q2 - 1] == v);
            }
        }
        lemma_ascending_unique(a1, b1);
        assert(a =~= seq![a[0]] + a1);
        assert(b =~= seq![b[0]] + b1);
    }
}

/// The component search's result is determined by the network: two results
/// that both meet its promise are equal.
pub proof fn lemma_components_unique(network: &RoadNetwork, cs1: Seq<Seq<NodeIndex>>, cs2: Seq<Seq<NodeIndex>>)
    requires
        network.wf(),
        components_in_order(network, cs1),
        components_in_order(network, cs2),
    ensures
        cs1 == cs2,
{
    let order = finish_order(network);
    let n = if cs1.len() < cs2.len() { cs1.len() as int } else { cs2.len() as int };
    lemma_blocks_agree(network, order, cs1, cs2, n);
    if cs1.len() != cs2.len() {
        let (short, long) = if cs1.len() < cs2.len() { (cs1, cs2) } else { (cs2, cs1) };
        assert(long[n].len() > 0);
        let v = long[n][0];
        assert(long[n].contains(v));
        assert(network.node_map().dom().contains(long[n][0]));
        let b = choose|b: int| 0 <= b < short.len() && #[trigger] short[b].contains(v);
        assert(short[b].contains(v) <==> long[b].contains(v));
        assert(long[b].contains(v));
    }
    assert forall|i: int| 0 <= i < cs1.len() implies cs1[i] == cs2[i] by {
        lemma_ascending_unique(cs1[i], cs2[i]);
    }
    assert(cs1 =~= cs2);
}

proof fn lemma_blocks_agree(
    network: &RoadNetwork,
    order: Seq<NodeIndex>,
    cs1: Seq<Seq<NodeIndex>>,
    cs2: Seq<Seq<NodeIndex>>,
    i: int,
)
    requires
        order == finish_order(network),
        forall|v: NodeIndex| #[trigger] network.contains(v) ==> order.contains(v),
        forall|k: int| 0 <= k < order.len() ==> network.contains(#[trigger] order[k]),
        components_in_order(network, cs1),
        components_in_order(network, cs2),
        0 <= i <= cs1.len(),
        i <= cs2.len(),
    ensures
        forall|b: int, v: NodeIndex| 0 <= b < i ==> (#[trigger] cs1[b].contains(v) <==> cs2[b].contains(v)),
    decreases i,
{
    if i > 0 {
        let j = i - 1;
        lemma_blocks_agree(network, order, cs1, cs2, j);
        let t1 = lemma_block_first_uncovered(network, order, cs1, j);
        let t2 = lemma_block_first_uncovered(network, order, cs2, j);
        assert forall|t: int| 0 <= t < order.len() implies (covered_by_first(order, cs1, j, t)
            <==> covered_by_first(order, cs2, j, t)) by {
            if covered_by_first(order, cs1, j, t) {
                let b = choose|b: int| 0 <= b < j && #[trigger] cs1[b].contains(order[t]);
                assert(cs2[b].contains(order[t]));
            }
            if covered_by_first(order, cs2, j, t) {
                let b = choose|b: int| 0 <= b < j && #[trigger] cs2[b].contains(order[t]);
                assert(cs1[b].contains(order[t]));
            }
        }
        if t1 < t2 {
            assert(covered_by_first(order, cs2, j, t1));
        } else if t2 < t1 {
            assert(covered_by_first(order, cs1, j, t2));
        }
        let x = order[t1];
        assert(is_component(network, cs1[j]));
        assert(is_component(network, cs2[j]));
        assert forall|v: NodeIndex| #[trigger] cs1[j].contains(v) <==> cs2[j].contains(v) by {
            if cs1[j].contains(v) {
                let q = choose|q: int| 0 <= q < cs1[j].len() && cs1[j][q] == v;
                assert(network.node_map().dom().contains(cs1[j][q]));
            }
            if cs2[j].contains(v) {
                let q = choose|q: int| 0 <= q < cs2[j].len() && cs2[j][q] == v;
                assert(network.node_map().dom().contains(cs2[j][q]));
            }
        }
    }
}

/// Second pass: walks `order` and gives each node not yet assigned a new
/// component, grown along reverse edges.
fn assign_nodes_to_components(network: &RoadNetwork, order: &Vec<NodeIndex>) -> (r: Vec<
    ConnectedComponent,
>)
    requires
        network.wf(),
        forall|i: int| 0 <= i < order@.len() ==> network.contains(#[trigger] order@[i]),
        forall|v: NodeIndex| #[trigger] network.contains(v) ==> order@.contains(v),
        forall|k: int, a: NodeIndex|
            0 <= k < order@.len() && #[trigger] reaches(network, a, order@[k]) && !reaches(network, order@[k], a)
                ==> exists|i: int| 0 <= i < k && #[trigger] mutual(network, order@[i], a),
    ensures
        partitions(component_views(r@), network.node_map().dom()),
        forall|i: int| 0 <= i < r@.len() ==> is_component(network, #[trigger] r@[i]@),
        topologically_ordered(network, component_views(r@)),
        ordered_by_first(order@, component_views(r@)),
{
    let mut assigned: HashSet<NodeIndex> = HashSet::new();
    let ghost mut roots: Seq<int> = Seq::empty();
    let mut result: Vec<ConnectedComponent> = Vec::new();
    let mut k: usize = 0;
    while k < order.len()
        invariant
            network.wf(),
            k <= order@.len(),
            forall|i: int| 0 <= i < order@.len() ==> network.contains(#[trigger] order@[i]),
            forall|i: int| 0 <= i < k ==> assigned@.contains(#[trigger] order@[i]),
            partitions(component_views(result@), assigned@),
            forall|v: NodeIndex| #[trigger] assigned@.contains(v) ==> network.contains(v),
            forall|i: int| 0 <= i < result@.len() ==> is_component(network, #[trigger] result@[i]@),
            forall|k: int, a: NodeIndex|
                0 <= k < order@.len() && #[trigger] reaches(network, a, order@[k]) && !reaches(network, order@[k], a)
                    ==> exists|i: int| 0 <= i < k && #[trigger] mutual(network, order@[i], a),
            blocks_started(order@, k as int, component_views(result@), roots),
        decreases order@.len() - k,
    {
        let root = order[k];
        if !assigned.contains(&root) {
            let ghost before = assigned@;
            let ghost cs0 = component_views(result@);
            let component = build_component(network, root, &mut assigned);
            let ghost r0 = result@;
            result.push(component);
            proof {
                lemma_new_block(network, order@, k as int, before, cs0, component@);
                assert forall|i: int| 0 <= i < result@.len() implies is_component(
                    network,
                    #[trigger] result@[i]@,
                ) by {
                    if i < r0.len() {
                        assert(result@[i] == r0[i]);
                    }
                }
                let cs = component_views(result@);
                assert(cs =~= cs0.push(component@));
                lemma_add_block(order@, k as int, cs0, before, component@, assigned@, roots);
                roots = roots.push(k as int);
            }
        } else {
            proof {
                let cs = component_views(result@);
                let b0 = choose|b: int| 0 <= b < cs.len() && #[trigger] cs[b].contains(root);
                lemma_keep_blocks(order@, k as int, cs, roots, b0);
            }
        }
        k = k + 1;
    }
    proof {
        assert forall|v: NodeIndex| #[trigger] network.contains(v) implies assigned@.contains(v) by {
            let j = choose|j: int| 0 <= j < order@.len() && order@[j] == v;
            assert(assigned@.contains(order@[j]));
        }
        assert forall|v: NodeIndex| #[trigger]
            assigned@.contains(v) <==> network.node_map().dom().contains(v) by {
            if assigned@.contains(v) {
                assert(network.contains(v));
            }
            if network.node_map().dom().contains(v) {
                assert(network.contains(v));
                let j = choose|j: int| 0 <= j < order@.len() && order@[j] == v;
                assert(assigned@.contains(order@[j]));
            }
        }
        assert(assigned@ =~= network.node_map().dom());
        let cs = component_views(result@);
        assert forall|b: int| 0 <= b < cs.len() implies is_component(network, #[trigger] cs[b]) by {
            assert(cs[b] == result@[b]@);
        }
        lemma_blocks_in_order(network, order@, cs, roots);
        lemma_blocks_by_first(order@, cs, assigned@, roots);
        assert(assigned@ =~= network.node_map().dom());
    }
    result
}

proof fn lemma_walk_sub(network: &RoadNetwork, p: Seq<NodeIndex>, cs: Seq<Cost>, i: int, j: int)
    requires
        is_walk(network, p, cs),
        0 <= i <= j < p.len(),
    ensures
        walk_between(network, p.subrange(i, j + 1), cs.subrange(i, j), p[i], p[j]),
        reaches(network, p[i], p[j]),
{
    let q = p.subrange(i, j + 1);
    let ds = cs.subrange(i, j);
    assert forall|k: int| 0 <= k < q.len() implies network.contains(#[trigger] q[k]) by {
        assert(q[k] == p[i + k]);
    }
    assert forall|k: int| #![trigger ds[k]] 0 <= k < ds.len() implies network.out_edges(q[k]).contains(
        Edge { destination: q[k + 1], cost: ds[k] },
    ) by {
        assert(ds[k] == cs[i + k]);
        assert(q[k] == p[i + k]);
        assert(q[k + 1] == p[i + k + 1]);
    }
    assert(q.last() == p[j]);
    assert(walk_between(network, q, ds, p[i], p[j]));
}

proof fn lemma_reaches_nodes(network: &RoadNetwork, a: NodeIndex, b: NodeIndex)
    requires
        reaches(network, a, b),
    ensures
        network.contains(a),
        network.contains(b),
{
    let (p, cs) = choose|p: Seq<NodeIndex>, cs: Seq<Cost>| #[trigger] walk_between(network, p, cs, a, b);
    assert(network.contains(p[0]));
    assert(network.contains(p[p.len() - 1]));
}

proof fn lemma_reaches_edge(network: &RoadNetwork, a: NodeIndex, b: NodeIndex, c: Cost)
    requires
        network.contains(a),
        network.contains(b),
        network.out_edges(a).contains(Edge { destination: b, cost: c }),
    ensures
        reaches(network, a, b),
{
    let p = seq![a, b];
    let cs = seq![c];
    assert(cs[0] == c);
    assert(p.last() == b);
    assert(walk_between(network, p, cs, a, b));
}

proof fn lemma_reaches_trans(network: &RoadNetwork, a: NodeIndex, b: NodeIndex, c: NodeIndex)
    requires
        reaches(network, a, b),
        reaches(network, b, c),
    ensures
        reaches(network, a, c),
{
    let (p1, c1) = choose|p: Seq<NodeIndex>, cs: Seq<Cost>| #[trigger] walk_between(network, p, cs, a, b);
    let (p2, c2) = choose|p: Seq<NodeIndex>, cs: Seq<Cost>| #[trigger] walk_between(network, p, cs, b, c);
    let q = p1 + p2.drop_first();
    let ds = c1 + c2;
    let n1 = p1.len() as int;
    assert forall|k: int| 0 <= k < q.len() implies network.contains(#[trigger] q[k]) by {
        if k < n1 {
            assert(q[k] == p1[k]);
        } else {
            assert(q[k] == p2[k - n1 + 1]);
        }
    }
    assert forall|k: int| #![trigger ds[k]] 0 <= k < ds.len() implies network.out_edges(q[k]).contains(
        Edge { destination: q[k + 1], cost: ds[k] },
    ) by {
        if k < n1 - 1 {
            assert(ds[k] == c1[k]);
            assert(q[k] == p1[k] && q[k + 1] == p1[k + 1]);
        } else {
            let k2 = k - (n1 - 1);
            assert(ds[k] == c2[k2]);
            if k2 == 0 {
                assert(q[k] == p1[n1 - 1]);
                assert(p1[n1 - 1] == p2[0]);
            } else {
                assert(q[k] == p2[k2]);
            }
            assert(q[k + 1] == p2[k2 + 1]);
        }
    }
    if p2.len() == 1 {
        assert(q.last() == p1.last());
    } else {
        assert(q.last() == p2.last());
    }
    assert(walk_between(network, q, ds, a, c));
}

proof fn lemma_reaches_self(network: &RoadNetwork, v: NodeIndex)
    requires
        network.contains(v),
    ensures
        reaches(network, v, v),
{
    let p = seq![v];
    let cs = Seq::<Cost>::empty();
    assert(p.last() == v);
    assert(walk_between(network, p, cs, v, v));
}

/// `u` reaches `v` by a walk that avoids the nodes of `s`.
pub open spec fn reaches_avoiding(network: &RoadNetwork, u: NodeIndex, v: NodeIndex, s: Set<NodeIndex>) -> bool {
    exists|p: Seq<NodeIndex>, cs: Seq<Cost>|
        #[trigger] walk_between(network, p, cs, u, v) && forall|i: int|
            0 <= i < p.len() ==> !s.contains(#[trigger] p[i])
}

/// An incoming edge of a node that reaches `target` avoiding `s` comes from
/// a node that does too, when that node is not in `s`.
proof fn lemma_avoiding_through_in_edge(
    network: &RoadNetwork,
    v: NodeIndex,
    i: int,
    target: NodeIndex,
    s: Set<NodeIndex>,
)
    requires
        network.wf(),
        network.contains(v),
        0 <= i < network.in_edges(v).len(),
        reaches_avoiding(network, v, target, s),
        !s.contains(network.in_edges(v)[i].origin),
    ensures
        reaches_avoiding(network, network.in_edges(v)[i].origin, target, s),
{
    lemma_in_edge_has_out_edge(network, v, i);
    let o = network.in_edges(v)[i].origin;
    let c = network.in_edges(v)[i].cost;
    let (p, cs) = choose|p: Seq<NodeIndex>, cs: Seq<Cost>|
        #[trigger] walk_between(network, p, cs, v, target) && forall|k: int|
            0 <= k < p.len() ==> !s.contains(#[trigger] p[k]);
    let q = seq![o] + p;
    let ds = seq![c] + cs;
    assert forall|j: int| 0 <= j < q.len() implies network.contains(#[trigger] q[j]) && !s.contains(q[j]) by {
        if j > 0 {
            assert(q[j] == p[j - 1]);
        }
    }
    assert forall|j: int| #![trigger ds[j]] 0 <= j < ds.len() implies network.out_edges(q[j]).contains(
        Edge { destination: q[j + 1], cost: ds[j] },
    ) by {
        if j > 0 {
            assert(ds[j] == cs[j - 1]);
            assert(q[j] == p[j - 1]);
            assert(q[j + 1] == p[j]);
        } else {
            assert(q[1] == p[0]);
        }
    }
    assert(q.last() == p.last());
    assert(walk_between(network, q, ds, o, target));
}

proof fn lemma_avoiding_self(network: &RoadNetwork, v: NodeIndex, s: Set<NodeIndex>)
    requires
        network.contains(v),
        !s.contains(v),
    ensures
        reaches_avoiding(network, v, v, s),
{
    let p = seq![v];
    let cs = Seq::<Cost>::empty();
    assert(p.last() == v);
    assert(walk_between(network, p, cs, v, v));
}

proof fn lemma_avoiding_reaches(network: &RoadNetwork, u: NodeIndex, v: NodeIndex, s: Set<NodeIndex>)
    requires
        reaches_avoiding(network, u, v, s),
    ensures
        reaches(network, u, v),
{
    let (p, cs) = choose|p: Seq<NodeIndex>, cs: Seq<Cost>|
        #[trigger] walk_between(network, p, cs, u, v) && forall|k: int|
            0 <= k < p.len() ==> !s.contains(#[trigger] p[k]);
}

/// Every incoming edge of a member of `comp` comes from a node of `asg` or of
/// the stack `st`; for member `x`, only its first `lim` incoming edges count.
spec fn closed_except(
    network: &RoadNetwork,
    comp: Seq<NodeIndex>,
    asg: Set<NodeIndex>,
    st: Seq<NodeIndex>,
    x: NodeIndex,
    lim: int,
) -> bool {
    forall|w: NodeIndex, f: int|
        #![trigger comp.contains(w), network.in_edges(w)[f]]
        comp.contains(w) && 0 <= f < network.in_edges(w).len() && (w != x || f < lim) ==> asg.contains(
            network.in_edges(w)[f].origin,
        ) || st.contains(network.in_edges(w)[f].origin)
}

/// When every incoming edge of a set holding `root` comes from the set or
/// from `initial`, the set holds every node that reaches `root` avoiding `initial`.
proof fn lemma_closed_collects(
    network: &RoadNetwork,
    comp: Seq<NodeIndex>,
    initial: Set<NodeIndex>,
    root: NodeIndex,
    u: NodeIndex,
)
    requires
        network.wf(),
        comp.contains(root),
        closed_except(network, comp, initial.union(comp.to_set()), Seq::empty(), root, network.in_edges(root).len() as int),
        reaches_avoiding(network, u, root, initial),
    ensures
        comp.contains(u),
{
    let (p, cs) = choose|p: Seq<NodeIndex>, cs: Seq<Cost>|
        #[trigger] walk_between(network, p, cs, u, root) && forall|i: int|
            0 <= i < p.len() ==> !initial.contains(#[trigger] p[i]);
    lemma_walk_in_closed(network, comp, initial, root, p, cs, 0);
}

proof fn lemma_walk_in_closed(
    network: &RoadNetwork,
    comp: Seq<NodeIndex>,
    initial: Set<NodeIndex>,
    root: NodeIndex,
    p: Seq<NodeIndex>,
    cs: Seq<Cost>,
    i: int,
)
    requires
        network.wf(),
        comp.contains(root),
        closed_except(network, comp, initial.union(comp.to_set()), Seq::empty(), root, network.in_edges(root).len() as int),
        is_walk(network, p, cs),
        p.last() == root,
        forall|k: int| 0 <= k < p.len() ==> !initial.contains(#[trigger] p[k]),
        0 <= i < p.len(),
    ensures
        comp.contains(p[i]),
    decreases p.len() - i,
{
    if i < p.len() - 1 {
        lemma_walk_in_closed(network, comp, initial, root, p, cs, i + 1);
        let a = p[i];
        let b = p[i + 1];
        assert(network.out_edges(a).contains(Edge { destination: b, cost: cs[i] }));
        let e = choose|e: int| 0 <= e < network.out_edges(a).len() && network.out_edges(a)[e] == Edge {
            destination: b,
            cost: cs[i],
        };
        lemma_out_edge_has_in_edge(network, a, e);
        let f = choose|f: int|
            0 <= f < network.in_edges(b).len() && network.in_edges(b)[f] == ReverseEdge { origin: a, cost: cs[i] };
        assert(network.in_edges(b)[f].origin == a);
        assert(initial.union(comp.to_set()).contains(a) || Seq::<NodeIndex>::empty().contains(a));
        assert(!initial.contains(p[i]));
    } else {
        assert(p[i] == p.last());
    }
}

/// Collects every node not yet assigned that reaches `root` (`root` itself
/// included) by a walk along reverse edges through unassigned nodes, marks
/// them assigned and returns them in ascending order.
fn build_component(
    network: &RoadNetwork,
    root: NodeIndex,
    assigned: &mut HashSet<NodeIndex>,
) -> (r: ConnectedComponent)
    requires
        network.wf(),
        network.contains(root),
        !old(assigned)@.contains(root),
        forall|v: NodeIndex| #[trigger] old(assigned)@.contains(v) ==> network.contains(v),
    ensures
        r@.len() > 0,
        r@.contains(root),
        strictly_ascending(r@),
        final(assigned)@ == old(assigned)@.union(r@.to_set()),
        forall|v: NodeIndex| #[trigger] r@.contains(v) ==> !old(assigned)@.contains(v),
        forall|v: NodeIndex| #[trigger] final(assigned)@.contains(v) ==> network.contains(v),
        forall|v: NodeIndex| #[trigger] r@.contains(v) ==> reaches(network, v, root),
        forall|u: NodeIndex| #[trigger] reaches_avoiding(network, u, root, old(assigned)@) <==> r@.contains(u),
{
    let ghost ids = network.node_ids();
    let ghost n = ids.len();
    let ghost initial = assigned@;
    let mut component: ConnectedComponent = Vec::new();
    let mut stack: Vec<NodeIndex> = Vec::new();
    stack.push(root);
    proof {
        lemma_avoiding_self(network, root, initial);
        assert(stack@[0] == root);
    }
    while stack.len() > 0
        invariant
            network.wf(),
            network.contains(root),
            forall|i: int| 0 <= i < stack@.len() ==> reaches_avoiding(network, #[trigger] stack@[i], root, initial),
            forall|v: NodeIndex| #[trigger] component@.contains(v) ==> reaches_avoiding(network, v, root, initial),
            ids == network.node_ids(),
            n == ids.len(),
            initial == old(assigned)@,
            !initial.contains(root),
            forall|v: NodeIndex| #[trigger] initial.contains(v) ==> network.contains(v),
            forall|v: NodeIndex| #[trigger] assigned@.contains(v) ==> network.contains(v),
            forall|i: int| 0 <= i < stack@.len() ==> network.contains(#[trigger] stack@[i]),
            component@.no_duplicates(),
            assigned@ == initial.union(component@.to_set()),
            forall|v: NodeIndex| #[trigger] component@.contains(v) ==> !initial.contains(v),
            component@.len() > 0 ==> component@.contains(root),
            component@.len() == 0 ==> stack@ == seq![root],
            closed_except(network, component@, assigned@, stack@, root, network.in_edges(root).len() as int),
        decreases n - assigned@.len(), stack@.len(),
    {
        proof {
            lemma_marked_bound(ids, network, assigned@);
        }
        let ghost stack0 = stack@;
        let node_index = stack.pop().unwrap();
        proof {
            assert(stack0[stack0.len() - 1] == node_index);
            assert forall|i: int| 0 <= i < stack@.len() implies reaches(
                network,
                #[trigger] stack@[i],
                root,
            ) by {
                assert(stack@[i] == stack0[i]);
            }
        }
        if !assigned.contains(&node_index) {
            let ghost comp0 = component@;
            let ghost asg0 = assigned@;
            assert(!initial.contains(node_index));
            assigned.insert(node_index);
            component.push(node_index);
            proof {
                assert forall|w: NodeIndex, f: int|
                    #![trigger component@.contains(w), network.in_edges(w)[f]]
                    component@.contains(w) && 0 <= f < network.in_edges(w).len() && (w != node_index
                        || f < 0) implies assigned@.contains(network.in_edges(w)[f].origin)
                    || stack@.contains(network.in_edges(w)[f].origin) by {
                    let j = choose|j: int| 0 <= j < component@.len() && component@[j] == w;
                    assert(comp0[j] == w);
                    assert(comp0.contains(w));
                    let o = network.in_edges(w)[f].origin;
                    if !asg0.contains(o) {
                        let q = choose|q: int| 0 <= q < stack0.len() && stack0[q] == o;
                        if q < stack0.len() - 1 {
                            assert(stack@[q] == o);
                        }
                    }
                }
                assert(assigned@ =~= initial.union(component@.to_set())) by {
                    assert forall|v: NodeIndex| component@.contains(v) <==> comp0.contains(v)
                        || v == node_index by {
                        if component@.contains(v) && v != node_index {
                            let j = choose|j: int| 0 <= j < component@.len() && component@[j] == v;
                            assert(comp0[j] == v);
                        }
                        if comp0.contains(v) {
                            let j = choose|j: int| 0 <= j < comp0.len() && comp0[j] == v;
                            assert(component@[j] == v);
                        }
                        if v == node_index {
                            assert(component@[comp0.len() as int] == v);
                        }
                    }
                }
                assert forall|v: NodeIndex| #[trigger] component@.contains(v) implies !initial.contains(v) by {
                    if v != node_index {
                        let j = choose|j: int| 0 <= j < component@.len() && component@[j] == v;
                        assert(comp0[j] == v);
                        assert(comp0.contains(v));
                    }
                }
                assert forall|v: NodeIndex| #[trigger] component@.contains(v) implies reaches_avoiding(
                    network,
                    v,
                    root,
                    initial,
                ) by {
                    if v != node_index {
                        let j = choose|j: int| 0 <= j < component@.len() && component@[j] == v;
                        assert(comp0[j] == v);
                        assert(comp0.contains(v));
                    }
                }
                if comp0.len() > 0 {
                    let j = choose|j: int| 0 <= j < comp0.len() && comp0[j] == root;
                    assert(component@[j] == root);
                } else {
                    assert(component@[0] == root);
                }
                lemma_marked_bound(ids, network, assigned@);
            }
            let node = network.get_node(node_index).unwrap();
            let mut e: usize = 0;
            while e < node.reverse_neighbours.len()
                invariant
                    network.wf(),
                    network.contains(node_index),
                    *node == network.node_map()[node_index],
                    e <= node.reverse_neighbours@.len(),
                    forall|i: int| 0 <= i < stack@.len() ==> network.contains(#[trigger] stack@[i]),
                    reaches_avoiding(network, node_index, root, initial),
                    forall|v: NodeIndex| #[trigger] initial.contains(v) ==> assigned@.contains(v),
                    forall|i: int|
                        0 <= i < stack@.len() ==> reaches_avoiding(network, #[trigger] stack@[i], root, initial),
                    closed_except(network, component@, assigned@, stack@, node_index, e as int),
                decreases node.reverse_neighbours@.len() - e,
            {
                let origin = node.reverse_neighbours[e].origin;
                proof {
                    assert(network.node_map()[node_index].reverse_neighbours@[e as int].origin
                        == origin);
                }
                let ghost stack1 = stack@;
                if !assigned.contains(&origin) {
                    stack.push(origin);
                    proof {
                        lemma_avoiding_through_in_edge(network, node_index, e as int, root, initial);
                        assert forall|i: int| 0 <= i < stack@.len() implies reaches(
                            network,
                            #[trigger] stack@[i],
                            root,
                        ) by {
                            if i < stack1.len() {
                                assert(stack@[i] == stack1[i]);
                            }
                        }
                        assert(stack@[stack1.len() as int] == origin);
                    }
                }
                proof {
                    assert forall|w: NodeIndex, f: int|
                        #![trigger component@.contains(w), network.in_edges(w)[f]]
                        component@.contains(w) && 0 <= f < network.in_edges(w).len() && (w
                            != node_index || f < e + 1) implies assigned@.contains(
                        network.in_edges(w)[f].origin,
                    ) || stack@.contains(network.in_edges(w)[f].origin) by {
                        let o = network.in_edges(w)[f].origin;
                        if !(w == node_index && f == e) && !assigned@.contains(o) {
                            let q = choose|q: int| 0 <= q < stack1.len() && stack1[q] == o;
                            assert(stack@[q] == o);
                        }
                    }
                }
                e = e + 1;
            }
            proof {
                assert forall|w: NodeIndex, f: int|
                    #![trigger component@.contains(w), network.in_edges(w)[f]]
                    component@.contains(w) && 0 <= f < network.in_edges(w).len() && (w != root || f
                        < network.in_edges(root).len()) implies assigned@.contains(
                    network.in_edges(w)[f].origin,
                ) || stack@.contains(network.in_edges(w)[f].origin) by {
                    assert(w != node_index || f < e);
                }
            }
        } else {
            proof {
                assert forall|w: NodeIndex, f: int|
                    #![trigger component@.contains(w), network.in_edges(w)[f]]
                    component@.contains(w) && 0 <= f < network.in_edges(w).len() && (w != root || f
                        < network.in_edges(root).len()) implies assigned@.contains(
                    network.in_edges(w)[f].origin,
                ) || stack@.contains(network.in_edges(w)[f].origin) by {
                    let o = network.in_edges(w)[f].origin;
                    if !assigned@.contains(o) {
                        let q = choose|q: int| 0 <= q < stack0.len() && stack0[q] == o;
                        if q < stack0.len() - 1 {
                            assert(stack@[q] == o);
                        }
                    }
                }
            }
        }
    }
    proof {
        assert(stack@ =~= Seq::<NodeIndex>::empty());
        assert forall|u: NodeIndex| #[trigger] reaches_avoiding(network, u, root, initial) implies component@.contains(
            u,
        ) by {
            lemma_closed_collects(network, component@, initial, root, u);
        }
    }
    let ghost unsorted = component@;
    sort_ascending(&mut component);
    proof {
        let s = component@;
        unsorted.lemma_multiset_has_no_duplicates();
        assert forall|v: NodeIndex| s.contains(v) <==> unsorted.contains(v) by {
            unsorted.to_multiset_ensures();
            s.to_multiset_ensures();
            assert(s.to_multiset().count(v) == unsorted.to_multiset().count(v));
        }
        assert(s.to_multiset().len() == unsorted.to_multiset().len());
        unsorted.to_multiset_ensures();
        s.to_multiset_ensures();
        s.lemma_multiset_has_no_duplicates_conv();
        assert forall|i: int, j: int| 0 <= i < j < s.len() implies s[i] < s[j] by {
            assert(s[i] != s[j]);
        }
        assert(s.to_set() =~= unsorted.to_set());
        assert forall|v: NodeIndex| #[trigger] s.contains(v) implies reaches(network, v, root) by {
            assert(unsorted.contains(v));
            lemma_avoiding_reaches(network, v, root, initial);
        }
        assert forall|v: NodeIndex| #[trigger] s.contains(v) implies reaches_avoiding(network, v, root, initial) by {
            assert(unsorted.contains(v));
        }
        assert forall|u: NodeIndex| #[trigger] reaches_avoiding(network, u, root, initial) implies s.contains(u) by {
            assert(unsorted.contains(u));
        }
    }
    component
}

} // verus!
