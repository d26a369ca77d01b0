use vstd::prelude::*;
use itertools::Itertools;

use crate::osm_reader::{highway_of, tag_value, OsmNd, OsmWay};
use crate::road_network::{Cost, Edge, NetworkError, NodeIndex, RoadNetwork};

verus! {

/// The pairs of consecutive elements of `s`, in order.
pub open spec fn windows(s: Seq<NodeIndex>) -> Seq<(NodeIndex, NodeIndex)> {
    Seq::new(
        if s.len() > 0 {
            (s.len() - 1) as nat
        } else {
            0
        },
        |i: int| (s[i], s[i + 1]),
    )
}

/// The node identifiers that a way references, in order.
pub open spec fn refs_of(nds: Seq<OsmNd>) -> Seq<NodeIndex> {
    nds.map_values(|nd: OsmNd| nd.ref_)
}

/// Relies on `Itertools::tuple_windows` over pairs: it yields each pair of
/// consecutive items once, in order, and nothing for fewer than two items.
#[verifier::external_body]
fn consecutive_pairs(refs: &Vec<NodeIndex>) -> (r: Vec<(NodeIndex, NodeIndex)>)
    ensures
        r@ == windows(refs@),
{
    refs.iter().cloned().tuple_windows::<(NodeIndex, NodeIndex)>().collect()
}

/// The road segments of a way: each pair of consecutive node references.
pub fn way_segments(way: &OsmWay) -> (r: Vec<(NodeIndex, NodeIndex)>)
    ensures
        r@ == windows(refs_of(way.nodes@)),
{
    let mut refs: Vec<NodeIndex> = Vec::new();
    let mut i: usize = 0;
    while i < way.nodes.len()
        invariant
            i <= way.nodes@.len(),
            refs@ == refs_of(way.nodes@).take(i as int),
        decreases way.nodes@.len() - i,
    {
        refs.push(way.nodes[i].ref_);
        proof {
            assert(refs@ =~= refs_of(way.nodes@).take(i as int + 1));
        }
        i = i + 1;
    }
    proof {
        assert(refs@ =~= refs_of(way.nodes@));
    }
    consecutive_pairs(&refs)
}

/// The directed edges that a way contributes, as (origin, destination,
/// cost): each segment forward, and backward too unless the way is one-way.
pub open spec fn way_edges(
    segments: Seq<(NodeIndex, NodeIndex)>,
    costs: Seq<Cost>,
    oneway: bool,
) -> Seq<(NodeIndex, NodeIndex, Cost)>
    decreases segments.len(),
{
    if segments.len() == 0 {
        Seq::empty()
    } else {
        let before = way_edges(segments.drop_last(), costs, oneway);
        let (a, b) = segments.last();
        let c = costs[segments.len() - 1];
        if oneway {
            before.push((a, b, c))
        } else {
            before.push((a, b, c)).push((b, a, c))
        }
    }
}

/// The edges of `es` that leave `u`, in order.
pub open spec fn edges_from(es: Seq<(NodeIndex, NodeIndex, Cost)>, u: NodeIndex) -> Seq<Edge>
    decreases es.len(),
{
    if es.len() == 0 {
        Seq::empty()
    } else {
        let before = edges_from(es.drop_last(), u);
        let (a, b, c) = es.last();
        if a == u {
            before.push(Edge { destination: b, cost: c })
        } else {
            before
        }
    }
}

/// Whether the way is tagged `oneway=yes`.
pub open spec fn oneway_of(way: &OsmWay) -> bool {
    tag_value(way.tags@, "oneway"@) == Some("yes"@)
}

/// Whether the way is a road of a recognised class.
pub open spec fn is_road(way: &OsmWay) -> bool {
    match tag_value(way.tags@, "highway"@) {
        Some(v) => highway_of(v) is Some,
        None => false,
    }
}

proof fn lemma_edges_from_push(es: Seq<(NodeIndex, NodeIndex, Cost)>, t: (NodeIndex, NodeIndex, Cost))
    ensures
        forall|u: NodeIndex| #[trigger]
            edges_from(es.push(t), u) == if t.0 == u {
                edges_from(es, u).push(Edge { destination: t.1, cost: t.2 })
            } else {
                edges_from(es, u)
            },
{
    assert(es.push(t).drop_last() =~= es);
}

/// Adds the edges of a road way to the network: for each segment, with the
/// cost given for it, an edge forward and, unless the way is one-way, one
/// backward. A way that is not a road of a recognised class is skipped. A
/// node reference that is not in the network is an error, reported before
/// anything changes.
pub fn add_way_to_network(network: &mut RoadNetwork, way: &OsmWay, costs: &Vec<Cost>) -> (r: Result<
    (),
    NetworkError,
>)
    requires
        old(network).wf(),
        costs@.len() == windows(refs_of(way.nodes@)).len(),
        old(network).edge_count() + 2 * costs@.len() <= usize::MAX,
    ensures
        final(network).wf(),
        final(network).node_ids() == old(network).node_ids(),
        final(network).node_map().dom() == old(network).node_map().dom(),
        !is_road(way) ==> r is Ok && final(network).node_map() == old(network).node_map(),
        is_road(way) && (forall|i: int|
            0 <= i < way.nodes@.len() ==> old(network).contains(#[trigger] way.nodes@[i].ref_))
            ==> {
            &&& r is Ok
            &&& forall|u: NodeIndex| #[trigger]
                old(network).contains(u) ==> final(network).out_edges(u) == old(network).out_edges(u)
                    + edges_from(
                    way_edges(windows(refs_of(way.nodes@)), costs@, oneway_of(way)),
                    u,
                )
        },
        is_road(way) && (exists|i: int|
            0 <= i < way.nodes@.len() && !old(network).contains(#[trigger] way.nodes@[i].ref_))
            ==> r is Err,
        r is Err ==> {
            &&& final(network).node_map() == old(network).node_map()
            &&& exists|i: int|
                0 <= i < way.nodes@.len() && !old(network).contains(#[trigger] way.nodes@[i].ref_)
                    && r == Err::<(), NetworkError>(
                    NetworkError::UnknownEndpoint(way.nodes@[i].ref_),
                ) && forall|j: int| 0 <= j < i ==> old(network).contains(#[trigger] way.nodes@[j].ref_)
        },
{
    if way.highway_type().is_none() {
        return Ok(());
    }
    let mut i: usize = 0;
    while i < way.nodes.len()
        invariant
            network.wf(),
            is_road(way),
            i <= way.nodes@.len(),
            forall|j: int| 0 <= j < i ==> network.contains(#[trigger] way.nodes@[j].ref_),
        decreases way.nodes@.len() - i,
    {
        let id = way.nodes[i].ref_;
        if network.get_node(id).is_none() {
            proof {
                assert(!network.contains(way.nodes@[i as int].ref_));
            }
            return Err(NetworkError::UnknownEndpoint(id));
        }
        i = i + 1;
    }
    let oneway = way.is_oneway();
    let segments = way_segments(way);
    let ghost old_net = *network;
    let ghost segs = segments@;
    let mut k: usize = 0;
    while k < segments.len()
        invariant
            network.wf(),
            old_net.wf(),
            segs == segments@,
            segs == windows(refs_of(way.nodes@)),
            costs@.len() == segs.len(),
            k <= segs.len(),
            oneway == oneway_of(way),
            forall|j: int| 0 <= j < way.nodes@.len() ==> old_net.contains(#[trigger] way.nodes@[j].ref_),
            network.node_ids() == old_net.node_ids(),
            network.node_map().dom() == old_net.node_map().dom(),
            network.edge_count() <= old_net.edge_count() + 2 * k,
            old_net.edge_count() + 2 * costs@.len() <= usize::MAX,
            forall|u: NodeIndex| #[trigger]
                old_net.contains(u) ==> network.out_edges(u) == old_net.out_edges(u) + edges_from(
                    way_edges(segs.take(k as int), costs@, oneway),
                    u,
                ),
        decreases segs.len() - k,
    {
        let (a, b) = segments[k];
        let c = costs[k];
        let ghost before = way_edges(segs.take(k as int), costs@, oneway);
        proof {
            assert(segs.take(k as int + 1).drop_last() =~= segs.take(k as int));
            assert(segs.take(k as int + 1).last() == segs[k as int]);
            assert(refs_of(way.nodes@)[k as int] == way.nodes@[k as int].ref_);
            assert(refs_of(way.nodes@)[k as int + 1] == way.nodes@[k as int + 1].ref_);
            assert(old_net.contains(way.nodes@[k as int].ref_));
            assert(old_net.contains(way.nodes@[k as int + 1].ref_));
            lemma_edges_from_push(before, (a, b, c));
            lemma_edges_from_push(before.push((a, b, c)), (b, a, c));
        }
        let ghost mid = *network;
        let _ = network.add_edge(a, b, c);
        proof {
            assert forall|u: NodeIndex| #[trigger] old_net.contains(u) implies network.out_edges(u)
                == old_net.out_edges(u) + edges_from(before.push((a, b, c)), u) by {
                assert(mid.out_edges(u) == old_net.out_edges(u) + edges_from(before, u));
                if u == a {
                    assert(network.out_edges(u) =~= old_net.out_edges(u) + edges_from(
                        before.push((a, b, c)),
                        u,
                    ));
                }
            }
        }
        if !oneway {
            let ghost mid2 = *network;
            let _ = network.add_edge(b, a, c);
            proof {
                assert forall|u: NodeIndex| #[trigger] old_net.contains(u) implies network.out_edges(u)
                    == old_net.out_edges(u) + edges_from(before.push((a, b, c)).push((b, a, c)), u) by {
                    assert(mid2.out_edges(u) == old_net.out_edges(u) + edges_from(
                        before.push((a, b, c)),
                        u,
                    ));
                    if u == b {
                        assert(network.out_edges(u) =~= old_net.out_edges(u) + edges_from(
                            before.push((a, b, c)).push((b, a, c)),
                            u,
                        ));
                    }
                }
            }
        }
        k = k + 1;
    }
    proof {
        assert(segs.take(k as int) =~= segs);
    }
    Ok(())
}

} // verus!
