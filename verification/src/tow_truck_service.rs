//! Matching an order with the nearest available tow truck: the road graph of
//! the order's area is built, each candidate's distance to the order is
//! measured on it, and the best candidate within reach is chosen.

use crate::graph::Graph;
use crate::network::{Edge, Network, Node};
use crate::ranking::{best_is_nearest, best_is_unique, is_best, select, Candidate};
use crate::tow_truck::{TowTruck, TowTruckDto};
use vstd::prelude::*;

verus! {

/// The farthest that a tow truck is sent: a candidate beyond it is no match.
pub const MAX_DISPATCH_DISTANCE: i32 = 10_000_000;

/// The tow truck chosen for an order, with its distance to the order.
#[derive(Clone, Debug)]
pub struct VehicleMatch {
    pub vehicle: TowTruckDto,
    pub distance: i32,
}

/// Holds the three stores that the service reads: tow trucks, orders, the map.
#[derive(Debug)]
pub struct TowTruckService<T, U, V> {
    tow_truck_repository: T,
    order_repository: U,
    map_repository: V,
}

impl<T, U, V> TowTruckService<T, U, V> {
    /// The store of tow trucks that the service was made with.
    pub closed spec fn tow_trucks(&self) -> T {
        self.tow_truck_repository
    }

    /// The store of orders that the service was made with.
    pub closed spec fn orders(&self) -> U {
        self.order_repository
    }

    /// The map store that the service was made with.
    pub closed spec fn map(&self) -> V {
        self.map_repository
    }

    /// A service over the three given stores.
    pub fn new(tow_truck_repository: T, order_repository: U, map_repository: V) -> (service: Self)
        ensures
            service.tow_trucks() == tow_truck_repository,
            service.orders() == order_repository,
            service.map() == map_repository,
    {
        TowTruckService { tow_truck_repository, order_repository, map_repository }
    }

    /// The store of tow trucks.
    pub fn tow_truck_repository(&self) -> (repository: &T)
        ensures
            *repository == self.tow_trucks(),
    {
        &self.tow_truck_repository
    }

    /// The store of orders.
    pub fn order_repository(&self) -> (repository: &U)
        ensures
            *repository == self.orders(),
    {
        &self.order_repository
    }

    /// The map store.
    pub fn map_repository(&self) -> (repository: &V)
        ensures
            *repository == self.map(),
    {
        &self.map_repository
    }
}

/// The distance between two nodes of a graph.
pub fn calculate_distance(graph: &Graph, node_id_1: i32, node_id_2: i32) -> (distance: i32)
    requires
        graph.wf(),
    ensures
        distance == graph@.distance(node_id_1, node_id_2),
{
    graph.shortest_path(node_id_1, node_id_2)
}

/// The identifiers that a list of nodes and a list of edges name: those of
/// the nodes, and both ends of every edge.
pub open spec fn named_nodes(nodes: Seq<Node>, edges: Seq<Edge>) -> Set<i32> {
    Set::new(
        |id: i32|
            (exists|i: int| 0 <= i < nodes.len() && (#[trigger] nodes[i]).id == id) || (exists|
                k: int,
            |
                0 <= k < edges.len() && ((#[trigger] edges[k]).node_a_id == id
                    || edges[k].node_b_id == id)),
    )
}

/// The road network that the nodes and edges of one area describe.
pub open spec fn network_of(nodes: Seq<Node>, edges: Seq<Edge>) -> Network {
    Network { nodes: named_nodes(nodes, edges), edges }
}

proof fn lemma_named_one_more_node(nodes: Seq<Node>, node: Node)
    ensures
        named_nodes(nodes.push(node), Seq::empty()) == named_nodes(nodes, Seq::empty()).insert(
            node.id,
        ),
{
    let more = nodes.push(node);
    let none = Seq::<Edge>::empty();
    assert forall|id: i32|
        named_nodes(more, none).contains(id) <==> named_nodes(nodes, none).insert(
            node.id,
        ).contains(id) by {
        if named_nodes(more, none).contains(id) {
            let i = choose|i: int| 0 <= i < more.len() && (#[trigger] more[i]).id == id;
            if i < nodes.len() {
                assert(nodes[i].id == id);
            }
        }
        if named_nodes(nodes, none).contains(id) {
            let i = choose|i: int| 0 <= i < nodes.len() && (#[trigger] nodes[i]).id == id;
            assert(more[i].id == id);
        }
        if id == node.id {
            assert(more[nodes.len() as int].id == id);
        }
    }
    assert(named_nodes(more, none) =~= named_nodes(nodes, none).insert(node.id));
}

proof fn lemma_named_one_more_edge(nodes: Seq<Node>, edges: Seq<Edge>, edge: Edge)
    ensures
        named_nodes(nodes, edges.push(edge)) == named_nodes(nodes, edges).insert(
            edge.node_a_id,
        ).insert(edge.node_b_id),
{
    let more = edges.push(edge);
    let grown = named_nodes(nodes, edges).insert(edge.node_a_id).insert(edge.node_b_id);
    assert forall|id: i32| named_nodes(nodes, more).contains(id) <==> grown.contains(id) by {
        if named_nodes(nodes, more).contains(id) {
            if exists|i: int| 0 <= i < nodes.len() && (#[trigger] nodes[i]).id == id {
            } else {
                let k = choose|k: int|
                    0 <= k < more.len() && ((#[trigger] more[k]).node_a_id == id
                        || more[k].node_b_id == id);
                if k < edges.len() {
                    assert(edges[k].node_a_id == id || edges[k].node_b_id == id);
                }
            }
        }
        if named_nodes(nodes, edges).contains(id) {
            if exists|i: int| 0 <= i < nodes.len() && (#[trigger] nodes[i]).id == id {
            } else {
                let k = choose|k: int|
                    0 <= k < edges.len() && ((#[trigger] edges[k]).node_a_id == id
                        || edges[k].node_b_id == id);
                assert(more[k].node_a_id == id || more[k].node_b_id == id);
            }
        }
        if id == edge.node_a_id || id == edge.node_b_id {
            assert(more[edges.len() as int].node_a_id == id || more[edges.len() as int].node_b_id
                == id);
        }
    }
    assert(named_nodes(nodes, more) =~= grown);
}

/// Builds the graph of one area from its nodes and edges: first every node,
/// then every edge in the order given.
pub fn build_graph(nodes: &Vec<Node>, edges: &Vec<Edge>) -> (graph: Graph)
    ensures
        graph.wf(),
        graph@ == network_of(nodes@, edges@),
{
    let mut graph = Graph::new();
    assert(graph@.nodes =~= named_nodes(nodes@.take(0), Seq::empty()));
    let mut i: usize = 0;
    while i < nodes.len()
        invariant
            i <= nodes.len(),
            graph.wf(),
            graph@.nodes == named_nodes(nodes@.take(i as int), Seq::empty()),
            graph@.edges == Seq::<Edge>::empty(),
        decreases nodes.len() - i,
    {
        proof {
            lemma_named_one_more_node(nodes@.take(i as int), nodes@[i as int]);
            assert(nodes@.take(i as int).push(nodes@[i as int]) =~= nodes@.take(i + 1));
        }
        graph.add_node(nodes[i]);
        i += 1;
    }
    assert(nodes@.take(nodes.len() as int) =~= nodes@);
    assert(edges@.take(0) =~= Seq::<Edge>::empty());
    let mut k: usize = 0;
    while k < edges.len()
        invariant
            k <= edges.len(),
            graph.wf(),
            graph@.nodes == named_nodes(nodes@, edges@.take(k as int)),
            graph@.edges == edges@.take(k as int),
        decreases edges.len() - k,
    {
        proof {
            lemma_named_one_more_edge(nodes@, edges@.take(k as int), edges@[k as int]);
            assert(edges@.take(k as int).push(edges@[k as int]) =~= edges@.take(k + 1));
        }
        graph.add_edge(edges[k]);
        k += 1;
    }
    assert(edges@.take(edges.len() as int) =~= edges@);
    graph
}

/// Each tow truck as a candidate: its identifier and the distance from its
/// node to the target node in the given network.
pub open spec fn candidates_of(net: Network, tow_trucks: Seq<TowTruck>, target: i32) -> Seq<
    Candidate,
> {
    Seq::new(
        tow_trucks.len(),
        |i: int|
            Candidate {
                vehicle_id: tow_trucks[i].id,
                distance: net.distance(tow_trucks[i].node_id, target) as i32,
            },
    )
}

/// Measures the distance of every tow truck to the target node.
pub fn measure_candidates(graph: &Graph, tow_trucks: &Vec<TowTruck>, target: i32) -> (candidates:
    Vec<Candidate>)
    requires
        graph.wf(),
    ensures
        candidates@ == candidates_of(graph@, tow_trucks@, target),
{
    let mut candidates: Vec<Candidate> = Vec::new();
    let mut i: usize = 0;
    while i < tow_trucks.len()
        invariant
            i <= tow_trucks.len(),
            graph.wf(),
            candidates@.len() == i,
            forall|j: int|
                0 <= j < i ==> candidates@[j] == candidates_of(graph@, tow_trucks@, target)[j],
        decreases tow_trucks.len() - i,
    {
        let distance = calculate_distance(graph, tow_trucks[i].node_id, target);
        candidates.push(Candidate { vehicle_id: tow_trucks[i].id, distance });
        i += 1;
    }
    assert(candidates@ =~= candidates_of(graph@, tow_trucks@, target));
    candidates
}

/// The match among measured candidates: the tow truck of the best candidate
/// with that candidate's distance, if the best candidate is within
/// `max_distance`; no match if there is no candidate or the best is farther.
pub open spec fn nearest_of(
    tow_trucks: Seq<TowTruck>,
    candidates: Seq<Candidate>,
    max_distance: i32,
) -> Option<VehicleMatch> {
    if exists|p: int| #[trigger] is_best(candidates, p) && candidates[p].distance <= max_distance {
        let p = choose|p: int| #[trigger]
            is_best(candidates, p) && candidates[p].distance <= max_distance;
        Some(
            VehicleMatch {
                vehicle: TowTruckDto::of(tow_trucks[p]),
                distance: candidates[p].distance,
            },
        )
    } else {
        None
    }
}

/// Chooses the tow truck for an order at `order_node_id` among the available
/// tow trucks of its area, on the road network that `nodes` and `edges`
/// describe. The nearest wins; at equal distance the lower identifier, then
/// the earlier in the list. A tow truck farther than `max_distance`, or one
/// that no road joins to the order, is never chosen.
pub fn select_nearest_tow_truck(
    order_node_id: i32,
    tow_trucks: Vec<TowTruck>,
    nodes: &Vec<Node>,
    edges: &Vec<Edge>,
    max_distance: i32,
) -> (found: Option<VehicleMatch>)
    ensures
        ({
            let measured = candidates_of(network_of(nodes@, edges@), tow_trucks@, order_node_id);
            &&& found == nearest_of(tow_trucks@, measured, max_distance)
            &&& found is None <==> forall|q: int|
                0 <= q < measured.len() ==> (#[trigger] measured[q]).distance > max_distance
            &&& found matches Some(chosen) ==> chosen.distance <= max_distance && forall|q: int|
                0 <= q < measured.len() ==> chosen.distance <= (#[trigger] measured[q]).distance
        }),
{
    let graph = build_graph(nodes, edges);
    let candidates = measure_candidates(&graph, &tow_trucks, order_node_id);
    match select(&candidates, max_distance) {
        None => {
            assert forall|p: int| #[trigger]
                is_best(candidates@, p) implies candidates@[p].distance > max_distance by {}
            None
        },
        Some(p) => {
            proof {
                let q = choose|q: int| #[trigger]
                    is_best(candidates@, q) && candidates@[q].distance <= max_distance;
                best_is_unique(candidates@, p as int, q);
                best_is_nearest(candidates@, p as int);
            }
            let distance = candidates[p].distance;
            let mut rest = tow_trucks;
            let truck = rest.swap_remove(p);
            Some(VehicleMatch { vehicle: TowTruckDto::from_entity(truck), distance })
        },
    }
}

} // verus!
