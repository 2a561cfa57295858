//! One matching request as a state machine. The engine decides; whoever
//! drives it performs each request against the stores and reports what came
//! back. The order is resolved, then its area; the candidates and the road
//! network of that area are then fetched, in either order or at once; when
//! both are there the match is computed. A failed request ends the run.

use crate::network::{Edge, Node};
use crate::tow_truck::{Order, TowTruck};
use crate::tow_truck_service::{
    candidates_of, nearest_of, network_of, select_nearest_tow_truck, VehicleMatch,
};
use vstd::prelude::*;

verus! {

/// The page size that asks a store for the whole list at once.
pub const WHOLE_LIST: i32 = -1;

/// The requests that a run makes, each named by what it is for.
#[derive(Clone, Copy, Debug, PartialEq, Eq, Structural)]
pub enum Stage {
    ResolveOrder,
    ResolveArea,
    FetchCandidates,
    FetchNetwork,
}

/// The road network of one area as a store returns it.
#[derive(Clone, Debug)]
pub struct RoadNetwork {
    pub nodes: Vec<Node>,
    pub edges: Vec<Edge>,
}

/// What is asked of the tow truck store.
#[derive(Clone, Copy, Debug)]
pub struct CandidateQuery {
    pub page: i32,
    pub page_size: i32,
    pub available_only: bool,
    pub area_id: i32,
}

impl CandidateQuery {
    /// All available tow trucks of one area, in one answer.
    pub open spec fn available_in(area_id: i32) -> CandidateQuery {
        CandidateQuery { page: 0, page_size: WHOLE_LIST, available_only: true, area_id }
    }
}

/// Where a run stands, with what it has gathered so far.
#[derive(Debug)]
pub enum DispatchState<E> {
    /// The order is being looked up.
    ResolveOrder { order_id: i32 },
    /// The area of the order's node is being looked up.
    ResolveArea { order: Order },
    /// The candidates and the road network of the area are being fetched.
    Fetch {
        order: Order,
        area_id: i32,
        candidates: Option<Vec<TowTruck>>,
        network: Option<RoadNetwork>,
    },
    /// The run ended with a match or with none.
    Done { result: Option<VehicleMatch> },
    /// The run ended because a request failed; the error is the store's own.
    Failed { stage: Stage, error: E },
}

/// What the driver reports back.
#[derive(Debug)]
pub enum DispatchEvent<E> {
    OrderResolved(Order),
    AreaResolved(i32),
    CandidatesFetched(Vec<TowTruck>),
    NetworkFetched(RoadNetwork),
    Failed { stage: Stage, error: E },
}

/// What the driver is to do next.
#[derive(Clone, Copy, Debug)]
pub enum DispatchAction {
    /// Look up the order.
    ResolveOrder { order_id: i32 },
    /// Look up the area of a node.
    ResolveArea { node_id: i32 },
    /// Fetch the candidates and the nodes and edges of the area. The two do
    /// not depend on each other.
    Fetch { candidates: CandidateQuery, network_area_id: i32 },
    /// Nothing new: report the next answer when it arrives.
    Await,
    /// The run is over: the state holds the outcome.
    Finish,
}

/// The match for an order once its candidates and road network are known.
pub open spec fn match_of(
    order: Order,
    found: Vec<TowTruck>,
    roads: RoadNetwork,
    max_distance: i32,
) -> Option<VehicleMatch> {
    nearest_of(
        found@,
        candidates_of(network_of(roads.nodes@, roads.edges@), found@, order.node_id),
        max_distance,
    )
}

/// The state and the action that follow a state and an event. An event that
/// the state does not wait for changes nothing.
pub open spec fn next<E>(state: DispatchState<E>, event: DispatchEvent<E>, max_distance: i32) -> (
    DispatchState<E>,
    DispatchAction,
) {
    match state {
        DispatchState::ResolveOrder { order_id } => match event {
            DispatchEvent::OrderResolved(order) => (
                DispatchState::ResolveArea { order },
                DispatchAction::ResolveArea { node_id: order.node_id },
            ),
            DispatchEvent::Failed { stage: Stage::ResolveOrder, error } => (
                DispatchState::Failed { stage: Stage::ResolveOrder, error },
                DispatchAction::Finish,
            ),
            _ => (state, DispatchAction::Await),
        },
        DispatchState::ResolveArea { order } => match event {
            DispatchEvent::AreaResolved(area_id) => (
                DispatchState::Fetch { order, area_id, candidates: None, network: None },
                DispatchAction::Fetch {
                    candidates: CandidateQuery::available_in(area_id),
                    network_area_id: area_id,
                },
            ),
            DispatchEvent::Failed { stage: Stage::ResolveArea, error } => (
                DispatchState::Failed { stage: Stage::ResolveArea, error },
                DispatchAction::Finish,
            ),
            _ => (state, DispatchAction::Await),
        },
        DispatchState::Fetch { order, area_id, candidates, network } => match event {
            DispatchEvent::CandidatesFetched(found) => match (candidates, network) {
                (None, Some(roads)) => (
                    DispatchState::Done { result: match_of(order, found, roads, max_distance) },
                    DispatchAction::Finish,
                ),
                (None, None) => (
                    DispatchState::Fetch { order, area_id, candidates: Some(found), network: None },
                    DispatchAction::Await,
                ),
                _ => (state, DispatchAction::Await),
            },
            DispatchEvent::NetworkFetched(roads) => match (candidates, network) {
                (Some(found), None) => (
                    DispatchState::Done { result: match_of(order, found, roads, max_distance) },
                    DispatchAction::Finish,
                ),
                (None, None) => (
                    DispatchState::Fetch { order, area_id, candidates: None, network: Some(roads) },
                    DispatchAction::Await,
                ),
                _ => (state, DispatchAction::Await),
            },
            DispatchEvent::Failed { stage: Stage::FetchCandidates, error } => (
                DispatchState::Failed { stage: Stage::FetchCandidates, error },
                DispatchAction::Finish,
            ),
            DispatchEvent::Failed { stage: Stage::FetchNetwork, error } => (
                DispatchState::Failed { stage: Stage::FetchNetwork, error },
                DispatchAction::Finish,
            ),
            _ => (state, DispatchAction::Await),
        },
        DispatchState::Done { .. } => (state, DispatchAction::Finish),
        DispatchState::Failed { .. } => (state, DispatchAction::Finish),
    }
}

/// The state in which the run for an order starts, and its first request.
pub fn start<E>(order_id: i32) -> (r: (DispatchState<E>, DispatchAction))
    ensures
        r.0 == (DispatchState::<E>::ResolveOrder { order_id }),
        r.1 == (DispatchAction::ResolveOrder { order_id }),
{
    (DispatchState::ResolveOrder { order_id }, DispatchAction::ResolveOrder { order_id })
}

/// Takes one event: gives the state that follows and what to do next. When the
/// second of the candidates and the road network arrives, the graph is built,
/// the distances are measured and the match is chosen. `max_distance` is the
/// acceptance threshold of the match.
pub fn step<E>(state: DispatchState<E>, event: DispatchEvent<E>, max_distance: i32) -> (r: (
    DispatchState<E>,
    DispatchAction,
))
    ensures
        r == next(state, event, max_distance),
{
    match state {
        DispatchState::ResolveOrder { order_id } => match event {
            DispatchEvent::OrderResolved(order) => {
                let node_id = order.node_id;
                (DispatchState::ResolveArea { order }, DispatchAction::ResolveArea { node_id })
            },
            DispatchEvent::Failed { stage: Stage::ResolveOrder, error } => (
                DispatchState::Failed { stage: Stage::ResolveOrder, error },
                DispatchAction::Finish,
            ),
            _ => (DispatchState::ResolveOrder { order_id }, DispatchAction::Await),
        },
        DispatchState::ResolveArea { order } => match event {
            DispatchEvent::AreaResolved(area_id) => (
                DispatchState::Fetch { order, area_id, candidates: None, network: None },
                DispatchAction::Fetch {
                    candidates: CandidateQuery {
                        page: 0,
                        page_size: WHOLE_LIST,
                        available_only: true,
                        area_id,
                    },
                    network_area_id: area_id,
                },
            ),
            DispatchEvent::Failed { stage: Stage::ResolveArea, error } => (
                DispatchState::Failed { stage: Stage::ResolveArea, error },
                DispatchAction::Finish,
            ),
            _ => (DispatchState::ResolveArea { order }, DispatchAction::Await),
        },
        DispatchState::Fetch { order, area_id, candidates, network } => match event {
            DispatchEvent::CandidatesFetched(found) => match (candidates, network) {
                (None, Some(roads)) => {
                    let result = select_nearest_tow_truck(
                        order.node_id,
                        found,
                        &roads.nodes,
                        &roads.edges,
                        max_distance,
                    );
                    (DispatchState::Done { result }, DispatchAction::Finish)
                },
                (None, None) => (
                    DispatchState::Fetch { order, area_id, candidates: Some(found), network: None },
                    DispatchAction::Await,
                ),
                (candidates, network) => (
                    DispatchState::Fetch { order, area_id, candidates, network },
                    DispatchAction::Await,
                ),
            },
            DispatchEvent::NetworkFetched(roads) => match (candidates, network) {
                (Some(found), None) => {
                    let result = select_nearest_tow_truck(
                        order.node_id,
                        found,
                        &roads.nodes,
                        &roads.edges,
                        max_distance,
                    );
                    (DispatchState::Done { result }, DispatchAction::Finish)
                },
                (None, None) => (
                    DispatchState::Fetch { order, area_id, candidates: None, network: Some(roads) },
                    DispatchAction::Await,
                ),
                (candidates, network) => (
                    DispatchState::Fetch { order, area_id, candidates, network },
                    DispatchAction::Await,
                ),
            },
            DispatchEvent::Failed { stage: Stage::FetchCandidates, error } => (
                DispatchState::Failed { stage: Stage::FetchCandidates, error },
                DispatchAction::Finish,
            ),
            DispatchEvent::Failed { stage: Stage::FetchNetwork, error } => (
                DispatchState::Failed { stage: Stage::FetchNetwork, error },
                DispatchAction::Finish,
            ),
            _ => (
                DispatchState::Fetch { order, area_id, candidates, network },
                DispatchAction::Await,
            ),
        },
        DispatchState::Done { result } => (DispatchState::Done { result }, DispatchAction::Finish),
        DispatchState::Failed { stage, error } => (
            DispatchState::Failed { stage, error },
            DispatchAction::Finish,
        ),
    }
}

} // verus!
