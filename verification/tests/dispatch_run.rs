use tow_dispatch::dispatch::{
    start, step, CandidateQuery, DispatchAction, DispatchEvent, DispatchState, RoadNetwork, Stage,
    WHOLE_LIST,
};
use tow_dispatch::network::{Edge, Node};
use tow_dispatch::tow_truck::{Order, TowTruck};
use tow_dispatch::tow_truck_service::MAX_DISPATCH_DISTANCE;

type State = DispatchState<String>;
type Event = DispatchEvent<String>;

fn truck(id: i32, node_id: i32) -> TowTruck {
    TowTruck { id, status: "available".to_string(), node_id, area_id: 4 }
}

fn roads() -> RoadNetwork {
    RoadNetwork {
        nodes: vec![Node { id: 1 }, Node { id: 2 }, Node { id: 3 }],
        edges: vec![
            Edge { node_a_id: 1, node_b_id: 2, weight: 5 },
            Edge { node_a_id: 2, node_b_id: 3, weight: 5 },
        ],
    }
}

fn order() -> Order {
    Order { id: 77, node_id: 3, area_id: 4 }
}

fn fetching() -> State {
    let (state, _) = start::<String>(77);
    let (state, _) = step(state, Event::OrderResolved(order()), MAX_DISPATCH_DISTANCE);
    let (state, _) = step(state, Event::AreaResolved(4), MAX_DISPATCH_DISTANCE);
    state
}

#[test]
fn a_run_starts_by_resolving_the_order() {
    let (state, action) = start::<String>(77);
    assert!(matches!(state, DispatchState::ResolveOrder { order_id: 77 }));
    assert!(matches!(action, DispatchAction::ResolveOrder { order_id: 77 }));
}

#[test]
fn the_order_leads_to_its_area() {
    let (state, _) = start::<String>(77);
    let (state, action) = step(state, Event::OrderResolved(order()), MAX_DISPATCH_DISTANCE);
    assert!(matches!(action, DispatchAction::ResolveArea { node_id: 3 }));
    match state {
        DispatchState::ResolveArea { order } => {
            assert_eq!((order.id, order.node_id, order.area_id), (77, 3, 4));
        },
        _ => panic!("the run should be resolving the area"),
    }
}

#[test]
fn the_area_leads_to_both_fetches() {
    let (state, _) = start::<String>(77);
    let (state, _) = step(state, Event::OrderResolved(order()), MAX_DISPATCH_DISTANCE);
    let (state, action) = step(state, Event::AreaResolved(4), MAX_DISPATCH_DISTANCE);
    match action {
        DispatchAction::Fetch { candidates, network_area_id } => {
            let CandidateQuery { page, page_size, available_only, area_id } = candidates;
            assert_eq!(page, 0);
            assert_eq!(page_size, WHOLE_LIST);
            assert_eq!(page_size, -1);
            assert!(available_only);
            assert_eq!(area_id, 4);
            assert_eq!(network_area_id, 4);
        },
        _ => panic!("both fetches should be asked for"),
    }
    assert!(matches!(
        state,
        DispatchState::Fetch { area_id: 4, candidates: None, network: None, .. }
    ));
}

#[test]
fn candidates_first_then_network() {
    let (state, action) = step(
        fetching(),
        Event::CandidatesFetched(vec![truck(10, 1), truck(20, 2)]),
        MAX_DISPATCH_DISTANCE,
    );
    assert!(matches!(action, DispatchAction::Await));
    assert!(matches!(state, DispatchState::Fetch { candidates: Some(_), network: None, .. }));
    let (state, action) = step(state, Event::NetworkFetched(roads()), MAX_DISPATCH_DISTANCE);
    assert!(matches!(action, DispatchAction::Finish));
    match state {
        DispatchState::Done { result: Some(found) } => {
            assert_eq!(found.vehicle.id, 20);
            assert_eq!(found.distance, 5);
        },
        _ => panic!("the run should have ended with a match"),
    }
}

#[test]
fn network_first_then_candidates() {
    let (state, action) = step(fetching(), Event::NetworkFetched(roads()), MAX_DISPATCH_DISTANCE);
    assert!(matches!(action, DispatchAction::Await));
    assert!(matches!(state, DispatchState::Fetch { candidates: None, network: Some(_), .. }));
    let (state, action) = step(
        state,
        Event::CandidatesFetched(vec![truck(10, 1), truck(20, 2)]),
        MAX_DISPATCH_DISTANCE,
    );
    assert!(matches!(action, DispatchAction::Finish));
    match state {
        DispatchState::Done { result: Some(found) } => {
            assert_eq!(found.vehicle.id, 20);
            assert_eq!(found.distance, 5);
        },
        _ => panic!("the run should have ended with a match"),
    }
}

#[test]
fn no_candidate_within_reach_ends_without_match() {
    let (state, _) = step(fetching(), Event::NetworkFetched(roads()), MAX_DISPATCH_DISTANCE);
    let (state, action) =
        step(state, Event::CandidatesFetched(vec![truck(10, 9)]), MAX_DISPATCH_DISTANCE);
    assert!(matches!(action, DispatchAction::Finish));
    assert!(matches!(state, DispatchState::Done { result: None }));
}

#[test]
fn the_threshold_of_the_step_decides() {
    let (state, _) = step(fetching(), Event::NetworkFetched(roads()), 4);
    let (state, _) = step(state, Event::CandidatesFetched(vec![truck(20, 2)]), 4);
    assert!(matches!(state, DispatchState::Done { result: None }));
    let (state, _) = step(fetching(), Event::NetworkFetched(roads()), 5);
    let (state, _) = step(state, Event::CandidatesFetched(vec![truck(20, 2)]), 5);
    assert!(matches!(state, DispatchState::Done { result: Some(_) }));
}

#[test]
fn a_failed_order_lookup_ends_the_run() {
    let (state, _) = start::<String>(77);
    let (state, action) = step(
        state,
        Event::Failed { stage: Stage::ResolveOrder, error: "no such order".to_string() },
        MAX_DISPATCH_DISTANCE,
    );
    assert!(matches!(action, DispatchAction::Finish));
    match state {
        DispatchState::Failed { stage, error } => {
            assert_eq!(stage, Stage::ResolveOrder);
            assert_eq!(error, "no such order");
        },
        _ => panic!("the run should have failed"),
    }
}

#[test]
fn a_failed_area_lookup_ends_the_run() {
    let (state, _) = start::<String>(77);
    let (state, _) = step(state, Event::OrderResolved(order()), MAX_DISPATCH_DISTANCE);
    let (state, action) = step(
        state,
        Event::Failed { stage: Stage::ResolveArea, error: "unmapped".to_string() },
        MAX_DISPATCH_DISTANCE,
    );
    assert!(matches!(action, DispatchAction::Finish));
    assert!(matches!(state, DispatchState::Failed { stage: Stage::ResolveArea, .. }));
}

#[test]
fn a_failed_fetch_ends_the_run_even_with_the_other_half_there() {
    let (state, _) =
        step(fetching(), Event::CandidatesFetched(vec![truck(10, 1)]), MAX_DISPATCH_DISTANCE);
    let (state, action) = step(
        state,
        Event::Failed { stage: Stage::FetchNetwork, error: "timeout".to_string() },
        MAX_DISPATCH_DISTANCE,
    );
    assert!(matches!(action, DispatchAction::Finish));
    match state {
        DispatchState::Failed { stage, error } => {
            assert_eq!(stage, Stage::FetchNetwork);
            assert_eq!(error, "timeout");
        },
        _ => panic!("the run should have failed"),
    }
    let (state, _) = step(
        fetching(),
        Event::Failed { stage: Stage::FetchCandidates, error: "down".to_string() },
        MAX_DISPATCH_DISTANCE,
    );
    assert!(matches!(state, DispatchState::Failed { stage: Stage::FetchCandidates, .. }));
}

#[test]
fn an_event_that_is_not_awaited_changes_nothing() {
    let (state, _) = start::<String>(77);
    let (state, action) = step(state, Event::AreaResolved(4), MAX_DISPATCH_DISTANCE);
    assert!(matches!(action, DispatchAction::Await));
    assert!(matches!(state, DispatchState::ResolveOrder { order_id: 77 }));
    let (state, action) = step(
        state,
        Event::Failed { stage: Stage::FetchNetwork, error: "late".to_string() },
        MAX_DISPATCH_DISTANCE,
    );
    assert!(matches!(action, DispatchAction::Await));
    assert!(matches!(state, DispatchState::ResolveOrder { order_id: 77 }));
    let (state, action) = step(fetching(), Event::OrderResolved(order()), MAX_DISPATCH_DISTANCE);
    assert!(matches!(action, DispatchAction::Await));
    assert!(matches!(state, DispatchState::Fetch { candidates: None, network: None, .. }));
}

#[test]
fn a_second_answer_of_the_same_kind_is_ignored() {
    let (state, _) =
        step(fetching(), Event::CandidatesFetched(vec![truck(20, 2)]), MAX_DISPATCH_DISTANCE);
    let (state, action) =
        step(state, Event::CandidatesFetched(vec![truck(10, 3)]), MAX_DISPATCH_DISTANCE);
    assert!(matches!(action, DispatchAction::Await));
    let (state, _) = step(state, Event::NetworkFetched(roads()), MAX_DISPATCH_DISTANCE);
    match state {
        DispatchState::Done { result: Some(found) } => assert_eq!(found.vehicle.id, 20),
        _ => panic!("the run should have ended with a match"),
    }
}

#[test]
fn a_finished_run_stays_finished() {
    let (state, _) = step(fetching(), Event::NetworkFetched(roads()), MAX_DISPATCH_DISTANCE);
    let (state, _) =
        step(state, Event::CandidatesFetched(vec![truck(20, 2)]), MAX_DISPATCH_DISTANCE);
    let (state, action) = step(state, Event::AreaResolved(9), MAX_DISPATCH_DISTANCE);
    assert!(matches!(action, DispatchAction::Finish));
    assert!(matches!(state, DispatchState::Done { result: Some(_) }));
    let failed: State = DispatchState::Failed { stage: Stage::ResolveOrder, error: "x".to_string() };
    let (state, action) = step(failed, Event::OrderResolved(order()), MAX_DISPATCH_DISTANCE);
    assert!(matches!(action, DispatchAction::Finish));
    assert!(matches!(state, DispatchState::Failed { stage: Stage::ResolveOrder, .. }));
}
