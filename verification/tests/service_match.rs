use tow_dispatch::graph::Graph;
use tow_dispatch::network::{Edge, Node, UNREACHABLE};
use tow_dispatch::tow_truck::{to_dtos, TowTruck, TowTruckDto};
use tow_dispatch::tow_truck_service::{
    build_graph, calculate_distance, measure_candidates, select_nearest_tow_truck,
    TowTruckService, MAX_DISPATCH_DISTANCE,
};

fn edge(a: i32, b: i32, weight: u32) -> Edge {
    Edge { node_a_id: a, node_b_id: b, weight }
}

fn truck(id: i32, node_id: i32) -> TowTruck {
    TowTruck { id, status: "available".to_string(), node_id, area_id: 1 }
}

fn line_nodes() -> Vec<Node> {
    vec![Node { id: 1 }, Node { id: 2 }, Node { id: 3 }]
}

fn line_edges() -> Vec<Edge> {
    vec![edge(1, 2, 5), edge(2, 3, 5)]
}

#[test]
fn the_threshold_is_ten_million() {
    assert_eq!(MAX_DISPATCH_DISTANCE, 10_000_000);
}

#[test]
fn the_nearer_vehicle_wins() {
    let trucks = vec![truck(10, 1), truck(20, 2)];
    let found =
        select_nearest_tow_truck(3, trucks, &line_nodes(), &line_edges(), MAX_DISPATCH_DISTANCE)
            .unwrap();
    assert_eq!(found.vehicle.id, 20);
    assert_eq!(found.vehicle.node_id, 2);
    assert_eq!(found.distance, 5);
}

#[test]
fn no_road_to_any_vehicle_is_no_match() {
    let nodes = vec![Node { id: 1 }, Node { id: 2 }, Node { id: 3 }];
    let edges = vec![edge(1, 2, 5)];
    let trucks = vec![truck(10, 1), truck(20, 2)];
    let found = select_nearest_tow_truck(3, trucks, &nodes, &edges, MAX_DISPATCH_DISTANCE);
    assert!(found.is_none());
}

#[test]
fn a_vehicle_at_the_order_is_selected_at_distance_zero() {
    let trucks = vec![truck(10, 3)];
    let found =
        select_nearest_tow_truck(3, trucks, &line_nodes(), &line_edges(), MAX_DISPATCH_DISTANCE)
            .unwrap();
    assert_eq!(found.vehicle.id, 10);
    assert_eq!(found.distance, 0);
}

#[test]
fn a_tie_goes_to_the_lower_vehicle_id() {
    let nodes = vec![Node { id: 1 }, Node { id: 2 }, Node { id: 3 }];
    let edges = vec![edge(1, 2, 5), edge(3, 2, 5)];
    for _ in 0..5 {
        let found = select_nearest_tow_truck(
            2,
            vec![truck(20, 1), truck(10, 3)],
            &nodes,
            &edges,
            MAX_DISPATCH_DISTANCE,
        )
        .unwrap();
        assert_eq!(found.vehicle.id, 10);
        assert_eq!(found.distance, 5);
        let swapped = select_nearest_tow_truck(
            2,
            vec![truck(10, 3), truck(20, 1)],
            &nodes,
            &edges,
            MAX_DISPATCH_DISTANCE,
        )
        .unwrap();
        assert_eq!(swapped.vehicle.id, 10);
    }
}

#[test]
fn no_candidates_is_no_match() {
    let found =
        select_nearest_tow_truck(3, Vec::new(), &line_nodes(), &line_edges(), MAX_DISPATCH_DISTANCE);
    assert!(found.is_none());
}

#[test]
fn an_area_without_roads_matches_only_on_the_spot() {
    let nodes: Vec<Node> = Vec::new();
    let edges: Vec<Edge> = Vec::new();
    assert!(select_nearest_tow_truck(3, vec![truck(1, 3)], &nodes, &edges, MAX_DISPATCH_DISTANCE)
        .is_none());
    let nodes = vec![Node { id: 3 }];
    let found =
        select_nearest_tow_truck(3, vec![truck(1, 3)], &nodes, &edges, MAX_DISPATCH_DISTANCE)
            .unwrap();
    assert_eq!(found.distance, 0);
}

#[test]
fn a_vehicle_beyond_the_threshold_is_no_match() {
    let nodes = vec![Node { id: 1 }, Node { id: 2 }];
    let far = vec![edge(1, 2, 10_000_001)];
    assert!(select_nearest_tow_truck(2, vec![truck(1, 1)], &nodes, &far, MAX_DISPATCH_DISTANCE)
        .is_none());
    let near = vec![edge(1, 2, 10_000_000)];
    let found =
        select_nearest_tow_truck(2, vec![truck(1, 1)], &nodes, &near, MAX_DISPATCH_DISTANCE)
            .unwrap();
    assert_eq!(found.distance, 10_000_000);
    assert!(select_nearest_tow_truck(2, vec![truck(1, 1)], &nodes, &near, 9_999_999).is_none());
}

#[test]
fn the_match_carries_the_vehicle_unchanged() {
    let trucks = vec![
        TowTruck { id: 4, status: "available".to_string(), node_id: 1, area_id: 7 },
        TowTruck { id: 5, status: "busy".to_string(), node_id: 2, area_id: 8 },
    ];
    let found =
        select_nearest_tow_truck(3, trucks, &line_nodes(), &line_edges(), MAX_DISPATCH_DISTANCE)
            .unwrap();
    assert_eq!(found.vehicle.id, 5);
    assert_eq!(found.vehicle.status, "busy");
    assert_eq!(found.vehicle.node_id, 2);
    assert_eq!(found.vehicle.area_id, 8);
}

#[test]
fn the_selected_vehicle_is_no_farther_than_any_other() {
    let nodes = Vec::new();
    let edges = vec![edge(1, 2, 3), edge(2, 3, 4), edge(3, 4, 5), edge(1, 4, 20), edge(5, 6, 1)];
    let trucks = vec![truck(1, 1), truck(2, 3), truck(3, 5), truck(4, 2)];
    let graph = build_graph(&nodes, &edges);
    let measured = measure_candidates(&graph, &trucks, 4);
    let distances: Vec<i32> = measured.iter().map(|c| c.distance).collect();
    assert_eq!(distances, vec![12, 5, UNREACHABLE, 9]);
    let found = select_nearest_tow_truck(4, trucks, &nodes, &edges, MAX_DISPATCH_DISTANCE).unwrap();
    assert_eq!(found.vehicle.id, 2);
    for d in distances {
        assert!(found.distance <= d);
    }
}

#[test]
fn build_graph_adds_nodes_then_edges() {
    let graph = build_graph(&vec![Node { id: 9 }, Node { id: 1 }], &vec![edge(1, 2, 4)]);
    assert!(graph.contains_node(9));
    assert!(graph.contains_node(1));
    assert!(graph.contains_node(2));
    assert!(!graph.contains_node(3));
    assert_eq!(graph.shortest_path(1, 2), 4);
    assert_eq!(graph.shortest_path(9, 1), UNREACHABLE);
}

#[test]
fn calculate_distance_is_the_shortest_path() {
    let mut graph = Graph::new();
    graph.add_edge(edge(1, 2, 5));
    graph.add_edge(edge(2, 3, 5));
    graph.add_edge(edge(1, 3, 12));
    assert_eq!(calculate_distance(&graph, 1, 3), 10);
    assert_eq!(calculate_distance(&graph, 3, 1), 10);
    assert_eq!(calculate_distance(&graph, 2, 2), 0);
    assert_eq!(calculate_distance(&graph, 1, 8), UNREACHABLE);
}

#[test]
fn measure_candidates_keeps_order_and_ids() {
    let graph = build_graph(&line_nodes(), &line_edges());
    let trucks = vec![truck(30, 3), truck(10, 1), truck(20, 2), truck(40, 4)];
    let measured = measure_candidates(&graph, &trucks, 3);
    let pairs: Vec<(i32, i32)> = measured.iter().map(|c| (c.vehicle_id, c.distance)).collect();
    assert_eq!(pairs, vec![(30, 0), (10, 10), (20, 5), (40, UNREACHABLE)]);
}

#[test]
fn from_entity_carries_every_field() {
    let dto = TowTruckDto::from_entity(TowTruck {
        id: 3,
        status: "available".to_string(),
        node_id: 14,
        area_id: 2,
    });
    assert_eq!(dto.id, 3);
    assert_eq!(dto.status, "available");
    assert_eq!(dto.node_id, 14);
    assert_eq!(dto.area_id, 2);
}

#[test]
fn to_dtos_keeps_the_order() {
    let dtos = to_dtos(vec![truck(3, 1), truck(1, 2), truck(2, 3)]);
    let ids: Vec<i32> = dtos.iter().map(|d| d.id).collect();
    assert_eq!(ids, vec![3, 1, 2]);
    assert_eq!(dtos[1].node_id, 2);
    assert!(to_dtos(Vec::new()).is_empty());
}

#[test]
fn a_service_holds_the_stores_it_was_made_with() {
    let service = TowTruckService::new(1u8, "orders", vec![3, 4]);
    assert_eq!(*service.tow_truck_repository(), 1u8);
    assert_eq!(*service.order_repository(), "orders");
    assert_eq!(*service.map_repository(), vec![3, 4]);
}
