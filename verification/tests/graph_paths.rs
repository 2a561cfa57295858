use tow_dispatch::graph::Graph;
use tow_dispatch::network::{Edge, Node, UNREACHABLE};

fn edge(a: i32, b: i32, weight: u32) -> Edge {
    Edge { node_a_id: a, node_b_id: b, weight }
}

fn line_graph() -> Graph {
    let mut g = Graph::new();
    g.add_node(Node { id: 1 });
    g.add_node(Node { id: 2 });
    g.add_node(Node { id: 3 });
    g.add_edge(edge(1, 2, 5));
    g.add_edge(edge(2, 3, 5));
    g
}

#[test]
fn unreachable_is_the_largest_distance() {
    assert_eq!(UNREACHABLE, i32::MAX);
}

#[test]
fn distance_to_self_is_zero() {
    let g = line_graph();
    assert_eq!(g.shortest_path(1, 1), 0);
    assert_eq!(g.shortest_path(2, 2), 0);
    assert_eq!(g.shortest_path(3, 3), 0);
}

#[test]
fn distance_along_a_line() {
    let g = line_graph();
    assert_eq!(g.shortest_path(1, 2), 5);
    assert_eq!(g.shortest_path(2, 3), 5);
    assert_eq!(g.shortest_path(1, 3), 10);
}

#[test]
fn edges_work_in_both_directions() {
    let g = line_graph();
    assert_eq!(g.shortest_path(3, 1), 10);
    assert_eq!(g.shortest_path(2, 1), 5);
}

#[test]
fn empty_graph_reaches_nothing() {
    let g = Graph::new();
    assert_eq!(g.shortest_path(1, 1), UNREACHABLE);
    assert_eq!(g.shortest_path(1, 2), UNREACHABLE);
    assert!(!g.contains_node(1));
}

#[test]
fn absent_nodes_are_unreachable() {
    let g = line_graph();
    assert_eq!(g.shortest_path(1, 99), UNREACHABLE);
    assert_eq!(g.shortest_path(99, 1), UNREACHABLE);
    assert_eq!(g.shortest_path(99, 99), UNREACHABLE);
}

#[test]
fn disconnected_nodes_are_unreachable() {
    let mut g = line_graph();
    g.add_node(Node { id: 4 });
    g.add_edge(edge(5, 6, 1));
    assert_eq!(g.shortest_path(1, 4), UNREACHABLE);
    assert_eq!(g.shortest_path(4, 1), UNREACHABLE);
    assert_eq!(g.shortest_path(1, 5), UNREACHABLE);
    assert_eq!(g.shortest_path(5, 6), 1);
    assert!(g.shortest_path(1, 4) >= 0);
}

#[test]
fn adding_a_node_twice_changes_nothing() {
    let mut g = line_graph();
    g.add_node(Node { id: 2 });
    g.add_node(Node { id: 2 });
    assert!(g.contains_node(2));
    assert_eq!(g.shortest_path(1, 3), 10);
    assert_eq!(g.shortest_path(2, 2), 0);
}

#[test]
fn an_edge_creates_its_missing_ends() {
    let mut g = Graph::new();
    assert!(!g.contains_node(7));
    g.add_edge(edge(7, 8, 3));
    assert!(g.contains_node(7));
    assert!(g.contains_node(8));
    assert!(!g.contains_node(9));
    assert_eq!(g.shortest_path(7, 8), 3);
    assert_eq!(g.shortest_path(8, 8), 0);
}

#[test]
fn parallel_edges_use_the_cheapest() {
    let mut g = Graph::new();
    g.add_edge(edge(1, 2, 9));
    g.add_edge(edge(1, 2, 4));
    g.add_edge(edge(2, 1, 6));
    assert_eq!(g.shortest_path(1, 2), 4);
    assert_eq!(g.shortest_path(2, 1), 4);
}

#[test]
fn a_detour_beats_a_costly_direct_road() {
    let mut g = Graph::new();
    g.add_edge(edge(1, 4, 100));
    g.add_edge(edge(1, 2, 10));
    g.add_edge(edge(2, 3, 10));
    g.add_edge(edge(3, 4, 10));
    g.add_edge(edge(2, 4, 50));
    assert_eq!(g.shortest_path(1, 4), 30);
    assert_eq!(g.shortest_path(4, 2), 20);
}

#[test]
fn a_later_shortcut_lowers_a_tentative_distance() {
    let mut g = Graph::new();
    g.add_edge(edge(1, 2, 7));
    g.add_edge(edge(1, 3, 2));
    g.add_edge(edge(3, 2, 3));
    g.add_edge(edge(2, 4, 1));
    assert_eq!(g.shortest_path(1, 2), 5);
    assert_eq!(g.shortest_path(1, 4), 6);
}

#[test]
fn zero_weight_edges_and_loops() {
    let mut g = Graph::new();
    g.add_edge(edge(1, 1, 5));
    g.add_edge(edge(1, 2, 0));
    g.add_edge(edge(2, 3, 0));
    assert_eq!(g.shortest_path(1, 1), 0);
    assert_eq!(g.shortest_path(1, 3), 0);
}

#[test]
fn a_cycle_does_not_trap_the_search() {
    let mut g = Graph::new();
    g.add_edge(edge(1, 2, 1));
    g.add_edge(edge(2, 3, 1));
    g.add_edge(edge(3, 1, 1));
    g.add_edge(edge(3, 4, 1));
    assert_eq!(g.shortest_path(1, 4), 2);
    assert_eq!(g.shortest_path(4, 2), 2);
}

#[test]
fn negative_identifiers_are_ordinary_nodes() {
    let mut g = Graph::new();
    g.add_edge(edge(-1, i32::MIN, 2));
    g.add_edge(edge(i32::MIN, i32::MAX, 3));
    assert_eq!(g.shortest_path(-1, i32::MAX), 5);
}

#[test]
fn a_distance_at_the_cap_counts_as_unreachable() {
    let mut g = Graph::new();
    g.add_edge(edge(1, 2, 2_147_483_646));
    g.add_edge(edge(2, 3, 1));
    g.add_edge(edge(3, 4, 1));
    assert_eq!(g.shortest_path(1, 2), 2_147_483_646);
    assert_eq!(g.shortest_path(1, 3), UNREACHABLE);
    assert_eq!(g.shortest_path(1, 4), UNREACHABLE);
    assert_eq!(g.shortest_path(2, 4), 2);
}

#[test]
fn a_weight_above_the_cap_is_never_used() {
    let mut g = Graph::new();
    g.add_edge(edge(1, 2, u32::MAX));
    assert_eq!(g.shortest_path(1, 2), UNREACHABLE);
    g.add_edge(edge(1, 2, 8));
    assert_eq!(g.shortest_path(1, 2), 8);
}

#[test]
fn raising_a_weight_never_lowers_a_distance() {
    let roads = [(1, 2, 4u32), (2, 3, 6), (1, 3, 11), (3, 4, 2), (2, 4, 9)];
    let mut base = Graph::new();
    for (a, b, w) in roads {
        base.add_edge(edge(a, b, w));
    }
    for raised in 0..roads.len() {
        let mut g = Graph::new();
        for (k, (a, b, w)) in roads.iter().enumerate() {
            let weight = if k == raised { w + 5 } else { *w };
            g.add_edge(edge(*a, *b, weight));
        }
        for from in 1..5 {
            for to in 1..5 {
                assert!(g.shortest_path(from, to) >= base.shortest_path(from, to));
            }
        }
    }
    assert_eq!(base.shortest_path(1, 4), 12);
}

#[test]
fn repeated_queries_agree() {
    let g = line_graph();
    let first = g.shortest_path(1, 3);
    for _ in 0..5 {
        assert_eq!(g.shortest_path(1, 3), first);
    }
}

#[test]
fn a_larger_grid() {
    let mut g = Graph::new();
    let side = 12;
    for r in 0..side {
        for c in 0..side {
            let id = r * side + c;
            g.add_node(Node { id });
            if c + 1 < side {
                g.add_edge(edge(id, id + 1, 1));
            }
            if r + 1 < side {
                g.add_edge(edge(id, id + side, 2));
            }
        }
    }
    assert_eq!(g.shortest_path(0, side * side - 1), 11 + 22);
    assert_eq!(g.shortest_path(side * side - 1, 0), 33);
    assert_eq!(g.shortest_path(5, 5 + 3 * side), 6);
}
