use maprando::escape_timer::{get_shortest_path, path_from_parents, NoEscapePath, RoomDoorGraph};
use std::collections::HashMap;

fn graph_of(successors: Vec<Vec<(usize, usize)>>) -> RoomDoorGraph {
    let vertices = (0..successors.len()).map(|v| (v, 0)).collect();
    RoomDoorGraph {
        vertices,
        successors,
        mother_brain_vertex_id: 0,
        ship_vertex_id: 0,
        animals_vertex_id: 0,
    }
}

#[test]
fn shortest_path_prefers_the_cheaper_way_round() {
    // 0 -> 1 costs 5; 0 -> 2 -> 1 costs 3; 1 -> 3 costs 1.
    let graph = graph_of(vec![vec![(1, 5), (2, 1)], vec![(3, 1)], vec![(1, 2)], vec![]]);
    assert!(graph.is_routable());
    assert_eq!(get_shortest_path(0, 3, &graph), Ok(vec![(2, 1), (1, 3), (3, 4)]));
    assert_eq!(get_shortest_path(0, 1, &graph), Ok(vec![(2, 1), (1, 3)]));
    assert_eq!(get_shortest_path(2, 3, &graph), Ok(vec![(1, 2), (3, 3)]));
}

#[test]
fn shortest_path_to_the_start_is_empty() {
    let graph = graph_of(vec![vec![(1, 5)], vec![(0, 5)]]);
    assert_eq!(get_shortest_path(0, 0, &graph), Ok(vec![]));
    assert_eq!(get_shortest_path(1, 1, &graph), Ok(vec![]));
}

#[test]
fn no_path_where_the_target_cannot_be_reached() {
    let graph = graph_of(vec![vec![(1, 5)], vec![], vec![(0, 1)]]);
    assert_eq!(get_shortest_path(0, 2, &graph), Err(NoEscapePath));
    assert_eq!(get_shortest_path(1, 0, &graph), Err(NoEscapePath));
    assert_eq!(get_shortest_path(0, 99, &graph), Err(NoEscapePath));
}

#[test]
fn shortest_path_through_doors_that_cost_nothing() {
    // Two rooms joined by a door in both directions at no cost.
    let graph = graph_of(vec![vec![(1, 60)], vec![(2, 0)], vec![(1, 0), (3, 90)], vec![]]);
    assert_eq!(get_shortest_path(0, 3, &graph), Ok(vec![(1, 60), (2, 60), (3, 150)]));
}

#[test]
fn graphs_that_cannot_be_routed() {
    // An edge that leaves the graph.
    assert!(!graph_of(vec![vec![(1, 5)]]).is_routable());
    assert!(!graph_of(vec![vec![], vec![(2, 0)]]).is_routable());
    // Costs that do not fit together.
    assert!(!graph_of(vec![vec![(1, usize::MAX)], vec![(0, 1)]]).is_routable());
    assert!(!graph_of(vec![vec![(0, usize::MAX), (0, 1)]]).is_routable());
    assert!(graph_of(vec![vec![(1, usize::MAX)], vec![(0, 0)]]).is_routable());
    assert!(graph_of(vec![]).is_routable());
}

#[test]
fn path_follows_the_parents_back() {
    let mut parents: HashMap<usize, (usize, usize)> = HashMap::new();
    parents.insert(5, (1, 10));
    parents.insert(7, (5, 25));
    parents.insert(9, (7, 26));
    assert_eq!(path_from_parents(&parents, 1, 9, 3), Ok(vec![(5, 10), (7, 25), (9, 26)]));
    assert_eq!(path_from_parents(&parents, 1, 9, 10), Ok(vec![(5, 10), (7, 25), (9, 26)]));
    assert_eq!(path_from_parents(&parents, 5, 9, 2), Ok(vec![(7, 25), (9, 26)]));
    assert_eq!(path_from_parents(&parents, 9, 9, 0), Ok(vec![]));
    // Too few steps allowed.
    assert_eq!(path_from_parents(&parents, 1, 9, 2), Err(NoEscapePath));
    // The parents do not lead to the start.
    assert_eq!(path_from_parents(&parents, 2, 9, 10), Err(NoEscapePath));
    assert_eq!(path_from_parents(&parents, 1, 4, 10), Err(NoEscapePath));
}

#[test]
fn path_gives_up_on_parents_that_go_round() {
    let mut parents: HashMap<usize, (usize, usize)> = HashMap::new();
    parents.insert(1, (2, 1));
    parents.insert(2, (1, 1));
    assert_eq!(path_from_parents(&parents, 0, 1, 100), Err(NoEscapePath));
}
