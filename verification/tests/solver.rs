use klotski::board::{
    get_solved_board, get_start_board, get_valid_moves, is_solution, is_valid, to_id,
    Coordinates, SlideDirection, SlideMove,
};
use klotski::graph::Graph;
use klotski::solver::{generate_moves, Solver, SolverError};
use std::collections::HashSet;

fn solved() -> Solver {
    Solver::new().expect("the graph of the standard puzzle can be built")
}

#[test]
fn full_graph_has_every_reachable_state_and_the_anchor() {
    let solver = solved();
    assert_eq!(solver.graph.node_count(), 25955 + 1);
    assert_eq!(solver.start_board, get_start_board());
    assert_eq!(solver.solution_node, get_solved_board());
    assert!(solver.graph.contains_node(&get_start_board()));
    assert!(solver.graph.contains_node(&get_solved_board()));
}

#[test]
fn every_node_is_filed_under_its_identifier_and_holds_a_valid_board() {
    let solver = solved();
    for (id, node) in solver.graph.map.iter() {
        assert_eq!(*id, to_id(&node.board));
        assert!(is_valid(&node.board));
    }
}

#[test]
fn every_node_has_an_edge_for_each_of_its_slides() {
    let solver = solved();
    let anchor = to_id(&get_solved_board());
    let placeholder = SlideMove {
        start: Coordinates { x: 1, y: 0 },
        direction: SlideDirection::Down,
        distance: 1,
    };
    let mut solved_boards = 0;
    for (id, node) in solver.graph.map.iter() {
        if *id == anchor {
            continue;
        }
        let moves = get_valid_moves(&node.board);
        let tied = is_solution(&node.board);
        assert_eq!(node.edges.len(), moves.len() + if tied { 1 } else { 0 });
        for (edge, (slide_move, next)) in node.edges.iter().zip(moves.iter()) {
            assert_eq!(edge.slide_move, *slide_move);
            assert_eq!(edge.neighbor, to_id(next));
            assert!(!edge.is_synthetic);
            assert_eq!(solver.graph.map.get(&edge.neighbor).unwrap().board, *next);
        }
        if tied {
            solved_boards += 1;
            let last = node.edges.last().unwrap();
            assert!(last.is_synthetic);
            assert_eq!(last.neighbor, anchor);
            assert_eq!(last.slide_move, placeholder);
        }
    }
    let ties = &solver.graph.map.get(&anchor).unwrap().edges;
    assert_eq!(ties.len(), solved_boards);
    let mut tied = HashSet::new();
    for edge in ties.iter() {
        assert!(edge.is_synthetic);
        assert_eq!(edge.slide_move, placeholder);
        assert!(is_solution(&solver.graph.map.get(&edge.neighbor).unwrap().board));
        assert!(tied.insert(edge.neighbor));
    }
}

#[test]
fn labels_are_breadth_first_distances() {
    let solver = solved();
    let graph = &solver.graph;
    let start = graph.map.get(&to_id(&get_start_board())).unwrap();
    let anchor = graph.map.get(&to_id(&get_solved_board())).unwrap();
    assert_eq!(start.distance_to_start, Some(0));
    assert_eq!(anchor.distance_to_solution, Some(0));
    // The shortest solution takes 90 slides; one more edge leads to the anchor.
    assert_eq!(start.distance_to_solution, Some(91));
    assert_eq!(anchor.distance_to_start, Some(91));

    let mut max_start = 0;
    let mut max_solution = 0;
    for node in graph.map.values() {
        let to_start = node.distance_to_start.unwrap();
        let to_solution = node.distance_to_solution.unwrap();
        max_start = max_start.max(to_start);
        max_solution = max_solution.max(to_solution);
        // No edge shortens a distance by more than one step, and some edge
        // leads one step closer to each origin.
        let mut closer = to_solution == 0;
        for edge in node.edges.iter() {
            let neighbor = graph.map.get(&edge.neighbor).unwrap();
            assert!(neighbor.distance_to_start.unwrap() <= to_start + 1);
            assert!(neighbor.distance_to_solution.unwrap() <= to_solution + 1);
            assert!(to_solution <= neighbor.distance_to_solution.unwrap() + 1);
            closer = closer || neighbor.distance_to_solution.unwrap() + 1 == to_solution;
        }
        assert!(closer);
    }
    assert_eq!(graph.max_distance_to_start, max_start);
    assert_eq!(graph.max_distance_to_solution, max_solution);
}

#[test]
fn discovery_fills_a_graph_that_holds_the_anchor() {
    let mut graph = Graph::new();
    graph.add_node(get_solved_board());
    let mut solver = Solver {
        graph,
        start_board: get_start_board(),
        solution_node: get_solved_board(),
    };
    assert_eq!(generate_moves(&mut solver), Ok(()));
    assert_eq!(solver.graph.node_count(), 25955 + 1);
    // Discovery assigns no labels.
    for node in solver.graph.map.values() {
        assert_eq!(node.distance_to_start, None);
        assert_eq!(node.distance_to_solution, None);
    }
    assert_eq!(solver.graph.max_distance_to_start, 0);
    assert_eq!(solver.graph.max_distance_to_solution, 0);
}

#[test]
fn a_board_filed_under_the_identifier_of_another_is_a_clash() {
    let start = get_start_board();
    let anchor = get_solved_board();
    let mut graph = Graph::new();
    graph.add_node(anchor);
    // File the anchor under the identifier of the start board as well.
    let node = graph.map.get(&to_id(&anchor)).unwrap().clone();
    graph.map.insert(to_id(&start), node);
    let mut solver = Solver {
        graph,
        start_board: start,
        solution_node: anchor,
    };
    assert_eq!(generate_moves(&mut solver), Err(SolverError::IdClash));
}

#[test]
fn errors_can_be_told_apart() {
    assert_ne!(SolverError::IdClash, SolverError::TooLarge);
}
