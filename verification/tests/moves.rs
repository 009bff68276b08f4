use klotski::board::{
    get_solved_board, get_start_board, get_valid_moves, to_id, Coordinates, SlideDirection,
    SlideMove,
};
use klotski::graph::Graph;
use klotski::moves::{collect_moves, get_color, MoveEffectiveness, MoveInfo};

#[test]
fn colors_of_the_indicators() {
    assert_eq!(get_color(MoveEffectiveness::Positive), "#009d77");
    assert_eq!(get_color(MoveEffectiveness::Neutral), "#4B7BFF");
    assert_eq!(get_color(MoveEffectiveness::Negative), "#ff443a");
}

#[test]
fn moves_are_rated_and_ranked_by_the_distance_they_lead_to() {
    let start = get_start_board();
    let moves = get_valid_moves(&start);
    let anchor = get_solved_board();
    let mut graph = Graph::new();
    graph.add_node(start);
    graph.add_node(anchor);
    for (slide_move, next) in moves.iter() {
        graph.add_node(*next);
        graph.add_edge(&start, next, slide_move);
    }
    graph.add_synthetic_edge(&start, &anchor);
    // Distances to the solution, in the order of the edges.
    let distances = [7, 5, 6, 5, 4, 6];
    graph.map.get_mut(&to_id(&start)).unwrap().distance_to_solution = Some(5);
    graph.map.get_mut(&to_id(&anchor)).unwrap().distance_to_solution = Some(0);
    for ((_, next), distance) in moves.iter().zip(distances.iter()) {
        graph.map.get_mut(&to_id(next)).unwrap().distance_to_solution = Some(*distance);
    }

    let ranked = collect_moves(&graph, to_id(&start));
    let info = |i: usize, effectiveness| MoveInfo {
        slide_move: moves[i].0,
        resulting_id: to_id(&moves[i].1),
        resulting_distance: distances[i],
        effectiveness,
    };
    // Ascending by distance; equal distances in the order of the edges; the
    // edge to the anchor is left out.
    let expected = vec![
        info(4, MoveEffectiveness::Positive),
        info(1, MoveEffectiveness::Neutral),
        info(3, MoveEffectiveness::Neutral),
        info(2, MoveEffectiveness::Negative),
        info(5, MoveEffectiveness::Negative),
        info(0, MoveEffectiveness::Negative),
    ];
    assert_eq!(ranked, expected);
}

#[test]
fn a_node_without_edges_has_no_moves() {
    let start = get_start_board();
    let mut graph = Graph::new();
    graph.add_node(start);
    graph.map.get_mut(&to_id(&start)).unwrap().distance_to_solution = Some(3);
    assert!(collect_moves(&graph, to_id(&start)).is_empty());
}

#[test]
fn a_slide_to_a_node_at_distance_zero_is_hidden() {
    let start = get_start_board();
    let (slide_move, next) = get_valid_moves(&start)[0];
    let mut graph = Graph::new();
    graph.add_node(start);
    graph.add_node(next);
    graph.add_edge(&start, &next, &slide_move);
    graph.map.get_mut(&to_id(&start)).unwrap().distance_to_solution = Some(1);
    graph.map.get_mut(&to_id(&next)).unwrap().distance_to_solution = Some(0);
    assert!(collect_moves(&graph, to_id(&start)).is_empty());
    let placeholder = SlideMove {
        start: Coordinates { x: 1, y: 0 },
        direction: SlideDirection::Down,
        distance: 1,
    };
    assert_ne!(slide_move, placeholder);
}
