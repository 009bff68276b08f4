use klotski::board::{
    get_solved_board, get_start_board, make_move, sort_pieces, to_id, Board, Coordinates,
    SlideDirection, SlideMove,
};
use klotski::graph::{Edge, Graph, Origin};

#[test]
fn test_analyse() {
    let mut graph: Graph = Graph::new();

    let board_1 = get_start_board();
    let move_1 = SlideMove {
        start: Coordinates { x: 1, y: 1 },
        direction: SlideDirection::Down,
        distance: 1,
    };
    let board_2 = make_move(&board_1, &move_1).expect("Failed to make move");
    let move_2 = SlideMove {
        start: Coordinates { x: 1, y: 0 },
        direction: SlideDirection::Right,
        distance: 1,
    };
    let board_3 = make_move(&board_2, &move_2).expect("Failed to make move");
    let move_3 = SlideMove {
        start: Coordinates { x: 2, y: 1 },
        direction: SlideDirection::Left,
        distance: 1,
    };
    let board_4 = make_move(&board_3, &move_3).expect("Failed to make move");
    let move_4 = SlideMove {
        start: Coordinates { x: 2, y: 0 },
        direction: SlideDirection::Up,
        distance: 1,
    };
    // This should be the start board once again, we have swapped around to similar pieces
    let board_5 = make_move(&board_4, &move_4).expect("Failed to make move");

    assert_eq!(board_1, board_5);

    graph.add_node(board_1);
    graph.add_node(board_2);
    graph.add_node(board_3);
    graph.add_node(board_4);
    // This should not have effect, as board_5 equals board_1
    graph.add_node(board_5);

    graph.add_edge(&board_1, &board_2, &move_1);
    graph.add_edge(&board_2, &board_1, &move_1);
    graph.add_edge(&board_2, &board_3, &move_2);
    graph.add_edge(&board_3, &board_2, &move_2);
    graph.add_edge(&board_3, &board_4, &move_3);
    graph.add_edge(&board_4, &board_3, &move_3);
    graph.add_edge(&board_4, &board_5, &move_4);
    graph.add_edge(&board_5, &board_4, &move_4);

    graph.analyze(&board_1, &board_4);

    assert_eq!(graph.map.get(&to_id(&board_1)).unwrap().distance_to_start.unwrap(), 0);
    assert_eq!(graph.map.get(&to_id(&board_2)).unwrap().distance_to_start.unwrap(), 1);
    assert_eq!(graph.map.get(&to_id(&board_3)).unwrap().distance_to_start.unwrap(), 2);
    assert_eq!(graph.map.get(&to_id(&board_4)).unwrap().distance_to_start.unwrap(), 1);
    assert_eq!(graph.map.get(&to_id(&board_5)).unwrap().distance_to_start.unwrap(), 0);

    assert_eq!(graph.map.get(&to_id(&board_1)).unwrap().distance_to_solution.unwrap(), 1);
    assert_eq!(graph.map.get(&to_id(&board_2)).unwrap().distance_to_solution.unwrap(), 2);
    assert_eq!(graph.map.get(&to_id(&board_3)).unwrap().distance_to_solution.unwrap(), 1);
    assert_eq!(graph.map.get(&to_id(&board_4)).unwrap().distance_to_solution.unwrap(), 0);
    assert_eq!(graph.map.get(&to_id(&board_5)).unwrap().distance_to_solution.unwrap(), 1);
}

fn chain() -> (Graph, Vec<Board>, Vec<SlideMove>) {
    // Four boards in a row, each one slide from the next.
    let first = get_start_board();
    let moves = vec![
        SlideMove {
            start: Coordinates { x: 1, y: 1 },
            direction: SlideDirection::Down,
            distance: 1,
        },
        SlideMove {
            start: Coordinates { x: 1, y: 0 },
            direction: SlideDirection::Right,
            distance: 1,
        },
        SlideMove {
            start: Coordinates { x: 2, y: 1 },
            direction: SlideDirection::Left,
            distance: 1,
        },
    ];
    let mut boards = vec![first];
    for slide_move in moves.iter() {
        let next = make_move(boards.last().unwrap(), slide_move).unwrap();
        boards.push(next);
    }
    let mut graph = Graph::new();
    for board in boards.iter() {
        graph.add_node(*board);
    }
    (graph, boards, moves)
}

#[test]
fn new_graph_is_empty() {
    let graph = Graph::new();
    assert_eq!(graph.node_count(), 0);
    assert_eq!(graph.max_distance_to_start, 0);
    assert_eq!(graph.max_distance_to_solution, 0);
    assert!(!graph.contains_node(&get_start_board()));
    let graph = Graph::default();
    assert_eq!(graph.node_count(), 0);
}

#[test]
fn add_node_twice_is_a_no_op() {
    let mut graph = Graph::new();
    let board = get_start_board();
    graph.add_node(board);
    assert_eq!(graph.node_count(), 1);
    assert!(graph.contains_node(&board));
    let other = get_solved_board();
    graph.add_edge(&board, &other, &SlideMove {
        start: Coordinates { x: 0, y: 0 },
        direction: SlideDirection::Right,
        distance: 1,
    });

    // The same arrangement, given with its pieces in another order and then
    // put in canonical order.
    let mut pieces = board.pieces;
    pieces.reverse();
    sort_pieces(&mut pieces);
    let again = Board {
        pieces,
        size: board.size,
    };
    assert!(!graph.has_clash(&again));
    graph.add_node(again);
    assert_eq!(graph.node_count(), 1);
    let node = graph.map.get(&to_id(&board)).unwrap();
    assert_eq!(node.board, board);
    assert_eq!(node.edges.len(), 1);
}

#[test]
fn a_new_node_has_no_edges_and_no_labels() {
    let mut graph = Graph::new();
    let board = get_start_board();
    graph.add_node(board);
    let node = graph.map.get(&to_id(&board)).unwrap();
    assert_eq!(node.board, board);
    assert!(node.edges.is_empty());
    assert_eq!(node.distance_to_start, None);
    assert_eq!(node.distance_to_solution, None);
    assert!(!node.on_shortest_path);
}

#[test]
fn edges_are_kept_in_order_and_not_merged() {
    let (mut graph, boards, moves) = chain();
    graph.add_edge(&boards[0], &boards[1], &moves[0]);
    graph.add_edge(&boards[0], &boards[2], &moves[1]);
    graph.add_edge(&boards[0], &boards[1], &moves[0]);
    // An edge may lead to a board that has no node yet.
    graph.add_edge(&boards[0], &get_solved_board(), &moves[2]);
    graph.add_synthetic_edge(&boards[0], &boards[3]);
    assert_eq!(graph.node_count(), 4);
    let edges = &graph.map.get(&to_id(&boards[0])).unwrap().edges;
    let expected = vec![
        Edge {
            neighbor: to_id(&boards[1]),
            slide_move: moves[0],
            is_synthetic: false,
        },
        Edge {
            neighbor: to_id(&boards[2]),
            slide_move: moves[1],
            is_synthetic: false,
        },
        Edge {
            neighbor: to_id(&boards[1]),
            slide_move: moves[0],
            is_synthetic: false,
        },
        Edge {
            neighbor: to_id(&get_solved_board()),
            slide_move: moves[2],
            is_synthetic: false,
        },
        Edge {
            neighbor: to_id(&boards[3]),
            slide_move: SlideMove {
                start: Coordinates { x: 1, y: 0 },
                direction: SlideDirection::Down,
                distance: 1,
            },
            is_synthetic: true,
        },
    ];
    assert_eq!(*edges, expected);
    assert!(graph.map.get(&to_id(&boards[1])).unwrap().edges.is_empty());
}

#[test]
fn a_clash_is_another_board_under_the_same_identifier() {
    let (mut graph, boards, _) = chain();
    assert!(!graph.has_clash(&boards[0]));
    assert!(!graph.has_clash(&get_solved_board()));
    // File another board under the identifier of the first.
    let node = graph.map.get(&to_id(&boards[1])).unwrap().clone();
    graph.map.insert(to_id(&boards[0]), node);
    assert!(graph.has_clash(&boards[0]));
}

#[test]
fn distances_follow_the_direction_of_the_edges() {
    let (mut graph, boards, moves) = chain();
    // 0 -> 1 -> 2 -> 3, and a shortcut 0 -> 2.
    graph.add_edge(&boards[0], &boards[1], &moves[0]);
    graph.add_edge(&boards[1], &boards[2], &moves[1]);
    graph.add_edge(&boards[2], &boards[3], &moves[2]);
    graph.add_edge(&boards[0], &boards[2], &moves[1]);
    let max = graph.distance_from(to_id(&boards[0]), Origin::Start);
    assert_eq!(max, 2);
    let label =
        |graph: &Graph, i: usize| graph.map.get(&to_id(&boards[i])).unwrap().distance_to_start;
    assert_eq!(label(&graph, 0), Some(0));
    assert_eq!(label(&graph, 1), Some(1));
    assert_eq!(label(&graph, 2), Some(1));
    assert_eq!(label(&graph, 3), Some(2));
    // The other label is untouched, and so are the summaries.
    for board in boards.iter() {
        assert_eq!(graph.map.get(&to_id(board)).unwrap().distance_to_solution, None);
    }
    assert_eq!(graph.max_distance_to_start, 0);

    // Against the edges nothing but the origin is reached.
    let max = graph.distance_from(to_id(&boards[3]), Origin::Solution);
    assert_eq!(max, 0);
    let label =
        |graph: &Graph, i: usize| graph.map.get(&to_id(&boards[i])).unwrap().distance_to_solution;
    assert_eq!(label(&graph, 3), Some(0));
    assert_eq!(label(&graph, 2), None);
    assert_eq!(label(&graph, 1), None);
    assert_eq!(label(&graph, 0), None);
}

#[test]
fn a_labelled_node_is_left_alone_and_blocks_the_way() {
    let (mut graph, boards, moves) = chain();
    graph.add_edge(&boards[0], &boards[1], &moves[0]);
    graph.add_edge(&boards[1], &boards[2], &moves[1]);
    graph.add_edge(&boards[2], &boards[3], &moves[2]);
    graph.map.get_mut(&to_id(&boards[1])).unwrap().distance_to_start = Some(7);
    let max = graph.distance_from(to_id(&boards[0]), Origin::Start);
    assert_eq!(max, 0);
    let label =
        |graph: &Graph, i: usize| graph.map.get(&to_id(&boards[i])).unwrap().distance_to_start;
    assert_eq!(label(&graph, 0), Some(0));
    assert_eq!(label(&graph, 1), Some(7));
    assert_eq!(label(&graph, 2), None);
    assert_eq!(label(&graph, 3), None);

    // A second traversal finds its origin labelled and does nothing.
    let max = graph.distance_from(to_id(&boards[0]), Origin::Start);
    assert_eq!(max, 0);
    assert_eq!(label(&graph, 2), None);
}

#[test]
fn analyze_records_the_largest_labels() {
    let (mut graph, boards, moves) = chain();
    for i in 0..3 {
        graph.add_edge(&boards[i], &boards[i + 1], &moves[i]);
        graph.add_edge(&boards[i + 1], &boards[i], &moves[i]);
    }
    graph.analyze(&boards[0], &boards[2]);
    assert_eq!(graph.max_distance_to_start, 3);
    assert_eq!(graph.max_distance_to_solution, 2);
    let node = |i: usize| graph.map.get(&to_id(&boards[i])).unwrap();
    let to_start: Vec<Option<u32>> = (0..4).map(|i| node(i).distance_to_start).collect();
    let to_solution: Vec<Option<u32>> = (0..4).map(|i| node(i).distance_to_solution).collect();
    assert_eq!(to_start, vec![Some(0), Some(1), Some(2), Some(3)]);
    assert_eq!(to_solution, vec![Some(2), Some(1), Some(0), Some(1)]);
    // Boards and edges are as they were.
    for i in 0..4 {
        assert_eq!(node(i).board, boards[i]);
    }
    assert_eq!(node(0).edges.len(), 1);
    assert_eq!(node(1).edges.len(), 2);
}
