use klotski::board::{
    collide, find_piece, get_solved_board, get_start_board, get_valid_moves, has_collision,
    is_on_board, is_solution, is_valid, make_move, piece_precedes, sort_pieces, to_id, Axis, Board,
    Coordinates, InvalidMoveError, Piece, Size, SlideDirection, SlideMove, BOARD_HEIGHT,
    BOARD_WIDTH,
};
use std::hash::{DefaultHasher, Hash, Hasher};

fn piece(x: i32, y: i32, width: i32, height: i32) -> Piece {
    Piece {
        position: Coordinates { x, y },
        size: Size {
            x: width,
            y: height,
        },
    }
}

fn slide(x: i32, y: i32, direction: SlideDirection, distance: u8) -> SlideMove {
    SlideMove {
        start: Coordinates { x, y },
        direction,
        distance,
    }
}

fn opposite(direction: SlideDirection) -> SlideDirection {
    match direction {
        SlideDirection::Up => SlideDirection::Down,
        SlideDirection::Down => SlideDirection::Up,
        SlideDirection::Left => SlideDirection::Right,
        SlideDirection::Right => SlideDirection::Left,
    }
}

#[test]
fn test_is_solution() {
    // Start board is not a solution
    assert!(!is_solution(&get_start_board()));
    // Solved board is literally the solution criterion
    assert!(is_solution(&get_solved_board()));
}

#[test]
fn test_is_valid() {
    // Start and solved boards should be valid
    assert!(is_valid(&get_solved_board()));
    assert!(is_valid(&get_start_board()));
}

#[test]
fn test_board_hash() {
    // Test two identical objects have the same hash:
    let mut hasher_1 = DefaultHasher::new();
    get_start_board().hash(&mut hasher_1);
    let mut hasher_2 = DefaultHasher::new();
    get_start_board().hash(&mut hasher_2);
    assert_eq!(hasher_1.finish(), hasher_2.finish());

    // Test two differing objects have the differing hashes:
    let mut hasher_3 = DefaultHasher::new();
    get_solved_board().hash(&mut hasher_3);
    assert_ne!(hasher_2.finish(), hasher_3.finish());
}

#[test]
fn test_get_valid_moves() {
    let moves = get_valid_moves(&get_start_board());
    assert_eq!(moves.len(), 6);
    assert_eq!(
        moves[0].0,
        SlideMove {
            start: Coordinates { x: 0, y: 0 },
            direction: SlideDirection::Right,
            distance: 1,
        }
    );
    assert_eq!(
        moves[1].0,
        SlideMove {
            start: Coordinates { x: 0, y: 0 },
            direction: SlideDirection::Right,
            distance: 2,
        }
    );
    assert_eq!(
        moves[2].0,
        SlideMove {
            start: Coordinates { x: 1, y: 1 },
            direction: SlideDirection::Down,
            distance: 1,
        }
    );
    assert_eq!(
        moves[3].0,
        SlideMove {
            start: Coordinates { x: 2, y: 1 },
            direction: SlideDirection::Down,
            distance: 1,
        }
    );
    assert_eq!(
        moves[4].0,
        SlideMove {
            start: Coordinates { x: 3, y: 0 },
            direction: SlideDirection::Left,
            distance: 1,
        }
    );
    assert_eq!(
        moves[5].0,
        SlideMove {
            start: Coordinates { x: 3, y: 0 },
            direction: SlideDirection::Left,
            distance: 2,
        }
    );
}

#[test]
fn start_board_is_the_standard_layout_in_canonical_order() {
    let board = get_start_board();
    assert_eq!(board.size, Size { x: 4, y: 5 });
    assert_eq!(BOARD_WIDTH, 4);
    assert_eq!(BOARD_HEIGHT, 5);
    let expected = [
        piece(0, 0, 1, 1),
        piece(0, 1, 1, 2),
        piece(0, 3, 1, 2),
        piece(1, 1, 1, 1),
        piece(1, 2, 2, 1),
        piece(1, 3, 2, 2),
        piece(2, 1, 1, 1),
        piece(3, 0, 1, 1),
        piece(3, 1, 1, 2),
        piece(3, 3, 1, 2),
    ];
    assert_eq!(board.pieces, expected);
}

#[test]
fn solved_board_has_the_big_piece_at_the_exit() {
    let board = get_solved_board();
    assert_eq!(board.size, Size { x: 4, y: 5 });
    assert_eq!(board.pieces[5], piece(1, 0, 2, 2));
    let small = board.pieces.iter().filter(|p| p.size == Size { x: 1, y: 1 }).count();
    assert_eq!(small, 9);
}

#[test]
fn id_is_the_default_hash_of_the_board() {
    for board in [get_start_board(), get_solved_board()] {
        let mut hasher = DefaultHasher::new();
        board.hash(&mut hasher);
        assert_eq!(to_id(&board), hasher.finish());
    }
}

#[test]
fn id_is_deterministic_and_ignores_the_order_in_which_pieces_were_given() {
    let start = get_start_board();
    assert_eq!(to_id(&start), to_id(&start));
    assert_eq!(to_id(&start), to_id(&get_start_board()));

    // The layout as it is drawn, row by row, before it is put in order.
    let mut pieces = [
        piece(0, 3, 1, 2),
        piece(1, 3, 2, 2),
        piece(3, 3, 1, 2),
        piece(0, 1, 1, 2),
        piece(1, 2, 2, 1),
        piece(3, 1, 1, 2),
        piece(1, 1, 1, 1),
        piece(2, 1, 1, 1),
        piece(0, 0, 1, 1),
        piece(3, 0, 1, 1),
    ];
    sort_pieces(&mut pieces);
    let same = Board {
        pieces,
        size: Size { x: 4, y: 5 },
    };
    assert_eq!(same, start);
    assert_eq!(to_id(&same), to_id(&start));
    assert_ne!(to_id(&start), to_id(&get_solved_board()));
}

#[test]
fn id_depends_on_the_size_of_the_board() {
    let start = get_start_board();
    let wider = Board {
        pieces: start.pieces,
        size: Size { x: 5, y: 5 },
    };
    assert_ne!(to_id(&start), to_id(&wider));
    assert_ne!(start, wider);
}

#[test]
fn sort_orders_by_column_then_row_then_width_then_height() {
    let mut pieces = [
        piece(1, 0, 1, 1),
        piece(0, 1, 1, 1),
        piece(0, 0, 2, 1),
        piece(0, 0, 1, 2),
        piece(0, 0, 1, 1),
        piece(-1, 9, 1, 1),
        piece(0, 0, 1, 1),
        piece(3, 3, 1, 1),
        piece(2, 5, 1, 1),
        piece(2, -5, 1, 1),
    ];
    sort_pieces(&mut pieces);
    let expected = [
        piece(-1, 9, 1, 1),
        piece(0, 0, 1, 1),
        piece(0, 0, 1, 1),
        piece(0, 0, 1, 2),
        piece(0, 0, 2, 1),
        piece(0, 1, 1, 1),
        piece(1, 0, 1, 1),
        piece(2, -5, 1, 1),
        piece(2, 5, 1, 1),
        piece(3, 3, 1, 1),
    ];
    assert_eq!(pieces, expected);
}

#[test]
fn canonical_order_agrees_with_the_derived_order() {
    let samples = [
        piece(0, 0, 1, 1),
        piece(0, 0, 1, 2),
        piece(0, 0, 2, 1),
        piece(0, 1, 1, 1),
        piece(1, 0, 1, 1),
        piece(-1, 5, 3, 3),
    ];
    for a in samples.iter() {
        for b in samples.iter() {
            assert_eq!(piece_precedes(a, b), a <= b);
        }
    }
}

#[test]
fn pieces_that_touch_do_not_collide() {
    let a = piece(0, 0, 2, 2);
    assert!(!collide(&a, &piece(2, 0, 1, 1)));
    assert!(!collide(&a, &piece(0, 2, 1, 1)));
    assert!(!collide(&a, &piece(2, 2, 1, 1)));
    assert!(collide(&a, &piece(1, 1, 1, 1)));
    assert!(collide(&a, &piece(1, 1, 2, 2)));
    assert!(collide(&piece(1, 1, 2, 2), &a));
    assert!(collide(&a, &a));
}

#[test]
fn geometry_does_not_overflow() {
    let far = piece(i32::MAX, i32::MAX, i32::MAX, i32::MAX);
    let board = Board {
        pieces: [far; 10],
        size: Size {
            x: i32::MAX,
            y: i32::MAX,
        },
    };
    assert!(!is_on_board(&far, &board));
    assert!(collide(&far, &far));
    assert!(!collide(&far, &piece(i32::MIN, i32::MIN, 1, 1)));
    assert!(!is_valid(&board));
}

#[test]
fn on_board_means_within_all_four_edges() {
    let board = get_start_board();
    assert!(is_on_board(&piece(0, 0, 4, 5), &board));
    assert!(is_on_board(&piece(3, 4, 1, 1), &board));
    assert!(!is_on_board(&piece(-1, 0, 1, 1), &board));
    assert!(!is_on_board(&piece(0, -1, 1, 1), &board));
    assert!(!is_on_board(&piece(3, 0, 2, 1), &board));
    assert!(!is_on_board(&piece(0, 4, 1, 2), &board));
}

#[test]
fn collision_is_found_between_any_pair() {
    let apart: [Piece; 10] = [
        piece(0, 0, 1, 1),
        piece(0, 1, 1, 1),
        piece(0, 2, 1, 1),
        piece(0, 3, 1, 1),
        piece(0, 4, 1, 1),
        piece(1, 0, 1, 1),
        piece(1, 1, 1, 1),
        piece(1, 2, 1, 1),
        piece(1, 3, 1, 1),
        piece(1, 4, 1, 1),
    ];
    let size = Size { x: 4, y: 5 };
    assert!(!has_collision(&Board { pieces: apart, size }));
    for i in 0..10 {
        for j in (i + 1)..10 {
            let mut pieces = apart;
            pieces[j].position = pieces[i].position;
            assert!(has_collision(&Board { pieces, size }), "pair {} {}", i, j);
        }
    }
}

#[test]
fn a_board_with_a_piece_off_the_board_is_not_valid() {
    let mut board = get_start_board();
    board.pieces[9] = piece(3, 4, 1, 2);
    assert!(!is_valid(&board));
    let mut board = get_start_board();
    board.pieces[0] = piece(0, 1, 1, 1);
    assert!(!is_valid(&board));
}

#[test]
fn solution_needs_the_big_piece_at_the_exit() {
    let mut board = get_start_board();
    assert!(!is_solution(&board));
    board.pieces[5] = piece(1, 0, 2, 2);
    assert!(is_solution(&board));
    board.pieces[5] = piece(1, 0, 2, 1);
    assert!(!is_solution(&board));
    board.pieces[5] = piece(0, 0, 2, 2);
    assert!(!is_solution(&board));
    board.pieces[5] = piece(1, 1, 2, 2);
    assert!(!is_solution(&board));
}

#[test]
fn find_piece_gives_the_first_piece_at_the_cell() {
    let board = get_start_board();
    assert_eq!(find_piece(&board, &Coordinates { x: 0, y: 0 }), Some(0));
    assert_eq!(find_piece(&board, &Coordinates { x: 1, y: 3 }), Some(5));
    assert_eq!(find_piece(&board, &Coordinates { x: 3, y: 3 }), Some(9));
    // A cell that a piece covers, but that is not its bottom-left cell.
    assert_eq!(find_piece(&board, &Coordinates { x: 2, y: 4 }), None);
    assert_eq!(find_piece(&board, &Coordinates { x: 1, y: 0 }), None);
}

#[test]
fn make_move_without_a_piece_at_the_start() {
    let board = get_start_board();
    let result = make_move(&board, &slide(1, 0, SlideDirection::Up, 1));
    assert_eq!(result, Err(InvalidMoveError::NoPieceAtStart));
    let result = make_move(&board, &slide(2, 3, SlideDirection::Down, 1));
    assert_eq!(result, Err(InvalidMoveError::NoPieceAtStart));
}

#[test]
fn make_move_into_another_piece_or_off_the_board() {
    let board = get_start_board();
    // Into the piece above.
    let result = make_move(&board, &slide(0, 0, SlideDirection::Up, 1));
    assert_eq!(result, Err(InvalidMoveError::InvalidMove));
    // Off the board.
    let result = make_move(&board, &slide(0, 0, SlideDirection::Down, 1));
    assert_eq!(result, Err(InvalidMoveError::InvalidMove));
    let result = make_move(&board, &slide(0, 0, SlideDirection::Left, 1));
    assert_eq!(result, Err(InvalidMoveError::InvalidMove));
    // Onto the piece in the other corner.
    let result = make_move(&board, &slide(0, 0, SlideDirection::Right, 3));
    assert_eq!(result, Err(InvalidMoveError::InvalidMove));
    // Far off the board.
    let result = make_move(&board, &slide(0, 0, SlideDirection::Right, 255));
    assert_eq!(result, Err(InvalidMoveError::InvalidMove));
}

#[test]
fn make_move_beyond_the_largest_coordinate_is_invalid() {
    let mut board = get_start_board();
    board.pieces[9] = piece(i32::MAX, i32::MAX, 1, 1);
    let start = Coordinates {
        x: i32::MAX,
        y: i32::MAX,
    };
    for direction in [SlideDirection::Up, SlideDirection::Right] {
        let slide_move = SlideMove {
            start,
            direction,
            distance: 1,
        };
        assert!(!slide_move.endpoint_in_range());
        assert_eq!(
            make_move(&board, &slide_move),
            Err(InvalidMoveError::InvalidMove)
        );
    }
    board.pieces[0] = piece(i32::MIN, i32::MIN, 1, 1);
    let start = Coordinates {
        x: i32::MIN,
        y: i32::MIN,
    };
    for direction in [SlideDirection::Down, SlideDirection::Left] {
        let slide_move = SlideMove {
            start,
            direction,
            distance: 1,
        };
        assert!(!slide_move.endpoint_in_range());
        assert_eq!(
            make_move(&board, &slide_move),
            Err(InvalidMoveError::InvalidMove)
        );
    }
}

#[test]
fn make_move_gives_the_new_board_in_canonical_order() {
    let board = get_start_board();
    let before = board;
    let next = make_move(&board, &slide(0, 0, SlideDirection::Right, 2)).unwrap();
    // The input is untouched.
    assert_eq!(board, before);
    assert_eq!(next.size, board.size);
    let expected = [
        piece(0, 1, 1, 2),
        piece(0, 3, 1, 2),
        piece(1, 1, 1, 1),
        piece(1, 2, 2, 1),
        piece(1, 3, 2, 2),
        piece(2, 0, 1, 1),
        piece(2, 1, 1, 1),
        piece(3, 0, 1, 1),
        piece(3, 1, 1, 2),
        piece(3, 3, 1, 2),
    ];
    assert_eq!(next.pieces, expected);
    assert!(is_valid(&next));
}

#[test]
fn make_move_of_no_distance_gives_the_same_board() {
    let board = get_start_board();
    let next = make_move(&board, &slide(1, 3, SlideDirection::Up, 0)).unwrap();
    assert_eq!(next, board);
}

#[test]
fn endpoint_adds_the_distance_along_the_direction() {
    let end = |direction| slide(5, 7, direction, 3).get_endpoint();
    assert_eq!(end(SlideDirection::Up), Coordinates { x: 5, y: 10 });
    assert_eq!(end(SlideDirection::Down), Coordinates { x: 5, y: 4 });
    assert_eq!(end(SlideDirection::Left), Coordinates { x: 2, y: 7 });
    assert_eq!(end(SlideDirection::Right), Coordinates { x: 8, y: 7 });
    assert!(slide(5, 7, SlideDirection::Up, 255).endpoint_in_range());
    assert!(slide(i32::MAX - 255, 0, SlideDirection::Right, 255).endpoint_in_range());
    assert!(!slide(i32::MAX - 254, 0, SlideDirection::Right, 255).endpoint_in_range());
    assert!(!slide(0, i32::MIN + 1, SlideDirection::Down, 2).endpoint_in_range());
}

#[test]
fn every_generated_move_leads_to_the_board_that_make_move_gives() {
    let mut board = get_start_board();
    for step in 0..40 {
        let moves = get_valid_moves(&board);
        assert!(!moves.is_empty());
        for (slide_move, next) in moves.iter() {
            assert_eq!(make_move(&board, slide_move), Ok(*next));
            assert!(is_valid(next));
            assert_eq!(next.size, board.size);
        }
        board = moves[step % moves.len()].1;
    }
}

#[test]
fn generated_moves_are_ordered_by_piece_direction_and_distance() {
    let rank = |direction: SlideDirection| match direction {
        SlideDirection::Up => 0,
        SlideDirection::Down => 1,
        SlideDirection::Left => 2,
        SlideDirection::Right => 3,
    };
    let mut board = get_start_board();
    for step in 0..40 {
        let moves = get_valid_moves(&board);
        let keys: Vec<(usize, i32, u8)> = moves
            .iter()
            .map(|(m, _)| {
                let index = board.pieces.iter().position(|p| p.position == m.start).unwrap();
                (index, rank(m.direction), m.distance)
            })
            .collect();
        for pair in keys.windows(2) {
            assert!(pair[0] < pair[1]);
        }
        // Distances in one direction start at 1 and have no gap.
        for (k, key) in keys.iter().enumerate() {
            if key.2 > 1 {
                assert_eq!(keys[k - 1], (key.0, key.1, key.2 - 1));
            }
        }
        board = moves[(step * 7) % moves.len()].1;
    }
}

#[test]
fn generated_moves_stop_below_the_larger_dimension() {
    // Pieces without extent fit on the very edge of the board. One sits in
    // the bottom-left corner of a board of four by five, the others in the
    // far corner.
    let mut pieces = [piece(4, 5, 0, 0); 10];
    pieces[0] = piece(0, 0, 0, 0);
    let board = Board {
        pieces,
        size: Size { x: 4, y: 5 },
    };
    assert!(is_valid(&board));
    let moves: Vec<SlideMove> = get_valid_moves(&board)
        .iter()
        .map(|(m, _)| *m)
        .filter(|m| m.start == Coordinates { x: 0, y: 0 })
        .collect();
    let of = |direction: SlideDirection| -> Vec<u8> {
        moves
            .iter()
            .filter(|m| m.direction == direction)
            .map(|m| m.distance)
            .collect()
    };
    // Five cells up would still be on the board, but five is the limit.
    assert!(make_move(&board, &slide(0, 0, SlideDirection::Up, 5)).is_ok());
    assert_eq!(of(SlideDirection::Up), vec![1, 2, 3, 4]);
    assert_eq!(of(SlideDirection::Right), vec![1, 2, 3, 4]);
    assert_eq!(of(SlideDirection::Down), Vec::<u8>::new());
    assert_eq!(of(SlideDirection::Left), Vec::<u8>::new());
}

#[test]
fn a_slide_past_a_piece_is_not_generated() {
    // A single cell with a neighbour to its right and a free cell beyond.
    let mut pieces = [piece(4, 5, 0, 0); 10];
    pieces[0] = piece(0, 0, 1, 1);
    pieces[1] = piece(1, 0, 1, 1);
    let board = Board {
        pieces,
        size: Size { x: 4, y: 5 },
    };
    assert!(is_valid(&board));
    // Landing beyond the neighbour is a valid placement ...
    assert!(make_move(&board, &slide(0, 0, SlideDirection::Right, 2)).is_ok());
    // ... but the search stops at the first distance that fails.
    let right: Vec<u8> = get_valid_moves(&board)
        .iter()
        .map(|(m, _)| *m)
        .filter(|m| m.start == Coordinates { x: 0, y: 0 } && m.direction == SlideDirection::Right)
        .map(|m| m.distance)
        .collect();
    assert_eq!(right, Vec::<u8>::new());
}

#[test]
fn a_slide_can_be_undone() {
    let mut board = get_start_board();
    for step in 0..60 {
        let moves = get_valid_moves(&board);
        for (slide_move, next) in moves.iter() {
            let back = SlideMove {
                start: slide_move.get_endpoint(),
                direction: opposite(slide_move.direction),
                distance: slide_move.distance,
            };
            assert_eq!(make_move(next, &back), Ok(board));
        }
        board = moves[(step * 5 + 1) % moves.len()].1;
    }
}

#[test]
fn labels_of_columns_and_rows() {
    assert_eq!(Coordinates::axis_to_string(Axis::Horizontal, 0), "A");
    assert_eq!(Coordinates::axis_to_string(Axis::Horizontal, 3), "D");
    assert_eq!(Coordinates::axis_to_string(Axis::Horizontal, 25), "Z");
    assert_eq!(Coordinates::axis_to_string(Axis::Horizontal, 190), "\u{ff}");
    assert_eq!(Coordinates::axis_to_string(Axis::Vertical, 0), "1");
    assert_eq!(Coordinates::axis_to_string(Axis::Vertical, 4), "5");
    assert_eq!(Coordinates::axis_to_string(Axis::Vertical, 9), "10");
    assert_eq!(Coordinates::axis_to_string(Axis::Vertical, 99), "100");
    assert_eq!(Coordinates::axis_to_string(Axis::Vertical, 254), "255");
}

#[test]
fn labels_of_cells_and_slides() {
    assert_eq!(Coordinates { x: 0, y: 0 }.to_string(), "A1");
    assert_eq!(Coordinates { x: 3, y: 4 }.to_string(), "D5");
    assert_eq!(Coordinates { x: 1, y: 11 }.to_string(), "B12");
    assert_eq!(
        slide(0, 0, SlideDirection::Right, 2).to_string(),
        "A1\u{2b95}C1"
    );
    assert_eq!(
        slide(1, 1, SlideDirection::Down, 1).to_string(),
        "B2\u{2b95}B1"
    );
    assert_eq!(
        slide(3, 0, SlideDirection::Up, 4).to_string(),
        "D1\u{2b95}D5"
    );
    assert_eq!(
        slide(3, 0, SlideDirection::Left, 2).to_string(),
        "D1\u{2b95}B1"
    );
}

#[test]
fn boards_are_ordered_by_their_pieces() {
    let start = get_start_board();
    let solved = get_solved_board();
    // The first pieces agree; the second is taller on the start board.
    assert!(solved < start);
    assert!(start <= start);
    assert_eq!(start.cmp(&start), std::cmp::Ordering::Equal);
}

#[test]
fn messages_of_the_errors() {
    assert_eq!(InvalidMoveError::NoPieceAtStart.message(), "No piece to move");
    assert_eq!(InvalidMoveError::InvalidMove.message(), "Invalid move");
}
