//! The solver: discovery of every board that can be reached from the start
//! board, and the analysis of the graph they form.

use crate::board::{
    board_id, follows, get_solved_board, get_start_board, get_valid_moves, has_piece_of_size,
    is_solution, lemma_slide_keeps_sizes, solved_layout, standard_size, start_layout,
    valid_moves, Board, BoardId, Size, SlideMove,
};
use crate::discovery::{
    discovering, expanding, lemma_begin, lemma_clash_next, lemma_clash_taken,
    lemma_complete_kept, lemma_discovered, lemma_discovery_starts, lemma_expanding_nodes,
    lemma_finish, lemma_record, lemma_tie,
};
use crate::exploration::{
    clash, complete, explored, is_play, lemma_complete_has_explored,
    lemma_complete_names_found, lemma_explored_step, names_found, steps_to, too_many,
};
use crate::graph::{
    adjacency, analyzed, closed, is_largest_label, lemma_closed_explorable, lemma_few_nodes_fit,
    no_labels, unlabelled, Graph, Node, Origin,
};
use crate::search::labelled;
use vstd::prelude::*;

verus! {

broadcast use vstd::std_specs::hash::group_hash_axioms;

/// Why the graph could not be built.
#[derive(Debug, Clone, Copy, PartialEq, Eq, Structural)]
pub enum SolverError {
    /// Two different boards have the same identifier.
    IdClash,
    /// More boards were found than a distance label can count.
    TooLarge,
}

/// `board` is the standard start position.
pub open spec fn is_start(board: Board) -> bool {
    board.size == standard_size() && board.pieces@ == start_layout()
}

/// `board` is the solved anchor.
pub open spec fn is_anchor(board: Board) -> bool {
    board.size == standard_size() && board.pieces@ == solved_layout()
}

/// Builds the graph of the puzzle and holds it with its two origins.
pub struct Solver {
    pub graph: Graph,
    /// The board from which discovery starts.
    pub start_board: Board,
    /// The anchor to which every solved board is tied.
    pub solution_node: Board,
}

/// Every node carries its breadth-first distance from `start` and from
/// `anchor`, counted along the edges of the graph, and no label where no
/// walk leads to it.
pub open spec fn labels_final(nodes: Map<BoardId, Node>, start: BoardId, anchor: BoardId) -> bool {
    forall|id: BoardId| #[trigger]
        nodes.contains_key(id) ==> {
            &&& labelled(adjacency(nodes), nodes.dom(), start, id, nodes[id].distance_to_start)
            &&& labelled(adjacency(nodes), nodes.dom(), anchor, id, nodes[id].distance_to_solution)
        }
}

/// `max` is the largest label that counts from `origin`, or zero if there is
/// none.
pub open spec fn is_largest(nodes: Map<BoardId, Node>, origin: Origin, max: u32) -> bool {
    &&& forall|id: BoardId| #[trigger]
        nodes.contains_key(id) ==> (nodes[id].distance(origin) matches Some(label) ==> label
            <= max)
    &&& max == 0 || exists|id: BoardId| #[trigger]
        nodes.contains_key(id) && nodes[id].distance(origin) == Some(max)
}

impl Solver {
    /// Builds the graph of the standard puzzle from scratch: finds every
    /// board that can be reached from the start position, then labels every
    /// node with its distance from the start position and from the anchor.
    ///
    /// Fails if two boards of the graph turn out to have one identifier, or
    /// if there are more boards than a label can count.
    pub fn new() -> (result: Result<Solver, SolverError>)
        ensures
            match result {
                Ok(solver) => {
                    let nodes = solver.graph.map@;
                    &&& is_start(solver.start_board)
                    &&& is_anchor(solver.solution_node)
                    &&& complete(nodes, solver.start_board, solver.solution_node)
                    &&& closed(nodes)
                    &&& labels_final(
                        nodes,
                        board_id(solver.start_board),
                        board_id(solver.solution_node),
                    )
                    &&& is_largest(nodes, Origin::Start, solver.graph.max_distance_to_start)
                    &&& is_largest(nodes, Origin::Solution, solver.graph.max_distance_to_solution)
                },
                Err(SolverError::IdClash) => exists|
                    start: Board,
                    anchor: Board,
                    a: Board,
                    b: Board,
                |
                    is_start(start) && is_anchor(anchor) && #[trigger] clash(start, anchor, a, b),
                Err(SolverError::TooLarge) => exists|
                    start: Board,
                    anchor: Board,
                    ids: Set<BoardId>,
                |
                    is_start(start) && is_anchor(anchor) && #[trigger] too_many(start, anchor, ids),
            },
    {
        let mut solver: Solver = Solver {
            graph: Graph::new(),
            start_board: get_start_board(),
            solution_node: get_solved_board(),
        };
        let start = solver.start_board;
        let anchor = solver.solution_node;
        solver.graph.add_node(anchor);
        proof {
            assert(start != anchor) by {
                assert(start.pieces@[1] != anchor.pieces@[1]);
            }
            assert(solver.graph.map@.dom() =~= set![board_id(anchor)]);
        }
        match generate_moves(&mut solver) {
            Ok(()) => {},
            Err(error) => {
                return Err(error);
            },
        }
        if solver.graph.node_count() > u32::MAX as usize {
            proof {
                assert forall|id: BoardId| #[trigger]
                    solver.graph.map@.contains_key(id) implies names_found(start, anchor, id) by {
                    lemma_complete_names_found(solver.graph.map@, start, anchor, id);
                }
                assert(too_many(start, anchor, solver.graph.map@.dom()));
            }
            return Err(SolverError::TooLarge);
        }
        let ghost before = solver.graph.map@;
        proof {
            lemma_closed_explorable(before, Origin::Start, board_id(start));
            lemma_closed_explorable(before, Origin::Solution, board_id(anchor));
            lemma_few_nodes_fit(before, Origin::Start, board_id(start));
            lemma_few_nodes_fit(before, Origin::Solution, board_id(anchor));
        }
        solver.graph.analyze(&start, &anchor);
        proof {
            let after = solver.graph.map@;
            lemma_complete_kept(before, after, start, anchor);
            assert(closed(after)) by {
                assert forall|id: BoardId, i: int|
                    after.contains_key(id) && 0 <= i
                        < after[id].edges@.len() implies after.contains_key(
                    (#[trigger] after[id].edges@[i]).neighbor,
                ) by {
                    assert(before.contains_key(before[id].edges@[i].neighbor));
                }
            }
            lemma_labels_final(before, after, board_id(start), board_id(anchor));
            lemma_largest(before, after, Origin::Start, solver.graph.max_distance_to_start);
            lemma_largest(before, after, Origin::Solution, solver.graph.max_distance_to_solution);
        }
        Ok(solver)
    }
}

/// The nodes of a graph can be counted.
proof fn lemma_count_fits(graph: &Graph)
    ensures
        graph.map@.len() <= usize::MAX,
{
    vstd::std_specs::hash::axiom_spec_hash_map_len(&graph.map);
}

/// `moves` are the generated slides from `board`, in order, each with the
/// board it leads to.
#[verifier::opaque]
spec fn generated(board: Board, moves: Seq<(SlideMove, Board)>) -> bool {
    &&& moves.len() == valid_moves(board).len()
    &&& forall|j: int|
        0 <= j < moves.len() ==> (#[trigger] moves[j]).0 == valid_moves(board)[j] && follows(
            board,
            moves[j].0,
            moves[j].1,
        )
}

/// Each generated slide from an explored board leads to an explored board.
proof fn lemma_generated(start: Board, board: Board, moves: Seq<(SlideMove, Board)>, n: int)
    requires
        generated(board, moves),
        explored(start, board),
        0 <= n < moves.len(),
    ensures
        n < valid_moves(board).len(),
        moves[n].0 == valid_moves(board)[n],
        follows(board, valid_moves(board)[n], moves[n].1),
        explored(start, moves[n].1),
{
    reveal(generated);
    assert(valid_moves(board).contains(moves[n].0));
    lemma_explored_step(start, board, moves[n].0, moves[n].1);
}

/// Finds every board that can be reached from the start board of `solver`
/// and enters each in the graph, with an edge for every generated slide.
///
/// The graph must hold the anchor, without edges or labels, and nothing
/// else. Fails only if two boards that belong in the graph have one
/// identifier.
pub fn generate_moves(solver: &mut Solver) -> (result: Result<(), SolverError>)
    requires
        old(solver).start_board != old(solver).solution_node,
        old(solver).graph.map@.dom() == set![board_id(old(solver).solution_node)],
        old(solver).graph.map@[board_id(old(solver).solution_node)].is_fresh(
            old(solver).solution_node,
        ),
    ensures
        final(solver).start_board == old(solver).start_board,
        final(solver).solution_node == old(solver).solution_node,
        final(solver).graph.max_distance_to_start == old(solver).graph.max_distance_to_start,
        final(solver).graph.max_distance_to_solution == old(
            solver,
        ).graph.max_distance_to_solution,
        match result {
            Ok(()) => {
                let nodes = final(solver).graph.map@;
                &&& complete(nodes, final(solver).start_board, final(solver).solution_node)
                &&& closed(nodes)
                &&& no_labels(nodes)
            },
            Err(SolverError::IdClash) => exists|a: Board, b: Board|
                clash(old(solver).start_board, old(solver).solution_node, a, b),
            Err(SolverError::TooLarge) => false,
        },
{
    let start = solver.start_board;
    let anchor = solver.solution_node;
    let mut inspection_queue: Vec<Board> = Vec::new();
    inspection_queue.push(start);
    proof {
        assert(inspection_queue@ =~= seq![start]);
        lemma_discovery_starts(solver.graph.map@, start, anchor);
    }
    while inspection_queue.len() > 0
        invariant
            solver.start_board == start,
            solver.solution_node == anchor,
            start == old(solver).start_board,
            anchor == old(solver).solution_node,
            solver.graph.max_distance_to_start == old(solver).graph.max_distance_to_start,
            solver.graph.max_distance_to_solution == old(solver).graph.max_distance_to_solution,
            discovering(solver.graph.map@, start, anchor, inspection_queue@, Set::empty()),
        decreases usize::MAX - solver.graph.map@.len(),
    {
        let ghost nodes = solver.graph.map@;
        let ghost pending = inspection_queue@;
        let board = inspection_queue.pop().unwrap();
        assert(board == pending.last() && inspection_queue@ == pending.drop_last());
        if solver.graph.has_clash(&board) {
            proof {
                lemma_clash_taken(nodes, start, anchor, pending);
            }
            return Err(SolverError::IdClash);
        }
        solver.graph.add_node(board);
        proof {
            lemma_begin(nodes, solver.graph.map@, start, anchor, pending);
            lemma_count_fits(&solver.graph);
        }
        let moves = get_valid_moves(&board);
        let mut n: usize = 0;
        proof {
            reveal(generated);
        }
        while n < moves.len()
            invariant
                n <= moves@.len() == valid_moves(board).len(),
                generated(board, moves@),
                solver.start_board == start,
                solver.solution_node == anchor,
                start == old(solver).start_board,
                anchor == old(solver).solution_node,
                solver.graph.max_distance_to_start == old(solver).graph.max_distance_to_start,
                solver.graph.max_distance_to_solution == old(
                    solver,
                ).graph.max_distance_to_solution,
                expanding(solver.graph.map@, start, anchor, inspection_queue@, board, n as int),
                solver.graph.map@.len() == nodes.len() + 1,
            decreases moves@.len() - n,
        {
            let slide_move = moves[n].0;
            let new_board = moves[n].1;
            let ghost nodes_before = solver.graph.map@;
            let ghost pending_before = inspection_queue@;
            proof {
                lemma_expanding_nodes(nodes_before, start, anchor, pending_before, board, n as int);
                lemma_generated(start, board, moves@, n as int);
            }
            if solver.graph.has_clash(&new_board) {
                proof {
                    lemma_clash_next(
                        nodes_before,
                        start,
                        anchor,
                        pending_before,
                        board,
                        n as int,
                        new_board,
                    );
                }
                return Err(SolverError::IdClash);
            }
            if !solver.graph.contains_node(&new_board) && !contains_board(
                &inspection_queue,
                &new_board,
            ) {
                inspection_queue.push(new_board);
            }
            solver.graph.add_edge(&board, &new_board, &slide_move);
            proof {
                lemma_record(
                    nodes_before,
                    solver.graph.map@,
                    start,
                    anchor,
                    pending_before,
                    inspection_queue@,
                    board,
                    n as int,
                    new_board,
                );
            }
            n += 1;
        }
        let ghost nodes_before = solver.graph.map@;
        proof {
            lemma_expanding_nodes(
                nodes_before,
                start,
                anchor,
                inspection_queue@,
                board,
                n as int,
            );
        }
        if is_solution(&board) {
            solver.graph.add_synthetic_edge(&board, &anchor);
            let ghost nodes_between = solver.graph.map@;
            solver.graph.add_synthetic_edge(&anchor, &board);
            proof {
                lemma_tie(
                    nodes_before,
                    nodes_between,
                    solver.graph.map@,
                    start,
                    anchor,
                    inspection_queue@,
                    board,
                );
            }
        } else {
            proof {
                lemma_finish(nodes_before, start, anchor, inspection_queue@, board);
            }
        }
    }
    proof {
        assert(inspection_queue@ =~= Seq::empty());
        lemma_discovered(solver.graph.map@, start, anchor);
    }
    Ok(())
}

/// Whether `board` is among `boards`.
fn contains_board(boards: &Vec<Board>, board: &Board) -> (present: bool)
    ensures
        present == exists|k: int| 0 <= k < boards@.len() && #[trigger] boards@[k] == *board,
{
    let mut k: usize = 0;
    while k < boards.len()
        invariant
            k <= boards@.len(),
            forall|j: int| 0 <= j < k ==> #[trigger] boards@[j] != *board,
        decreases boards@.len() - k,
    {
        if boards[k] == *board {
            return true;
        }
        k += 1;
    }
    false
}

/// After the analysis of a graph without labels, every node carries its two
/// distances.
pub proof fn lemma_labels_final(
    before: Map<BoardId, Node>,
    after: Map<BoardId, Node>,
    start: BoardId,
    anchor: BoardId,
)
    requires
        no_labels(before),
        analyzed(before, after, start, anchor),
    ensures
        labels_final(after, start, anchor),
{
    assert(adjacency(after) =~= adjacency(before));
    assert(unlabelled(before, Origin::Start) =~= before.dom());
    assert(unlabelled(before, Origin::Solution) =~= before.dom());
}

/// The largest label that a traversal of a graph without labels has assigned
/// is the largest label of the graph.
pub proof fn lemma_largest(
    before: Map<BoardId, Node>,
    after: Map<BoardId, Node>,
    origin: Origin,
    max: u32,
)
    requires
        no_labels(before),
        after.dom() == before.dom(),
        is_largest_label(before, after, origin, max),
    ensures
        is_largest(after, origin, max),
{
    assert(unlabelled(before, origin) =~= before.dom());
    assert forall|id: BoardId| #[trigger] after.contains_key(id) implies (after[id].distance(
        origin,
    ) matches Some(label) ==> label <= max) by {
        assert(unlabelled(before, origin).contains(id));
    }
    if max != 0 {
        let id = choose|id: BoardId| #[trigger]
            unlabelled(before, origin).contains(id) && after[id].distance(origin) == Some(max);
        assert(after.contains_key(id));
    }
}

/// Every position of a game that begins at the standard start position has a
/// piece that is one cell wide and two cells high.
pub proof fn lemma_play_keeps_tall_piece(start: Board, boards: Seq<Board>, at: int)
    requires
        is_start(start),
        is_play(start, boards),
        0 <= at < boards.len(),
    ensures
        has_piece_of_size(boards[at].pieces@, Size { x: 1, y: 2 }),
    decreases at,
{
    let tall = Size { x: 1, y: 2 };
    if at == 0 {
        assert(boards[0].pieces@[1].size == tall);
    } else {
        lemma_play_keeps_tall_piece(start, boards, at - 1);
        assert(steps_to(boards[at - 1], boards[at - 1 + 1]));
        let m = choose|m: SlideMove|
            valid_moves(boards[at - 1]).contains(m) && #[trigger] follows(
                boards[at - 1],
                m,
                boards[at],
            );
        lemma_slide_keeps_sizes(boards[at - 1], m, boards[at], tall);
    }
}

/// The solved anchor cannot be reached from the standard start position: it
/// is made of other pieces.
pub proof fn lemma_anchor_not_explored(start: Board, anchor: Board)
    requires
        is_start(start),
        is_anchor(anchor),
    ensures
        !explored(start, anchor),
{
    if explored(start, anchor) {
        let boards = choose|boards: Seq<Board>| #[trigger]
            is_play(start, boards) && boards.last() == anchor;
        lemma_play_keeps_tall_piece(start, boards, boards.len() - 1);
        let i = choose|i: int|
            0 <= i < anchor.pieces@.len() && (#[trigger] anchor.pieces@[i]).size == (Size {
                x: 1,
                y: 2,
            });
        assert(solved_layout()[i].size != Size { x: 1, y: 2 });
    }
}

/// The graph of the standard puzzle has the node of every board that can be
/// reached from the start position.
pub proof fn lemma_standard_graph_has_explored(
    nodes: Map<BoardId, Node>,
    start: Board,
    anchor: Board,
    board: Board,
)
    requires
        is_start(start),
        is_anchor(anchor),
        complete(nodes, start, anchor),
        explored(start, board),
    ensures
        nodes.contains_key(board_id(board)),
        nodes[board_id(board)].board == board,
{
    lemma_anchor_not_explored(start, anchor);
    lemma_complete_has_explored(nodes, start, anchor, board);
}

} // verus!
