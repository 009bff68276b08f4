//! The boards that a game can reach, and what it means for a graph to hold
//! them all.
//!
//! A game begins at a start board and goes on by generated slides. A graph
//! is complete when it has a node for the anchor and for every board that a
//! game can reach, each with an edge for every generated slide.

use crate::board::{
    after_slide, arrangement_id, board_id, follows, valid_moves, Board, BoardId, Piece, Size,
    SlideMove,
};
use crate::graph::{keyed, placeholder_move, Edge, Node};
use vstd::prelude::*;

verus! {

/// One generated slide leads from `from` to `to`.
pub open spec fn steps_to(from: Board, to: Board) -> bool {
    exists|m: SlideMove| valid_moves(from).contains(m) && #[trigger] follows(from, m, to)
}

/// The boards are the positions of a game: it begins at `start`, and one
/// generated slide leads from each board to the next.
pub open spec fn is_play(start: Board, boards: Seq<Board>) -> bool {
    &&& boards.len() > 0
    &&& boards[0] == start
    &&& forall|i: int| 0 <= i < boards.len() - 1 ==> steps_to(#[trigger] boards[i], boards[i + 1])
}

/// Generated slides lead from `start` to `board`.
pub open spec fn explored(start: Board, board: Board) -> bool {
    exists|boards: Seq<Board>| #[trigger] is_play(start, boards) && boards.last() == board
}

/// `board` belongs in the graph: it is the anchor or can be reached from
/// `start`.
pub open spec fn found(start: Board, anchor: Board, board: Board) -> bool {
    board == anchor || explored(start, board)
}

/// Two different boards that belong in the graph have one identifier.
pub open spec fn clash(start: Board, anchor: Board, a: Board, b: Board) -> bool {
    found(start, anchor, a) && found(start, anchor, b) && a != b && board_id(a) == board_id(b)
}

/// `id` is the identifier of a board that belongs in the graph.
pub open spec fn names_found(start: Board, anchor: Board, id: BoardId) -> bool {
    exists|board: Board| #[trigger] found(start, anchor, board) && board_id(board) == id
}

/// `ids` are more identifiers of boards that belong in the graph than a label
/// can count.
pub open spec fn too_many(start: Board, anchor: Board, ids: Set<BoardId>) -> bool {
    &&& ids.finite()
    &&& ids.len() > u32::MAX
    &&& forall|id: BoardId| #[trigger] ids.contains(id) ==> names_found(start, anchor, id)
}

/// The edge that records the slide `m` from `board`.
pub open spec fn slide_edge(board: Board, m: SlideMove) -> Edge {
    Edge {
        neighbor: arrangement_id(after_slide(board, m), board.size),
        slide_move: m,
        is_synthetic: false,
    }
}

/// The edges that record the generated slides from `board`, in order.
pub open spec fn slide_edges(board: Board) -> Seq<Edge> {
    valid_moves(board).map_values(|m: SlideMove| slide_edge(board, m))
}

/// The edge that ties a solved board to the anchor, or the anchor to a
/// solved board.
pub open spec fn synthetic_edge(to: BoardId) -> Edge {
    Edge { neighbor: to, slide_move: placeholder_move(), is_synthetic: true }
}

/// The graph has the node of the arrangement.
pub open spec fn holds(nodes: Map<BoardId, Node>, pieces: Seq<Piece>, size: Size) -> bool {
    let id = arrangement_id(pieces, size);
    nodes.contains_key(id) && nodes[id].board.pieces@ == pieces && nodes[id].board.size == size
}

/// The arrangement waits to be added to the graph.
pub open spec fn awaits(pending: Seq<Board>, pieces: Seq<Piece>, size: Size) -> bool {
    exists|k: int|
        0 <= k < pending.len() && (#[trigger] pending[k]).pieces@ == pieces && pending[k].size
            == size
}

/// The graph has the node of the arrangement, or the arrangement waits.
pub open spec fn known(
    nodes: Map<BoardId, Node>,
    pending: Seq<Board>,
    pieces: Seq<Piece>,
    size: Size,
) -> bool {
    holds(nodes, pieces, size) || awaits(pending, pieces, size)
}

/// The node `id` stands for a board reached from `start`, and the first
/// `upto` generated slides from that board are on record: each has its edge,
/// in order, and leads to a board that the graph has or that waits. If
/// `tied`, an edge to the anchor follows them.
#[verifier::opaque]
pub open spec fn expanded(
    nodes: Map<BoardId, Node>,
    pending: Seq<Board>,
    start: Board,
    anchor: BoardId,
    id: BoardId,
    upto: int,
    tied: bool,
) -> bool {
    let board = nodes[id].board;
    &&& explored(start, board)
    &&& nodes[id].edges@ == slide_edges(board).take(upto) + if tied {
        seq![synthetic_edge(anchor)]
    } else {
        Seq::empty()
    }
    &&& forall|j: int|
        0 <= j < upto ==> known(
            nodes,
            pending,
            after_slide(board, #[trigger] valid_moves(board)[j]),
            board.size,
        )
}

/// The node `id` has all of its edges.
pub open spec fn fully_expanded(
    nodes: Map<BoardId, Node>,
    pending: Seq<Board>,
    start: Board,
    anchor: BoardId,
    id: BoardId,
) -> bool {
    expanded(
        nodes,
        pending,
        start,
        anchor,
        id,
        valid_moves(nodes[id].board).len() as int,
        nodes[id].board.solved(),
    )
}

/// The edges of the anchor tie it to solved boards of the graph, each to
/// another one and none to a node of `busy`; and every solved board of the
/// graph, but for those of `busy`, is tied to the anchor.
#[verifier::opaque]
pub open spec fn anchor_tied(
    nodes: Map<BoardId, Node>,
    anchor: BoardId,
    busy: Set<BoardId>,
) -> bool {
    &&& forall|i: int|
        0 <= i < nodes[anchor].edges@.len() ==> {
            let edge = #[trigger] nodes[anchor].edges@[i];
            &&& edge == synthetic_edge(edge.neighbor)
            &&& edge.neighbor != anchor
            &&& !busy.contains(edge.neighbor)
            &&& nodes.contains_key(edge.neighbor)
            &&& nodes[edge.neighbor].board.solved()
        }
    &&& forall|i: int, j: int|
        0 <= i < j < nodes[anchor].edges@.len() ==> (#[trigger] nodes[anchor].edges@[i]).neighbor
            != (#[trigger] nodes[anchor].edges@[j]).neighbor
    &&& forall|id: BoardId| #[trigger]
        nodes.contains_key(id) && id != anchor && !busy.contains(id) && nodes[id].board.solved()
            ==> exists|i: int|
            0 <= i < nodes[anchor].edges@.len() && (#[trigger] nodes[anchor].edges@[i]).neighbor
                == id
}

/// The graph holds the anchor and every board that can be reached from the
/// start position, each with an edge for every generated slide to the node of
/// the board that the slide leads to, and ties every solved board to the
/// anchor.
pub open spec fn complete(nodes: Map<BoardId, Node>, start: Board, anchor: Board) -> bool {
    &&& keyed(nodes)
    &&& nodes.contains_key(board_id(anchor))
    &&& nodes[board_id(anchor)].board == anchor
    &&& nodes.contains_key(board_id(start))
    &&& nodes[board_id(start)].board == start
    &&& forall|id: BoardId| #[trigger]
        nodes.contains_key(id) && id != board_id(anchor) ==> fully_expanded(
            nodes,
            Seq::empty(),
            start,
            board_id(anchor),
            id,
        )
    &&& anchor_tied(nodes, board_id(anchor), Set::empty())
}

/// The start position is explored.
pub proof fn lemma_start_explored(start: Board)
    ensures
        explored(start, start),
{
    let play = seq![start];
    assert(is_play(start, play));
    assert(play.last() == start);
}

/// A board reached by one generated slide from an explored board is explored.
pub proof fn lemma_explored_step(start: Board, board: Board, m: SlideMove, next: Board)
    requires
        explored(start, board),
        valid_moves(board).contains(m),
        follows(board, m, next),
    ensures
        explored(start, next),
{
    let play = choose|boards: Seq<Board>| #[trigger]
        is_play(start, boards) && boards.last() == board;
    let longer = play.push(next);
    assert(steps_to(board, next));
    assert forall|i: int| 0 <= i < longer.len() - 1 implies steps_to(
        #[trigger] longer[i],
        longer[i + 1],
    ) by {
        if i < play.len() - 1 {
            assert(longer[i] == play[i]);
            assert(longer[i + 1] == play[i + 1]);
            assert(steps_to(play[i], play[i + 1]));
        }
    }
    assert(longer[0] == play[0]);
    assert(is_play(start, longer));
    assert(longer.last() == next);
}

/// Every node of a complete graph stands for a board that belongs in the
/// graph, and is filed under the identifier of that board.
pub proof fn lemma_complete_names_found(
    nodes: Map<BoardId, Node>,
    start: Board,
    anchor: Board,
    id: BoardId,
)
    requires
        complete(nodes, start, anchor),
        nodes.contains_key(id),
    ensures
        found(start, anchor, nodes[id].board),
        board_id(nodes[id].board) == id,
        names_found(start, anchor, id),
{
    reveal(expanded);
    if id != board_id(anchor) {
        assert(fully_expanded(nodes, Seq::empty(), start, board_id(anchor), id));
    }
    assert(found(start, anchor, nodes[id].board));
}

/// The boards of a game up to any of its positions are a game.
pub proof fn lemma_play_prefix(start: Board, boards: Seq<Board>, upto: int)
    requires
        is_play(start, boards),
        0 < upto <= boards.len(),
    ensures
        is_play(start, boards.take(upto)),
        explored(start, boards[upto - 1]),
{
    let prefix = boards.take(upto);
    assert forall|i: int| 0 <= i < prefix.len() - 1 implies steps_to(
        #[trigger] prefix[i],
        prefix[i + 1],
    ) by {
        assert(prefix[i] == boards[i]);
        assert(prefix[i + 1] == boards[i + 1]);
        assert(steps_to(boards[i], boards[i + 1]));
    }
    assert(prefix[0] == boards[0]);
    assert(is_play(start, prefix));
    assert(prefix.last() == boards[upto - 1]);
}

/// A complete graph has the node of every position of every game, provided
/// that no game leads to the anchor.
pub proof fn lemma_play_in_graph(
    nodes: Map<BoardId, Node>,
    start: Board,
    anchor: Board,
    boards: Seq<Board>,
    at: int,
)
    requires
        complete(nodes, start, anchor),
        !explored(start, anchor),
        is_play(start, boards),
        0 <= at < boards.len(),
    ensures
        nodes.contains_key(board_id(boards[at])),
        nodes[board_id(boards[at])].board == boards[at],
    decreases at,
{
    if at > 0 {
        let from = boards[at - 1];
        let to = boards[at];
        lemma_play_in_graph(nodes, start, anchor, boards, at - 1);
        lemma_play_prefix(start, boards, at);
        assert(board_id(from) != board_id(anchor));
        assert(fully_expanded(nodes, Seq::empty(), start, board_id(anchor), board_id(from)));
        reveal(expanded);
        assert(steps_to(boards[at - 1], boards[at - 1 + 1]));
        let m = choose|m: SlideMove|
            valid_moves(from).contains(m) && #[trigger] follows(from, m, to);
        let j = choose|j: int| 0 <= j < valid_moves(from).len() && valid_moves(from)[j] == m;
        assert(known(nodes, Seq::empty(), after_slide(from, valid_moves(from)[j]), from.size));
        assert(holds(nodes, to.pieces@, to.size));
        assert(nodes[board_id(to)].board.pieces =~= to.pieces);
    }
}

/// A complete graph has the node of every board that can be reached from the
/// start position, provided that the anchor cannot be reached.
pub proof fn lemma_complete_has_explored(
    nodes: Map<BoardId, Node>,
    start: Board,
    anchor: Board,
    board: Board,
)
    requires
        complete(nodes, start, anchor),
        !explored(start, anchor),
        explored(start, board),
    ensures
        nodes.contains_key(board_id(board)),
        nodes[board_id(board)].board == board,
{
    let boards = choose|boards: Seq<Board>| #[trigger]
        is_play(start, boards) && boards.last() == board;
    lemma_play_in_graph(nodes, start, anchor, boards, boards.len() - 1);
}

/// In a complete graph no two boards that belong in the graph have one
/// identifier, provided that the anchor cannot be reached.
pub proof fn lemma_complete_no_clash(
    nodes: Map<BoardId, Node>,
    start: Board,
    anchor: Board,
    a: Board,
    b: Board,
)
    requires
        complete(nodes, start, anchor),
        !explored(start, anchor),
    ensures
        !clash(start, anchor, a, b),
{
    if clash(start, anchor, a, b) {
        if a != anchor {
            lemma_complete_has_explored(nodes, start, anchor, a);
        }
        if b != anchor {
            lemma_complete_has_explored(nodes, start, anchor, b);
        }
    }
}

} // verus!
