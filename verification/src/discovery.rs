//! The invariant of discovery, and the steps that keep it.
//!
//! Discovery takes one waiting board at a time, gives it a node, and records
//! the slides that can be made from it. [`discovering`] is what holds between
//! two boards, [`expanding`] what holds between two slides of one board.

use crate::board::{
    after_slide, arrangement_id, board_id, follows, valid_moves, Board, BoardId, Piece, Size,
};
use crate::graph::{closed, keyed, no_labels, Edge, Node};
use crate::exploration::{
    anchor_tied, awaits, clash, complete, expanded, explored, found, fully_expanded, holds, known,
    lemma_start_explored, names_found, slide_edge, slide_edges, synthetic_edge,
};
use vstd::prelude::*;

verus! {

/// The boards that wait were reached from `start`, no board waits twice, and
/// none is in the graph.
#[verifier::opaque]
pub open spec fn waiting(nodes: Map<BoardId, Node>, pending: Seq<Board>, start: Board) -> bool {
    &&& forall|k: int| 0 <= k < pending.len() ==> explored(start, #[trigger] pending[k])
    &&& forall|k: int, l: int|
        0 <= k < l < pending.len() ==> #[trigger] pending[k] != #[trigger] pending[l]
    &&& forall|k: int|
        0 <= k < pending.len() ==> !(nodes.contains_key(board_id(#[trigger] pending[k]))
            && nodes[board_id(pending[k])].board == pending[k])
}

/// What holds of the graph throughout discovery, with the nodes of `busy`
/// set aside.
#[verifier::opaque]
pub open spec fn discovering(
    nodes: Map<BoardId, Node>,
    start: Board,
    anchor: Board,
    pending: Seq<Board>,
    busy: Set<BoardId>,
) -> bool {
    &&& keyed(nodes)
    &&& no_labels(nodes)
    &&& nodes.contains_key(board_id(anchor))
    &&& nodes[board_id(anchor)].board == anchor
    &&& forall|id: BoardId| #[trigger]
        nodes.contains_key(id) && id != board_id(anchor) && !busy.contains(id) ==> fully_expanded(
            nodes,
            pending,
            start,
            board_id(anchor),
            id,
        )
    &&& anchor_tied(nodes, board_id(anchor), busy)
    &&& waiting(nodes, pending, start)
    &&& known(nodes, pending, start.pieces@, start.size)
}

/// What holds while the slides from `board` are put on record: the rest of
/// the graph is as [`discovering`] says, and the node of `board` has the first
/// `upto` of its edges.
#[verifier::opaque]
pub open spec fn expanding(
    nodes: Map<BoardId, Node>,
    start: Board,
    anchor: Board,
    pending: Seq<Board>,
    board: Board,
    upto: int,
) -> bool {
    let id = board_id(board);
    &&& discovering(nodes, start, anchor, pending, set![id])
    &&& nodes.contains_key(id)
    &&& id != board_id(anchor)
    &&& nodes[id].board == board
    &&& expanded(nodes, pending, start, board_id(anchor), id, upto, false)
}

/// Every node of `nodes` is a node of `after`, for the same board; and every
/// board that waited is in the graph or waits.
pub open spec fn carried(
    nodes: Map<BoardId, Node>,
    after: Map<BoardId, Node>,
    pending: Seq<Board>,
    queued: Seq<Board>,
) -> bool {
    &&& forall|id: BoardId| #[trigger]
        nodes.contains_key(id) ==> {
            &&& after.contains_key(id)
            &&& after[id].board == nodes[id].board
        }
    &&& forall|k: int|
        0 <= k < pending.len() ==> known(
            after,
            queued,
            (#[trigger] pending[k]).pieces@,
            pending[k].size,
        )
}

/// What was known stays known.
pub proof fn lemma_known_carried(
    nodes: Map<BoardId, Node>,
    after: Map<BoardId, Node>,
    pending: Seq<Board>,
    queued: Seq<Board>,
    pieces: Seq<Piece>,
    size: Size,
)
    requires
        carried(nodes, after, pending, queued),
        known(nodes, pending, pieces, size),
    ensures
        known(after, queued, pieces, size),
{
    if holds(nodes, pieces, size) {
        assert(nodes.contains_key(arrangement_id(pieces, size)));
    } else {
        let k = choose|k: int|
            0 <= k < pending.len() && (#[trigger] pending[k]).pieces@ == pieces && pending[k].size
                == size;
        assert(known(after, queued, pending[k].pieces@, pending[k].size));
    }
}

/// A node whose edges did not change stays as far expanded as it was.
pub proof fn lemma_expanded_carried(
    nodes: Map<BoardId, Node>,
    after: Map<BoardId, Node>,
    pending: Seq<Board>,
    queued: Seq<Board>,
    start: Board,
    anchor: BoardId,
    id: BoardId,
    upto: int,
    tied: bool,
)
    requires
        expanded(nodes, pending, start, anchor, id, upto, tied),
        carried(nodes, after, pending, queued),
        nodes.contains_key(id),
        after[id].edges@ == nodes[id].edges@,
    ensures
        expanded(after, queued, start, anchor, id, upto, tied),
{
    reveal(expanded);
    let board = nodes[id].board;
    assert forall|j: int| 0 <= j < upto implies known(
        after,
        queued,
        after_slide(board, #[trigger] valid_moves(board)[j]),
        board.size,
    ) by {
        lemma_known_carried(
            nodes,
            after,
            pending,
            queued,
            after_slide(board, valid_moves(board)[j]),
            board.size,
        );
    }
}

/// A node that gets the edge of its next slide is expanded one slide further.
pub proof fn lemma_expanded_next(
    nodes: Map<BoardId, Node>,
    after: Map<BoardId, Node>,
    pending: Seq<Board>,
    queued: Seq<Board>,
    start: Board,
    anchor: BoardId,
    id: BoardId,
    upto: int,
)
    requires
        expanded(nodes, pending, start, anchor, id, upto, false),
        carried(nodes, after, pending, queued),
        nodes.contains_key(id),
        0 <= upto < valid_moves(nodes[id].board).len(),
        after[id].edges@ == nodes[id].edges@.push(
            slide_edge(nodes[id].board, valid_moves(nodes[id].board)[upto]),
        ),
        known(
            after,
            queued,
            after_slide(nodes[id].board, valid_moves(nodes[id].board)[upto]),
            nodes[id].board.size,
        ),
    ensures
        expanded(after, queued, start, anchor, id, upto + 1, false),
{
    reveal(expanded);
    let board = nodes[id].board;
    let edges = slide_edges(board);
    assert(edges.take(upto + 1) =~= edges.take(upto).push(edges[upto]));
    assert(edges.take(upto) + Seq::<Edge>::empty() =~= edges.take(upto));
    assert(edges.take(upto + 1) + Seq::<Edge>::empty() =~= edges.take(upto + 1));
    assert forall|j: int| 0 <= j < upto + 1 implies known(
        after,
        queued,
        after_slide(board, #[trigger] valid_moves(board)[j]),
        board.size,
    ) by {
        if j < upto {
            lemma_known_carried(
                nodes,
                after,
                pending,
                queued,
                after_slide(board, valid_moves(board)[j]),
                board.size,
            );
        }
    }
}

/// A node with all its slide edges that gets the edge to the anchor is tied.
pub proof fn lemma_expanded_tied(
    nodes: Map<BoardId, Node>,
    after: Map<BoardId, Node>,
    pending: Seq<Board>,
    queued: Seq<Board>,
    start: Board,
    anchor: BoardId,
    id: BoardId,
    upto: int,
)
    requires
        expanded(nodes, pending, start, anchor, id, upto, false),
        carried(nodes, after, pending, queued),
        nodes.contains_key(id),
        after[id].edges@ == nodes[id].edges@.push(synthetic_edge(anchor)),
    ensures
        expanded(after, queued, start, anchor, id, upto, true),
{
    reveal(expanded);
    let board = nodes[id].board;
    let edges = slide_edges(board);
    assert(edges.take(upto) + Seq::<Edge>::empty() =~= edges.take(upto));
    assert(edges.take(upto).push(synthetic_edge(anchor)) =~= edges.take(upto)
        + seq![synthetic_edge(anchor)]);
    assert forall|j: int| 0 <= j < upto implies known(
        after,
        queued,
        after_slide(board, #[trigger] valid_moves(board)[j]),
        board.size,
    ) by {
        lemma_known_carried(
            nodes,
            after,
            pending,
            queued,
            after_slide(board, valid_moves(board)[j]),
            board.size,
        );
    }
}

/// The ties of the anchor stand while its edges stay, if every new node, and
/// no other, is set aside.
pub proof fn lemma_anchor_carried(
    nodes: Map<BoardId, Node>,
    after: Map<BoardId, Node>,
    pending: Seq<Board>,
    queued: Seq<Board>,
    anchor: BoardId,
    busy: Set<BoardId>,
    aside: Set<BoardId>,
)
    requires
        anchor_tied(nodes, anchor, busy),
        carried(nodes, after, pending, queued),
        nodes.contains_key(anchor),
        after[anchor].edges@ == nodes[anchor].edges@,
        busy.subset_of(aside),
        forall|id: BoardId| aside.contains(id) ==> busy.contains(id) || !nodes.contains_key(id),
        forall|id: BoardId|
            after.contains_key(id) && !nodes.contains_key(id) ==> aside.contains(id),
    ensures
        anchor_tied(after, anchor, aside),
{
    reveal(anchor_tied);
    assert forall|i: int| 0 <= i < after[anchor].edges@.len() implies {
        let edge = #[trigger] after[anchor].edges@[i];
        &&& edge == synthetic_edge(edge.neighbor)
        &&& edge.neighbor != anchor
        &&& !aside.contains(edge.neighbor)
        &&& after.contains_key(edge.neighbor)
        &&& after[edge.neighbor].board.solved()
    } by {
        let edge = nodes[anchor].edges@[i];
        assert(nodes.contains_key(edge.neighbor));
    }
    assert forall|id: BoardId| #[trigger]
        after.contains_key(id) && id != anchor && !aside.contains(id)
            && after[id].board.solved() implies exists|i: int|
        0 <= i < after[anchor].edges@.len() && (#[trigger] after[anchor].edges@[i]).neighbor
            == id by {
        assert(nodes.contains_key(id));
        assert(!busy.contains(id));
        let i = choose|i: int|
            0 <= i < nodes[anchor].edges@.len() && (#[trigger] nodes[anchor].edges@[i]).neighbor
                == id;
        assert(after[anchor].edges@[i].neighbor == id);
    }
}

/// Once the anchor has an edge to the solved node that was set aside, every
/// solved node is tied.
pub proof fn lemma_anchor_gains(
    nodes: Map<BoardId, Node>,
    after: Map<BoardId, Node>,
    pending: Seq<Board>,
    queued: Seq<Board>,
    anchor: BoardId,
    id: BoardId,
)
    requires
        anchor_tied(nodes, anchor, set![id]),
        carried(nodes, after, pending, queued),
        after.dom() == nodes.dom(),
        nodes.contains_key(anchor),
        nodes.contains_key(id),
        id != anchor,
        nodes[id].board.solved(),
        after[anchor].edges@ == nodes[anchor].edges@.push(synthetic_edge(id)),
    ensures
        anchor_tied(after, anchor, Set::empty()),
{
    reveal(anchor_tied);
    let count = nodes[anchor].edges@.len() as int;
    let none = Set::<BoardId>::empty();
    assert forall|i: int| 0 <= i < after[anchor].edges@.len() implies {
        let edge = #[trigger] after[anchor].edges@[i];
        &&& edge == synthetic_edge(edge.neighbor)
        &&& edge.neighbor != anchor
        &&& !none.contains(edge.neighbor)
        &&& after.contains_key(edge.neighbor)
        &&& after[edge.neighbor].board.solved()
    } by {
        if i < count {
            let edge = nodes[anchor].edges@[i];
            assert(nodes.contains_key(edge.neighbor));
        } else {
            assert(after[anchor].edges@[i] == synthetic_edge(id));
        }
    }
    assert forall|i: int, j: int| 0 <= i < j < after[anchor].edges@.len() implies (
    #[trigger] after[anchor].edges@[i]).neighbor != (
    #[trigger] after[anchor].edges@[j]).neighbor by {
        assert(after[anchor].edges@[i] == nodes[anchor].edges@[i]);
        if j < count {
            assert(after[anchor].edges@[j] == nodes[anchor].edges@[j]);
        } else {
            assert(!set![id].contains(nodes[anchor].edges@[i].neighbor));
        }
    }
    assert forall|other: BoardId| #[trigger]
        after.contains_key(other) && other != anchor && after[other].board.solved() implies exists|
        i: int,
    |
        0 <= i < after[anchor].edges@.len() && (#[trigger] after[anchor].edges@[i]).neighbor
            == other by {
        assert(nodes.contains_key(other));
        if other != id {
            assert(!set![id].contains(other));
            let i = choose|i: int|
                0 <= i < nodes[anchor].edges@.len() && (#[trigger] nodes[anchor].edges@[i]).neighbor
                    == other;
            assert(after[anchor].edges@[i].neighbor == other);
        } else {
            assert(after[anchor].edges@[count].neighbor == other);
        }
    }
}

/// A node that is not solved need not be set aside.
pub proof fn lemma_anchor_release(nodes: Map<BoardId, Node>, anchor: BoardId, id: BoardId)
    requires
        anchor_tied(nodes, anchor, set![id]),
        !nodes[id].board.solved(),
    ensures
        anchor_tied(nodes, anchor, Set::empty()),
{
    reveal(anchor_tied);
    assert forall|other: BoardId| #[trigger]
        nodes.contains_key(other) && other != anchor && nodes[other].board.solved() implies exists|
        i: int,
    |
        0 <= i < nodes[anchor].edges@.len() && (#[trigger] nodes[anchor].edges@[i]).neighbor
            == other by {
        assert(!set![id].contains(other));
    }
}

/// The board taken from the end of the waiting boards was reached from
/// `start`, is not in the graph, and leaves the others waiting once it has its
/// node.
pub proof fn lemma_waiting_taken(
    nodes: Map<BoardId, Node>,
    after: Map<BoardId, Node>,
    pending: Seq<Board>,
    start: Board,
)
    requires
        waiting(nodes, pending, start),
        pending.len() > 0,
        forall|id: BoardId| #[trigger]
            after.contains_key(id) ==> (nodes.contains_key(id) && after[id].board
                == nodes[id].board) || after[id].board == pending.last(),
    ensures
        explored(start, pending.last()),
        !(nodes.contains_key(board_id(pending.last())) && nodes[board_id(pending.last())].board
            == pending.last()),
        waiting(after, pending.drop_last(), start),
{
    reveal(waiting);
    let rest = pending.drop_last();
    assert(explored(start, pending[pending.len() - 1]));
    assert forall|k: int| 0 <= k < rest.len() implies explored(start, #[trigger] rest[k]) by {
        assert(rest[k] == pending[k]);
    }
    assert forall|k: int, l: int| 0 <= k < l < rest.len() implies #[trigger] rest[k]
        != #[trigger] rest[l] by {
        assert(rest[k] == pending[k]);
        assert(rest[l] == pending[l]);
    }
    assert forall|k: int| 0 <= k < rest.len() implies !(after.contains_key(
        board_id(#[trigger] rest[k]),
    ) && after[board_id(rest[k])].board == rest[k]) by {
        assert(rest[k] == pending[k]);
        assert(pending[k] != pending[pending.len() - 1]);
    }
}

/// A board reached from `start` that neither waits nor is in the graph may
/// wait.
pub proof fn lemma_waiting_joined(
    nodes: Map<BoardId, Node>,
    pending: Seq<Board>,
    start: Board,
    next: Board,
)
    requires
        waiting(nodes, pending, start),
        explored(start, next),
        !nodes.contains_key(board_id(next)),
        forall|k: int| 0 <= k < pending.len() ==> #[trigger] pending[k] != next,
    ensures
        waiting(nodes, pending.push(next), start),
{
    reveal(waiting);
    let queued = pending.push(next);
    assert forall|k: int| 0 <= k < queued.len() implies explored(start, #[trigger] queued[k]) by {
        if k < pending.len() {
            assert(queued[k] == pending[k]);
        }
    }
    assert forall|k: int, l: int| 0 <= k < l < queued.len() implies #[trigger] queued[k]
        != #[trigger] queued[l] by {
        assert(queued[k] == pending[k]);
        if l < pending.len() {
            assert(queued[l] == pending[l]);
        }
    }
    assert forall|k: int| 0 <= k < queued.len() implies !(nodes.contains_key(
        board_id(#[trigger] queued[k]),
    ) && nodes[board_id(queued[k])].board == queued[k]) by {
        if k < pending.len() {
            assert(queued[k] == pending[k]);
        }
    }
}

/// The waiting boards stay out of a graph that keeps its nodes and their
/// boards.
pub proof fn lemma_waiting_carried(
    nodes: Map<BoardId, Node>,
    after: Map<BoardId, Node>,
    pending: Seq<Board>,
    start: Board,
)
    requires
        waiting(nodes, pending, start),
        after.dom() == nodes.dom(),
        forall|id: BoardId| #[trigger]
            nodes.contains_key(id) ==> after[id].board == nodes[id].board,
    ensures
        waiting(after, pending, start),
{
    reveal(waiting);
    assert forall|k: int| 0 <= k < pending.len() implies !(after.contains_key(
        board_id(#[trigger] pending[k]),
    ) && after[board_id(pending[k])].board == pending[k]) by {
        if nodes.contains_key(board_id(pending[k])) {
            assert(after[board_id(pending[k])].board == nodes[board_id(pending[k])].board);
        }
    }
}

/// Every node of a graph under discovery stands for a board that belongs in
/// the graph, and is filed under the identifier of that board.
pub proof fn lemma_nodes_found(
    nodes: Map<BoardId, Node>,
    start: Board,
    anchor: Board,
    pending: Seq<Board>,
    id: BoardId,
)
    requires
        discovering(nodes, start, anchor, pending, Set::empty()),
        nodes.contains_key(id),
    ensures
        found(start, anchor, nodes[id].board),
        board_id(nodes[id].board) == id,
        names_found(start, anchor, id),
{
    reveal(discovering);
    reveal(expanded);
    if id != board_id(anchor) {
        assert(!Set::<BoardId>::empty().contains(id));
        assert(fully_expanded(nodes, pending, start, board_id(anchor), id));
    }
    assert(found(start, anchor, nodes[id].board));
}

/// The same, while the slides of `board` are put on record.
pub proof fn lemma_nodes_found_expanding(
    nodes: Map<BoardId, Node>,
    start: Board,
    anchor: Board,
    pending: Seq<Board>,
    board: Board,
    upto: int,
    id: BoardId,
)
    requires
        expanding(nodes, start, anchor, pending, board, upto),
        nodes.contains_key(id),
    ensures
        found(start, anchor, nodes[id].board),
        board_id(nodes[id].board) == id,
{
    reveal(expanding);
    reveal(discovering);
    reveal(expanded);
    if id != board_id(anchor) && id != board_id(board) {
        assert(!set![board_id(board)].contains(id));
        assert(fully_expanded(nodes, pending, start, board_id(anchor), id));
    }
    assert(found(start, anchor, nodes[id].board));
}

/// While the slides of `board` are put on record, the graph has the node of
/// `board` and that of the anchor.
pub proof fn lemma_expanding_nodes(
    nodes: Map<BoardId, Node>,
    start: Board,
    anchor: Board,
    pending: Seq<Board>,
    board: Board,
    upto: int,
)
    requires
        expanding(nodes, start, anchor, pending, board, upto),
    ensures
        nodes.contains_key(board_id(board)),
        nodes.contains_key(board_id(anchor)),
        explored(start, board),
{
    reveal(expanding);
    reveal(discovering);
    reveal(expanded);
}

/// A graph with nothing but the anchor, and another board waiting as the
/// start position, is where discovery begins.
pub proof fn lemma_discovery_starts(nodes: Map<BoardId, Node>, start: Board, anchor: Board)
    requires
        start != anchor,
        nodes.dom() == set![board_id(anchor)],
        nodes[board_id(anchor)].is_fresh(anchor),
    ensures
        discovering(nodes, start, anchor, seq![start], Set::empty()),
{
    reveal(discovering);
    reveal(anchor_tied);
    reveal(waiting);
    let pending = seq![start];
    lemma_start_explored(start);
    assert(pending[0] == start);
    assert(awaits(pending, start.pieces@, start.size));
    assert forall|k: int| 0 <= k < pending.len() implies !(nodes.contains_key(
        board_id(#[trigger] pending[k]),
    ) && nodes[board_id(pending[k])].board == pending[k]) by {
        if nodes.contains_key(board_id(start)) && nodes[board_id(start)].board == start {
            assert(start == anchor);
        }
    }
}

/// Once the board taken from the waiting boards has its node, the graph is
/// ready to record the slides from that board.
pub proof fn lemma_begin(
    nodes: Map<BoardId, Node>,
    after: Map<BoardId, Node>,
    start: Board,
    anchor: Board,
    pending: Seq<Board>,
)
    requires
        discovering(nodes, start, anchor, pending, Set::empty()),
        nodes.dom().finite(),
        pending.len() > 0,
        !(nodes.contains_key(board_id(pending.last())) && nodes[board_id(pending.last())].board
            != pending.last()),
        nodes.contains_key(board_id(pending.last())) ==> after == nodes,
        !nodes.contains_key(board_id(pending.last())) ==> {
            &&& after.dom() == nodes.dom().insert(board_id(pending.last()))
            &&& after[board_id(pending.last())].is_fresh(pending.last())
            &&& forall|id: BoardId| nodes.contains_key(id) ==> after[id] == nodes[id]
        },
    ensures
        expanding(after, start, anchor, pending.drop_last(), pending.last(), 0),
        after.len() == nodes.len() + 1,
{
    reveal(discovering);
    reveal(expanding);
    let board = pending.last();
    let rest = pending.drop_last();
    let id = board_id(board);
    let aid = board_id(anchor);
    let busy = set![id];
    assert(!nodes.contains_key(id) && explored(start, board)) by {
        reveal(waiting);
        assert(explored(start, pending[pending.len() - 1]));
    }
    assert(carried(nodes, after, pending, rest)) by {
        assert forall|k: int| 0 <= k < pending.len() implies known(
            after,
            rest,
            (#[trigger] pending[k]).pieces@,
            pending[k].size,
        ) by {
            if k < rest.len() {
                assert(rest[k] == pending[k]);
            } else {
                assert(after.contains_key(arrangement_id(board.pieces@, board.size)));
            }
        }
    }
    assert forall|other: BoardId| #[trigger]
        after.contains_key(other) && other != aid && !busy.contains(other) implies fully_expanded(
        after,
        rest,
        start,
        aid,
        other,
    ) by {
        assert(nodes.contains_key(other));
        assert(fully_expanded(nodes, pending, start, aid, other));
        lemma_expanded_carried(
            nodes,
            after,
            pending,
            rest,
            start,
            aid,
            other,
            valid_moves(nodes[other].board).len() as int,
            nodes[other].board.solved(),
        );
    }
    lemma_anchor_carried(nodes, after, pending, rest, aid, Set::empty(), busy);
    lemma_waiting_taken(nodes, after, pending, start);
    lemma_known_carried(nodes, after, pending, rest, start.pieces@, start.size);
    assert(expanded(after, rest, start, aid, id, 0, false)) by {
        reveal(expanded);
        assert(slide_edges(board).take(0) + Seq::<Edge>::empty() =~= Seq::<Edge>::empty());
    }
}

/// A board taken from the waiting boards whose identifier is in the graph
/// for another board clashes with that board.
pub proof fn lemma_clash_taken(
    nodes: Map<BoardId, Node>,
    start: Board,
    anchor: Board,
    pending: Seq<Board>,
)
    requires
        discovering(nodes, start, anchor, pending, Set::empty()),
        pending.len() > 0,
        nodes.contains_key(board_id(pending.last())),
        nodes[board_id(pending.last())].board != pending.last(),
    ensures
        clash(start, anchor, pending.last(), nodes[board_id(pending.last())].board),
{
    lemma_nodes_found(nodes, start, anchor, pending, board_id(pending.last()));
    reveal(discovering);
    reveal(waiting);
    assert(explored(start, pending[pending.len() - 1]));
}

/// A board reached from `start` whose identifier is in the graph for another
/// board clashes with that board.
pub proof fn lemma_clash_next(
    nodes: Map<BoardId, Node>,
    start: Board,
    anchor: Board,
    pending: Seq<Board>,
    board: Board,
    upto: int,
    next: Board,
)
    requires
        expanding(nodes, start, anchor, pending, board, upto),
        explored(start, next),
        nodes.contains_key(board_id(next)),
        nodes[board_id(next)].board != next,
    ensures
        clash(start, anchor, next, nodes[board_id(next)].board),
{
    lemma_nodes_found_expanding(nodes, start, anchor, pending, board, upto, board_id(next));
}

/// Recording one more slide keeps the graph ready for the next.
pub proof fn lemma_record(
    nodes: Map<BoardId, Node>,
    after: Map<BoardId, Node>,
    start: Board,
    anchor: Board,
    pending: Seq<Board>,
    queued: Seq<Board>,
    board: Board,
    upto: int,
    next: Board,
)
    requires
        expanding(nodes, start, anchor, pending, board, upto),
        0 <= upto < valid_moves(board).len(),
        follows(board, valid_moves(board)[upto], next),
        explored(start, next),
        !(nodes.contains_key(board_id(next)) && nodes[board_id(next)].board != next),
        queued == pending || queued == pending.push(next),
        queued == pending ==> nodes.contains_key(board_id(next)) || exists|k: int|
            0 <= k < pending.len() && #[trigger] pending[k] == next,
        queued != pending ==> !nodes.contains_key(board_id(next)) && forall|k: int|
            0 <= k < pending.len() ==> #[trigger] pending[k] != next,
        after.dom() == nodes.dom(),
        after[board_id(board)].extends(
            nodes[board_id(board)],
            Edge {
                neighbor: board_id(next),
                slide_move: valid_moves(board)[upto],
                is_synthetic: false,
            },
        ),
        forall|id: BoardId|
            nodes.contains_key(id) && id != board_id(board) ==> after[id] == nodes[id],
    ensures
        expanding(after, start, anchor, queued, board, upto + 1),
{
    reveal(discovering);
    reveal(expanding);
    let id = board_id(board);
    let aid = board_id(anchor);
    let busy = set![id];
    let m = valid_moves(board)[upto];
    assert forall|k: int| 0 <= k < pending.len() implies #[trigger] queued[k] == pending[k] by {}
    assert(carried(nodes, after, pending, queued)) by {
        assert forall|k: int| 0 <= k < pending.len() implies known(
            after,
            queued,
            (#[trigger] pending[k]).pieces@,
            pending[k].size,
        ) by {
            assert(queued[k] == pending[k]);
        }
    }
    assert forall|other: BoardId| #[trigger]
        after.contains_key(other) && other != aid && !busy.contains(other) implies fully_expanded(
        after,
        queued,
        start,
        aid,
        other,
    ) by {
        assert(nodes.contains_key(other));
        assert(fully_expanded(nodes, pending, start, aid, other));
        lemma_expanded_carried(
            nodes,
            after,
            pending,
            queued,
            start,
            aid,
            other,
            valid_moves(nodes[other].board).len() as int,
            nodes[other].board.solved(),
        );
    }
    lemma_anchor_carried(nodes, after, pending, queued, aid, busy, busy);
    lemma_waiting_carried(nodes, after, pending, start);
    if queued != pending {
        lemma_waiting_joined(after, pending, start, next);
    }
    lemma_known_carried(nodes, after, pending, queued, start.pieces@, start.size);
    assert(known(after, queued, after_slide(board, m), board.size)) by {
        assert(next.pieces@ == after_slide(board, m) && next.size == board.size);
        assert(board_id(next) == arrangement_id(after_slide(board, m), board.size));
        if queued != pending {
            assert(queued[pending.len() as int] == next);
        } else if nodes.contains_key(board_id(next)) {
            assert(after[board_id(next)].board == next);
        } else {
            let k = choose|k: int| 0 <= k < pending.len() && #[trigger] pending[k] == next;
            assert(queued[k] == next);
        }
    }
    assert(slide_edge(board, m) == Edge {
        neighbor: board_id(next),
        slide_move: m,
        is_synthetic: false,
    });
    lemma_expanded_next(nodes, after, pending, queued, start, aid, id, upto);
}

/// A board that is not solved has all of its edges once its slides are on
/// record.
pub proof fn lemma_finish(
    nodes: Map<BoardId, Node>,
    start: Board,
    anchor: Board,
    pending: Seq<Board>,
    board: Board,
)
    requires
        expanding(nodes, start, anchor, pending, board, valid_moves(board).len() as int),
        !board.solved(),
    ensures
        discovering(nodes, start, anchor, pending, Set::empty()),
{
    reveal(discovering);
    reveal(expanding);
    let id = board_id(board);
    let aid = board_id(anchor);
    assert forall|other: BoardId| #[trigger]
        nodes.contains_key(other) && other != aid implies fully_expanded(
        nodes,
        pending,
        start,
        aid,
        other,
    ) by {
        if other != id {
            assert(!set![id].contains(other));
        }
    }
    lemma_anchor_release(nodes, aid, id);
}

/// A solved board has all of its edges once it is tied to the anchor, and the
/// anchor to it.
pub proof fn lemma_tie(
    nodes: Map<BoardId, Node>,
    between: Map<BoardId, Node>,
    after: Map<BoardId, Node>,
    start: Board,
    anchor: Board,
    pending: Seq<Board>,
    board: Board,
)
    requires
        expanding(nodes, start, anchor, pending, board, valid_moves(board).len() as int),
        board.solved(),
        between.dom() == nodes.dom(),
        between[board_id(board)].extends(
            nodes[board_id(board)],
            synthetic_edge(board_id(anchor)),
        ),
        forall|id: BoardId|
            nodes.contains_key(id) && id != board_id(board) ==> between[id] == nodes[id],
        after.dom() == between.dom(),
        after[board_id(anchor)].extends(
            between[board_id(anchor)],
            synthetic_edge(board_id(board)),
        ),
        forall|id: BoardId|
            between.contains_key(id) && id != board_id(anchor) ==> after[id] == between[id],
    ensures
        discovering(after, start, anchor, pending, Set::empty()),
{
    reveal(discovering);
    reveal(expanding);
    let id = board_id(board);
    let aid = board_id(anchor);
    let busy = set![id];
    assert(carried(nodes, between, pending, pending)) by {
        assert forall|k: int| 0 <= k < pending.len() implies known(
            between,
            pending,
            (#[trigger] pending[k]).pieces@,
            pending[k].size,
        ) by {}
    }
    assert(carried(between, after, pending, pending)) by {
        assert forall|k: int| 0 <= k < pending.len() implies known(
            after,
            pending,
            (#[trigger] pending[k]).pieces@,
            pending[k].size,
        ) by {}
    }
    assert(carried(nodes, after, pending, pending)) by {
        assert forall|k: int| 0 <= k < pending.len() implies known(
            after,
            pending,
            (#[trigger] pending[k]).pieces@,
            pending[k].size,
        ) by {}
    }
    assert forall|other: BoardId| #[trigger]
        after.contains_key(other) && other != aid implies fully_expanded(
        after,
        pending,
        start,
        aid,
        other,
    ) by {
        assert(nodes.contains_key(other));
        if other != id {
            assert(!busy.contains(other));
            assert(fully_expanded(nodes, pending, start, aid, other));
            lemma_expanded_carried(
                nodes,
                after,
                pending,
                pending,
                start,
                aid,
                other,
                valid_moves(nodes[other].board).len() as int,
                nodes[other].board.solved(),
            );
        } else {
            lemma_expanded_tied(
                nodes,
                after,
                pending,
                pending,
                start,
                aid,
                id,
                valid_moves(board).len() as int,
            );
        }
    }
    lemma_anchor_carried(nodes, between, pending, pending, aid, busy, busy);
    lemma_anchor_gains(between, after, pending, pending, aid, id);
    lemma_waiting_carried(nodes, after, pending, start);
    lemma_known_carried(nodes, after, pending, pending, start.pieces@, start.size);
}

/// When no board waits, the graph is complete, no node has a label, and every
/// edge leads to a node.
pub proof fn lemma_discovered(nodes: Map<BoardId, Node>, start: Board, anchor: Board)
    requires
        discovering(nodes, start, anchor, Seq::empty(), Set::empty()),
    ensures
        complete(nodes, start, anchor),
        no_labels(nodes),
        closed(nodes),
{
    reveal(discovering);
    let aid = board_id(anchor);
    let none = Seq::<Board>::empty();
    assert(holds(nodes, start.pieces@, start.size));
    assert(nodes[board_id(start)].board.pieces =~= start.pieces);
    assert forall|id: BoardId| #[trigger]
        nodes.contains_key(id) && id != aid implies fully_expanded(nodes, none, start, aid, id) by {
        assert(!Set::<BoardId>::empty().contains(id));
    }
    assert forall|id: BoardId, i: int|
        nodes.contains_key(id) && 0 <= i < nodes[id].edges@.len() implies nodes.contains_key(
        (#[trigger] nodes[id].edges@[i]).neighbor,
    ) by {
        if id == aid {
            reveal(anchor_tied);
        } else {
            reveal(expanded);
            assert(fully_expanded(nodes, none, start, aid, id));
            let board = nodes[id].board;
            let slides = slide_edges(board);
            assert(slides.take(slides.len() as int) =~= slides);
            if i < slides.len() {
                assert(nodes[id].edges@[i] == slides[i]);
                assert(known(nodes, none, after_slide(board, valid_moves(board)[i]), board.size));
            }
        }
    }
}

/// A complete graph stays complete when its nodes keep their boards and
/// edges.
pub proof fn lemma_complete_kept(
    nodes: Map<BoardId, Node>,
    after: Map<BoardId, Node>,
    start: Board,
    anchor: Board,
)
    requires
        complete(nodes, start, anchor),
        after.dom() == nodes.dom(),
        forall|id: BoardId| #[trigger]
            nodes.contains_key(id) ==> after[id].board == nodes[id].board && after[id].edges@
                == nodes[id].edges@,
    ensures
        complete(after, start, anchor),
{
    let aid = board_id(anchor);
    let none = Seq::<Board>::empty();
    assert(carried(nodes, after, none, none));
    assert forall|id: BoardId| #[trigger]
        after.contains_key(id) && id != aid implies fully_expanded(after, none, start, aid, id) by {
        assert(nodes.contains_key(id));
        assert(fully_expanded(nodes, none, start, aid, id));
        lemma_expanded_carried(
            nodes,
            after,
            none,
            none,
            start,
            aid,
            id,
            valid_moves(nodes[id].board).len() as int,
            nodes[id].board.solved(),
        );
    }
    lemma_anchor_carried(nodes, after, none, none, aid, Set::empty(), Set::empty());
}

} // verus!
