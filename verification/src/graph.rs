//! The graph of boards: one node for each board, one edge for each slide.

use crate::board::{
    board_id, lemma_same_arrangement_same_id, to_id, Board, BoardId, Coordinates, SlideDirection,
    SlideMove,
};
use crate::search::{
    distance_is, labelled, lemma_distance_below_size, reachable, reaches_in, Adjacency, Search,
};
use std::collections::{HashMap, VecDeque};
use vstd::prelude::*;
use vstd::set_lib::lemma_len_subset;

verus! {

broadcast use vstd::std_specs::hash::group_hash_axioms;
/// A transition from one node to another.
#[derive(Debug, Clone, Copy, PartialEq, Eq, Structural)]
pub struct Edge {
    /// The identifier of the node that the edge leads to.
    pub neighbor: BoardId,
    /// The slide that makes the transition. On a synthetic edge it is a
    /// placeholder, not a slide that a player could make.
    pub slide_move: SlideMove,
    /// The edge ties a solved board to the solved anchor; it stands for no
    /// slide.
    pub is_synthetic: bool,
}

/// A board with the edges that leave it and its two distance labels.
#[derive(Debug, Clone)]
pub struct Node {
    pub board: Board,
    pub edges: Vec<Edge>,
    pub distance_to_start: Option<u32>,
    pub distance_to_solution: Option<u32>,
    pub on_shortest_path: bool,
}

/// The node from which distances are counted: the start board for
/// `distance_to_start`, the solved anchor for `distance_to_solution`.
#[derive(Debug, Clone, Copy, PartialEq, Eq, Structural)]
pub enum Origin {
    Start,
    Solution,
}

/// The nodes, keyed by the identifier of their board, and the largest label
/// that each of the two traversals has assigned.
pub struct Graph {
    pub map: HashMap<BoardId, Node>,
    pub max_distance_to_start: u32,
    pub max_distance_to_solution: u32,
}

impl Node {
    /// A node for `board` with no edges and no labels.
    pub open spec fn is_fresh(self, board: Board) -> bool {
        &&& self.board == board
        &&& self.edges@ == Seq::<Edge>::empty()
        &&& self.distance_to_start is None
        &&& self.distance_to_solution is None
        &&& !self.on_shortest_path
    }

    /// The node is `before` with `edge` appended to its edges.
    pub open spec fn extends(self, before: Node, edge: Edge) -> bool {
        &&& self.board == before.board
        &&& self.edges@ == before.edges@.push(edge)
        &&& self.distance_to_start == before.distance_to_start
        &&& self.distance_to_solution == before.distance_to_solution
        &&& self.on_shortest_path == before.on_shortest_path
    }

    /// The label that counts from `origin`.
    pub open spec fn distance(self, origin: Origin) -> Option<u32> {
        match origin {
            Origin::Start => self.distance_to_start,
            Origin::Solution => self.distance_to_solution,
        }
    }

    /// The targets of the edges, in order.
    pub open spec fn neighbors(self) -> Seq<BoardId> {
        self.edges@.map_values(|edge: Edge| edge.neighbor)
    }

    /// The node is `before` but for the label that counts from `origin`.
    pub open spec fn relabelled(self, before: Node, origin: Origin) -> bool {
        &&& self.board == before.board
        &&& self.edges@ == before.edges@
        &&& self.on_shortest_path == before.on_shortest_path
        &&& origin != Origin::Start ==> self.distance_to_start == before.distance_to_start
        &&& origin != Origin::Solution ==> self.distance_to_solution
            == before.distance_to_solution
    }
}

/// The move recorded on the edges that tie a solved board to the solved
/// anchor.
pub open spec fn placeholder_move() -> SlideMove {
    SlideMove { start: Coordinates { x: 1, y: 0 }, direction: SlideDirection::Down, distance: 1 }
}

/// `after` is `before` with a node for `board`: the same nodes if `before` had
/// one under the identifier of `board`, else one more, fresh, for `board`.
pub open spec fn with_node(
    before: Map<BoardId, Node>,
    after: Map<BoardId, Node>,
    board: Board,
) -> bool {
    if before.contains_key(board_id(board)) {
        after == before
    } else {
        &&& after.dom() == before.dom().insert(board_id(board))
        &&& after[board_id(board)].is_fresh(board)
        &&& forall|id: BoardId| before.contains_key(id) ==> after[id] == before[id]
    }
}

/// Every node is filed under the identifier of its board.
pub open spec fn keyed(nodes: Map<BoardId, Node>) -> bool {
    forall|id: BoardId| #[trigger] nodes.contains_key(id) ==> board_id(nodes[id].board) == id
}

/// No node has a distance label.
pub open spec fn no_labels(nodes: Map<BoardId, Node>) -> bool {
    forall|id: BoardId| #[trigger]
        nodes.contains_key(id) ==> nodes[id].distance_to_start is None
            && nodes[id].distance_to_solution is None
}

/// Every edge leads to a node.
pub open spec fn closed(nodes: Map<BoardId, Node>) -> bool {
    forall|id: BoardId, i: int|
        nodes.contains_key(id) && 0 <= i < nodes[id].edges@.len() ==> nodes.contains_key(
            (#[trigger] nodes[id].edges@[i]).neighbor,
        )
}

impl Graph {
    /// Every node is filed under the identifier of its board.
    pub open spec fn well_formed(self) -> bool {
        keyed(self.map@)
    }

    /// The graph holds a node under the identifier of `board`, for another
    /// board.
    pub open spec fn clashes_with(self, board: Board) -> bool {
        self.map@.contains_key(board_id(board)) && self.map@[board_id(board)].board != board
    }

    /// A graph without nodes.
    pub fn new() -> (graph: Graph)
        ensures
            graph.map@ == Map::<BoardId, Node>::empty(),
            graph.max_distance_to_start == 0,
            graph.max_distance_to_solution == 0,
            graph.well_formed(),
    {
        Graph { map: HashMap::new(), max_distance_to_start: 0, max_distance_to_solution: 0 }
    }

    /// Whether the graph holds another board under the identifier of `board`.
    pub fn has_clash(&self, board: &Board) -> (clash: bool)
        ensures
            clash == self.clashes_with(*board),
    {
        let id = to_id(board);
        match self.map.get(&id) {
            Some(node) => node.board != *board,
            None => false,
        }
    }

    /// Adds a node for `board`, unless the graph has one.
    ///
    /// The graph must not hold another board under the same identifier.
    pub fn add_node(&mut self, board: Board)
        requires
            !old(self).clashes_with(board),
        ensures
            with_node(old(self).map@, final(self).map@, board),
            final(self).max_distance_to_start == old(self).max_distance_to_start,
            final(self).max_distance_to_solution == old(self).max_distance_to_solution,
            old(self).well_formed() ==> final(self).well_formed(),
    {
        let id = to_id(&board);
        if self.map.contains_key(&id) {
            return;
        }
        self.map.insert(
            id,
            Node {
                board,
                edges: Vec::new(),
                distance_to_start: None,
                distance_to_solution: None,
                on_shortest_path: false,
            },
        );
    }

    /// Whether the graph has a node under the identifier of `board`.
    pub fn contains_node(&self, board: &Board) -> (present: bool)
        ensures
            present == self.map@.contains_key(board_id(*board)),
    {
        let id = to_id(board);
        self.map.contains_key(&id)
    }

    /// The number of nodes.
    pub fn node_count(&self) -> (count: usize)
        ensures
            count == self.map@.len(),
    {
        self.map.len()
    }

    /// Appends `edge` to the edges of the node `from`.
    fn push_edge(&mut self, from: BoardId, edge: Edge)
        requires
            old(self).map@.contains_key(from),
        ensures
            final(self).map@.dom() == old(self).map@.dom(),
            final(self).map@[from].extends(old(self).map@[from], edge),
            forall|id: BoardId|
                old(self).map@.contains_key(id) && id != from ==> final(self).map@[id] == old(
                    self,
                ).map@[id],
            final(self).max_distance_to_start == old(self).max_distance_to_start,
            final(self).max_distance_to_solution == old(self).max_distance_to_solution,
            old(self).well_formed() ==> final(self).well_formed(),
    {
        let mut node = self.map.remove(&from).unwrap();
        node.edges.push(edge);
        self.map.insert(from, node);
        assert(final(self).map@.dom() =~= old(self).map@.dom());
    }

    /// Records that `slide_move` leads from `from` to `to`.
    ///
    /// The node of `from` must exist; that of `to` need not exist yet.
    pub fn add_edge(&mut self, from: &Board, to: &Board, slide_move: &SlideMove)
        requires
            old(self).map@.contains_key(board_id(*from)),
        ensures
            final(self).map@.dom() == old(self).map@.dom(),
            final(self).map@[board_id(*from)].extends(
                old(self).map@[board_id(*from)],
                Edge { neighbor: board_id(*to), slide_move: *slide_move, is_synthetic: false },
            ),
            forall|id: BoardId|
                old(self).map@.contains_key(id) && id != board_id(*from) ==> final(self).map@[id]
                    == old(self).map@[id],
            final(self).max_distance_to_start == old(self).max_distance_to_start,
            final(self).max_distance_to_solution == old(self).max_distance_to_solution,
            old(self).well_formed() ==> final(self).well_formed(),
    {
        let id_a = to_id(from);
        let id_b = to_id(to);
        self.push_edge(id_a, Edge { neighbor: id_b, slide_move: *slide_move, is_synthetic: false });
    }

    /// Records that `from` is tied to `to` by an edge that stands for no
    /// slide.
    pub fn add_synthetic_edge(&mut self, from: &Board, to: &Board)
        requires
            old(self).map@.contains_key(board_id(*from)),
        ensures
            final(self).map@.dom() == old(self).map@.dom(),
            final(self).map@[board_id(*from)].extends(
                old(self).map@[board_id(*from)],
                Edge {
                    neighbor: board_id(*to),
                    slide_move: placeholder_move(),
                    is_synthetic: true,
                },
            ),
            forall|id: BoardId|
                old(self).map@.contains_key(id) && id != board_id(*from) ==> final(self).map@[id]
                    == old(self).map@[id],
            final(self).max_distance_to_start == old(self).max_distance_to_start,
            final(self).max_distance_to_solution == old(self).max_distance_to_solution,
            old(self).well_formed() ==> final(self).well_formed(),
    {
        let id_a = to_id(from);
        let id_b = to_id(to);
        let slide_move = SlideMove {
            start: Coordinates { x: 1, y: 0 },
            direction: SlideDirection::Down,
            distance: 1,
        };
        self.push_edge(id_a, Edge { neighbor: id_b, slide_move, is_synthetic: true });
    }
}

impl Default for Graph {
    fn default() -> (graph: Graph)
        ensures
            graph.map@ == Map::<BoardId, Node>::empty(),
            graph.max_distance_to_start == 0,
            graph.max_distance_to_solution == 0,
    {
        Graph::new()
    }
}

/// Adding a board a second time changes nothing, also when the second board
/// is given as another value that holds the same pieces in canonical order:
/// the graph keeps its nodes and their number.
pub proof fn lemma_add_node_twice(
    before: Map<BoardId, Node>,
    between: Map<BoardId, Node>,
    after: Map<BoardId, Node>,
    first: Board,
    second: Board,
)
    requires
        with_node(before, between, first),
        with_node(between, after, second),
        first.ordered(),
        second.ordered(),
        first.size == second.size,
        first.pieces@.to_multiset() == second.pieces@.to_multiset(),
    ensures
        after == between,
        after.len() == between.len(),
{
    lemma_same_arrangement_same_id(first, second);
    assert(between.contains_key(board_id(first)));
}

/// For each node, the targets of its edges.
pub open spec fn adjacency(nodes: Map<BoardId, Node>) -> Adjacency {
    Map::new(|id: BoardId| nodes.contains_key(id), |id: BoardId| nodes[id].neighbors())
}

/// The nodes that have no label counting from `origin`. A traversal walks
/// through these only: a node that has its label is not inspected again.
pub open spec fn unlabelled(nodes: Map<BoardId, Node>, origin: Origin) -> Set<BoardId> {
    Set::new(|id: BoardId| nodes.contains_key(id) && nodes[id].distance(origin) is None)
}

/// A traversal from `from` stays within the graph: `from` is a node, and so
/// is the target of every edge of every node that the traversal reaches.
pub open spec fn explorable(nodes: Map<BoardId, Node>, origin: Origin, from: BoardId) -> bool {
    &&& nodes.contains_key(from)
    &&& forall|id: BoardId, i: int|
        reachable(adjacency(nodes), unlabelled(nodes, origin), from, id) && 0 <= i
            < nodes[id].edges@.len() ==> nodes.contains_key(
            (#[trigger] nodes[id].edges@[i]).neighbor,
        )
}

/// Every distance from `from` can be written as a label: no node is as far
/// away as the largest number that a label can hold.
#[verifier::opaque]
pub open spec fn labels_fit(nodes: Map<BoardId, Node>, origin: Origin, from: BoardId) -> bool {
    forall|id: BoardId|
        !#[trigger] distance_is(
            adjacency(nodes),
            unlabelled(nodes, origin),
            from,
            id,
            u32::MAX as nat,
        )
}

/// In a graph with no more nodes than a label can count, every distance can
/// be written as a label.
pub proof fn lemma_few_nodes_fit(nodes: Map<BoardId, Node>, origin: Origin, from: BoardId)
    requires
        nodes.dom().finite(),
        nodes.len() <= u32::MAX,
    ensures
        labels_fit(nodes, origin, from),
{
    reveal(labels_fit);
    let adj = adjacency(nodes);
    let open = unlabelled(nodes, origin);
    lemma_len_subset(open, nodes.dom());
    assert forall|id: BoardId| !#[trigger] distance_is(adj, open, from, id, u32::MAX as nat) by {
        if distance_is(adj, open, from, id, u32::MAX as nat) {
            lemma_distance_below_size(adj, open, from, id, u32::MAX as nat);
        }
    }
}

/// Where every distance can be written as a label, a distance leaves room
/// for one more step.
pub proof fn lemma_label_fits(
    nodes: Map<BoardId, Node>,
    origin: Origin,
    from: BoardId,
    id: BoardId,
    distance: u32,
)
    requires
        labels_fit(nodes, origin, from),
        distance_is(adjacency(nodes), unlabelled(nodes, origin), from, id, distance as nat),
    ensures
        distance < u32::MAX,
{
    reveal(labels_fit);
}

/// `label` is the label counting from `origin` that node `id` has after a
/// traversal from `from` of the nodes `before`: the label it had, if it had
/// one, else its breadth-first distance from `from`, if it can be reached.
pub open spec fn label_after(
    before: Map<BoardId, Node>,
    origin: Origin,
    from: BoardId,
    id: BoardId,
    label: Option<u32>,
) -> bool {
    if before[id].distance(origin) is Some {
        label == before[id].distance(origin)
    } else {
        labelled(adjacency(before), unlabelled(before, origin), from, id, label)
    }
}

/// `after` is `before` once a traversal from `from` has assigned the labels
/// that count from `origin`.
pub open spec fn traversed(
    before: Map<BoardId, Node>,
    after: Map<BoardId, Node>,
    origin: Origin,
    from: BoardId,
) -> bool {
    &&& after.dom() == before.dom()
    &&& forall|id: BoardId| #[trigger]
        before.contains_key(id) ==> {
            &&& after[id].relabelled(before[id], origin)
            &&& label_after(before, origin, from, id, after[id].distance(origin))
        }
}

/// `max` is the largest label that the traversal from `before` to `after` has
/// assigned, or zero if it has assigned none.
pub open spec fn is_largest_label(
    before: Map<BoardId, Node>,
    after: Map<BoardId, Node>,
    origin: Origin,
    max: u32,
) -> bool {
    &&& forall|id: BoardId| #[trigger]
        unlabelled(before, origin).contains(id) ==> (after[id].distance(origin) matches Some(
            label,
        ) ==> label <= max)
    &&& max == 0 || exists|id: BoardId| #[trigger]
        unlabelled(before, origin).contains(id) && after[id].distance(origin) == Some(max)
}

/// `after` is `before` once both traversals have assigned their labels: the
/// one from `start` the labels `distance_to_start`, the one from `solution`
/// the labels `distance_to_solution`.
pub open spec fn analyzed(
    before: Map<BoardId, Node>,
    after: Map<BoardId, Node>,
    start: BoardId,
    solution: BoardId,
) -> bool {
    &&& after.dom() == before.dom()
    &&& forall|id: BoardId| #[trigger]
        before.contains_key(id) ==> {
            &&& after[id].board == before[id].board
            &&& after[id].edges@ == before[id].edges@
            &&& after[id].on_shortest_path == before[id].on_shortest_path
            &&& label_after(before, Origin::Start, start, id, after[id].distance_to_start)
            &&& label_after(before, Origin::Solution, solution, id, after[id].distance_to_solution)
        }
}

/// In a graph whose every edge leads to a node, a traversal from a node
/// stays within the graph.
pub proof fn lemma_closed_explorable(nodes: Map<BoardId, Node>, origin: Origin, from: BoardId)
    requires
        nodes.contains_key(from),
        closed(nodes),
    ensures
        explorable(nodes, origin, from),
{
    assert forall|id: BoardId, i: int|
        reachable(adjacency(nodes), unlabelled(nodes, origin), from, id) && 0 <= i
            < nodes[id].edges@.len() implies nodes.contains_key(
        (#[trigger] nodes[id].edges@[i]).neighbor,
    ) by {
        lemma_reachable_is_node(nodes, origin, from, id);
    }
}

/// What a traversal reaches is an unlabelled node of the graph.
pub proof fn lemma_reachable_is_node(
    nodes: Map<BoardId, Node>,
    origin: Origin,
    from: BoardId,
    id: BoardId,
)
    requires
        reachable(adjacency(nodes), unlabelled(nodes, origin), from, id),
    ensures
        nodes.contains_key(id),
        nodes[id].distance(origin) is None,
{
    let adj = adjacency(nodes);
    let open = unlabelled(nodes, origin);
    let steps = choose|steps: nat| reaches_in(adj, open, from, id, steps);
    let path = choose|path: Seq<BoardId>|
        crate::search::walk_between(adj, open, path, from, id, steps);
    assert(open.contains(path[steps as int]));
}

/// A node that waits to be inspected, with the label it would get.
#[derive(Clone, Copy)]
struct QueueEntry {
    key: BoardId,
    distance_from: u32,
}

/// The abstract form of the waiting entries.
spec fn entries(queue: Seq<QueueEntry>) -> Seq<(BoardId, nat)> {
    queue.map_values(|entry: QueueEntry| (entry.key, entry.distance_from as nat))
}

/// The nodes `now` are the nodes `before` with the labels `labels` filled in.
spec fn coupled(
    before: Map<BoardId, Node>,
    now: Map<BoardId, Node>,
    origin: Origin,
    labels: Map<BoardId, nat>,
) -> bool {
    &&& now.dom() == before.dom()
    &&& forall|id: BoardId| #[trigger]
        before.contains_key(id) ==> {
            &&& now[id].relabelled(before[id], origin)
            &&& now[id].distance(origin) == if before[id].distance(origin) is Some {
                before[id].distance(origin)
            } else if labels.contains_key(id) {
                Some(labels[id] as u32)
            } else {
                None
            }
        }
    &&& forall|id: BoardId| #[trigger] labels.contains_key(id) ==> labels[id] <= u32::MAX
}

/// Whether the node has the label that counts from `origin`.
fn has_label(node: &Node, origin: Origin) -> (present: bool)
    ensures
        present == node.distance(origin) is Some,
{
    match origin {
        Origin::Start => node.distance_to_start.is_some(),
        Origin::Solution => node.distance_to_solution.is_some(),
    }
}

/// Gives the node the label that counts from `origin`.
fn set_label(node: &mut Node, origin: Origin, label: u32)
    ensures
        final(node).relabelled(*old(node), origin),
        final(node).distance(origin) == Some(label),
{
    match origin {
        Origin::Start => {
            node.distance_to_start = Some(label);
        },
        Origin::Solution => {
            node.distance_to_solution = Some(label);
        },
    }
}

/// Adds an entry with `distance` for the target of each edge.
fn enqueue_neighbors(queue: &mut VecDeque<QueueEntry>, edges: &Vec<Edge>, distance: u32)
    ensures
        final(queue)@ == old(queue)@ + edges@.map_values(
            |edge: Edge| QueueEntry { key: edge.neighbor, distance_from: distance },
        ),
{
    let mut i: usize = 0;
    while i < edges.len()
        invariant
            i <= edges@.len(),
            queue@ == old(queue)@ + edges@.take(i as int).map_values(
                |edge: Edge| QueueEntry { key: edge.neighbor, distance_from: distance },
            ),
        decreases edges@.len() - i,
    {
        queue.push_back(QueueEntry { key: edges[i].neighbor, distance_from: distance });
        i += 1;
    }
    assert(edges@.take(edges@.len() as int) == edges@);
}

impl Graph {
    /// Labels every node that can be reached from `from` with its
    /// breadth-first distance from `from`, and returns the largest label
    /// assigned.
    ///
    /// A node that has its label already is left as it is and is not walked
    /// through.
    pub fn distance_from(&mut self, from: BoardId, origin: Origin) -> (max: u32)
        requires
            explorable(old(self).map@, origin, from),
            labels_fit(old(self).map@, origin, from),
        ensures
            traversed(old(self).map@, final(self).map@, origin, from),
            is_largest_label(old(self).map@, final(self).map@, origin, max),
            final(self).max_distance_to_start == old(self).max_distance_to_start,
            final(self).max_distance_to_solution == old(self).max_distance_to_solution,
            old(self).well_formed() ==> final(self).well_formed(),
    {
        let ghost before = self.map@;
        let ghost adj = adjacency(before);
        let ghost open = unlabelled(before, origin);
        let ghost mut state = Search::start(adj, open, from);
        let mut queue: VecDeque<QueueEntry> = VecDeque::new();
        queue.push_back(QueueEntry { key: from, distance_from: 0 });
        let mut max_distance_from: u32 = 0;
        proof {
            Search::lemma_start(adj, open, from);
            assert(state.queue =~= entries(queue@));
        }
        while queue.len() > 0
            invariant
                explorable(before, origin, from),
                labels_fit(before, origin, from),
                adj == adjacency(before),
                open == unlabelled(before, origin),
                state.inv(),
                state.adj == adj,
                state.open == open,
                state.from == from,
                state.queue == entries(queue@),
                coupled(before, self.map@, origin, state.labels),
                self.max_distance_to_start == old(self).max_distance_to_start,
                self.max_distance_to_solution == old(self).max_distance_to_solution,
                forall|id: BoardId| #[trigger]
                    state.labels.contains_key(id) ==> state.labels[id] <= max_distance_from,
                max_distance_from == 0 || exists|id: BoardId| #[trigger]
                    state.labels.contains_key(id) && state.labels[id] == max_distance_from,
            decreases unlabelled(self.map@, origin).len(), queue@.len(),
        {
            let ghost nodes = self.map@;
            let entry = queue.pop_front().unwrap();
            proof {
                assert(state.queue[0] == (entry.key, entry.distance_from as nat));
                assert(adj.contains_key(state.queue[0].0));
                assert(entries(queue@) =~= state.queue.drop_first());
                lemma_len_subset(unlabelled(nodes, origin), nodes.dom());
            }
            let visited = has_label(self.map.get(&entry.key).unwrap(), origin);
            if visited {
                proof {
                    state.lemma_skip();
                    state = state.skip();
                }
            } else {
                proof {
                    assert(open.contains(entry.key));
                    assert(!state.labels.contains_key(entry.key));
                    assert(unlabelled(nodes, origin).contains(entry.key));
                    assert(reaches_in(adj, open, from, entry.key, entry.distance_from as nat));
                    assert(reachable(adj, open, from, entry.key));
                    assert forall|i: int| 0 <= i < adj[entry.key].len() implies adj.contains_key(
                        #[trigger] adj[entry.key][i],
                    ) by {
                        assert(before.contains_key(before[entry.key].edges@[i].neighbor));
                    }
                    state.lemma_visit();
                    lemma_label_fits(before, origin, from, entry.key, entry.distance_from);
                }
                let mut node = self.map.remove(&entry.key).unwrap();
                set_label(&mut node, origin, entry.distance_from);
                self.map.insert(entry.key, node);
                if max_distance_from < entry.distance_from {
                    max_distance_from = entry.distance_from;
                }
                let neighbors_distance_from = entry.distance_from + 1;
                let node = self.map.get(&entry.key).unwrap();
                enqueue_neighbors(&mut queue, &node.edges, neighbors_distance_from);
                proof {
                    let previous = state;
                    state = state.visit();
                    assert(state.labels == previous.labels.insert(
                        entry.key,
                        entry.distance_from as nat,
                    ));
                    assert(self.map@.dom() =~= before.dom());
                    assert(entries(queue@) =~= state.queue);
                    assert(unlabelled(self.map@, origin) =~= unlabelled(nodes, origin).remove(
                        entry.key,
                    ));
                    assert(state.labels.contains_key(entry.key));
                }
            }
        }
        proof {
            assert forall|id: BoardId| #[trigger] before.contains_key(id) implies label_after(
                before,
                origin,
                from,
                id,
                self.map@[id].distance(origin),
            ) by {
                if before[id].distance(origin) is None {
                    assert(open.contains(id));
                    state.lemma_done(id);
                }
            }
            if max_distance_from != 0 {
                let id = choose|id: BoardId| #[trigger]
                    state.labels.contains_key(id) && state.labels[id] == max_distance_from;
                assert(open.contains(id));
                assert(unlabelled(before, origin).contains(id));
            }
        }
        max_distance_from
    }

    /// Labels every node with its distance from `start` and its distance from
    /// `solution`, and records the largest of each.
    pub fn analyze(&mut self, start: &Board, solution: &Board)
        requires
            explorable(old(self).map@, Origin::Start, board_id(*start)),
            explorable(old(self).map@, Origin::Solution, board_id(*solution)),
            labels_fit(old(self).map@, Origin::Start, board_id(*start)),
            labels_fit(old(self).map@, Origin::Solution, board_id(*solution)),
        ensures
            analyzed(old(self).map@, final(self).map@, board_id(*start), board_id(*solution)),
            is_largest_label(
                old(self).map@,
                final(self).map@,
                Origin::Start,
                final(self).max_distance_to_start,
            ),
            is_largest_label(
                old(self).map@,
                final(self).map@,
                Origin::Solution,
                final(self).max_distance_to_solution,
            ),
            old(self).well_formed() ==> final(self).well_formed(),
    {
        let ghost before = self.map@;
        let start_id = to_id(start);
        let solution_id = to_id(solution);
        let max_start = self.distance_from(start_id, Origin::Start);
        self.max_distance_to_start = max_start;
        let ghost between = self.map@;
        proof {
            assert(adjacency(between) =~= adjacency(before));
            assert(unlabelled(between, Origin::Solution) =~= unlabelled(before, Origin::Solution));
            assert(labels_fit(between, Origin::Solution, solution_id)) by {
                reveal(labels_fit);
            }
            assert(explorable(between, Origin::Solution, solution_id)) by {
                assert forall|id: BoardId, i: int|
                    reachable(
                        adjacency(between),
                        unlabelled(between, Origin::Solution),
                        solution_id,
                        id,
                    ) && 0 <= i < between[id].edges@.len() implies between.contains_key(
                    (#[trigger] between[id].edges@[i]).neighbor,
                ) by {
                    lemma_reachable_is_node(before, Origin::Solution, solution_id, id);
                    assert(before.contains_key(before[id].edges@[i].neighbor));
                }
            }
        }
        let max_solution = self.distance_from(solution_id, Origin::Solution);
        self.max_distance_to_solution = max_solution;
    }
}

} // verus!
