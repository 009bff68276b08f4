//! Breadth-first distances in a directed graph.
//!
//! The graph is given by its adjacency: for each node, the sequence of nodes
//! that its edges lead to. A search only walks through the nodes of a set
//! `open`; every other node blocks the way. The distance of a node is the
//! number of edges of a shortest walk to it.
//!
//! [`Search`] is the state of a breadth-first traversal, [`Search::inv`] the
//! invariant that ties the labels given so far to those distances.

use crate::board::BoardId;
use vstd::prelude::*;
use vstd::set_lib::lemma_len_subset;

verus! {

/// For each node, the targets of its edges, in order.
pub type Adjacency = Map<BoardId, Seq<BoardId>>;

/// Some edge of `from` leads to `to`.
pub open spec fn has_edge(adj: Adjacency, from: BoardId, to: BoardId) -> bool {
    adj.contains_key(from) && adj[from].contains(to)
}

/// `path` is a walk along edges that only visits nodes of `open`.
pub open spec fn is_walk(adj: Adjacency, open: Set<BoardId>, path: Seq<BoardId>) -> bool {
    &&& path.len() > 0
    &&& forall|i: int| 0 <= i < path.len() ==> open.contains(#[trigger] path[i])
    &&& forall|i: int| 0 <= i < path.len() - 1 ==> has_edge(adj, #[trigger] path[i], path[i + 1])
}

/// `path` is a walk of `steps` edges from `from` to `to`.
pub open spec fn walk_between(
    adj: Adjacency,
    open: Set<BoardId>,
    path: Seq<BoardId>,
    from: BoardId,
    to: BoardId,
    steps: nat,
) -> bool {
    &&& is_walk(adj, open, path)
    &&& path.len() == steps + 1
    &&& path[0] == from
    &&& path[steps as int] == to
}

/// Some walk of exactly `steps` edges leads from `from` to `to`.
pub open spec fn reaches_in(
    adj: Adjacency,
    open: Set<BoardId>,
    from: BoardId,
    to: BoardId,
    steps: nat,
) -> bool {
    exists|path: Seq<BoardId>| walk_between(adj, open, path, from, to, steps)
}

/// Some walk leads from `from` to `to`.
pub open spec fn reachable(adj: Adjacency, open: Set<BoardId>, from: BoardId, to: BoardId) -> bool {
    exists|steps: nat| reaches_in(adj, open, from, to, steps)
}

/// The shortest walk from `from` to `to` has `distance` edges.
pub open spec fn distance_is(
    adj: Adjacency,
    open: Set<BoardId>,
    from: BoardId,
    to: BoardId,
    distance: nat,
) -> bool {
    &&& reaches_in(adj, open, from, to, distance)
    &&& forall|steps: nat| steps < distance ==> !reaches_in(adj, open, from, to, steps)
}

/// `label` is what a breadth-first traversal from `from` assigns to `to`: the
/// distance if `to` can be reached, nothing if it cannot.
pub open spec fn labelled(
    adj: Adjacency,
    open: Set<BoardId>,
    from: BoardId,
    to: BoardId,
    label: Option<u32>,
) -> bool {
    match label {
        Some(distance) => distance_is(adj, open, from, to, distance as nat),
        None => !reachable(adj, open, from, to),
    }
}

/// A node has at most one distance.
pub proof fn lemma_distance_unique(
    adj: Adjacency,
    open: Set<BoardId>,
    from: BoardId,
    to: BoardId,
    a: nat,
    b: nat,
)
    requires
        distance_is(adj, open, from, to, a),
        distance_is(adj, open, from, to, b),
    ensures
        a == b,
{
}

/// A shortest walk visits no node twice: a walk that does can be cut short.
pub proof fn lemma_shortest_walk_is_simple(
    adj: Adjacency,
    open: Set<BoardId>,
    path: Seq<BoardId>,
    from: BoardId,
    to: BoardId,
    distance: nat,
)
    requires
        walk_between(adj, open, path, from, to, distance),
        distance_is(adj, open, from, to, distance),
    ensures
        path.no_duplicates(),
{
    if !path.no_duplicates() {
        let (a, b) = choose|a: int, b: int|
            0 <= a < path.len() && 0 <= b < path.len() && a != b && path[a] == path[b];
        let (i, j) = if a < b {
            (a, b)
        } else {
            (b, a)
        };
        let cut = j - i;
        let shorter = path.take(i + 1) + path.skip(j + 1);
        assert forall|k: int| 0 <= k < shorter.len() implies #[trigger] shorter[k] == if k <= i {
            path[k]
        } else {
            path[k + cut]
        } by {}
        assert forall|k: int| 0 <= k < shorter.len() implies open.contains(
            #[trigger] shorter[k],
        ) by {
            if k <= i {
                assert(open.contains(path[k]));
            } else {
                assert(open.contains(path[k + cut]));
            }
        }
        assert forall|k: int| 0 <= k < shorter.len() - 1 implies has_edge(
            adj,
            #[trigger] shorter[k],
            shorter[k + 1],
        ) by {
            if k < i {
                assert(has_edge(adj, path[k], path[k + 1]));
            } else if k == i {
                assert(has_edge(adj, path[j], path[j + 1]));
            } else {
                assert(has_edge(adj, path[k + cut], path[k + cut + 1]));
            }
        }
        let steps = (distance - cut) as nat;
        assert(walk_between(adj, open, shorter, from, to, steps));
        assert(reaches_in(adj, open, from, to, steps));
    }
}

/// A node is closer than there are open nodes.
pub proof fn lemma_distance_below_size(
    adj: Adjacency,
    open: Set<BoardId>,
    from: BoardId,
    to: BoardId,
    distance: nat,
)
    requires
        open.finite(),
        distance_is(adj, open, from, to, distance),
    ensures
        distance < open.len(),
{
    let path = choose|path: Seq<BoardId>| walk_between(adj, open, path, from, to, distance);
    lemma_shortest_walk_is_simple(adj, open, path, from, to, distance);
    path.unique_seq_to_set();
    assert(path.to_set().subset_of(open)) by {
        assert forall|id: BoardId| path.to_set().contains(id) implies open.contains(id) by {
            let k = choose|k: int| 0 <= k < path.len() && path[k] == id;
            assert(open.contains(path[k]));
        }
    }
    lemma_len_subset(path.to_set(), open);
}

/// The state of a breadth-first traversal.
pub struct Search {
    /// The graph that is searched.
    pub adj: Adjacency,
    /// The nodes that the search may walk through.
    pub open: Set<BoardId>,
    /// The node where the search began.
    pub from: BoardId,
    /// The labels assigned so far.
    pub labels: Map<BoardId, nat>,
    /// The entries that wait to be inspected, each a node with the label it
    /// would get.
    pub queue: Seq<(BoardId, nat)>,
}

impl Search {
    /// The node `to` needs no further entry for the label `bound`: it blocks
    /// the way, or it has a label of at most `bound`, or an entry with `bound`
    /// waits for it.
    pub open spec fn settled(self, to: BoardId, bound: nat) -> bool {
        ||| !self.open.contains(to)
        ||| self.labels.contains_key(to) && self.labels[to] <= bound
        ||| self.queue.contains((to, bound))
    }

    /// The node `to` has a label of at most `bound`, or some entry with at most
    /// `bound` waits.
    pub open spec fn within(self, to: BoardId, bound: nat) -> bool {
        ||| self.labels.contains_key(to) && self.labels[to] <= bound
        ||| exists|j: int| 0 <= j < self.queue.len() && (#[trigger] self.queue[j]).1 <= bound
    }

    /// The waiting entries are ordered by label and span at most two labels.
    pub open spec fn ordered(self) -> bool {
        &&& forall|i: int, j: int|
            0 <= i < j < self.queue.len() ==> (#[trigger] self.queue[i]).1 <= (
            #[trigger] self.queue[j]).1
        &&& forall|j: int|
            0 <= j < self.queue.len() ==> (#[trigger] self.queue[j]).1 <= self.queue[0].1 + 1
    }

    /// Every label is the distance of its node.
    pub open spec fn labels_sound(self) -> bool {
        forall|id: BoardId| #[trigger]
            self.labels.contains_key(id) ==> distance_is(
                self.adj,
                self.open,
                self.from,
                id,
                self.labels[id],
            )
    }

    /// Every waiting entry names a node of the graph, and if that node is
    /// open, a walk with as many edges as the entry says leads to it.
    pub open spec fn entries_sound(self) -> bool {
        forall|j: int|
            0 <= j < self.queue.len() ==> {
                &&& self.adj.contains_key((#[trigger] self.queue[j]).0)
                &&& self.open.contains(self.queue[j].0) ==> reaches_in(
                    self.adj,
                    self.open,
                    self.from,
                    self.queue[j].0,
                    self.queue[j].1,
                )
            }
    }

    /// Every edge of a labelled node leads to a settled node.
    pub open spec fn frontier_closed(self) -> bool {
        forall|id: BoardId, i: int|
            self.labels.contains_key(id) && 0 <= i < self.adj[id].len() ==> self.settled(
                #[trigger] self.adj[id][i],
                self.labels[id] + 1,
            )
    }

    /// No label exceeds that of the entry at the front.
    pub open spec fn labels_behind(self) -> bool {
        forall|id: BoardId| #[trigger]
            self.labels.contains_key(id) && self.queue.len() > 0 ==> self.labels[id]
                <= self.queue[0].1
    }

    /// The invariant of the traversal.
    pub open spec fn inv(self) -> bool {
        &&& self.open.subset_of(self.adj.dom())
        &&& self.labels.dom().subset_of(self.open)
        &&& self.ordered()
        &&& self.labels_sound()
        &&& self.entries_sound()
        &&& self.frontier_closed()
        &&& self.labels_behind()
        &&& self.settled(self.from, 0)
    }

    /// The state in which a traversal from `from` begins.
    pub open spec fn start(adj: Adjacency, open: Set<BoardId>, from: BoardId) -> Search {
        Search { adj, open, from, labels: Map::empty(), queue: seq![(from, 0nat)] }
    }

    /// The state after the entry at the front has been dropped.
    pub open spec fn skip(self) -> Search {
        Search { queue: self.queue.drop_first(), ..self }
    }

    /// The state after the node at the front has got the label of its entry
    /// and an entry has been added for each of its edges.
    pub open spec fn visit(self) -> Search {
        let (id, label) = self.queue[0];
        Search {
            labels: self.labels.insert(id, label),
            queue: self.queue.drop_first() + self.adj[id].map_values(
                |to: BoardId| (to, label + 1),
            ),
            ..self
        }
    }

    /// A traversal begins in a state that meets the invariant.
    pub proof fn lemma_start(adj: Adjacency, open: Set<BoardId>, from: BoardId)
        requires
            adj.contains_key(from),
            open.subset_of(adj.dom()),
        ensures
            Search::start(adj, open, from).inv(),
    {
        let s = Search::start(adj, open, from);
        assert(s.queue[0] == (from, 0nat));
        if open.contains(from) {
            let path = seq![from];
            assert(walk_between(adj, open, path, from, from, 0));
        }
    }

    /// Where a walk from the origin ends, the search has been: the end has a
    /// label no larger than the length of the walk, or an entry with no more
    /// still waits.
    pub proof fn lemma_frontier(self, path: Seq<BoardId>)
        requires
            self.inv(),
            is_walk(self.adj, self.open, path),
            path[0] == self.from,
        ensures
            self.within(path.last(), (path.len() - 1) as nat),
        decreases path.len(),
    {
        let steps = (path.len() - 1) as nat;
        let to = path.last();
        if path.len() == 1 {
            assert(self.open.contains(path[0]));
            if self.queue.contains((self.from, 0nat)) {
                let j = choose|j: int|
                    0 <= j < self.queue.len() && self.queue[j] == (self.from, 0nat);
                assert(self.queue[j].1 <= steps);
            }
        } else {
            let prefix = path.drop_last();
            let via = prefix.last();
            assert(is_walk(self.adj, self.open, prefix)) by {
                assert forall|i: int| 0 <= i < prefix.len() implies self.open.contains(
                    #[trigger] prefix[i],
                ) by {
                    assert(prefix[i] == path[i]);
                }
                assert forall|i: int| 0 <= i < prefix.len() - 1 implies has_edge(
                    self.adj,
                    #[trigger] prefix[i],
                    prefix[i + 1],
                ) by {
                    assert(prefix[i] == path[i]);
                    assert(prefix[i + 1] == path[i + 1]);
                }
            }
            self.lemma_frontier(prefix);
            assert(self.within(via, (steps - 1) as nat));
            if self.labels.contains_key(via) && self.labels[via] <= steps - 1 {
                assert(via == path[path.len() - 2]);
                assert(has_edge(self.adj, path[path.len() - 2], path[path.len() - 2 + 1]));
                assert(self.adj[via].contains(to));
                let i = choose|i: int| 0 <= i < self.adj[via].len() && self.adj[via][i] == to;
                assert(self.settled(self.adj[via][i], self.labels[via] + 1));
                assert(self.open.contains(path[path.len() - 1]));
                let bound = self.labels[via] + 1;
                if self.queue.contains((to, bound)) {
                    let j = choose|j: int|
                        0 <= j < self.queue.len() && self.queue[j] == (to, bound);
                    assert(self.queue[j].1 <= steps);
                }
            } else {
                let j = choose|j: int| 0 <= j < self.queue.len() && (#[trigger] self.queue[j]).1
                    <= steps - 1;
                assert(self.queue[j].1 <= steps);
            }
        }
    }

    /// Dropping an entry whose node blocks the way or has a label keeps the
    /// invariant.
    pub proof fn lemma_skip(self)
        requires
            self.inv(),
            self.queue.len() > 0,
            !self.open.contains(self.queue[0].0) || self.labels.contains_key(self.queue[0].0),
        ensures
            self.skip().inv(),
    {
        let t = self.skip();
        let (front, label) = self.queue[0];
        assert forall|j: int| 0 <= j < t.queue.len() implies t.queue[j] == self.queue[j + 1] by {}
        assert(t.ordered()) by {
            assert forall|i: int, j: int| 0 <= i < j < t.queue.len() implies (
            #[trigger] t.queue[i]).1 <= (#[trigger] t.queue[j]).1 by {
                assert(self.queue[i + 1].1 <= self.queue[j + 1].1);
            }
            assert forall|j: int| 0 <= j < t.queue.len() implies (#[trigger] t.queue[j]).1
                <= t.queue[0].1 + 1 by {
                assert(self.queue[j + 1].1 <= self.queue[0].1 + 1);
                assert(self.queue[0].1 <= self.queue[1].1);
            }
        }
        assert(t.entries_sound()) by {
            assert forall|j: int| 0 <= j < t.queue.len() implies {
                &&& t.adj.contains_key((#[trigger] t.queue[j]).0)
                &&& t.open.contains(t.queue[j].0) ==> reaches_in(
                    t.adj,
                    t.open,
                    t.from,
                    t.queue[j].0,
                    t.queue[j].1,
                )
            } by {
                assert(self.adj.contains_key(self.queue[j + 1].0));
            }
        }
        assert forall|to: BoardId, bound: nat| self.settled(to, bound) implies t.settled(
            to,
            bound,
        ) by {
            assert forall|j: int| 1 <= j < self.queue.len() implies t.queue.contains(
                #[trigger] self.queue[j],
            ) by {
                assert(t.queue[j - 1] == self.queue[j]);
            }
            self.lemma_settled_after_front(t, to, bound);
        }
        assert(t.labels_behind()) by {
            assert forall|id: BoardId| #[trigger]
                t.labels.contains_key(id) && t.queue.len() > 0 implies t.labels[id]
                <= t.queue[0].1 by {
                assert(self.queue[0].1 <= self.queue[1].1);
            }
        }
    }

    /// What was settled stays settled once the front entry is gone, provided
    /// that the node of that entry blocks the way or has, in the new state, a
    /// label no larger than the entry's.
    proof fn lemma_settled_after_front(self, t: Search, to: BoardId, bound: nat)
        requires
            self.queue.len() > 0,
            self.settled(to, bound),
            t.open == self.open,
            self.labels.submap_of(t.labels),
            forall|j: int| 1 <= j < self.queue.len() ==> t.queue.contains(#[trigger] self.queue[j]),
            !self.open.contains(self.queue[0].0) || (t.labels.contains_key(self.queue[0].0)
                && t.labels[self.queue[0].0] <= self.queue[0].1),
        ensures
            t.settled(to, bound),
    {
        if self.open.contains(to) && !(self.labels.contains_key(to) && self.labels[to] <= bound) {
            let j = choose|j: int| 0 <= j < self.queue.len() && self.queue[j] == (to, bound);
            if j > 0 {
                assert(t.queue.contains(self.queue[j]));
            }
        } else if self.open.contains(to) {
            assert(t.labels.contains_key(to) && t.labels[to] == self.labels[to]);
        }
    }

    /// Giving the node at the front the label of its entry, and adding an entry
    /// for each of its edges, keeps the invariant; and that label is the
    /// distance of the node.
    pub proof fn lemma_visit(self)
        requires
            self.inv(),
            self.queue.len() > 0,
            self.open.contains(self.queue[0].0),
            !self.labels.contains_key(self.queue[0].0),
            forall|i: int|
                0 <= i < self.adj[self.queue[0].0].len() ==> self.adj.contains_key(
                    #[trigger] self.adj[self.queue[0].0][i],
                ),
        ensures
            self.visit().inv(),
            distance_is(self.adj, self.open, self.from, self.queue[0].0, self.queue[0].1),
    {
        let t = self.visit();
        let (front, label) = self.queue[0];
        let rest = self.queue.drop_first();
        let added = self.adj[front].map_values(|to: BoardId| (to, label + 1));
        assert(t.queue == rest + added);
        assert forall|j: int| 0 <= j < rest.len() implies #[trigger] t.queue[j] == self.queue[j
            + 1] by {}
        assert forall|j: int| rest.len() <= j < t.queue.len() implies #[trigger] t.queue[j] == (
            self.adj[front][j - rest.len()],
            label + 1,
        ) by {}
        // The label is the distance.
        assert(reaches_in(self.adj, self.open, self.from, front, label));
        assert forall|steps: nat| steps < label implies !reaches_in(
            self.adj,
            self.open,
            self.from,
            front,
            steps,
        ) by {
            if reaches_in(self.adj, self.open, self.from, front, steps) {
                let path = choose|path: Seq<BoardId>|
                    walk_between(self.adj, self.open, path, self.from, front, steps);
                self.lemma_frontier(path);
                let j = choose|j: int| 0 <= j < self.queue.len() && (#[trigger] self.queue[j]).1
                    <= steps;
                assert(self.queue[0].1 <= self.queue[j].1);
            }
        }
        assert(t.labels_sound());
        assert(t.ordered()) by {
            assert forall|j: int| 0 <= j < t.queue.len() implies label <= (#[trigger] t.queue[j]).1
                <= label + 1 by {
                if j < rest.len() {
                    assert(self.queue[0].1 <= self.queue[j + 1].1);
                    assert(self.queue[j + 1].1 <= self.queue[0].1 + 1);
                }
            }
            assert forall|i: int, j: int| 0 <= i < j < t.queue.len() implies (
            #[trigger] t.queue[i]).1 <= (#[trigger] t.queue[j]).1 by {
                if j < rest.len() {
                    assert(self.queue[i + 1].1 <= self.queue[j + 1].1);
                }
            }
        }
        assert(t.entries_sound()) by {
            let walk = choose|path: Seq<BoardId>|
                walk_between(self.adj, self.open, path, self.from, front, label);
            assert forall|j: int| 0 <= j < t.queue.len() implies {
                &&& t.adj.contains_key((#[trigger] t.queue[j]).0)
                &&& t.open.contains(t.queue[j].0) ==> reaches_in(
                    t.adj,
                    t.open,
                    t.from,
                    t.queue[j].0,
                    t.queue[j].1,
                )
            } by {
                if j < rest.len() {
                    assert(self.adj.contains_key(self.queue[j + 1].0));
                } else {
                    let to = self.adj[front][j - rest.len()];
                    assert(self.adj.contains_key(to));
                    if self.open.contains(to) {
                        let longer = walk.push(to);
                        assert(has_edge(self.adj, front, to));
                        assert forall|i: int| 0 <= i < longer.len() - 1 implies has_edge(
                            self.adj,
                            #[trigger] longer[i],
                            longer[i + 1],
                        ) by {
                            if i < walk.len() - 1 {
                                assert(longer[i] == walk[i]);
                                assert(longer[i + 1] == walk[i + 1]);
                            }
                        }
                        assert(walk_between(
                            self.adj,
                            self.open,
                            longer,
                            self.from,
                            to,
                            label + 1,
                        ));
                    }
                }
            }
        }
        assert forall|to: BoardId, bound: nat| self.settled(to, bound) implies t.settled(
            to,
            bound,
        ) by {
            assert forall|j: int| 1 <= j < self.queue.len() implies t.queue.contains(
                #[trigger] self.queue[j],
            ) by {
                assert(t.queue[j - 1] == self.queue[j]);
            }
            self.lemma_settled_after_front(t, to, bound);
        }
        assert(t.frontier_closed()) by {
            assert forall|id: BoardId, i: int|
                t.labels.contains_key(id) && 0 <= i < t.adj[id].len() implies t.settled(
                #[trigger] t.adj[id][i],
                t.labels[id] + 1,
            ) by {
                if id == front {
                    assert(t.queue[rest.len() + i] == (self.adj[front][i], label + 1));
                } else {
                    assert(self.settled(self.adj[id][i], self.labels[id] + 1));
                }
            }
        }
        assert(t.labels_behind()) by {
            assert forall|id: BoardId| #[trigger]
                t.labels.contains_key(id) && t.queue.len() > 0 implies t.labels[id]
                <= t.queue[0].1 by {
                assert(label <= t.queue[0].1);
            }
        }
    }

    /// When no entry waits, every open node has its label: its distance if it
    /// can be reached, none if it cannot.
    pub proof fn lemma_done(self, id: BoardId)
        requires
            self.inv(),
            self.queue.len() == 0,
            self.open.contains(id),
        ensures
            self.labels.contains_key(id) ==> distance_is(
                self.adj,
                self.open,
                self.from,
                id,
                self.labels[id],
            ),
            !self.labels.contains_key(id) ==> !reachable(self.adj, self.open, self.from, id),
    {
        if !self.labels.contains_key(id) && reachable(self.adj, self.open, self.from, id) {
            let steps = choose|steps: nat| reaches_in(self.adj, self.open, self.from, id, steps);
            let path = choose|path: Seq<BoardId>|
                walk_between(self.adj, self.open, path, self.from, id, steps);
            self.lemma_frontier(path);
        }
    }
}

} // verus!
