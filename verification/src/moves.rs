//! Ranking the slides that leave a position by how they change the distance
//! to the solution.

use crate::board::{BoardId, SlideMove};
use crate::graph::{Edge, Graph, Node};
use itertools::Itertools;
use vstd::prelude::*;

verus! {

broadcast use vstd::std_specs::hash::group_hash_axioms;

/// How a slide changes the distance to the solution.
#[derive(Debug, Clone, Copy, PartialEq, Eq, Structural)]
pub enum MoveEffectiveness {
    /// The slide leads closer to the solution.
    Positive,
    /// The slide keeps the distance.
    Neutral,
    /// The slide leads away from the solution.
    Negative,
}

/// A slide that can be made from a position, with what it leads to.
#[derive(Debug, Clone, Copy, PartialEq, Eq, Structural)]
pub struct MoveInfo {
    pub slide_move: SlideMove,
    /// The identifier of the board that the slide leads to.
    pub resulting_id: BoardId,
    /// The distance from that board to the solution.
    pub resulting_distance: u32,
    pub effectiveness: MoveEffectiveness,
}

/// The colour of the indicator shown for a slide of the given effectiveness,
/// as a CSS hex colour.
pub fn get_color(effectiveness: MoveEffectiveness) -> (color: &'static str)
    ensures
        color@ == match effectiveness {
            MoveEffectiveness::Positive => "#009d77"@,
            MoveEffectiveness::Neutral => "#4B7BFF"@,
            MoveEffectiveness::Negative => "#ff443a"@,
        },
{
    match effectiveness {
        MoveEffectiveness::Positive => "#009d77",
        MoveEffectiveness::Neutral => "#4B7BFF",
        MoveEffectiveness::Negative => "#ff443a",
    }
}

/// The effectiveness of a slide that leads from distance `current` to distance
/// `resulting`.
pub open spec fn effect(resulting: u32, current: u32) -> MoveEffectiveness {
    if resulting < current {
        MoveEffectiveness::Positive
    } else if resulting == current {
        MoveEffectiveness::Neutral
    } else {
        MoveEffectiveness::Negative
    }
}

/// What is shown for an edge that leaves a node at distance `current`:
/// nothing for an edge to a node at distance zero, which is the solved anchor,
/// else the slide with the distance it leads to.
pub open spec fn rated(nodes: Map<BoardId, Node>, current: u32, edge: Edge) -> Option<MoveInfo> {
    let resulting = nodes[edge.neighbor].distance_to_solution->0;
    if resulting == 0 {
        None
    } else {
        Some(
            MoveInfo {
                slide_move: edge.slide_move,
                resulting_id: edge.neighbor,
                resulting_distance: resulting,
                effectiveness: effect(resulting, current),
            },
        )
    }
}

/// The slides shown for the node `state`, in the order of its edges.
pub open spec fn rated_moves(nodes: Map<BoardId, Node>, state: BoardId) -> Seq<MoveInfo> {
    nodes[state].edges@.filter_map(
        |edge: Edge| rated(nodes, nodes[state].distance_to_solution->0, edge),
    )
}

/// The slides of `moves` that lead to distance `distance`, in their order.
pub open spec fn leading_to(moves: Seq<MoveInfo>, distance: u32) -> Seq<MoveInfo> {
    moves.filter(|info: MoveInfo| info.resulting_distance == distance)
}

/// `ranked` holds the slides of `moves` by increasing resulting distance, and
/// those that lead to the same distance in the order they have in `moves`.
pub open spec fn ranks(moves: Seq<MoveInfo>, ranked: Seq<MoveInfo>) -> bool {
    &&& ascending(ranked)
    &&& forall|distance: u32| #[trigger]
        leading_to(ranked, distance) == leading_to(moves, distance)
}

/// The slides are ordered by increasing resulting distance.
pub open spec fn ascending(moves: Seq<MoveInfo>) -> bool {
    forall|i: int, j: int|
        0 <= i < j < moves.len() ==> (#[trigger] moves[i]).resulting_distance <= (
        #[trigger] moves[j]).resulting_distance
}

/// Two ascending sequences that hold, for every distance, the same slides in
/// the same order are one sequence.
pub proof fn lemma_ascending_unique(first: Seq<MoveInfo>, second: Seq<MoveInfo>)
    requires
        ascending(first),
        ascending(second),
        forall|distance: u32| #[trigger]
            leading_to(first, distance) == leading_to(second, distance),
    ensures
        first == second,
    decreases first.len(),
{
    if first.len() == 0 {
        if second.len() > 0 {
            lemma_last_leads(second);
            assert(leading_to(first, second.last().resulting_distance).len() == 0) by {
                reveal(Seq::filter);
            }
        }
        assert(first =~= second);
    } else {
        let distance = first.last().resulting_distance;
        lemma_last_leads(first);
        assert(second.len() > 0) by {
            if second.len() == 0 {
                assert(leading_to(second, distance).len() == 0) by {
                    reveal(Seq::filter);
                }
            }
        }
        lemma_last_leads(second);
        let other = second.last().resulting_distance;
        assert(other <= distance) by {
            lemma_led_is_member(first, other);
        }
        assert(distance <= other) by {
            lemma_led_is_member(second, distance);
        }
        let shorter = first.drop_last();
        let other_shorter = second.drop_last();
        assert(leading_to(first, distance).last() == first.last());
        assert(leading_to(second, distance).last() == second.last());
        assert forall|d: u32| #[trigger]
            leading_to(shorter, d) == leading_to(other_shorter, d) by {
            lemma_last_leads(first);
            lemma_last_leads(second);
            lemma_leading_step(first, d);
            lemma_leading_step(second, d);
            if d == distance {
                assert(leading_to(first, d).drop_last() == leading_to(shorter, d));
                assert(leading_to(second, d).drop_last() == leading_to(other_shorter, d));
            }
        }
        assert(ascending(shorter)) by {
            assert forall|i: int, j: int| 0 <= i < j < shorter.len() implies (
            #[trigger] shorter[i]).resulting_distance <= (
            #[trigger] shorter[j]).resulting_distance by {
                assert(shorter[i] == first[i] && shorter[j] == first[j]);
            }
        }
        assert(ascending(other_shorter)) by {
            assert forall|i: int, j: int| 0 <= i < j < other_shorter.len() implies (
            #[trigger] other_shorter[i]).resulting_distance <= (
            #[trigger] other_shorter[j]).resulting_distance by {
                assert(other_shorter[i] == second[i] && other_shorter[j] == second[j]);
            }
        }
        lemma_ascending_unique(shorter, other_shorter);
        assert(first =~= shorter.push(first.last()));
        assert(second =~= other_shorter.push(second.last()));
    }
}

/// The slides that lead to `distance`, with and without the last slide.
proof fn lemma_leading_step(moves: Seq<MoveInfo>, distance: u32)
    requires
        moves.len() > 0,
    ensures
        leading_to(moves, distance) == if moves.last().resulting_distance == distance {
            leading_to(moves.drop_last(), distance).push(moves.last())
        } else {
            leading_to(moves.drop_last(), distance)
        },
{
    reveal(Seq::filter);
}

/// The last slide is the last of those that lead to its distance.
proof fn lemma_last_leads(moves: Seq<MoveInfo>)
    requires
        moves.len() > 0,
    ensures
        leading_to(moves, moves.last().resulting_distance).len() > 0,
        leading_to(moves, moves.last().resulting_distance).last() == moves.last(),
{
    lemma_leading_step(moves, moves.last().resulting_distance);
}

/// If some slide of an ascending sequence leads to `distance`, the last slide
/// leads at least as far.
proof fn lemma_led_is_member(moves: Seq<MoveInfo>, distance: u32)
    requires
        ascending(moves),
        leading_to(moves, distance).len() > 0,
    ensures
        moves.len() > 0,
        distance <= moves.last().resulting_distance,
{
    let led = leading_to(moves, distance);
    let leads = |info: MoveInfo| info.resulting_distance == distance;
    moves.lemma_filter_pred(leads, 0);
    assert(led.contains(led[0]));
    moves.lemma_filter_contains_rev(leads, led[0]);
    let i = choose|i: int| 0 <= i < moves.len() && moves[i] == led[0];
    if i < moves.len() - 1 {
        assert(moves[i].resulting_distance <= moves[moves.len() - 1].resulting_distance);
    }
}

/// There is one way to rank a sequence of slides.
pub proof fn lemma_ranks_unique(moves: Seq<MoveInfo>, first: Seq<MoveInfo>, second: Seq<MoveInfo>)
    requires
        ranks(moves, first),
        ranks(moves, second),
    ensures
        first == second,
{
    lemma_ascending_unique(first, second);
}

/// The state has its distance to the solution, and so has the node at the
/// end of each of its edges.
pub open spec fn rateable(nodes: Map<BoardId, Node>, state: BoardId) -> bool {
    &&& nodes.contains_key(state)
    &&& nodes[state].distance_to_solution is Some
    &&& forall|i: int|
        0 <= i < nodes[state].edges@.len() ==> {
            let to = (#[trigger] nodes[state].edges@[i]).neighbor;
            nodes.contains_key(to) && nodes[to].distance_to_solution is Some
        }
}

/// Orders the slides by the distance they lead to, keeping the order of
/// those that lead to the same distance.
///
/// Trusted: calls `Itertools::sorted_by_key` with the resulting distance as
/// the key. The contract states what that method documents: the elements come
/// back in ascending order of the key, and the sort is stable, so elements
/// with equal keys keep their order.
#[verifier::external_body]
fn rank(moves: Vec<MoveInfo>) -> (ranked: Vec<MoveInfo>)
    ensures
        ranks(moves@, ranked@),
{
    moves.into_iter().sorted_by_key(|info| info.resulting_distance).collect()
}

/// The slides that can be made from the node `state`, best first: each with
/// the distance to the solution that it leads to, ordered by that distance.
/// The edges that tie a solved board to the anchor are left out.
pub fn collect_moves(graph: &Graph, state: BoardId) -> (moves: Vec<MoveInfo>)
    requires
        rateable(graph.map@, state),
    ensures
        ranks(rated_moves(graph.map@, state), moves@),
{
    let node = graph.map.get(&state).unwrap();
    let current_distance = node.distance_to_solution.unwrap();
    let ghost rate = |edge: Edge| rated(graph.map@, current_distance, edge);
    let mut moves: Vec<MoveInfo> = Vec::new();
    let mut i: usize = 0;
    while i < node.edges.len()
        invariant
            i <= node.edges@.len(),
            rateable(graph.map@, state),
            *node == graph.map@[state],
            current_distance == node.distance_to_solution->0,
            rate == |edge: Edge| rated(graph.map@, current_distance, edge),
            moves@ == node.edges@.take(i as int).filter_map(rate),
        decreases node.edges@.len() - i,
    {
        let edge = node.edges[i];
        let neighbor = graph.map.get(&edge.neighbor).unwrap();
        let resulting_distance = neighbor.distance_to_solution.unwrap();
        let effectiveness = if resulting_distance < current_distance {
            MoveEffectiveness::Positive
        } else if resulting_distance == current_distance {
            MoveEffectiveness::Neutral
        } else {
            MoveEffectiveness::Negative
        };
        proof {
            let longer = node.edges@.take(i + 1);
            assert(longer.drop_last() == node.edges@.take(i as int));
            assert(longer.last() == edge);
        }
        if resulting_distance != 0 {
            moves.push(
                MoveInfo {
                    slide_move: edge.slide_move,
                    resulting_id: edge.neighbor,
                    resulting_distance,
                    effectiveness,
                },
            );
        }
        i += 1;
    }
    assert(node.edges@.take(i as int) == node.edges@);
    rank(moves)
}

} // verus!
