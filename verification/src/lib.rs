//! State-space analysis of the Klotski sliding-block puzzle.
//!
//! The crate models boards of rectangular pieces, generates the slides that
//! can be made on a board, collects every board that can be reached from the
//! start position in a graph keyed by a board identifier, and labels each
//! node of that graph with its breadth-first distance from the start position
//! and from the solved anchor.
//!
//! - [`board`]: pieces, boards, slides, the canonical order of pieces, board
//!   identifiers.
//! - [`graph`]: nodes and edges, and the two traversals that label the nodes.
//! - [`search`]: breadth-first distances, and why the traversal computes them.
//! - [`solver`]: discovery of the whole graph from the start position.
//! - [`exploration`]: what it means for a graph to hold every reachable board.
//! - [`discovery`]: the invariant that discovery keeps.
//! - [`moves`]: the slides that leave a position, ranked by where they lead.
//! - [`guard`]: a flag that is held while a guard lives.

pub mod board;
pub mod discovery;
pub mod exploration;
pub mod graph;
pub mod guard;
pub mod moves;
pub mod search;
pub mod solver;
