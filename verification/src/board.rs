//! Boards, pieces and slides.
//!
//! A [`Board`] is a fixed set of ten rectangular pieces on a grid. Geometry is
//! specified over mathematical integers, so the predicates below are total:
//! no coordinate, however large, makes them overflow.

use itertools::Itertools;
use std::collections::hash_map::DefaultHasher;
use std::hash::Hasher;
use vstd::bytes::{spec_u32_to_le_bytes, spec_u64_to_le_bytes, u32_to_le_bytes, u64_to_le_bytes};
use vstd::prelude::*;
use vstd::relations::{sorted_by, total_ordering};
use vstd::seq_lib::{lemma_sorted_unique, to_multiset_update};
use vstd::std_specs::cmp::PartialEqSpecImpl;
use vstd::std_specs::hash::DefaultHasherAdditionalSpecFns;
use vstd::string::StringExecFns;

verus! {

/// A grid cell. `x` grows to the right, `y` grows upwards.
#[derive(Debug, Clone, Copy, PartialEq, Eq, PartialOrd, Ord, Hash, Structural)]
pub struct Coordinates {
    pub x: i32,
    pub y: i32,
}

/// Width (`x`) and height (`y`) of a piece or of the board, in cells.
#[derive(Debug, Clone, Copy, PartialEq, Eq, PartialOrd, Ord, Hash, Structural)]
pub struct Size {
    pub x: i32,
    pub y: i32,
}

/// The two axes of the board.
pub enum Axis {
    Horizontal,
    Vertical,
}

/// The four directions in which a piece can slide.
#[derive(Debug, Clone, Copy, PartialEq, Eq, PartialOrd, Ord, Hash, Structural)]
pub enum SlideDirection {
    Up,
    Down,
    Left,
    Right,
}

/// One slide: the piece whose bottom-left cell is `start` moves `distance`
/// cells in `direction`.
#[derive(Debug, Clone, Copy, PartialEq, Eq, PartialOrd, Ord, Hash, Structural)]
pub struct SlideMove {
    pub start: Coordinates,
    pub direction: SlideDirection,
    pub distance: u8,
}

/// Why a slide cannot be made.
#[derive(Debug, Clone, Copy, PartialEq, Eq, Structural)]
pub enum InvalidMoveError {
    /// No piece has its bottom-left cell at the start of the slide.
    NoPieceAtStart,
    /// The slide would take the piece off the board or into another piece.
    InvalidMove,
}

/// A rectangular piece.
#[derive(Debug, Clone, Copy, PartialEq, Eq, PartialOrd, Ord, Hash, Structural)]
pub struct Piece {
    /// The coordinates of the piece's bottom-left cell.
    pub position: Coordinates,
    /// The extent of the piece, to the right and upwards.
    pub size: Size,
}

/// A game board with all of its pieces.
///
/// Boards that this module hands out keep their pieces in canonical order
/// (see [`Board::ordered`]), so that one arrangement has one representation.
#[derive(Debug, Clone, Copy, PartialOrd, Ord, Hash)]
pub struct Board {
    pub pieces: [Piece; 10],
    pub size: Size,
}

impl PartialEq for Board {
    fn eq(&self, other: &Self) -> (equal: bool) {
        if self.size != other.size {
            return false;
        }
        let mut i: usize = 0;
        while i < 10
            invariant
                i <= 10,
                forall|k: int| 0 <= k < i ==> self.pieces@[k] == other.pieces@[k],
            decreases 10 - i,
        {
            if self.pieces[i] != other.pieces[i] {
                return false;
            }
            i += 1;
        }
        assert(self.pieces =~= other.pieces);
        true
    }
}

impl Eq for Board {

}

impl PartialEqSpecImpl for Board {
    open spec fn obeys_eq_spec() -> bool {
        true
    }

    open spec fn eq_spec(&self, other: &Board) -> bool {
        *self == *other
    }
}

impl Piece {
    /// The first column to the right of the piece.
    pub open spec fn right(self) -> int {
        self.position.x + self.size.x
    }

    /// The first row above the piece.
    pub open spec fn top(self) -> int {
        self.position.y + self.size.y
    }

    /// The piece lies entirely within a board of the given size.
    pub open spec fn on_board(self, board_size: Size) -> bool {
        &&& 0 <= self.position.x
        &&& self.right() <= board_size.x
        &&& 0 <= self.position.y
        &&& self.top() <= board_size.y
    }

    /// The rectangles of the two pieces overlap. Pieces that only touch along
    /// an edge do not collide.
    pub open spec fn collides(self, other: Piece) -> bool {
        &&& self.right() > other.position.x
        &&& self.position.x < other.right()
        &&& self.top() > other.position.y
        &&& self.position.y < other.top()
    }
}

/// Some two distinct pieces of the sequence overlap.
pub open spec fn some_collide(pieces: Seq<Piece>) -> bool {
    exists|i: int, j: int|
        0 <= i < j < pieces.len() && (#[trigger] pieces[i]).collides(#[trigger] pieces[j])
}

/// Every piece lies on a board of the given size and no two overlap.
pub open spec fn valid_placement(pieces: Seq<Piece>, board_size: Size) -> bool {
    &&& forall|i: int| 0 <= i < pieces.len() ==> (#[trigger] pieces[i]).on_board(board_size)
    &&& !some_collide(pieces)
}

impl Board {
    /// Every piece lies on the board and no two pieces overlap.
    pub open spec fn valid(self) -> bool {
        valid_placement(self.pieces@, self.size)
    }

    /// The pieces are stored in canonical order.
    pub open spec fn ordered(self) -> bool {
        sorted(self.pieces@)
    }

    /// The board and each of its pieces have a positive width and height.
    pub open spec fn positive(self) -> bool {
        &&& self.size.x > 0
        &&& self.size.y > 0
        &&& forall|i: int|
            0 <= i < self.pieces@.len() ==> (#[trigger] self.pieces@[i]).size.x > 0
                && self.pieces@[i].size.y > 0
    }

    /// The board is a proper arrangement in its canonical representation.
    pub open spec fn well_formed(self) -> bool {
        self.valid() && self.ordered() && self.positive()
    }

    /// Some two-by-two piece sits at the exit, with its bottom-left cell at
    /// `(1, 0)`.
    pub open spec fn solved(self) -> bool {
        exists|i: int| 0 <= i < self.pieces@.len() && wins(#[trigger] self.pieces@[i])
    }
}

/// The piece is a two-by-two piece at the exit.
pub open spec fn wins(piece: Piece) -> bool {
    piece.size.x == 2 && piece.size.y == 2 && piece.position.x == 1 && piece.position.y == 0
}

/// Whether the rectangles of the two pieces overlap.
pub fn collide(a: &Piece, b: &Piece) -> (hit: bool)
    ensures
        hit == a.collides(*b),
{
    a.position.x as i64 + a.size.x as i64 > b.position.x as i64 && (a.position.x as i64)
        < b.position.x as i64 + b.size.x as i64 && a.position.y as i64 + a.size.y as i64
        > b.position.y as i64 && (a.position.y as i64) < b.position.y as i64 + b.size.y as i64
}

/// Whether the piece is entirely contained within the bounds of the board.
pub fn is_on_board(piece: &Piece, board: &Board) -> (inside: bool)
    ensures
        inside == piece.on_board(board.size),
{
    0 <= piece.position.x && piece.position.x as i64 + piece.size.x as i64 <= board.size.x as i64
        && 0 <= piece.position.y && piece.position.y as i64 + piece.size.y as i64
        <= board.size.y as i64
}

/// All pairs `(i, j)` with `i < j < n`, in lexicographic order. There must be
/// no more of them than a vector can hold.
///
/// Trusted: calls `Itertools::tuple_combinations` on the range `0..n`. The
/// contract states what that adaptor yields for pairs: every combination of
/// two elements of the range once, the earlier element first, ordered by first
/// and then by second component.
#[verifier::external_body]
#[allow(deprecated)]
fn index_pairs(n: usize) -> (pairs: Vec<(usize, usize)>)
    requires
        n * n <= usize::MAX,
    ensures
        forall|k: int| 0 <= k < pairs@.len() ==> (#[trigger] pairs@[k]).0 < pairs@[k].1 < n,
        forall|i: usize, j: usize| i < j < n ==> pairs@.contains((i, j)),
        forall|k: int, l: int|
            0 <= k < l < pairs@.len() ==> {
                ||| (#[trigger] pairs@[k]).0 < (#[trigger] pairs@[l]).0
                ||| pairs@[k].0 == pairs@[l].0 && pairs@[k].1 < pairs@[l].1
            },
{
    (0..n).tuple_combinations().collect()
}

/// Whether any two pieces of the board overlap.
pub fn has_collision(board: &Board) -> (hit: bool)
    ensures
        hit == some_collide(board.pieces@),
{
    let pairs = index_pairs(10);
    let mut k: usize = 0;
    while k < pairs.len()
        invariant
            k <= pairs@.len(),
            forall|m: int| 0 <= m < pairs@.len() ==> (#[trigger] pairs@[m]).0 < pairs@[m].1 < 10,
            forall|i: usize, j: usize| i < j < 10 ==> pairs@.contains((i, j)),
            forall|m: int|
                0 <= m < k ==> !board.pieces@[(#[trigger] pairs@[m]).0 as int].collides(
                    board.pieces@[pairs@[m].1 as int],
                ),
        decreases pairs@.len() - k,
    {
        let (i, j) = pairs[k];
        if collide(&board.pieces[i], &board.pieces[j]) {
            assert(board.pieces@[i as int].collides(board.pieces@[j as int]));
            return true;
        }
        k += 1;
    }
    proof {
        assert forall|i: int, j: int| 0 <= i < j < 10 implies !(
        #[trigger] board.pieces@[i]).collides(#[trigger] board.pieces@[j]) by {
            let p = (i as usize, j as usize);
            assert(pairs@.contains(p));
            let m = choose|m: int| 0 <= m < pairs@.len() && pairs@[m] == p;
            assert(pairs@[m].0 == i && pairs@[m].1 == j);
        }
    }
    false
}

/// Whether the board only contains validly placed pieces.
pub fn is_valid(board: &Board) -> (valid: bool)
    ensures
        valid == board.valid(),
{
    let mut i: usize = 0;
    while i < 10
        invariant
            i <= 10,
            forall|k: int| 0 <= k < i ==> (#[trigger] board.pieces@[k]).on_board(board.size),
        decreases 10 - i,
    {
        if !is_on_board(&board.pieces[i], board) {
            return false;
        }
        i += 1;
    }
    !has_collision(board)
}

/// Whether the board is a solution of the puzzle.
pub fn is_solution(board: &Board) -> (solved: bool)
    ensures
        solved == board.solved(),
{
    let mut i: usize = 0;
    while i < 10
        invariant
            i <= 10,
            forall|k: int| 0 <= k < i ==> !wins(#[trigger] board.pieces@[k]),
        decreases 10 - i,
    {
        let piece = &board.pieces[i];
        if piece.size.x == 2 && piece.size.y == 2 && piece.position.x == 1 && piece.position.y
            == 0 {
            return true;
        }
        i += 1;
    }
    false
}

/// The order in which a board keeps its pieces: by column, then by row, then
/// by width, then by height.
pub open spec fn piece_le(a: Piece, b: Piece) -> bool {
    ||| a.position.x < b.position.x
    ||| a.position.x == b.position.x && a.position.y < b.position.y
    ||| a.position.x == b.position.x && a.position.y == b.position.y && a.size.x < b.size.x
    ||| a.position.x == b.position.x && a.position.y == b.position.y && a.size.x == b.size.x
        && a.size.y <= b.size.y
}

/// Whether `a` comes no later than `b` in the canonical order.
pub fn piece_precedes(a: &Piece, b: &Piece) -> (first: bool)
    ensures
        first == piece_le(*a, *b),
{
    if a.position.x != b.position.x {
        a.position.x < b.position.x
    } else if a.position.y != b.position.y {
        a.position.y < b.position.y
    } else if a.size.x != b.size.x {
        a.size.x < b.size.x
    } else {
        a.size.y <= b.size.y
    }
}

/// The pieces are in canonical order.
pub open spec fn sorted(pieces: Seq<Piece>) -> bool {
    forall|i: int, j: int|
        0 <= i < j < pieces.len() ==> piece_le(#[trigger] pieces[i], #[trigger] pieces[j])
}

/// The pieces of `pieces`, put in canonical order.
pub open spec fn canonical(pieces: Seq<Piece>) -> Seq<Piece> {
    pieces.sort_by(|a: Piece, b: Piece| piece_le(a, b))
}

/// The canonical order is a total order on pieces.
pub proof fn lemma_piece_le_total()
    ensures
        total_ordering(|a: Piece, b: Piece| piece_le(a, b)),
{
}

/// `canonical(pieces)` is in canonical order and holds the same pieces, each as
/// often as `pieces` does.
pub proof fn lemma_canonical(pieces: Seq<Piece>)
    ensures
        sorted(canonical(pieces)),
        canonical(pieces).to_multiset() == pieces.to_multiset(),
        canonical(pieces).len() == pieces.len(),
{
    let leq = |a: Piece, b: Piece| piece_le(a, b);
    lemma_piece_le_total();
    pieces.lemma_sort_by_ensures(leq);
    let c = canonical(pieces);
    assert(sorted(c)) by {
        assert forall|i: int, j: int| 0 <= i < j < c.len() implies piece_le(
            #[trigger] c[i],
            #[trigger] c[j],
        ) by {
            assert(leq(c[i], c[j]));
        }
    }
    vstd::seq_lib::to_multiset_len(pieces);
    vstd::seq_lib::to_multiset_len(c);
}

/// A sequence in canonical order is the canonical form of every sequence that
/// holds the same pieces.
pub proof fn lemma_canonical_unique(pieces: Seq<Piece>, ordered: Seq<Piece>)
    requires
        sorted(ordered),
        ordered.to_multiset() == pieces.to_multiset(),
    ensures
        ordered == canonical(pieces),
{
    let leq = |a: Piece, b: Piece| piece_le(a, b);
    lemma_piece_le_total();
    lemma_canonical(pieces);
    let c = canonical(pieces);
    assert(sorted_by(c, leq)) by {
        assert forall|i: int, j: int| 0 <= i < j < c.len() implies #[trigger] leq(c[i], c[j]) by {
            assert(piece_le(c[i], c[j]));
        }
    }
    assert(sorted_by(ordered, leq)) by {
        assert forall|i: int, j: int| 0 <= i < j < ordered.len() implies #[trigger] leq(
            ordered[i],
            ordered[j],
        ) by {
            assert(piece_le(ordered[i], ordered[j]));
        }
    }
    lemma_sorted_unique(ordered, c, leq);
}

/// Exchanging two elements of a sequence leaves its multiset unchanged.
proof fn lemma_swap_keeps_multiset(s: Seq<Piece>, i: int, j: int)
    requires
        0 <= i < s.len(),
        0 <= j < s.len(),
    ensures
        s.update(i, s[j]).update(j, s[i]).to_multiset() == s.to_multiset(),
{
    broadcast use vstd::multiset::group_multiset_axioms;

    to_multiset_update(s, i, s[j]);
    to_multiset_update(s.update(i, s[j]), j, s[i]);
    vstd::seq_lib::to_multiset_contains(s, s[i]);
    vstd::seq_lib::to_multiset_contains(s, s[j]);
    assert(s.contains(s[i]));
    assert(s.contains(s[j]));
    assert(s.update(i, s[j]).update(j, s[i]).to_multiset() =~= s.to_multiset());
}

/// Puts the pieces in canonical order.
pub fn sort_pieces(pieces: &mut [Piece; 10])
    ensures
        final(pieces)@ == canonical(old(pieces)@),
{
    let mut i: usize = 1;
    while i < 10
        invariant
            1 <= i <= 10,
            sorted(pieces@.take(i as int)),
            pieces@.to_multiset() == old(pieces)@.to_multiset(),
        decreases 10 - i,
    {
        let mut j: usize = i;
        proof {
            let prefix = pieces@.take(i as int);
            assert forall|a: int, b: int| 0 <= a < b < i implies piece_le(
                #[trigger] pieces@[a],
                #[trigger] pieces@[b],
            ) by {
                assert(piece_le(prefix[a], prefix[b]));
            }
        }
        while j > 0 && !piece_precedes(&pieces[j - 1], &pieces[j])
            invariant
                j <= i < 10,
                pieces@.to_multiset() == old(pieces)@.to_multiset(),
                forall|a: int, b: int|
                    0 <= a < b <= i && a != j && b != j ==> piece_le(
                        #[trigger] pieces@[a],
                        #[trigger] pieces@[b],
                    ),
                forall|b: int| j < b <= i ==> piece_le(pieces@[j as int], #[trigger] pieces@[b]),
            decreases j,
        {
            let ghost before = pieces@;
            let lower = pieces[j - 1];
            let upper = pieces[j];
            pieces[j - 1] = upper;
            pieces[j] = lower;
            proof {
                lemma_swap_keeps_multiset(before, j - 1, j as int);
                assert(pieces@ =~= before.update(j - 1, before[j as int]).update(
                    j as int,
                    before[j - 1],
                ));
            }
            j -= 1;
        }
        i += 1;
    }
    proof {
        assert(pieces@.take(10) =~= pieces@);
        lemma_canonical_unique(old(pieces)@, pieces@);
    }
}

/// Width of the standard Klotski board, in cells.
pub const BOARD_WIDTH: i32 = 4;

/// Height of the standard Klotski board, in cells.
pub const BOARD_HEIGHT: i32 = 5;

/// Size of the standard Klotski board: four columns, five rows.
pub open spec fn standard_size() -> Size {
    Size { x: BOARD_WIDTH, y: BOARD_HEIGHT }
}

/// A piece given by the coordinates of its bottom-left cell and its extent.
pub open spec fn piece_at(x: i32, y: i32, width: i32, height: i32) -> Piece {
    Piece { position: Coordinates { x, y }, size: Size { x: width, y: height } }
}

/// The pieces of the standard start position, in canonical order:
///
/// ```text
/// ABBC
/// ABBC
/// DEEF
/// DGHF
/// I  J
/// ```
pub open spec fn start_layout() -> Seq<Piece> {
    seq![
        piece_at(0, 0, 1, 1),
        piece_at(0, 1, 1, 2),
        piece_at(0, 3, 1, 2),
        piece_at(1, 1, 1, 1),
        piece_at(1, 2, 2, 1),
        piece_at(1, 3, 2, 2),
        piece_at(2, 1, 1, 1),
        piece_at(3, 0, 1, 1),
        piece_at(3, 1, 1, 2),
        piece_at(3, 3, 1, 2),
    ]
}

/// The pieces of the solved anchor, in canonical order: the two-by-two piece
/// at the exit, and nine single cells along the left and right edges that only
/// fill the board.
pub open spec fn solved_layout() -> Seq<Piece> {
    seq![
        piece_at(0, 0, 1, 1),
        piece_at(0, 1, 1, 1),
        piece_at(0, 2, 1, 1),
        piece_at(0, 3, 1, 1),
        piece_at(0, 4, 1, 1),
        piece_at(1, 0, 2, 2),
        piece_at(3, 0, 1, 1),
        piece_at(3, 1, 1, 1),
        piece_at(3, 2, 1, 1),
        piece_at(3, 3, 1, 1),
    ]
}

fn new_piece(x: i32, y: i32, width: i32, height: i32) -> (piece: Piece)
    ensures
        piece == piece_at(x, y, width, height),
{
    Piece { position: Coordinates { x, y }, size: Size { x: width, y: height } }
}

/// The standard start position.
pub fn get_start_board() -> (board: Board)
    ensures
        board.size == standard_size(),
        board.pieces@ == start_layout(),
        board.well_formed(),
        !board.solved(),
{
    let board = Board {
        pieces: [
            new_piece(0, 0, 1, 1),
            new_piece(0, 1, 1, 2),
            new_piece(0, 3, 1, 2),
            new_piece(1, 1, 1, 1),
            new_piece(1, 2, 2, 1),
            new_piece(1, 3, 2, 2),
            new_piece(2, 1, 1, 1),
            new_piece(3, 0, 1, 1),
            new_piece(3, 1, 1, 2),
            new_piece(3, 3, 1, 2),
        ],
        size: Size { x: BOARD_WIDTH, y: BOARD_HEIGHT },
    };
    assert(board.pieces@ =~= start_layout());
    board
}

/// The anchor that stands for every solved position.
pub fn get_solved_board() -> (board: Board)
    ensures
        board.size == standard_size(),
        board.pieces@ == solved_layout(),
        board.well_formed(),
        board.solved(),
{
    let board = Board {
        pieces: [
            new_piece(0, 0, 1, 1),
            new_piece(0, 1, 1, 1),
            new_piece(0, 2, 1, 1),
            new_piece(0, 3, 1, 1),
            new_piece(0, 4, 1, 1),
            new_piece(1, 0, 2, 2),
            new_piece(3, 0, 1, 1),
            new_piece(3, 1, 1, 1),
            new_piece(3, 2, 1, 1),
            new_piece(3, 3, 1, 1),
        ],
        size: Size { x: BOARD_WIDTH, y: BOARD_HEIGHT },
    };
    assert(board.pieces@ =~= solved_layout());
    assert(wins(board.pieces@[5]));
    board
}

impl SlideDirection {
    /// The direction that undoes a slide in this direction.
    pub open spec fn opposite(self) -> SlideDirection {
        match self {
            SlideDirection::Up => SlideDirection::Down,
            SlideDirection::Down => SlideDirection::Up,
            SlideDirection::Left => SlideDirection::Right,
            SlideDirection::Right => SlideDirection::Left,
        }
    }
}

impl SlideMove {
    /// Column of the cell where the slide ends.
    pub open spec fn end_x(self) -> int {
        match self.direction {
            SlideDirection::Left => self.start.x - self.distance,
            SlideDirection::Right => self.start.x + self.distance,
            _ => self.start.x as int,
        }
    }

    /// Row of the cell where the slide ends.
    pub open spec fn end_y(self) -> int {
        match self.direction {
            SlideDirection::Up => self.start.y + self.distance,
            SlideDirection::Down => self.start.y - self.distance,
            _ => self.start.y as int,
        }
    }

    /// The cell where the slide ends can be written as [`Coordinates`].
    pub open spec fn in_range(self) -> bool {
        &&& i32::MIN <= self.end_x() <= i32::MAX
        &&& i32::MIN <= self.end_y() <= i32::MAX
    }

    /// The cell where the slide ends; meaningful where [`Self::in_range`] holds.
    pub open spec fn endpoint(self) -> Coordinates {
        Coordinates { x: self.end_x() as i32, y: self.end_y() as i32 }
    }

    /// The slide that takes the piece back: from the endpoint, the same
    /// distance in the opposite direction.
    pub open spec fn inverse(self) -> SlideMove {
        SlideMove {
            start: self.endpoint(),
            direction: self.direction.opposite(),
            distance: self.distance,
        }
    }

    /// Whether the cell where the slide ends can be written as [`Coordinates`].
    pub fn endpoint_in_range(&self) -> (fits: bool)
        ensures
            fits == self.in_range(),
    {
        let distance = self.distance as i64;
        let (x, y): (i64, i64) = match self.direction {
            SlideDirection::Up => (self.start.x as i64, self.start.y as i64 + distance),
            SlideDirection::Down => (self.start.x as i64, self.start.y as i64 - distance),
            SlideDirection::Left => (self.start.x as i64 - distance, self.start.y as i64),
            SlideDirection::Right => (self.start.x as i64 + distance, self.start.y as i64),
        };
        i32::MIN as i64 <= x && x <= i32::MAX as i64 && i32::MIN as i64 <= y && y <= i32::MAX as i64
    }

    /// The cell where the slide ends.
    pub fn get_endpoint(&self) -> (end: Coordinates)
        requires
            self.in_range(),
        ensures
            end == self.endpoint(),
    {
        let mut end = self.start;
        let distance = self.distance as i32;
        match self.direction {
            SlideDirection::Up => end.y = end.y + distance,
            SlideDirection::Down => end.y = end.y - distance,
            SlideDirection::Left => end.x = end.x - distance,
            SlideDirection::Right => end.x = end.x + distance,
        }
        end
    }
}

/// `k` is the index of the first piece whose bottom-left cell is `start`.
pub open spec fn is_first_at(pieces: Seq<Piece>, start: Coordinates, k: int) -> bool {
    &&& 0 <= k < pieces.len()
    &&& pieces[k].position == start
    &&& forall|j: int| 0 <= j < k ==> (#[trigger] pieces[j]).position != start
}

/// Some piece has its bottom-left cell at `start`.
pub open spec fn has_piece_at(pieces: Seq<Piece>, start: Coordinates) -> bool {
    exists|k: int| 0 <= k < pieces.len() && (#[trigger] pieces[k]).position == start
}

/// The index of the first piece whose bottom-left cell is `start`; meaningful
/// where [`has_piece_at`] holds.
pub open spec fn first_at(pieces: Seq<Piece>, start: Coordinates) -> int {
    choose|k: int| is_first_at(pieces, start, k)
}

/// The pieces after the slide `m`, in stored order: the first piece at
/// `m.start` now has its bottom-left cell at the endpoint of `m`.
pub open spec fn slid(board: Board, m: SlideMove) -> Seq<Piece> {
    let k = first_at(board.pieces@, m.start);
    board.pieces@.update(k, Piece { position: m.endpoint(), size: board.pieces@[k].size })
}

/// The pieces after the slide `m`, in canonical order.
pub open spec fn after_slide(board: Board, m: SlideMove) -> Seq<Piece> {
    canonical(slid(board, m))
}

/// The slide `m` can be made on `board`: a piece starts at `m.start`, and once
/// it has moved every piece lies on the board and no two overlap.
pub open spec fn legal(board: Board, m: SlideMove) -> bool {
    &&& has_piece_at(board.pieces@, m.start)
    &&& m.in_range()
    &&& valid_placement(after_slide(board, m), board.size)
}

/// `next` is the board that the legal slide `m` makes of `board`.
pub open spec fn follows(board: Board, m: SlideMove, next: Board) -> bool {
    &&& legal(board, m)
    &&& next.size == board.size
    &&& next.pieces@ == after_slide(board, m)
}

/// Finds the first piece whose bottom-left cell is `start`.
pub fn find_piece(board: &Board, start: &Coordinates) -> (found: Option<usize>)
    ensures
        match found {
            Some(k) => is_first_at(board.pieces@, *start, k as int) && first_at(
                board.pieces@,
                *start,
            ) == k,
            None => !has_piece_at(board.pieces@, *start),
        },
{
    let mut k: usize = 0;
    while k < 10
        invariant
            k <= 10,
            forall|j: int| 0 <= j < k ==> (#[trigger] board.pieces@[j]).position != *start,
        decreases 10 - k,
    {
        if board.pieces[k].position == *start {
            proof {
                assert(is_first_at(board.pieces@, *start, k as int));
                let chosen = first_at(board.pieces@, *start);
                assert(is_first_at(board.pieces@, *start, chosen));
                assert(chosen == k) by {
                    if chosen < k {
                        assert(board.pieces@[chosen].position != *start);
                    }
                    if k < chosen {
                        assert(board.pieces@[k as int].position != *start);
                    }
                }
            }
            return Some(k);
        }
        k += 1;
    }
    None
}

/// Slides one piece of the board.
///
/// Succeeds with the new board, in canonical order, exactly when the slide is
/// [`legal`]. The given board is not changed.
pub fn make_move(board: &Board, slide_move: &SlideMove) -> (result: Result<
    Board,
    InvalidMoveError,
>)
    ensures
        match result {
            Ok(next) => follows(*board, *slide_move, next) && next.valid() && next.ordered(),
            Err(InvalidMoveError::NoPieceAtStart) => !has_piece_at(
                board.pieces@,
                slide_move.start,
            ),
            Err(InvalidMoveError::InvalidMove) => has_piece_at(board.pieces@, slide_move.start)
                && !legal(*board, *slide_move),
        },
{
    let k = match find_piece(board, &slide_move.start) {
        Some(k) => k,
        None => {
            return Err(InvalidMoveError::NoPieceAtStart);
        },
    };
    if !slide_move.endpoint_in_range() {
        return Err(InvalidMoveError::InvalidMove);
    }
    let mut new_board = *board;
    new_board.pieces[k] = Piece { position: slide_move.get_endpoint(), size: board.pieces[k].size };
    sort_pieces(&mut new_board.pieces);
    if !is_valid(&new_board) {
        return Err(InvalidMoveError::InvalidMove);
    }
    proof {
        lemma_canonical(slid(*board, *slide_move));
    }
    Ok(new_board)
}

/// The directions in the order in which slides are generated.
pub open spec fn direction_at(n: int) -> SlideDirection {
    if n == 0 {
        SlideDirection::Up
    } else if n == 1 {
        SlideDirection::Down
    } else if n == 2 {
        SlideDirection::Left
    } else {
        SlideDirection::Right
    }
}

/// The slide of `distance` cells from `start` in `direction`.
pub open spec fn slide(start: Coordinates, direction: SlideDirection, distance: int) -> SlideMove {
    SlideMove { start, direction, distance: distance as u8 }
}

/// The distance that no generated slide reaches: the larger dimension of the
/// board, cut to eight bits.
pub open spec fn slide_limit(size: Size) -> u8 {
    (if size.x >= size.y {
        size.x
    } else {
        size.y
    }) as u8
}

/// How many of the distances `from`, `from + 1`, ... below `limit` are legal
/// in a row, counted from `from`.
pub open spec fn run_length(
    board: Board,
    start: Coordinates,
    direction: SlideDirection,
    from: int,
    limit: int,
) -> nat
    decreases limit - from,
{
    if from < limit && legal(board, slide(start, direction, from)) {
        1 + run_length(board, start, direction, from + 1, limit)
    } else {
        0
    }
}

/// The slides generated for one piece in one direction: distances 1, 2, ...
/// up to the first that is not legal or reaches the limit.
pub open spec fn slides_from(board: Board, start: Coordinates, direction: SlideDirection) -> Seq<
    SlideMove,
> {
    Seq::new(
        run_length(board, start, direction, 1, slide_limit(board.size) as int),
        |d: int| slide(start, direction, d + 1),
    )
}

/// The slides generated for the first `k` pairs of a piece and a direction,
/// pieces in stored order and, for each piece, directions in the order of
/// [`direction_at`].
pub open spec fn slides_of_first(board: Board, k: int) -> Seq<SlideMove>
    decreases k,
{
    if k <= 0 {
        Seq::empty()
    } else {
        slides_of_first(board, k - 1) + slides_from(
            board,
            board.pieces@[(k - 1) / 4].position,
            direction_at((k - 1) % 4),
        )
    }
}

/// All slides generated for the board, in order.
pub open spec fn valid_moves(board: Board) -> Seq<SlideMove> {
    slides_of_first(board, 4 * (board.pieces@.len() as int))
}

/// Every pair of an index below `n` and one of the four directions, ordered
/// by index and then by the place of the direction in `directions`. There must
/// be no more of them than a vector can hold.
///
/// Trusted: calls `Itertools::cartesian_product` on the range `0..n` and the
/// given directions. The contract states what that adaptor yields: for each
/// element of the range in turn, its pairs with every direction, in the order
/// in which the directions are given.
#[verifier::external_body]
fn index_directions(n: usize, directions: [SlideDirection; 4]) -> (pairs: Vec<
    (usize, SlideDirection),
>)
    requires
        4 * n <= usize::MAX,
    ensures
        pairs@.len() == 4 * n,
        forall|k: int|
            0 <= k < 4 * n ==> (#[trigger] pairs@[k]).0 == k / 4 && pairs@[k].1 == directions@[k
                % 4],
{
    (0..n).cartesian_product(directions).collect()
}

/// The distance that stops the search for slides on a board of this size.
fn distance_limit(size: &Size) -> (limit: u8)
    ensures
        limit == slide_limit(*size),
{
    let larger = if size.x >= size.y {
        size.x
    } else {
        size.y
    };
    #[verifier::truncate]
    (larger as u8)
}

/// For each piece and each direction, the slides of 1, 2, ... cells that can
/// be made, each with the board it leads to.
pub fn get_valid_moves(board: &Board) -> (moves: Vec<(SlideMove, Board)>)
    ensures
        moves@.len() == valid_moves(*board).len(),
        forall|n: int|
            0 <= n < moves@.len() ==> (#[trigger] moves@[n]).0 == valid_moves(*board)[n]
                && follows(*board, moves@[n].0, moves@[n].1),
{
    let pairs = index_directions(
        10,
        [SlideDirection::Up, SlideDirection::Down, SlideDirection::Left, SlideDirection::Right],
    );
    let limit = distance_limit(&board.size);
    let mut moves: Vec<(SlideMove, Board)> = Vec::new();
    let mut k: usize = 0;
    while k < pairs.len()
        invariant
            k <= pairs@.len() == 40,
            limit == slide_limit(board.size),
            forall|k: int|
                0 <= k < 40 ==> (#[trigger] pairs@[k]).0 == k / 4 && pairs@[k].1 == direction_at(
                    k % 4,
                ),
            moves@.len() == slides_of_first(*board, k as int).len(),
            forall|n: int|
                0 <= n < moves@.len() ==> (#[trigger] moves@[n]).0 == slides_of_first(
                    *board,
                    k as int,
                )[n] && follows(*board, moves@[n].0, moves@[n].1),
        decreases pairs@.len() - k,
    {
        let (i, direction) = pairs[k];
        let start = board.pieces[i].position;
        let ghost done = slides_of_first(*board, k as int);
        let mut distance: u8 = 1;
        let mut blocked = false;
        while distance < limit && !blocked
            invariant
                1 <= distance,
                distance <= limit || limit == 0,
                moves@.len() == done.len() + distance - 1,
                forall|n: int|
                    0 <= n < done.len() ==> (#[trigger] moves@[n]).0 == done[n] && follows(
                        *board,
                        moves@[n].0,
                        moves@[n].1,
                    ),
                forall|n: int|
                    done.len() <= n < moves@.len() ==> (#[trigger] moves@[n]).0 == slide(
                        start,
                        direction,
                        n - done.len() + 1,
                    ) && follows(*board, moves@[n].0, moves@[n].1),
                run_length(*board, start, direction, 1, limit as int) == distance - 1 + run_length(
                    *board,
                    start,
                    direction,
                    distance as int,
                    limit as int,
                ),
                blocked ==> run_length(*board, start, direction, distance as int, limit as int)
                    == 0,
            decreases limit - distance + (if blocked { 0int } else { 1int }),
        {
            let slide_move = SlideMove { start, direction, distance };
            match make_move(board, &slide_move) {
                Ok(new_board) => {
                    moves.push((slide_move, new_board));
                    distance += 1;
                },
                Err(_) => {
                    blocked = true;
                },
            }
        }
        k += 1;
        proof {
            let generated = slides_from(*board, start, direction);
            assert(generated.len() == distance - 1);
            assert(slides_of_first(*board, k as int) == done + generated);
        }
    }
    moves
}

/// An efficient way to identify a board.
pub type BoardId = u64;

/// The four bytes that the hasher is given for one coordinate or extent.
pub open spec fn word(value: i32) -> Seq<u8> {
    spec_u32_to_le_bytes(value as u32)
}

/// What the hasher is given for one piece: its column, row, width and height.
pub open spec fn piece_words(piece: Piece) -> Seq<Seq<u8>> {
    seq![
        word(piece.position.x),
        word(piece.position.y),
        word(piece.size.x),
        word(piece.size.y),
    ]
}

/// What the hasher is given for a sequence of pieces, in their order.
pub open spec fn pieces_words(pieces: Seq<Piece>) -> Seq<Seq<u8>>
    decreases pieces.len(),
{
    if pieces.len() == 0 {
        Seq::empty()
    } else {
        pieces_words(pieces.drop_last()) + piece_words(pieces.last())
    }
}

/// Everything the hasher is given for an arrangement: the number of pieces,
/// the pieces in their order, then the size of the board.
pub open spec fn arrangement_words(pieces: Seq<Piece>, size: Size) -> Seq<Seq<u8>> {
    seq![spec_u64_to_le_bytes(pieces.len() as u64)] + pieces_words(pieces) + seq![
        word(size.x),
        word(size.y),
    ]
}

/// The identifier of an arrangement: the digest of [`arrangement_words`] under
/// the standard library's default hasher.
pub open spec fn arrangement_id(pieces: Seq<Piece>, size: Size) -> BoardId {
    DefaultHasher::spec_finish(arrangement_words(pieces, size))
}

/// The identifier of a board: that of its pieces, in stored order, and its
/// size.
pub open spec fn board_id(board: Board) -> BoardId {
    arrangement_id(board.pieces@, board.size)
}

fn write_word(hasher: &mut DefaultHasher, value: i32)
    ensures
        final(hasher)@ == old(hasher)@.push(word(value)),
{
    let bytes = u32_to_le_bytes(value as u32);
    hasher.write(bytes.as_slice());
}

/// The identifier of the board.
pub fn to_id(board: &Board) -> (id: BoardId)
    ensures
        id == board_id(*board),
{
    let mut hasher = DefaultHasher::new();
    let count = u64_to_le_bytes(10);
    hasher.write(count.as_slice());
    let mut i: usize = 0;
    while i < 10
        invariant
            i <= 10,
            hasher@ == seq![spec_u64_to_le_bytes(10)] + pieces_words(board.pieces@.take(i as int)),
        decreases 10 - i,
    {
        let piece = &board.pieces[i];
        write_word(&mut hasher, piece.position.x);
        write_word(&mut hasher, piece.position.y);
        write_word(&mut hasher, piece.size.x);
        write_word(&mut hasher, piece.size.y);
        proof {
            let longer = board.pieces@.take(i + 1);
            assert(longer.drop_last() == board.pieces@.take(i as int));
            assert(longer.last() == board.pieces@[i as int]);
        }
        i += 1;
    }
    assert(board.pieces@.take(10) == board.pieces@);
    write_word(&mut hasher, board.size.x);
    write_word(&mut hasher, board.size.y);
    assert(hasher@ =~= arrangement_words(board.pieces@, board.size));
    hasher.finish()
}

/// The canonical form of an arrangement, and with it the identifier, does not
/// depend on the order in which the pieces are given.
pub proof fn lemma_id_ignores_order(given: Seq<Piece>, permuted: Seq<Piece>, size: Size)
    requires
        given.to_multiset() == permuted.to_multiset(),
    ensures
        canonical(given) == canonical(permuted),
        arrangement_id(canonical(given), size) == arrangement_id(canonical(permuted), size),
{
    lemma_canonical(permuted);
    lemma_canonical_unique(given, canonical(permuted));
}

/// Two boards in canonical order that hold the same pieces on boards of the
/// same size are one board, and so have one identifier.
pub proof fn lemma_same_arrangement_same_id(a: Board, b: Board)
    requires
        a.ordered(),
        b.ordered(),
        a.size == b.size,
        a.pieces@.to_multiset() == b.pieces@.to_multiset(),
    ensures
        a == b,
        board_id(a) == board_id(b),
{
    lemma_canonical_unique(a.pieces@, a.pieces@);
    lemma_canonical_unique(a.pieces@, b.pieces@);
    assert(a.pieces =~= b.pieces);
}

/// On a board without overlaps whose pieces have a positive extent, no two
/// pieces have the same bottom-left cell.
pub proof fn lemma_positions_distinct(pieces: Seq<Piece>, i: int, j: int)
    requires
        !some_collide(pieces),
        0 <= i < j < pieces.len(),
        pieces[i].size.x > 0 && pieces[i].size.y > 0,
        pieces[j].size.x > 0 && pieces[j].size.y > 0,
    ensures
        pieces[i].position != pieces[j].position,
{
    if pieces[i].position == pieces[j].position {
        assert(pieces[i].collides(pieces[j]));
    }
}

/// The slide that takes a piece back is the inverse of the slide that moved
/// it: from the endpoint, it ends at the start.
pub proof fn lemma_inverse_ends_at_start(m: SlideMove)
    requires
        m.in_range(),
    ensures
        m.inverse().in_range(),
        m.inverse().endpoint() == m.start,
        m.inverse().start == m.endpoint(),
{
}

/// A legal slide on a well-formed board can be undone: its inverse is legal
/// on the board that the slide led to, and leads back to the board it came
/// from.
pub proof fn lemma_slide_back(board: Board, m: SlideMove, next: Board)
    requires
        board.well_formed(),
        follows(board, m, next),
    ensures
        follows(next, m.inverse(), board),
{
    broadcast use vstd::multiset::group_multiset_axioms;

    let before = board.pieces@;
    let k = first_at(before, m.start);
    let back = m.inverse();
    assert(is_first_at(before, m.start, k)) by {
        let some = choose|k: int| 0 <= k < before.len() && (#[trigger] before[k]).position
            == m.start;
        lemma_first_exists(before, m.start, some);
    }
    let unmoved = before[k];
    let moved = Piece { position: m.endpoint(), size: unmoved.size };
    let shifted = before.update(k, moved);
    let arrived = next.pieces@;
    lemma_canonical(shifted);
    to_multiset_update(before, k, moved);
    lemma_inverse_ends_at_start(m);
    // The moved piece is on the new board, at some index.
    assert(shifted[k] == moved);
    vstd::seq_lib::to_multiset_contains(shifted, moved);
    vstd::seq_lib::to_multiset_contains(arrived, moved);
    assert(arrived.contains(moved));
    let at = choose|at: int| 0 <= at < arrived.len() && arrived[at] == moved;
    // Every piece of the new board has a positive extent, so the moved piece
    // is the only one at the endpoint.
    lemma_slide_keeps_well_formed(board, m, next);
    assert(is_first_at(arrived, back.start, at)) by {
        assert forall|j: int| 0 <= j < at implies (#[trigger] arrived[j]).position
            != back.start by {
            lemma_positions_distinct(arrived, j, at);
        }
    }
    let chosen = first_at(arrived, back.start);
    assert(is_first_at(arrived, back.start, chosen));
    assert(chosen == at) by {
        if chosen < at {
            assert(arrived[chosen].position != back.start);
        }
        if at < chosen {
            assert(arrived[at].position != back.start);
        }
    }
    // Moving it back gives the pieces of the board we came from.
    let returned = arrived.update(at, Piece { position: back.endpoint(), size: arrived[at].size });
    assert(Piece { position: back.endpoint(), size: arrived[at].size } == unmoved);
    to_multiset_update(arrived, at, unmoved);
    vstd::seq_lib::to_multiset_contains(before, unmoved);
    assert(before.contains(unmoved));
    assert(returned.to_multiset() =~= before.to_multiset());
    lemma_canonical_unique(returned, before);
    assert(after_slide(next, back) == before);
    assert(has_piece_at(arrived, back.start));
}

/// A slide keeps a board well formed: what a legal slide makes of a board
/// whose pieces have a positive extent is a valid board in canonical order
/// whose pieces have a positive extent.
pub proof fn lemma_slide_keeps_well_formed(board: Board, m: SlideMove, next: Board)
    requires
        board.positive(),
        follows(board, m, next),
    ensures
        next.well_formed(),
{
    let before = board.pieces@;
    let k = first_at(before, m.start);
    assert(is_first_at(before, m.start, k)) by {
        let some = choose|k: int| 0 <= k < before.len() && (#[trigger] before[k]).position
            == m.start;
        lemma_first_exists(before, m.start, some);
    }
    let shifted = before.update(k, Piece { position: m.endpoint(), size: before[k].size });
    let arrived = next.pieces@;
    lemma_canonical(shifted);
    assert forall|i: int| 0 <= i < arrived.len() implies (#[trigger] arrived[i]).size.x > 0
        && arrived[i].size.y > 0 by {
        vstd::seq_lib::to_multiset_contains(arrived, arrived[i]);
        vstd::seq_lib::to_multiset_contains(shifted, arrived[i]);
        assert(shifted.contains(arrived[i]));
        let j = choose|j: int| 0 <= j < shifted.len() && shifted[j] == arrived[i];
        if j != k {
            assert(shifted[j] == before[j]);
        }
    }
}

/// Some piece has the given extent.
pub open spec fn has_piece_of_size(pieces: Seq<Piece>, size: Size) -> bool {
    exists|i: int| 0 <= i < pieces.len() && (#[trigger] pieces[i]).size == size
}

/// A slide moves a piece and changes no extent: a board that had a piece of
/// some extent has one after the slide.
pub proof fn lemma_slide_keeps_sizes(board: Board, m: SlideMove, next: Board, size: Size)
    requires
        follows(board, m, next),
        has_piece_of_size(board.pieces@, size),
    ensures
        has_piece_of_size(next.pieces@, size),
{
    let before = board.pieces@;
    let k = first_at(before, m.start);
    assert(is_first_at(before, m.start, k)) by {
        let some = choose|k: int| 0 <= k < before.len() && (#[trigger] before[k]).position
            == m.start;
        lemma_first_exists(before, m.start, some);
    }
    let shifted = before.update(k, Piece { position: m.endpoint(), size: before[k].size });
    let i = choose|i: int| 0 <= i < before.len() && (#[trigger] before[i]).size == size;
    assert(shifted[i].size == size);
    lemma_canonical(shifted);
    vstd::seq_lib::to_multiset_contains(shifted, shifted[i]);
    vstd::seq_lib::to_multiset_contains(next.pieces@, shifted[i]);
    assert(shifted.contains(shifted[i]));
    let j = choose|j: int| 0 <= j < next.pieces@.len() && next.pieces@[j] == shifted[i];
    assert(next.pieces@[j].size == size);
}

/// If some piece has its bottom-left cell at `start`, one of them is the
/// first.
pub proof fn lemma_first_exists(pieces: Seq<Piece>, start: Coordinates, some: int)
    requires
        0 <= some < pieces.len(),
        pieces[some].position == start,
    ensures
        is_first_at(pieces, start, first_at(pieces, start)),
    decreases some,
{
    if forall|j: int| 0 <= j < some ==> (#[trigger] pieces[j]).position != start {
        assert(is_first_at(pieces, start, some));
    } else {
        let earlier = choose|j: int| 0 <= j < some && (#[trigger] pieces[j]).position == start;
        lemma_first_exists(pieces, start, earlier);
    }
}

/// The character of the decimal digit `value`.
pub open spec fn digit(value: nat) -> char {
    (48 + value) as char
}

/// The decimal digits of `value`, without leading zeros.
pub open spec fn decimal(value: nat) -> Seq<char>
    decreases value,
{
    if value < 10 {
        seq![digit(value)]
    } else {
        decimal(value / 10).push(digit(value % 10))
    }
}

/// The label of a column or of a row: columns are lettered from `A`, rows are
/// numbered from 1.
pub open spec fn axis_label(axis: Axis, coordinate: u8) -> Seq<char> {
    match axis {
        Axis::Horizontal => seq![(65 + coordinate) as char],
        Axis::Vertical => decimal((coordinate + 1) as nat),
    }
}

/// The arrow between the two cells of a slide.
pub open spec fn arrow() -> char {
    '\u{2b95}'
}

/// The string that holds the one character.
///
/// Trusted: calls `char::to_string`, which gives the character as a string.
#[verifier::external_body]
fn char_string(character: char) -> (text: String)
    ensures
        text@ == seq![character],
{
    character.to_string()
}

/// The number in decimal digits.
///
/// Trusted: calls `u16::to_string`, which writes an unsigned integer in
/// decimal digits, most significant first, without sign or leading zeros.
#[verifier::external_body]
fn decimal_string(value: u16) -> (text: String)
    ensures
        text@ == decimal(value as nat),
{
    value.to_string()
}

impl Coordinates {
    /// The text for the cell: the letter of its column, then the number of
    /// its row. Both coordinates are read as eight-bit numbers.
    pub open spec fn label(self) -> Seq<char> {
        axis_label(Axis::Horizontal, self.x as u8) + axis_label(Axis::Vertical, self.y as u8)
    }

    /// The cell has a label: its column, read as an eight-bit number, has a
    /// letter within the eight-bit characters, and its row a number within
    /// eight bits.
    pub open spec fn has_label(self) -> bool {
        (self.x as u8) <= 190 && (self.y as u8) < 255
    }

    /// The label of column or row `coordinate`.
    pub fn axis_to_string(axis: Axis, coordinate: u8) -> (label: String)
        requires
            axis is Horizontal ==> coordinate <= 190,
            axis is Vertical ==> coordinate < 255,
        ensures
            label@ == axis_label(axis, coordinate),
    {
        match axis {
            Axis::Horizontal => char_string((65u8 + coordinate) as char),
            Axis::Vertical => decimal_string((coordinate + 1) as u16),
        }
    }

    /// The label of the cell, such as `B3`.
    pub fn to_string(&self) -> (text: String)
        requires
            self.has_label(),
        ensures
            text@ == self.label(),
    {
        let mut text = Self::axis_to_string(
            Axis::Horizontal,
            #[verifier::truncate]
            (self.x as u8),
        );
        let row = Self::axis_to_string(
            Axis::Vertical,
            #[verifier::truncate]
            (self.y as u8),
        );
        text.append(row.as_str());
        text
    }
}

impl SlideMove {
    /// The text for the slide: the labels of its first and last cell, with an
    /// arrow between them.
    pub open spec fn label(self) -> Seq<char> {
        self.start.label() + seq![arrow()] + self.endpoint().label()
    }

    /// The text for the slide, such as `A1` followed by an arrow and `C1`.
    pub fn to_string(&self) -> (text: String)
        requires
            self.in_range(),
            self.start.has_label(),
            self.endpoint().has_label(),
        ensures
            text@ == self.label(),
    {
        let mut text = self.start.to_string();
        let arrow = char_string('\u{2b95}');
        let end = self.get_endpoint().to_string();
        text.append(arrow.as_str());
        text.append(end.as_str());
        text
    }
}

impl InvalidMoveError {
    /// What to tell the user.
    pub fn message(&self) -> (text: &'static str)
        ensures
            text@ == match self {
                InvalidMoveError::NoPieceAtStart => "No piece to move"@,
                InvalidMoveError::InvalidMove => "Invalid move"@,
            },
    {
        match self {
            InvalidMoveError::NoPieceAtStart => "No piece to move",
            InvalidMoveError::InvalidMove => "Invalid move",
        }
    }
}

} // verus!
