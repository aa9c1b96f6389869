//! The game state of an m,n,k game: a square board of `size` x `size`
//! squares on which two players alternate placing stones, the winner being
//! the first to own `n_in_a_row` consecutive stones on a horizontal,
//! vertical or diagonal line.
use vstd::prelude::*;

use crate::sets::{
    action_set_clear, action_set_clone, action_set_insert, action_set_swap_remove,
    action_set_to_vec, action_set_with_capacity, distinct_elems, index_set_elems,
    lemma_swap_removed_props, swap_removed,
};

verus! {

/// One of the two players. Black moves first.
#[derive(Debug, Copy, Clone, PartialEq, Eq, Structural)]
pub enum Player {
    Black,
    White,
}

impl Player {
    /// The other player.
    pub fn opposite(&self) -> (r: Self)
        ensures
            r == self.opposite_spec(),
    {
        match self {
            Player::White => Player::Black,
            Player::Black => Player::White,
        }
    }

    pub open spec fn opposite_spec(self) -> Player {
        match self {
            Player::White => Player::Black,
            Player::Black => Player::White,
        }
    }

    /// Black maps to `true`, White to `false`.
    pub fn to_bool(&self) -> (r: bool)
        ensures
            r == (*self == Player::Black),
    {
        match self {
            Player::White => false,
            Player::Black => true,
        }
    }
}

/// What a single square holds.
#[derive(Debug, Copy, Clone, PartialEq, Eq, Structural)]
pub enum SquareState {
    Occupied(Player),
    Vacant,
}

/// How a finished game ended.
#[derive(Debug, Copy, Clone, PartialEq, Eq, Structural)]
pub enum Outcome {
    Winner(Player),
    Draw,
}

/// The recoverable failures of the game state.
#[derive(Debug, Copy, Clone, PartialEq, Eq, Structural)]
pub enum GameError {
    /// An occupied square, an out-of-range coordinate, or a malformed
    /// move string. The board is left unmodified.
    InvalidMove,
    /// An invalid `(size, n_in_a_row)` pair at construction time.
    ConfigurationError,
}

/// A `(row, column)` pair in the unpadded board's own coordinate space:
/// both components range over `0 .. size`.
pub type Action = (usize, usize);

/// A `(row, column)` pair in the padded grid's coordinate space: both
/// components range over `0 .. side` where `side = size + 2 * (n_in_a_row - 1)`.
pub type BaseBoardLocation = (usize, usize);

/// The square grid of squares, stored as a two-dimensional `ndarray` array.
/// Verus cannot read the array type itself, so the struct is opaque and its
/// contents are named by [`grid_side`] and [`grid_cells`]; every access goes
/// through the trusted wrappers below, whose contracts state what `ndarray`'s
/// documentation promises of element access on an owned array.
#[verifier::external_body]
#[derive(Debug)]
pub struct BaseBoard {
    data: ndarray::Array2<SquareState>,
}

/// The side length of the (square) grid.
pub uninterp spec fn grid_side(b: &BaseBoard) -> nat;

/// The grid's squares in row-major order: the square at `(row, col)` is
/// element `row * grid_side(b) + col`.
pub uninterp spec fn grid_cells(b: &BaseBoard) -> Seq<SquareState>;

impl BaseBoard {
    /// Relies on `ndarray::Array2::from_elem`: a `size` x `size` grid with
    /// every square vacant.
    #[verifier::external_body]
    pub fn new(size: usize) -> (r: Self)
        ensures
            grid_side(&r) == size,
            grid_cells(&r).len() == size * size,
            forall|i: int| 0 <= i < size * size ==> grid_cells(&r)[i] == SquareState::Vacant,
    {
        Self { data: ndarray::Array2::from_elem((size, size), SquareState::Vacant) }
    }

    /// Relies on `ndarray`'s `IndexMut` on owned arrays: writes one element,
    /// leaving the rest of the grid unchanged.
    #[verifier::external_body]
    pub fn set(&mut self, location: BaseBoardLocation, player: Player)
        requires
            location.0 < grid_side(old(self)),
            location.1 < grid_side(old(self)),
        ensures
            grid_side(final(self)) == grid_side(old(self)),
            grid_cells(final(self)) == grid_cells(old(self)).update(
                location.0 * grid_side(old(self)) + location.1,
                SquareState::Occupied(player),
            ),
    {
        self.data[[location.0, location.1]] = SquareState::Occupied(player);
    }

    /// Relies on `ndarray`'s `Index` on owned arrays: reads one element.
    #[verifier::external_body]
    pub fn get(&self, location: BaseBoardLocation) -> (r: &SquareState)
        requires
            location.0 < grid_side(self),
            location.1 < grid_side(self),
            grid_cells(self).len() == grid_side(self) * grid_side(self),
        ensures
            *r == grid_cells(self)[location.0 * grid_side(self) + location.1],
    {
        &self.data[[location.0, location.1]]
    }

    /// Relies on `ndarray::ArrayBase::fill`: overwrites every element.
    #[verifier::external_body]
    pub fn reset(&mut self)
        ensures
            grid_side(final(self)) == grid_side(old(self)),
            grid_cells(final(self)).len() == grid_cells(old(self)).len(),
            forall|i: int|
                0 <= i < grid_cells(final(self)).len() ==> grid_cells(final(self))[i]
                    == SquareState::Vacant,
    {
        self.data.fill(SquareState::Vacant);
    }

    /// Whether the square at `location` holds any stone.
    pub fn is_occupied(&self, location: BaseBoardLocation) -> (r: bool)
        requires
            location.0 < grid_side(self),
            location.1 < grid_side(self),
            grid_cells(self).len() == grid_side(self) * grid_side(self),
        ensures
            r == (grid_cells(self)[location.0 * grid_side(self) + location.1]
                != SquareState::Vacant),
    {
        *self.get(location) != SquareState::Vacant
    }

    /// Whether the square at `location` holds a stone of `player`.
    pub fn is_occupied_by(&self, location: BaseBoardLocation, player: Player) -> (r: bool)
        requires
            location.0 < grid_side(self),
            location.1 < grid_side(self),
            grid_cells(self).len() == grid_side(self) * grid_side(self),
        ensures
            r == (grid_cells(self)[location.0 * grid_side(self) + location.1]
                == SquareState::Occupied(player)),
    {
        *self.get(location) == SquareState::Occupied(player)
    }
}

/// The value of the square at padded coordinates `(r, c)`, reading any
/// coordinate outside the grid as vacant.
pub open spec fn cell_at(cells: Seq<SquareState>, side: int, r: int, c: int) -> SquareState {
    if 0 <= r < side && 0 <= c < side {
        cells[r * side + c]
    } else {
        SquareState::Vacant
    }
}

/// The step between consecutive squares of a line: horizontal, vertical,
/// falling diagonal read upward-right, rising diagonal read downward-right.
pub open spec fn dir_delta(d: int) -> (int, int) {
    if d == 0 {
        (0int, 1int)
    } else if d == 1 {
        (1int, 0int)
    } else if d == 2 {
        (1int, -1int)
    } else {
        (1int, 1int)
    }
}

/// The `j`-th square of the line starting at padded `(r, c)` and stepping
/// by direction `d`.
pub open spec fn line_cell(r: int, c: int, d: int, j: int) -> (int, int) {
    (r + j * dir_delta(d).0, c + j * dir_delta(d).1)
}

/// Whether the `k` squares starting at padded `(r, c)` and stepping by
/// direction `d` all hold stones of `p`.
pub open spec fn line_wins(
    cells: Seq<SquareState>,
    side: int,
    k: int,
    p: Player,
    r: int,
    c: int,
    d: int,
) -> bool {
    forall|j: int|
        0 <= j < k ==> cell_at(
            cells,
            side,
            (#[trigger] line_cell(r, c, d, j)).0,
            line_cell(r, c, d, j).1,
        ) == SquareState::Occupied(p)
}

/// Whether `p` owns `k` consecutive stones on any line anywhere on the grid:
/// the independent full-board criterion that incremental detection must match.
pub open spec fn has_win(cells: Seq<SquareState>, side: int, k: int, p: Player) -> bool {
    exists|r: int, c: int, d: int| 0 <= d < 4 && line_wins(cells, side, k, p, r, c, d)
}

/// The `i`-th square (of `2k - 1`) of the `d`-th precomputed check line of
/// the action at `(row, col)`, in padded coordinates. Line `0` is horizontal,
/// `1` vertical, `2` the rising diagonal, `3` the falling diagonal; each is
/// centred on the action's own square, which sits at `i = k - 1`.
pub open spec fn table_loc(size: int, k: int, row: int, col: int, d: int, i: int) -> (int, int) {
    let pad = k - 1;
    if d == 0 {
        (row + pad, col + i)
    } else if d == 1 {
        (row + i, col + pad)
    } else if d == 2 {
        (row + 2 * pad - i, col + i)
    } else {
        (row + 2 * pad - i, col + 2 * pad - i)
    }
}

/// Whether the window of `k` squares starting at position `w` of the `d`-th
/// check line of `(row, col)` is wholly owned by `p`.
pub open spec fn window_wins(
    cells: Seq<SquareState>,
    side: int,
    k: int,
    size: int,
    row: int,
    col: int,
    d: int,
    w: int,
    p: Player,
) -> bool {
    forall|i: int|
        w <= i < w + k ==> cell_at(
            cells,
            side,
            (#[trigger] table_loc(size, k, row, col, d, i)).0,
            table_loc(size, k, row, col, d, i).1,
        ) == SquareState::Occupied(p)
}

/// Whether `p` owns a winning window on one of the four check lines through
/// the action at `(row, col)`: the incremental criterion checked after a move.
pub open spec fn wins_through(
    cells: Seq<SquareState>,
    side: int,
    k: int,
    size: int,
    row: int,
    col: int,
    p: Player,
) -> bool {
    exists|d: int, w: int| 0 <= d < 4 && 0 <= w < k && window_wins(cells, side, k, size, row, col, d, w, p)
}

/// Whether `entry` holds the four check lines of the action at `(r, c)`:
/// `2k - 1` padded locations each, matching [`table_loc`] and inside the
/// padded grid.
pub open spec fn check_entry_wf(
    entry: Vec<Vec<BaseBoardLocation>>,
    size: int,
    k: int,
    r: int,
    c: int,
    side: int,
) -> bool {
    &&& entry@.len() == 4
    &&& forall|d: int| 0 <= d < 4 ==> (#[trigger] entry@[d])@.len() == 2 * k - 1
    &&& forall|d: int, i: int|
        0 <= d < 4 && 0 <= i < 2 * k - 1 ==> {
            let loc = #[trigger] entry@[d]@[i];
            &&& loc.0 == table_loc(size, k, r, c, d, i).0
            &&& loc.1 == table_loc(size, k, r, c, d, i).1
            &&& loc.0 < side && loc.1 < side
        }
}

/// The game state: configuration, the padded grid, turn and outcome
/// tracking, the order-preserving legal-action set, and the precomputed
/// check-line table used by incremental win detection.
pub struct Board {
    /// The width and height of the board, at most 26.
    pub size: usize,
    /// The number of aligned stones needed to win, between 2 and `size`.
    pub n_in_a_row: usize,
    /// The player to move; once the game has an outcome, the player who
    /// moved last.
    pub turn: Player,
    /// The grid, padded by `n_in_a_row - 1` vacant squares on every side so
    /// that every check window can be read without bounds checks.
    pub base_board: BaseBoard,
    /// The outcome, computed immediately after the winning or board-filling
    /// stone is placed; `None` while the game is running.
    pub outcome: Option<Outcome>,
    /// How many stones have been placed so far.
    pub num_stones_placed: usize,
    /// The legal-action set; mutate it only through the board's own methods,
    /// which keep it complementary to the occupied squares.
    pub legal_actions_indexset: indexmap::IndexSet<Action>,
    /// For every action, its four check lines of `2 * n_in_a_row - 1` padded
    /// locations each, indexed by the action's flat index.
    pub action_to_check_indices: Vec<Vec<Vec<BaseBoardLocation>>>,
}

impl Board {
    /// The padding on either side of the grid.
    pub open spec fn pad(&self) -> int {
        self.n_in_a_row - 1
    }

    /// The side length of the padded grid.
    pub open spec fn side(&self) -> int {
        self.size + 2 * self.pad()
    }

    /// The grid's squares, row-major, in padded coordinates.
    pub open spec fn cells(&self) -> Seq<SquareState> {
        grid_cells(&self.base_board)
    }

    /// The legal actions, in storage order.
    pub open spec fn legal_elems(&self) -> Seq<Action> {
        index_set_elems(&self.legal_actions_indexset)
    }

    /// The row-major index of the padded square of the action at `(r, c)`.
    pub open spec fn action_cell(&self, r: int, c: int) -> int {
        (r + self.pad()) * self.side() + (c + self.pad())
    }

    /// A valid `(size, n_in_a_row)` configuration.
    pub open spec fn config_wf(&self) -> bool {
        2 <= self.n_in_a_row <= self.size <= 26
    }

    /// The grid has the right shape and its padding ring is vacant.
    pub open spec fn grid_wf(&self) -> bool {
        &&& grid_side(&self.base_board) == self.side()
        &&& self.cells().len() == self.side() * self.side()
        &&& forall|r: int, c: int|
            !(self.pad() <= r < self.pad() + self.size && self.pad() <= c < self.pad()
                + self.size) ==> #[trigger] cell_at(self.cells(), self.side(), r, c)
                == SquareState::Vacant
    }

    /// The legal-action set is exactly the set of vacant in-range squares,
    /// without duplicates, and complements the stone count.
    pub open spec fn legal_wf(&self) -> bool {
        &&& distinct_elems(self.legal_elems())
        &&& forall|i: int|
            0 <= i < self.legal_elems().len() ==> (#[trigger] self.legal_elems()[i]).0 < self.size
                && self.legal_elems()[i].1 < self.size && self.cells()[self.action_cell(
                self.legal_elems()[i].0 as int,
                self.legal_elems()[i].1 as int,
            )] == SquareState::Vacant
        &&& forall|r: int, c: int|
            0 <= r < self.size && 0 <= c < self.size && self.cells()[#[trigger] self.action_cell(
                r,
                c,
            )] == SquareState::Vacant ==> self.legal_elems().contains((r as usize, c as usize))
        &&& self.legal_elems().len() + self.num_stones_placed == self.size * self.size
    }

    /// The precomputed check-line table matches [`table_loc`] and stays
    /// within the padded grid.
    pub open spec fn table_wf(&self) -> bool {
        &&& self.action_to_check_indices@.len() == self.size * self.size
        &&& forall|r: int, c: int|
            0 <= r < self.size && 0 <= c < self.size ==> check_entry_wf(
                #[trigger] self.action_to_check_indices@[r * self.size + c],
                self.size as int,
                self.n_in_a_row as int,
                r,
                c,
                self.side(),
            )
    }

    /// The recorded outcome truthfully describes the grid: no outcome means
    /// no win and a non-full board; a winner owns a line and is the player
    /// who moved last; a draw is a full board without a win.
    pub open spec fn outcome_wf(&self) -> bool {
        let k = self.n_in_a_row as int;
        match self.outcome {
            None => !has_win(self.cells(), self.side(), k, Player::Black) && !has_win(
                self.cells(),
                self.side(),
                k,
                Player::White,
            ) && self.num_stones_placed < self.size * self.size,
            Some(Outcome::Winner(p)) => has_win(self.cells(), self.side(), k, p) && !has_win(
                self.cells(),
                self.side(),
                k,
                p.opposite_spec(),
            ) && self.turn == p,
            Some(Outcome::Draw) => !has_win(self.cells(), self.side(), k, Player::Black) && !has_win(
                self.cells(),
                self.side(),
                k,
                Player::White,
            ) && self.num_stones_placed == self.size * self.size,
        }
    }

    /// The board's full invariant: every public operation preserves it.
    pub open spec fn wf(&self) -> bool {
        &&& self.config_wf()
        &&& self.grid_wf()
        &&& self.legal_wf()
        &&& self.table_wf()
        &&& self.outcome_wf()
    }

    /// Returns whether the game has ended, based on `self.outcome`.
    pub fn is_game_over(&self) -> (r: bool)
        ensures
            r == (self.outcome is Some),
    {
        self.outcome.is_some()
    }

    /// Returns a reference to the legal-action set, in storage order.
    pub fn legal_actions(&self) -> (r: &indexmap::IndexSet<Action>)
        ensures
            index_set_elems(r) == self.legal_elems(),
    {
        &self.legal_actions_indexset
    }

    /// The padding on either side of the padded grid.
    fn base_board_padding(&self) -> (r: usize)
        requires
            self.config_wf(),
        ensures
            r == self.pad(),
    {
        self.n_in_a_row - 1
    }

    /// Converts an `Action` to the padded coordinates of its square.
    pub fn action_to_base_board_location(&self, action: Action) -> (r: BaseBoardLocation)
        requires
            self.config_wf(),
            action.0 < self.size,
            action.1 < self.size,
        ensures
            r.0 == action.0 + self.pad(),
            r.1 == action.1 + self.pad(),
            r.0 < self.side(),
            r.1 < self.side(),
    {
        let pad = self.base_board_padding();
        (action.0 + pad, action.1 + pad)
    }

    /// Converts an `Action` to its index in the flattened, unpadded,
    /// row-major action space.
    pub fn action_to_flat_index(&self, action: &Action) -> (r: usize)
        requires
            self.config_wf(),
            action.0 < self.size,
            action.1 < self.size,
        ensures
            r == action.0 * self.size + action.1,
            r < self.size * self.size,
    {
        proof {
            lemma_flat_index_bound(action.0 as int, action.1 as int, self.size as int);
            assert(self.size * self.size <= 676) by (nonlinear_arith)
                requires
                    self.size <= 26,
            ;
        }
        action.0 * self.size + action.1
    }

    /// The legal-action set lists every action in row-major order: the
    /// storage order of a fresh or reset board, so that sampling by index is
    /// reproducible across equal histories.
    pub open spec fn has_initial_legal_order(&self) -> bool {
        &&& self.legal_elems().len() == self.size * self.size
        &&& forall|r: int, c: int|
            0 <= r < self.size && 0 <= c < self.size ==> self.legal_elems()[#[trigger] (r
                * self.size + c)] == ((r as usize, c as usize))
    }

    /// An empty position: Black to move, no outcome, no stones, every
    /// square vacant.
    pub open spec fn is_initial_position(&self) -> bool {
        &&& self.turn == Player::Black
        &&& self.outcome is None
        &&& self.num_stones_placed == 0
        &&& forall|r: int, c: int|
            #[trigger] cell_at(self.cells(), self.side(), r, c) == SquareState::Vacant
    }

    /// Fills the legal-action set with every action of the board, in
    /// row-major order.
    fn initialize_legal_actions_indexset(&mut self)
        requires
            old(self).config_wf(),
        ensures
            final(self).size == old(self).size,
            final(self).n_in_a_row == old(self).n_in_a_row,
            final(self).turn == old(self).turn,
            final(self).base_board == old(self).base_board,
            final(self).outcome == old(self).outcome,
            final(self).num_stones_placed == old(self).num_stones_placed,
            final(self).action_to_check_indices == old(self).action_to_check_indices,
            distinct_elems(final(self).legal_elems()),
            final(self).legal_elems().len() == final(self).size * final(self).size,
            forall|i: int|
                0 <= i < final(self).legal_elems().len()
                    ==> (#[trigger] final(self).legal_elems()[i]).0 < final(self).size
                    && final(self).legal_elems()[i].1 < final(self).size,
            forall|r: int, c: int|
                0 <= r < final(self).size && 0 <= c < final(self).size
                    ==> #[trigger] final(self).legal_elems().contains((r as usize, c as usize)),
            forall|r: int, c: int|
                0 <= r < final(self).size && 0 <= c < final(self).size
                    ==> final(self).legal_elems()[#[trigger] (r * final(self).size + c)]
                    == ((r as usize, c as usize)),
    {
        action_set_clear(&mut self.legal_actions_indexset);
        let ghost orig: Board = *old(self);
        let size = self.size;
        let mut row: usize = 0;
        while row < size
            invariant
                self.size == orig.size,
                self.n_in_a_row == orig.n_in_a_row,
                self.turn == orig.turn,
                self.base_board == orig.base_board,
                self.outcome == orig.outcome,
                self.num_stones_placed == orig.num_stones_placed,
                self.action_to_check_indices == orig.action_to_check_indices,
                size == self.size,
                row <= size,
                self.legal_elems().len() == row * size,
                forall|i: int|
                    0 <= i < self.legal_elems().len() ==> (#[trigger] self.legal_elems()[i]).0 < row
                        && self.legal_elems()[i].1 < size,
                forall|r: int, c: int|
                    0 <= r < row && 0 <= c < size ==> #[trigger] self.legal_elems().contains(
                        (r as usize, c as usize),
                    ),
                forall|r: int, c: int|
                    0 <= r < row && 0 <= c < size ==> self.legal_elems()[#[trigger] (r * size + c)]
                        == ((r as usize, c as usize)),
                distinct_elems(self.legal_elems()),
            decreases size - row,
        {
            let mut col: usize = 0;
            while col < size
                invariant
                    self.size == orig.size,
                    self.n_in_a_row == orig.n_in_a_row,
                    self.turn == orig.turn,
                    self.base_board == orig.base_board,
                    self.outcome == orig.outcome,
                    self.num_stones_placed == orig.num_stones_placed,
                    self.action_to_check_indices == orig.action_to_check_indices,
                    size == self.size,
                    row < size,
                    col <= size,
                    self.legal_elems().len() == row * size + col,
                    forall|i: int|
                        0 <= i < self.legal_elems().len() ==> ((#[trigger] self.legal_elems()[i]).0
                            < row || (self.legal_elems()[i].0 == row && self.legal_elems()[i].1
                            < col)) && self.legal_elems()[i].0 < size && self.legal_elems()[i].1
                            < size,
                    forall|r: int, c: int|
                        0 <= r < row && 0 <= c < size ==> #[trigger] self.legal_elems().contains(
                            (r as usize, c as usize),
                        ),
                    forall|c: int|
                        0 <= c < col ==> #[trigger] self.legal_elems().contains(
                            (row as usize, c as usize),
                        ),
                    forall|r: int, c: int|
                        (0 <= r < row && 0 <= c < size) || (r == row && 0 <= c < col)
                            ==> self.legal_elems()[#[trigger] (r * size + c)]
                            == ((r as usize, c as usize)),
                    distinct_elems(self.legal_elems()),
                decreases size - col,
            {
                proof {
                    broadcast use vstd::seq_lib::lemma_seq_contains_after_push;

                    if self.legal_elems().contains((row, col)) {
                        let i = choose|i: int|
                            0 <= i < self.legal_elems().len() && self.legal_elems()[i] == (row, col);
                        assert(false);
                    }
                    lemma_flat_index_bound(row as int, col as int, size as int);
                }
                let inserted = action_set_insert(&mut self.legal_actions_indexset, (row, col));
                proof {
                    assert forall|r: int, c: int|
                        (0 <= r < row && 0 <= c < size) || (r == row && 0 <= c < col
                            + 1) implies self.legal_elems()[#[trigger] (r * size + c)] == ((
                    r as usize,
                    c as usize,
                )) by {
                        if r == row && c == col {
                        } else {
                            lemma_flat_index_order(r, c, row as int, col as int, size as int);
                            lemma_flat_index_bound(r, c, size as int);
                        }
                    }
                }
                col = col + 1;
            }
            proof {
                assert((row + 1) * size == row * size + size) by (nonlinear_arith);
            }
            row = row + 1;
        }
        proof {
            assert(self.legal_elems().len() == size * size);
        }
    }

    /// Precomputes, for every action, its four check lines: the
    /// `2 * n_in_a_row - 1` padded locations of the horizontal, vertical and
    /// two diagonal lines centred on the action's square.
    fn initialize_action_to_check_locations(&mut self)
        requires
            old(self).config_wf(),
        ensures
            final(self).size == old(self).size,
            final(self).n_in_a_row == old(self).n_in_a_row,
            final(self).turn == old(self).turn,
            final(self).base_board == old(self).base_board,
            final(self).outcome == old(self).outcome,
            final(self).num_stones_placed == old(self).num_stones_placed,
            final(self).legal_actions_indexset == old(self).legal_actions_indexset,
            final(self).table_wf(),
    {
        self.action_to_check_indices = Vec::new();
        let ghost orig: Board = *old(self);
        let size = self.size;
        let pad = self.base_board_padding();
        let line_len = 2 * self.n_in_a_row - 1;
        let mut row: usize = 0;
        while row < size
            invariant
                self.size == orig.size,
                self.n_in_a_row == orig.n_in_a_row,
                self.turn == orig.turn,
                self.base_board == orig.base_board,
                self.outcome == orig.outcome,
                self.num_stones_placed == orig.num_stones_placed,
                self.legal_actions_indexset == orig.legal_actions_indexset,
                self.config_wf(),
                size == self.size,
                pad == self.pad(),
                line_len == 2 * self.n_in_a_row - 1,
                row <= size,
                self.action_to_check_indices@.len() == row * size,
                forall|r: int, c: int|
                    0 <= r < row && 0 <= c < size ==> check_entry_wf(
                        #[trigger] self.action_to_check_indices@[r * size + c],
                        size as int,
                        self.n_in_a_row as int,
                        r,
                        c,
                        self.side(),
                    ),
            decreases size - row,
        {
            let mut col: usize = 0;
            while col < size
                invariant
                    self.size == orig.size,
                    self.n_in_a_row == orig.n_in_a_row,
                    self.turn == orig.turn,
                    self.base_board == orig.base_board,
                    self.outcome == orig.outcome,
                    self.num_stones_placed == orig.num_stones_placed,
                    self.legal_actions_indexset == orig.legal_actions_indexset,
                    self.config_wf(),
                    size == self.size,
                    pad == self.pad(),
                    line_len == 2 * self.n_in_a_row - 1,
                    row < size,
                    col <= size,
                    self.action_to_check_indices@.len() == row * size + col,
                    forall|r: int, c: int|
                        (0 <= r < row && 0 <= c < size) || (r == row && 0 <= c < col)
                            ==> check_entry_wf(
                            #[trigger] self.action_to_check_indices@[r * size + c],
                            size as int,
                            self.n_in_a_row as int,
                            r,
                            c,
                            self.side(),
                        ),
                decreases size - col,
            {
                let mut horizontal: Vec<BaseBoardLocation> = Vec::new();
                let mut vertical: Vec<BaseBoardLocation> = Vec::new();
                let mut forward_slash: Vec<BaseBoardLocation> = Vec::new();
                let mut backward_slash: Vec<BaseBoardLocation> = Vec::new();
                let ghost ksz = self.n_in_a_row as int;
                let mut i: usize = 0;
                while i < line_len
                    invariant
                        self.config_wf(),
                        size == self.size,
                        pad == self.pad(),
                        line_len == 2 * self.n_in_a_row - 1,
                        ksz == self.n_in_a_row as int,
                        row < size,
                        col < size,
                        i <= line_len,
                        horizontal@.len() == i,
                        vertical@.len() == i,
                        forward_slash@.len() == i,
                        backward_slash@.len() == i,
                        forall|j: int|
                            0 <= j < i ==> (#[trigger] horizontal@[j]).0 == table_loc(
                                size as int,
                                ksz,
                                row as int,
                                col as int,
                                0,
                                j,
                            ).0 && horizontal@[j].1 == table_loc(
                                size as int,
                                ksz,
                                row as int,
                                col as int,
                                0,
                                j,
                            ).1 && horizontal@[j].0 < self.side() && horizontal@[j].1 < self.side(),
                        forall|j: int|
                            0 <= j < i ==> (#[trigger] vertical@[j]).0 == table_loc(
                                size as int,
                                ksz,
                                row as int,
                                col as int,
                                1,
                                j,
                            ).0 && vertical@[j].1 == table_loc(
                                size as int,
                                ksz,
                                row as int,
                                col as int,
                                1,
                                j,
                            ).1 && vertical@[j].0 < self.side() && vertical@[j].1 < self.side(),
                        forall|j: int|
                            0 <= j < i ==> (#[trigger] forward_slash@[j]).0 == table_loc(
                                size as int,
                                ksz,
                                row as int,
                                col as int,
                                2,
                                j,
                            ).0 && forward_slash@[j].1 == table_loc(
                                size as int,
                                ksz,
                                row as int,
                                col as int,
                                2,
                                j,
                            ).1 && forward_slash@[j].0 < self.side() && forward_slash@[j].1
                                < self.side(),
                        forall|j: int|
                            0 <= j < i ==> (#[trigger] backward_slash@[j]).0 == table_loc(
                                size as int,
                                ksz,
                                row as int,
                                col as int,
                                3,
                                j,
                            ).0 && backward_slash@[j].1 == table_loc(
                                size as int,
                                ksz,
                                row as int,
                                col as int,
                                3,
                                j,
                            ).1 && backward_slash@[j].0 < self.side() && backward_slash@[j].1
                                < self.side(),
                    decreases line_len - i,
                {
                    horizontal.push((row + pad, col + i));
                    vertical.push((row + i, col + pad));
                    forward_slash.push((row + 2 * pad - i, col + i));
                    backward_slash.push((row + 2 * pad - i, col + 2 * pad - i));
                    i = i + 1;
                }
                let mut check_indices: Vec<Vec<BaseBoardLocation>> = Vec::new();
                check_indices.push(horizontal);
                check_indices.push(vertical);
                check_indices.push(forward_slash);
                check_indices.push(backward_slash);
                proof {
                    assert(check_entry_wf(
                        check_indices,
                        size as int,
                        ksz,
                        row as int,
                        col as int,
                        self.side(),
                    ));
                    lemma_flat_index_bound(row as int, col as int, size as int);
                }
                self.action_to_check_indices.push(check_indices);
                proof {
                    assert forall|r: int, c: int|
                        (0 <= r < row && 0 <= c < size) || (r == row && 0 <= c
                            < col + 1) implies check_entry_wf(
                        #[trigger] self.action_to_check_indices@[r * size + c],
                        size as int,
                        ksz,
                        r,
                        c,
                        self.side(),
                    ) by {
                        if r == row && c == col {
                        } else {
                            lemma_flat_index_order(r, c, row as int, col as int, size as int);
                            lemma_flat_index_bound(r, c, size as int);
                        }
                    }
                }
                col = col + 1;
            }
            proof {
                assert((row + 1) * size == row * size + size) by (nonlinear_arith);
            }
            row = row + 1;
        }
    }
}

impl Board {
    /// Creates a new instance of `Board`.
    /// * `size` - The width and height of the board
    /// * `n_in_a_row` - The number of aligned pieces needed to win.
    ///
    /// e.g. `size = 3` and `n_in_a_row = 3` is tic-tac-toe,
    /// `size = 15` and `n_in_a_row = 5` is gomoku.
    ///
    /// Fails with `ConfigurationError` unless `2 <= n_in_a_row <= size <= 26`.
    pub fn new(size: usize, n_in_a_row: usize) -> (r: Result<Board, GameError>)
        ensures
            (r is Ok) == (2 <= n_in_a_row <= size <= 26),
            r matches Err(e) ==> e == GameError::ConfigurationError,
            r matches Ok(b) ==> b.wf() && b.size == size && b.n_in_a_row == n_in_a_row
                && b.is_initial_position() && b.has_initial_legal_order(),
    {
        if !(2 <= n_in_a_row && n_in_a_row <= size && size <= 26) {
            return Err(GameError::ConfigurationError);
        }
        let base_board_size = size + (n_in_a_row - 1) * 2;
        let base_board = BaseBoard::new(base_board_size);
        proof {
            assert(size * size <= 676) by (nonlinear_arith)
                requires
                    size <= 26,
            ;
        }
        let legal_actions_indexset = action_set_with_capacity(size * size);
        let mut board = Board {
            size,
            n_in_a_row,
            base_board,
            legal_actions_indexset,
            action_to_check_indices: Vec::new(),
            turn: Player::Black,
            outcome: None,
            num_stones_placed: 0,
        };
        board.initialize_legal_actions_indexset();
        board.initialize_action_to_check_locations();
        proof {
            lemma_board_empty_wf(board);
        }
        Ok(board)
    }
}

/// A freshly initialized board — all squares vacant, every action legal,
/// no stones, no outcome — satisfies the full invariant.
proof fn lemma_board_empty_wf(b: Board)
    requires
        b.config_wf(),
        b.table_wf(),
        grid_side(&b.base_board) == b.side(),
        b.cells().len() == b.side() * b.side(),
        forall|i: int| 0 <= i < b.cells().len() ==> b.cells()[i] == SquareState::Vacant,
        distinct_elems(b.legal_elems()),
        b.legal_elems().len() == b.size * b.size,
        forall|i: int|
            0 <= i < b.legal_elems().len() ==> (#[trigger] b.legal_elems()[i]).0 < b.size
                && b.legal_elems()[i].1 < b.size,
        forall|r: int, c: int|
            0 <= r < b.size && 0 <= c < b.size ==> #[trigger] b.legal_elems().contains(
                (r as usize, c as usize),
            ),
        b.turn == Player::Black,
        b.outcome is None,
        b.num_stones_placed == 0,
    ensures
        b.wf(),
        b.is_initial_position(),
{
    assert forall|r: int, c: int| #[trigger]
        cell_at(b.cells(), b.side(), r, c) == SquareState::Vacant by {
        if 0 <= r < b.side() && 0 <= c < b.side() {
            lemma_flat_index_bound(r, c, b.side());
        }
    }
    assert forall|i: int| 0 <= i < b.legal_elems().len() implies b.cells()[b.action_cell(
        (#[trigger] b.legal_elems()[i]).0 as int,
        b.legal_elems()[i].1 as int,
    )] == SquareState::Vacant by {
        let r = b.legal_elems()[i].0 as int;
        let c = b.legal_elems()[i].1 as int;
        lemma_flat_index_bound(r + b.pad(), c + b.pad(), b.side());
        assert(cell_at(b.cells(), b.side(), r + b.pad(), c + b.pad()) == SquareState::Vacant);
    }
    assert(b.size * b.size > 0) by (nonlinear_arith)
        requires
            b.size >= 2,
    ;
    lemma_vacant_grid_has_no_win(b.cells(), b.side(), b.n_in_a_row as int, Player::Black);
    lemma_vacant_grid_has_no_win(b.cells(), b.side(), b.n_in_a_row as int, Player::White);
    assert(b.legal_wf());
    assert(b.grid_wf());
    assert(b.outcome_wf());
}

/// A grid with every square vacant holds no winning line for anyone.
proof fn lemma_vacant_grid_has_no_win(cells: Seq<SquareState>, side: int, k: int, p: Player)
    requires
        k >= 1,
        forall|r: int, c: int| #[trigger] cell_at(cells, side, r, c) == SquareState::Vacant,
    ensures
        !has_win(cells, side, k, p),
{
    assert forall|r: int, c: int, d: int| !(0 <= d < 4 && line_wins(cells, side, k, p, r, c, d)) by {
        if 0 <= d < 4 && line_wins(cells, side, k, p, r, c, d) {
            assert(line_cell(r, c, d, 0) == (r + 0 * dir_delta(d).0, c + 0 * dir_delta(d).1));
            assert(cell_at(cells, side, line_cell(r, c, d, 0).0, line_cell(r, c, d, 0).1)
                == SquareState::Occupied(p));
            assert(false);
        }
    }
}

/// Whether the `k` squares of `locs` from position `w` on all hold stones
/// of `p`.
pub open spec fn locs_window_all(
    cells: Seq<SquareState>,
    side: int,
    locs: Seq<BaseBoardLocation>,
    w: int,
    k: int,
    p: Player,
) -> bool {
    forall|i: int|
        w <= i < w + k ==> cell_at(
            cells,
            side,
            (#[trigger] locs[i]).0 as int,
            locs[i].1 as int,
        ) == SquareState::Occupied(p)
}

impl Board {
    /// Checks whether a precomputed check line contains a winning condition:
    /// a window of `n_in_a_row` consecutive squares all owned by the player
    /// to move.
    fn locations_contain_win(&self, locations: &Vec<BaseBoardLocation>) -> (r: bool)
        requires
            self.config_wf(),
            self.grid_wf(),
            locations@.len() == 2 * self.n_in_a_row - 1,
            forall|i: int|
                0 <= i < locations@.len() ==> (#[trigger] locations@[i]).0 < self.side()
                    && locations@[i].1 < self.side(),
        ensures
            r == exists|w: int|
                0 <= w < self.n_in_a_row && locs_window_all(
                    self.cells(),
                    self.side(),
                    locations@,
                    w,
                    self.n_in_a_row as int,
                    self.turn,
                ),
    {
        let k = self.n_in_a_row;
        let mut w: usize = 0;
        while w < k
            invariant
                self.config_wf(),
                self.grid_wf(),
                k == self.n_in_a_row,
                w <= k,
                locations@.len() == 2 * k - 1,
                forall|i: int|
                    0 <= i < locations@.len() ==> (#[trigger] locations@[i]).0 < self.side()
                        && locations@[i].1 < self.side(),
                forall|w0: int|
                    0 <= w0 < w ==> !locs_window_all(
                        self.cells(),
                        self.side(),
                        locations@,
                        w0,
                        k as int,
                        self.turn,
                    ),
            decreases k - w,
        {
            let mut j: usize = 0;
            let mut all = true;
            while j < k
                invariant
                    self.config_wf(),
                    self.grid_wf(),
                    k == self.n_in_a_row,
                    w < k,
                    j <= k,
                    locations@.len() == 2 * k - 1,
                    forall|i: int|
                        0 <= i < locations@.len() ==> (#[trigger] locations@[i]).0 < self.side()
                            && locations@[i].1 < self.side(),
                    all == forall|i: int|
                        w <= i < w + j ==> cell_at(
                            self.cells(),
                            self.side(),
                            (#[trigger] locations@[i]).0 as int,
                            locations@[i].1 as int,
                        ) == SquareState::Occupied(self.turn),
                decreases k - j,
            {
                let loc = locations[w + j];
                if !self.base_board.is_occupied_by(loc, self.turn) {
                    all = false;
                }
                j = j + 1;
            }
            if all {
                proof {
                    assert(locs_window_all(
                        self.cells(),
                        self.side(),
                        locations@,
                        w as int,
                        k as int,
                        self.turn,
                    ));
                }
                return true;
            }
            w = w + 1;
        }
        false
    }

    /// Places a stone of the player to move on the square of `action`.
    ///
    /// Fails with `InvalidMove`, leaving the board unmodified, if the square
    /// is out of range or already occupied. Otherwise the stone is placed,
    /// the action leaves the legal set, the stone counter increments, the
    /// outcome is evaluated — a win exactly when a line through the placed
    /// stone is complete, a draw exactly when the board has filled without
    /// one — and only if the outcome remains undetermined does the turn flip.
    pub fn make_action(&mut self, action: Action) -> (r: Result<Action, GameError>)
        requires
            old(self).wf(),
            old(self).outcome is None,
        ensures
            final(self).wf(),
            final(self).size == old(self).size,
            final(self).n_in_a_row == old(self).n_in_a_row,
            (r is Ok) == (action.0 < old(self).size && action.1 < old(self).size && cell_at(
                old(self).cells(),
                old(self).side(),
                action.0 + old(self).pad(),
                action.1 + old(self).pad(),
            ) == SquareState::Vacant),
            r matches Err(e) ==> e == GameError::InvalidMove && *final(self) == *old(self),
            r matches Ok(a) ==> {
                &&& a == action
                &&& final(self).cells() == old(self).cells().update(
                    old(self).action_cell(action.0 as int, action.1 as int),
                    SquareState::Occupied(old(self).turn),
                )
                &&& final(self).num_stones_placed == old(self).num_stones_placed + 1
                &&& final(self).outcome == (if wins_through(
                    final(self).cells(),
                    final(self).side(),
                    final(self).n_in_a_row as int,
                    final(self).size as int,
                    action.0 as int,
                    action.1 as int,
                    old(self).turn,
                ) {
                    Some(Outcome::Winner(old(self).turn))
                } else if old(self).num_stones_placed + 1 == old(self).size * old(self).size {
                    Some(Outcome::Draw)
                } else {
                    None
                })
                &&& final(self).turn == (if final(self).outcome is None {
                    old(self).turn.opposite_spec()
                } else {
                    old(self).turn
                })
                &&& exists|i: int|
                    0 <= i < old(self).legal_elems().len() && old(self).legal_elems()[i] == action
                        && final(self).legal_elems() == swap_removed(old(self).legal_elems(), i)
            },
    {
        if action.0 >= self.size || action.1 >= self.size {
            return Err(GameError::InvalidMove);
        }
        let base_board_location = self.action_to_base_board_location(action);
        // Cannot place a stone on an occupied square
        if self.base_board.is_occupied(base_board_location) {
            return Err(GameError::InvalidMove);
        }
        let ghost prev: Board = *self;
        let ghost row = action.0 as int;
        let ghost col = action.1 as int;
        let ghost ksz = self.n_in_a_row as int;

        // Place stone
        self.base_board.set(base_board_location, self.turn);
        proof {
            // The legal set held the action; locate it for the removal clause.
            assert(prev.cells()[prev.action_cell(row, col)] == SquareState::Vacant);
            assert(prev.legal_elems().contains((action.0, action.1)));
        }
        let _removed = action_set_swap_remove(&mut self.legal_actions_indexset, &action);
        proof {
            assert(prev.size * prev.size <= 676) by (nonlinear_arith)
                requires
                    prev.size <= 26,
            ;
        }
        self.num_stones_placed = self.num_stones_placed + 1;
        proof {
            lemma_make_action_core(prev, *self, action);
            assert(self.num_stones_placed <= self.size * self.size);
        }

        // Check for an outcome. If no winner nor draw, switch the turn.
        self.outcome = self.check_outcome(action);
        if self.outcome.is_none() {
            self.turn = self.turn.opposite();
        }
        proof {
            lemma_make_action_wf(prev, *self, action);
        }
        Ok(action)
    }

    /// Checks whether the action just made resulted in an outcome: a win for
    /// the mover through the action's square, or a draw on a full board.
    fn check_outcome(&self, action: Action) -> (r: Option<Outcome>)
        requires
            self.config_wf(),
            self.grid_wf(),
            self.table_wf(),
            action.0 < self.size,
            action.1 < self.size,
            self.num_stones_placed <= self.size * self.size,
        ensures
            r == (if wins_through(
                self.cells(),
                self.side(),
                self.n_in_a_row as int,
                self.size as int,
                action.0 as int,
                action.1 as int,
                self.turn,
            ) {
                Some(Outcome::Winner(self.turn))
            } else if self.num_stones_placed == self.size * self.size {
                Some(Outcome::Draw)
            } else {
                None
            }),
    {
        let ghost ksz = self.n_in_a_row as int;
        let ghost row = action.0 as int;
        let ghost col = action.1 as int;
        let flat = self.action_to_flat_index(&action);
        let check_locations = &self.action_to_check_indices[flat];
        proof {
            assert(check_entry_wf(
                self.action_to_check_indices@[row * self.size + col],
                self.size as int,
                ksz,
                row,
                col,
                self.side(),
            ));
        }
        let mut d: usize = 0;
        let mut won = false;
        while d < 4
            invariant
                self.config_wf(),
                self.grid_wf(),
                ksz == self.n_in_a_row as int,
                row == action.0 as int,
                col == action.1 as int,
                0 <= row < self.size,
                0 <= col < self.size,
                d <= 4,
                check_entry_wf(*check_locations, self.size as int, ksz, row, col, self.side()),
                won == exists|dd: int, w: int|
                    0 <= dd < d && 0 <= w < ksz && window_wins(
                        self.cells(),
                        self.side(),
                        ksz,
                        self.size as int,
                        row,
                        col,
                        dd,
                        w,
                        self.turn,
                    ),
            decreases 4 - d,
        {
            let line = &check_locations[d];
            let line_won = self.locations_contain_win(line);
            proof {
                assert forall|w: int| 0 <= w < ksz implies locs_window_all(
                    self.cells(),
                    self.side(),
                    line@,
                    w,
                    ksz,
                    self.turn,
                ) == window_wins(
                    self.cells(),
                    self.side(),
                    ksz,
                    self.size as int,
                    row,
                    col,
                    d as int,
                    w,
                    self.turn,
                ) by {
                    if locs_window_all(self.cells(), self.side(), line@, w, ksz, self.turn) {
                        assert forall|i: int| w <= i < w + ksz implies cell_at(
                            self.cells(),
                            self.side(),
                            (#[trigger] table_loc(self.size as int, ksz, row, col, d as int, i)).0,
                            table_loc(self.size as int, ksz, row, col, d as int, i).1,
                        ) == SquareState::Occupied(self.turn) by {
                            assert(cell_at(
                                self.cells(),
                                self.side(),
                                (line@[i]).0 as int,
                                (line@[i]).1 as int,
                            ) == SquareState::Occupied(self.turn));
                        }
                    }
                    if window_wins(
                        self.cells(),
                        self.side(),
                        ksz,
                        self.size as int,
                        row,
                        col,
                        d as int,
                        w,
                        self.turn,
                    ) {
                        assert forall|i: int| w <= i < w + ksz implies cell_at(
                            self.cells(),
                            self.side(),
                            (#[trigger] line@[i]).0 as int,
                            line@[i].1 as int,
                        ) == SquareState::Occupied(self.turn) by {
                            assert(cell_at(
                                self.cells(),
                                self.side(),
                                table_loc(self.size as int, ksz, row, col, d as int, i).0,
                                table_loc(self.size as int, ksz, row, col, d as int, i).1,
                            ) == SquareState::Occupied(self.turn));
                        }
                    }
                }
            }
            if line_won {
                won = true;
            }
            proof {
                if line_won {
                    let w = choose|w: int|
                        0 <= w < ksz && locs_window_all(
                            self.cells(),
                            self.side(),
                            line@,
                            w,
                            ksz,
                            self.turn,
                        );
                    assert(window_wins(
                        self.cells(),
                        self.side(),
                        ksz,
                        self.size as int,
                        row,
                        col,
                        d as int,
                        w,
                        self.turn,
                    ));
                }
                if won && !line_won {
                    let (dd, w): (int, int) = choose|dd: int, w: int|
                        0 <= dd < d && 0 <= w < ksz && window_wins(
                            self.cells(),
                            self.side(),
                            ksz,
                            self.size as int,
                            row,
                            col,
                            dd,
                            w,
                            self.turn,
                        );
                    assert(0 <= dd < d + 1 && window_wins(
                        self.cells(),
                        self.side(),
                        ksz,
                        self.size as int,
                        row,
                        col,
                        dd,
                        w,
                        self.turn,
                    ));
                }
                if !won {
                    assert forall|dd: int, w: int|
                        !(0 <= dd < d + 1 && 0 <= w < ksz && window_wins(
                            self.cells(),
                            self.side(),
                            ksz,
                            self.size as int,
                            row,
                            col,
                            dd,
                            w,
                            self.turn,
                        )) by {
                        if 0 <= dd < d + 1 && 0 <= w < ksz && window_wins(
                            self.cells(),
                            self.side(),
                            ksz,
                            self.size as int,
                            row,
                            col,
                            dd,
                            w,
                            self.turn,
                        ) {
                            if dd == d {
                                assert(locs_window_all(
                                    self.cells(),
                                    self.side(),
                                    line@,
                                    w,
                                    ksz,
                                    self.turn,
                                ));
                            }
                            assert(false);
                        }
                    }
                }
            }
            d = d + 1;
        }
        if won {
            return Some(Outcome::Winner(self.turn));
        }
        proof {
            assert(self.size * self.size <= 676) by (nonlinear_arith)
                requires
                    self.size <= 26,
            ;
        }
        if self.num_stones_placed == self.size * self.size {
            return Some(Outcome::Draw);
        }
        None
    }
}

impl Board {
    /// Restores the initial empty state: the precomputed check-line table,
    /// which depends only on `size` and `n_in_a_row`, is kept.
    pub fn reset(&mut self)
        requires
            old(self).wf(),
        ensures
            final(self).wf(),
            final(self).size == old(self).size,
            final(self).n_in_a_row == old(self).n_in_a_row,
            final(self).is_initial_position(),
            final(self).has_initial_legal_order(),
    {
        self.base_board.reset();
        self.turn = Player::Black;
        self.outcome = None;
        self.num_stones_placed = 0;
        self.initialize_legal_actions_indexset();
        proof {
            lemma_table_wf_transfer(*old(self), *self);
            lemma_board_empty_wf(*self);
        }
    }
}

/// Copies one check line.
fn copy_locations(src: &Vec<BaseBoardLocation>) -> (r: Vec<BaseBoardLocation>)
    ensures
        r@ == src@,
{
    let mut r: Vec<BaseBoardLocation> = Vec::new();
    let mut i: usize = 0;
    while i < src.len()
        invariant
            i <= src@.len(),
            r@ == src@.take(i as int),
        decreases src@.len() - i,
    {
        r.push(src[i]);
        proof {
            assert(r@ =~= src@.take(i + 1));
        }
        i = i + 1;
    }
    proof {
        assert(r@ =~= src@);
    }
    r
}

/// Copies the four check lines of one action.
fn copy_lines(src: &Vec<Vec<BaseBoardLocation>>) -> (r: Vec<Vec<BaseBoardLocation>>)
    ensures
        r@.len() == src@.len(),
        forall|d: int| 0 <= d < r@.len() ==> (#[trigger] r@[d])@ == src@[d]@,
{
    let mut r: Vec<Vec<BaseBoardLocation>> = Vec::new();
    let mut i: usize = 0;
    while i < src.len()
        invariant
            i <= src@.len(),
            r@.len() == i,
            forall|d: int| 0 <= d < i ==> (#[trigger] r@[d])@ == src@[d]@,
        decreases src@.len() - i,
    {
        let line = copy_locations(&src[i]);
        r.push(line);
        i = i + 1;
    }
    r
}

/// Copies the whole check-line table.
fn copy_check_table(src: &Vec<Vec<Vec<BaseBoardLocation>>>) -> (r: Vec<Vec<Vec<BaseBoardLocation>>>)
    ensures
        r@.len() == src@.len(),
        forall|f: int| 0 <= f < r@.len() ==> (#[trigger] r@[f])@.len() == src@[f]@.len(),
        forall|f: int, d: int|
            0 <= f < r@.len() && 0 <= d < r@[f]@.len() ==> (#[trigger] r@[f]@[d])@ == src@[f]@[d]@,
{
    let mut r: Vec<Vec<Vec<BaseBoardLocation>>> = Vec::new();
    let mut i: usize = 0;
    while i < src.len()
        invariant
            i <= src@.len(),
            r@.len() == i,
            forall|f: int| 0 <= f < i ==> (#[trigger] r@[f])@.len() == src@[f]@.len(),
            forall|f: int, d: int|
                0 <= f < i && 0 <= d < r@[f]@.len() ==> (#[trigger] r@[f]@[d])@ == src@[f]@[d]@,
        decreases src@.len() - i,
    {
        let entry = copy_lines(&src[i]);
        r.push(entry);
        i = i + 1;
    }
    r
}

impl Clone for Board {
    /// An equal game state: same configuration, same grid contents, same
    /// turn, outcome and stone count, and the legal actions in the same
    /// storage order.
    fn clone(&self) -> (r: Self)
        ensures
            r.size == self.size,
            r.n_in_a_row == self.n_in_a_row,
            r.turn == self.turn,
            r.outcome == self.outcome,
            r.num_stones_placed == self.num_stones_placed,
            grid_side(&r.base_board) == grid_side(&self.base_board),
            r.cells() == self.cells(),
            r.legal_elems() == self.legal_elems(),
            self.wf() ==> r.wf(),
            self.is_initial_position() ==> r.is_initial_position(),
    {
        let r = Board {
            size: self.size,
            n_in_a_row: self.n_in_a_row,
            base_board: self.base_board.clone(),
            legal_actions_indexset: action_set_clone(&self.legal_actions_indexset),
            action_to_check_indices: copy_check_table(&self.action_to_check_indices),
            turn: self.turn,
            outcome: self.outcome,
            num_stones_placed: self.num_stones_placed,
        };
        proof {
            if self.wf() {
                lemma_copied_table_wf_transfer(*self, r);
                assert(r.grid_wf());
                assert forall|i: int| 0 <= i < r.legal_elems().len() implies ((#[trigger] r.legal_elems()[i]).0
                    < r.size && r.legal_elems()[i].1 < r.size && r.cells()[r.action_cell(
                    r.legal_elems()[i].0 as int,
                    r.legal_elems()[i].1 as int,
                )] == SquareState::Vacant) by {
                    assert(self.legal_elems()[i].0 < self.size);
                }
                assert forall|rr: int, cc: int|
                    0 <= rr < r.size && 0 <= cc < r.size && r.cells()[#[trigger] r.action_cell(
                        rr,
                        cc,
                    )] == SquareState::Vacant implies r.legal_elems().contains(
                    (rr as usize, cc as usize),
                ) by {
                    assert(self.cells()[self.action_cell(rr, cc)] == SquareState::Vacant);
                    assert(self.legal_elems().contains((rr as usize, cc as usize)));
                }
                assert(r.legal_wf());
                assert(r.outcome_wf());
            }
        }
        r
    }
}

/// The check-line table keeps its meaning on any board that shares the
/// configuration and holds an entry-wise equal copy of the table.
proof fn lemma_copied_table_wf_transfer(a: Board, b: Board)
    requires
        a.table_wf(),
        b.size == a.size,
        b.n_in_a_row == a.n_in_a_row,
        b.action_to_check_indices@.len() == a.action_to_check_indices@.len(),
        forall|f: int|
            0 <= f < b.action_to_check_indices@.len() ==> (#[trigger] b.action_to_check_indices@[f])@.len()
                == a.action_to_check_indices@[f]@.len(),
        forall|f: int, d: int|
            0 <= f < b.action_to_check_indices@.len() && 0 <= d < b.action_to_check_indices@[f]@.len()
                ==> (#[trigger] b.action_to_check_indices@[f]@[d])@
                == a.action_to_check_indices@[f]@[d]@,
    ensures
        b.table_wf(),
{
    assert forall|r: int, c: int| 0 <= r < b.size && 0 <= c < b.size implies check_entry_wf(
        #[trigger] b.action_to_check_indices@[r * b.size + c],
        b.size as int,
        b.n_in_a_row as int,
        r,
        c,
        b.side(),
    ) by {
        let f = r * b.size + c;
        lemma_flat_index_bound(r, c, b.size as int);
        assert(check_entry_wf(
            a.action_to_check_indices@[f],
            a.size as int,
            a.n_in_a_row as int,
            r,
            c,
            a.side(),
        ));
        let ae = a.action_to_check_indices@[f];
        let be = b.action_to_check_indices@[f];
        assert forall|d: int| 0 <= d < 4 implies (#[trigger] be@[d])@.len() == 2 * b.n_in_a_row
            - 1 by {
            assert(be@[d]@ == ae@[d]@);
        }
        assert forall|d: int, i: int| 0 <= d < 4 && 0 <= i < 2 * b.n_in_a_row - 1 implies {
            let loc = #[trigger] be@[d]@[i];
            &&& loc.0 == table_loc(b.size as int, b.n_in_a_row as int, r, c, d, i).0
            &&& loc.1 == table_loc(b.size as int, b.n_in_a_row as int, r, c, d, i).1
            &&& loc.0 < b.side() && loc.1 < b.side()
        } by {
            assert(be@[d]@ == ae@[d]@);
            assert(ae@[d]@[i] == be@[d]@[i]);
        }
    }
}

/// The check-line table keeps its meaning on any board that shares the
/// configuration and the table itself.
proof fn lemma_table_wf_transfer(a: Board, b: Board)
    requires
        a.table_wf(),
        b.size == a.size,
        b.n_in_a_row == a.n_in_a_row,
        b.action_to_check_indices == a.action_to_check_indices,
    ensures
        b.table_wf(),
{
    assert forall|r: int, c: int| 0 <= r < b.size && 0 <= c < b.size implies check_entry_wf(
        #[trigger] b.action_to_check_indices@[r * b.size + c],
        b.size as int,
        b.n_in_a_row as int,
        r,
        c,
        b.side(),
    ) by {
        assert(check_entry_wf(
            a.action_to_check_indices@[r * a.size + c],
            a.size as int,
            a.n_in_a_row as int,
            r,
            c,
            a.side(),
        ));
    }
}

/// The index of plane `p`, row `i`, column `j` in the flattened feature
/// encoding of a board of side `size`.
pub open spec fn flat_slot(p: int, i: int, j: int, size: int) -> int {
    p * (size * size) + i * size + j
}

/// The value of plane `p` at `(i, j)` in the feature encoding: plane 0 is
/// Black's occupancy, plane 1 White's, plane 2 the mover indicator, 1 for
/// Black to move and 0 for White.
pub open spec fn encoding_plane_value(b: Board, p: int, i: int, j: int) -> u8 {
    if p == 0 {
        if cell_at(b.cells(), b.side(), i + b.pad(), j + b.pad()) == SquareState::Occupied(
            Player::Black,
        ) {
            1u8
        } else {
            0u8
        }
    } else if p == 1 {
        if cell_at(b.cells(), b.side(), i + b.pad(), j + b.pad()) == SquareState::Occupied(
            Player::White,
        ) {
            1u8
        } else {
            0u8
        }
    } else {
        if b.turn == Player::Black {
            1u8
        } else {
            0u8
        }
    }
}

impl Board {
    /// The feature encoding for the evaluation oracle: two occupancy planes
    /// (Black's stones, then White's) and one mover-indicator plane, each
    /// `size` x `size`. A pure function of the current state.
    pub fn to_vec(&self) -> (r: Vec<Vec<Vec<u8>>>)
        requires
            self.config_wf(),
            self.grid_wf(),
        ensures
            r@.len() == 3,
            forall|p: int| 0 <= p < 3 ==> (#[trigger] r@[p])@.len() == self.size,
            forall|p: int, i: int|
                0 <= p < 3 && 0 <= i < self.size ==> (#[trigger] r@[p]@[i])@.len() == self.size,
            forall|p: int, i: int, j: int|
                0 <= p < 3 && 0 <= i < self.size && 0 <= j < self.size ==> #[trigger] r@[p]@[i]@[j]
                    == encoding_plane_value(*self, p, i, j),
    {
        let mut r: Vec<Vec<Vec<u8>>> = Vec::new();
        let mut p: usize = 0;
        while p < 3
            invariant
                self.config_wf(),
                self.grid_wf(),
                p <= 3,
                r@.len() == p,
                forall|pp: int| 0 <= pp < p ==> (#[trigger] r@[pp])@.len() == self.size,
                forall|pp: int, i: int|
                    0 <= pp < p && 0 <= i < self.size ==> (#[trigger] r@[pp]@[i])@.len()
                        == self.size,
                forall|pp: int, i: int, j: int|
                    0 <= pp < p && 0 <= i < self.size && 0 <= j < self.size ==> #[trigger] r@[pp]@[i]@[j]
                        == encoding_plane_value(*self, pp, i, j),
            decreases 3 - p,
        {
            let mut plane: Vec<Vec<u8>> = Vec::new();
            let mut i: usize = 0;
            while i < self.size
                invariant
                    self.config_wf(),
                    self.grid_wf(),
                    p < 3,
                    i <= self.size,
                    plane@.len() == i,
                    forall|ii: int| 0 <= ii < i ==> (#[trigger] plane@[ii])@.len() == self.size,
                    forall|ii: int, j: int|
                        0 <= ii < i && 0 <= j < self.size ==> #[trigger] plane@[ii]@[j]
                            == encoding_plane_value(*self, p as int, ii, j),
                decreases self.size - i,
            {
                let mut line: Vec<u8> = Vec::new();
                let mut j: usize = 0;
                while j < self.size
                    invariant
                        self.config_wf(),
                        self.grid_wf(),
                        p < 3,
                        i < self.size,
                        j <= self.size,
                        line@.len() == j,
                        forall|jj: int|
                            0 <= jj < j ==> #[trigger] line@[jj] == encoding_plane_value(
                                *self,
                                p as int,
                                i as int,
                                jj,
                            ),
                    decreases self.size - j,
                {
                    let v: u8;
                    if p == 0 {
                        let loc = self.action_to_base_board_location((i, j));
                        v = if self.base_board.is_occupied_by(loc, Player::Black) {
                            1
                        } else {
                            0
                        };
                    } else if p == 1 {
                        let loc = self.action_to_base_board_location((i, j));
                        v = if self.base_board.is_occupied_by(loc, Player::White) {
                            1
                        } else {
                            0
                        };
                    } else {
                        v = if self.turn.to_bool() {
                            1
                        } else {
                            0
                        };
                    }
                    line.push(v);
                    j = j + 1;
                }
                plane.push(line);
                i = i + 1;
            }
            r.push(plane);
            p = p + 1;
        }
        r
    }

    /// The feature encoding of `to_vec`, flattened plane-major: entry
    /// `p * size * size + i * size + j` holds plane `p` at `(i, j)`.
    pub fn to_flat_vec(&self) -> (r: Vec<u8>)
        requires
            self.config_wf(),
            self.grid_wf(),
        ensures
            r@.len() == 3 * (self.size * self.size),
            forall|p: int, i: int, j: int|
                0 <= p < 3 && 0 <= i < self.size && 0 <= j < self.size ==> r@[#[trigger] flat_slot(
                    p,
                    i,
                    j,
                    self.size as int,
                )] == encoding_plane_value(*self, p, i, j),
    {
        let planes = self.to_vec();
        let size = self.size;
        let ghost s2 = (size * size) as int;
        let mut r: Vec<u8> = Vec::new();
        let mut p: usize = 0;
        while p < 3
            invariant
                self.config_wf(),
                self.grid_wf(),
                size == self.size,
                s2 == (size * size) as int,
                planes@.len() == 3,
                forall|pp: int| 0 <= pp < 3 ==> (#[trigger] planes@[pp])@.len() == size,
                forall|pp: int, i: int|
                    0 <= pp < 3 && 0 <= i < size ==> (#[trigger] planes@[pp]@[i])@.len() == size,
                forall|pp: int, i: int, j: int|
                    0 <= pp < 3 && 0 <= i < size && 0 <= j < size ==> #[trigger] planes@[pp]@[i]@[j]
                        == encoding_plane_value(*self, pp, i, j),
                p <= 3,
                r@.len() == p * s2,
                forall|pp: int, i: int, j: int|
                    0 <= pp < p && 0 <= i < size && 0 <= j < size ==> r@[#[trigger] flat_slot(
                        pp,
                        i,
                        j,
                        size as int,
                    )] == encoding_plane_value(*self, pp, i, j),
            decreases 3 - p,
        {
            let mut i: usize = 0;
            while i < size
                invariant
                    self.config_wf(),
                    self.grid_wf(),
                    size == self.size,
                    s2 == (size * size) as int,
                    planes@.len() == 3,
                    forall|pp: int| 0 <= pp < 3 ==> (#[trigger] planes@[pp])@.len() == size,
                    forall|pp: int, ii: int|
                        0 <= pp < 3 && 0 <= ii < size ==> (#[trigger] planes@[pp]@[ii])@.len()
                            == size,
                    forall|pp: int, ii: int, j: int|
                        0 <= pp < 3 && 0 <= ii < size && 0 <= j < size ==> #[trigger] planes@[pp]@[ii]@[j]
                            == encoding_plane_value(*self, pp, ii, j),
                    p < 3,
                    i <= size,
                    r@.len() == p * s2 + i * size,
                    forall|pp: int, ii: int, j: int|
                        (0 <= pp < p && 0 <= ii < size && 0 <= j < size) || (pp == p && 0 <= ii < i
                            && 0 <= j < size) ==> r@[#[trigger] flat_slot(pp, ii, j, size as int)]
                            == encoding_plane_value(*self, pp, ii, j),
                decreases size - i,
            {
                let mut j: usize = 0;
                while j < size
                    invariant
                        self.config_wf(),
                        self.grid_wf(),
                        size == self.size,
                        s2 == (size * size) as int,
                        planes@.len() == 3,
                        forall|pp: int| 0 <= pp < 3 ==> (#[trigger] planes@[pp])@.len() == size,
                        forall|pp: int, ii: int|
                            0 <= pp < 3 && 0 <= ii < size ==> (#[trigger] planes@[pp]@[ii])@.len()
                                == size,
                        forall|pp: int, ii: int, jj: int|
                            0 <= pp < 3 && 0 <= ii < size && 0 <= jj < size ==> #[trigger] planes@[pp]@[ii]@[jj]
                                == encoding_plane_value(*self, pp, ii, jj),
                        p < 3,
                        i < size,
                        j <= size,
                        r@.len() == p * s2 + i * size + j,
                        forall|pp: int, ii: int, jj: int|
                            (0 <= pp < p && 0 <= ii < size && 0 <= jj < size) || (pp == p && 0 <= ii
                                < i && 0 <= jj < size) || (pp == p && ii == i && 0 <= jj < j)
                                ==> r@[#[trigger] flat_slot(pp, ii, jj, size as int)]
                                == encoding_plane_value(*self, pp, ii, jj),
                    decreases size - j,
                {
                    proof {
                        lemma_flat_slot_order(p as int, i as int, j as int, size as int);
                    }
                    r.push(planes[p][i][j]);
                    proof {
                        assert forall|pp: int, ii: int, jj: int|
                            (0 <= pp < p && 0 <= ii < size && 0 <= jj < size) || (pp == p && 0 <= ii
                                < i && 0 <= jj < size) || (pp == p && ii == i && 0 <= jj < j
                                + 1) implies r@[#[trigger] flat_slot(pp, ii, jj, size as int)]
                            == encoding_plane_value(*self, pp, ii, jj) by {
                            if pp == p && ii == i && jj == j {
                            } else {
                                lemma_flat_slot_order(pp, ii, jj, size as int);
                                lemma_flat_slot_strict(
                                    pp,
                                    ii,
                                    jj,
                                    p as int,
                                    i as int,
                                    j as int,
                                    size as int,
                                );
                            }
                        }
                    }
                    j = j + 1;
                }
                proof {
                    assert(p * s2 + i * size + size == p * s2 + (i + 1) * size) by (nonlinear_arith);
                }
                i = i + 1;
            }
            proof {
                assert(p * s2 + size * size == (p + 1) * s2) by (nonlinear_arith)
                    requires
                        s2 == size * size,
                ;
            }
            p = p + 1;
        }
        r
    }
}

/// A feature-encoding slot index is the length of everything before it.
proof fn lemma_flat_slot_order(p: int, i: int, j: int, size: int)
    requires
        0 <= p,
        0 <= i < size,
        0 <= j < size,
    ensures
        flat_slot(p, i, j, size) == p * (size * size) + i * size + j,
        0 <= flat_slot(p, i, j, size),
{
    assert(0 <= p * (size * size) + i * size + j) by (nonlinear_arith)
        requires
            0 <= p,
            0 <= i < size,
            0 <= j < size,
    ;
}

/// Lexicographic order on `(plane, row, column)` is strict order on slots.
proof fn lemma_flat_slot_strict(p1: int, i1: int, j1: int, p2: int, i2: int, j2: int, size: int)
    requires
        0 <= p1,
        0 <= i1 < size,
        0 <= j1 < size,
        0 <= p2,
        0 <= i2 < size,
        0 <= j2 < size,
        p1 < p2 || (p1 == p2 && i1 < i2) || (p1 == p2 && i1 == i2 && j1 < j2),
    ensures
        flat_slot(p1, i1, j1, size) < flat_slot(p2, i2, j2, size),
{
    assert(p1 * (size * size) + i1 * size + j1 < p2 * (size * size) + i2 * size + j2)
        by (nonlinear_arith)
        requires
            0 <= p1,
            0 <= i1 < size,
            0 <= j1 < size,
            0 <= p2,
            0 <= i2 < size,
            0 <= j2 < size,
            p1 < p2 || (p1 == p2 && i1 < i2) || (p1 == p2 && i1 == i2 && j1 < j2),
    ;
}

/// For any sequence of applied actions, the legal-action set is exactly the
/// complement of the occupied squares: it holds a square's action exactly
/// when that square is vacant, without duplicates, and its size is the
/// square count minus the number of stones placed.
pub proof fn lemma_legal_actions_complement(b: Board)
    requires
        b.wf(),
    ensures
        b.legal_elems().len() + b.num_stones_placed == b.size * b.size,
        distinct_elems(b.legal_elems()),
        forall|r: int, c: int|
            0 <= r < b.size && 0 <= c < b.size ==> (#[trigger] b.legal_elems().contains(
                (r as usize, c as usize),
            ) <==> cell_at(b.cells(), b.side(), r + b.pad(), c + b.pad()) == SquareState::Vacant),
{
    assert forall|r: int, c: int| 0 <= r < b.size && 0 <= c < b.size implies (
    #[trigger] b.legal_elems().contains((r as usize, c as usize)) <==> cell_at(
        b.cells(),
        b.side(),
        r + b.pad(),
        c + b.pad(),
    ) == SquareState::Vacant) by {
        lemma_flat_index_bound(r + b.pad(), c + b.pad(), b.side());
        if b.legal_elems().contains((r as usize, c as usize)) {
            let i = choose|i: int|
                0 <= i < b.legal_elems().len() && b.legal_elems()[i] == (r as usize, c as usize);
            assert(b.legal_elems()[i].0 < b.size);
        }
        if cell_at(b.cells(), b.side(), r + b.pad(), c + b.pad()) == SquareState::Vacant {
            assert(b.cells()[b.action_cell(r, c)] == SquareState::Vacant);
        }
    }
}

/// The column index named by a letter, case-insensitively: `'A'` and `'a'`
/// name column `0`. Any other character yields `-1`.
pub open spec fn col_index_of(c: char) -> int {
    if 'A' as int <= c as int <= 'Z' as int {
        c as int - 'A' as int
    } else if 'a' as int <= c as int <= 'z' as int {
        c as int - 'a' as int
    } else {
        -1
    }
}

/// The value of a decimal digit character, or `-1`.
pub open spec fn digit_of(c: char) -> int {
    if '0' as int <= c as int <= '9' as int {
        c as int - '0' as int
    } else {
        -1
    }
}

/// The row label named by a digit sequence: one or two digits, no leading
/// zero. Any other shape yields `-1`.
pub open spec fn row_label_of(s: Seq<char>) -> int {
    if s.len() == 1 && 1 <= digit_of(s[0]) {
        digit_of(s[0])
    } else if s.len() == 2 && 1 <= digit_of(s[0]) && 0 <= digit_of(s[1]) {
        10 * digit_of(s[0]) + digit_of(s[1])
    } else {
        -1
    }
}

/// The action named by a move string on a board of side `size`:
/// a column letter (case-insensitive, `'A'` upward, bounded by the board
/// size) followed by a row number (`1` upward, bounded by the board size,
/// without a leading zero). Row label `1` is the bottom row, at row index
/// `size - 1`. Anything else parses to `None`.
pub open spec fn parse_move_spec(s: Seq<char>, size: int) -> Option<Action> {
    let col = col_index_of(s[0]);
    let lbl = row_label_of(s.subrange(1, s.len() as int));
    if 2 <= s.len() <= 3 && 0 <= col < size && 1 <= lbl <= size {
        Some((((size - lbl) as usize, col as usize)))
    } else {
        None
    }
}

/// The canonical upper-case letter of a column index in `0 .. 26`.
pub open spec fn col_char(c: int) -> char {
    if c == 0 { 'A' } else if c == 1 { 'B' } else if c == 2 { 'C' } else if c == 3 { 'D' }
    else if c == 4 { 'E' } else if c == 5 { 'F' } else if c == 6 { 'G' } else if c == 7 { 'H' }
    else if c == 8 { 'I' } else if c == 9 { 'J' } else if c == 10 { 'K' } else if c == 11 { 'L' }
    else if c == 12 { 'M' } else if c == 13 { 'N' } else if c == 14 { 'O' } else if c == 15 { 'P' }
    else if c == 16 { 'Q' } else if c == 17 { 'R' } else if c == 18 { 'S' } else if c == 19 { 'T' }
    else if c == 20 { 'U' } else if c == 21 { 'V' } else if c == 22 { 'W' } else if c == 23 { 'X' }
    else if c == 24 { 'Y' } else { 'Z' }
}

/// The digit character of a value in `0 .. 10`.
pub open spec fn digit_char(d: int) -> char {
    if d == 0 { '0' } else if d == 1 { '1' } else if d == 2 { '2' } else if d == 3 { '3' }
    else if d == 4 { '4' } else if d == 5 { '5' } else if d == 6 { '6' } else if d == 7 { '7' }
    else if d == 8 { '8' } else { '9' }
}

/// The canonical digits of a row label in `1 .. 100`: no leading zero.
pub open spec fn row_digits(lbl: int) -> Seq<char> {
    if lbl < 10 {
        seq![digit_char(lbl)]
    } else {
        seq![digit_char(lbl / 10), digit_char(lbl % 10)]
    }
}

/// The canonical move string of an action on a board of side `size`: the
/// upper-case column letter followed by the row label `size - row`.
pub open spec fn format_move_spec(a: Action, size: int) -> Seq<char> {
    seq![col_char(a.1 as int)] + row_digits(size - a.0)
}

/// Formatting the parsed action reproduces the normalized form of the move
/// string: its column letter upper-cased, its row digits as written. So the
/// move-string mapping loses nothing: every syntactically valid string
/// round-trips, and (by the contract of `parse_string_to_action`) every
/// malformed string is rejected rather than misread.
pub proof fn lemma_parse_format_round_trip(s: Seq<char>, size: int, a: Action)
    requires
        2 <= size <= 26,
        parse_move_spec(s, size) == Some(a),
    ensures
        format_move_spec(a, size) == seq![col_char(col_index_of(s[0]))] + s.subrange(
            1,
            s.len() as int,
        ),
{
    let col = col_index_of(s[0]);
    let lbl = row_label_of(s.subrange(1, s.len() as int));
    let digits = s.subrange(1, s.len() as int);
    assert(a == (((size - lbl) as usize, col as usize)));
    assert(size - a.0 == lbl);
    assert(row_digits(lbl) =~= digits) by {
        if digits.len() == 1 {
            assert(digit_char(digit_of(digits[0])) == digits[0]);
        } else {
            assert(lbl == 10 * digit_of(digits[0]) + digit_of(digits[1]));
            assert(lbl / 10 == digit_of(digits[0]) && lbl % 10 == digit_of(digits[1])) by {
                let d1 = digit_of(digits[0]);
                let d2 = digit_of(digits[1]);
                assert((10 * d1 + d2) / 10 == d1 && (10 * d1 + d2) % 10 == d2) by (nonlinear_arith)
                    requires
                        1 <= d1 <= 9,
                        0 <= d2 <= 9,
                ;
            }
            assert(lbl >= 10);
            assert(digit_char(digit_of(digits[0])) == digits[0]);
            assert(digit_char(digit_of(digits[1])) == digits[1]);
        }
    }
    assert(format_move_spec(a, size) =~= seq![col_char(col)] + digits);
}

impl Board {
    /// Parses a human move label such as `"B2"` into an `Action`:
    /// a column letter (case-insensitive, bounded by the board size) followed
    /// by a row number (1 at the bottom, bounded by the board size).
    /// Malformed strings fail with `InvalidMove`.
    pub fn parse_string_to_action(&self, string: &String) -> (r: Result<Action, GameError>)
        requires
            self.config_wf(),
        ensures
            r matches Ok(a) ==> parse_move_spec(string@, self.size as int) == Some(a) && a.0
                < self.size && a.1 < self.size,
            r matches Err(e) ==> e == GameError::InvalidMove && parse_move_spec(
                string@,
                self.size as int,
            ) is None,
    {
        let ghost sv = string@;
        let len = string.as_str().unicode_len();
        if len < 2 || len > 3 {
            return Err(GameError::InvalidMove);
        }
        let c0 = string.as_str().get_char(0);
        let c0u = c0 as u32;
        let col: usize;
        if 'A' as u32 <= c0u && c0u <= 'Z' as u32 {
            col = (c0u - 'A' as u32) as usize;
        } else if 'a' as u32 <= c0u && c0u <= 'z' as u32 {
            col = (c0u - 'a' as u32) as usize;
        } else {
            return Err(GameError::InvalidMove);
        }
        proof {
            assert(col == col_index_of(sv[0]));
        }
        let ghost digits = sv.subrange(1, sv.len() as int);
        let d1 = string.as_str().get_char(1);
        let d1u = d1 as u32;
        if !('1' as u32 <= d1u && d1u <= '9' as u32) {
            proof {
                assert(digits[0] == sv[1]);
            }
            return Err(GameError::InvalidMove);
        }
        let row_label: usize;
        if len == 2 {
            row_label = (d1u - '0' as u32) as usize;
            proof {
                assert(digits =~= seq![sv[1]]);
            }
        } else {
            let d2 = string.as_str().get_char(2);
            let d2u = d2 as u32;
            if !('0' as u32 <= d2u && d2u <= '9' as u32) {
                proof {
                    assert(digits[1] == sv[2]);
                }
                return Err(GameError::InvalidMove);
            }
            row_label = ((d1u - '0' as u32) * 10 + (d2u - '0' as u32)) as usize;
            proof {
                assert(digits =~= seq![sv[1], sv[2]]);
            }
        }
        proof {
            assert(row_label == row_label_of(digits));
        }
        if col >= self.size || row_label > self.size {
            return Err(GameError::InvalidMove);
        }
        let row = self.size - row_label;
        Ok((row, col))
    }

    /// Formats an `Action` as its canonical move label, the inverse of
    /// `parse_string_to_action`: upper-case column letter, then the row
    /// number counted from the bottom.
    pub fn action_to_string(&self, action: Action) -> (r: String)
        requires
            self.config_wf(),
            action.0 < self.size,
            action.1 < self.size,
        ensures
            r@ == format_move_spec(action, self.size as int),
    {
        let col_str = col_name(action.1);
        let row_str = row_name(self.size - action.0);
        let mut s = String::from_str(col_str);
        s.append(row_str);
        proof {
            assert(s@ =~= format_move_spec(action, self.size as int));
        }
        s
    }

    /// The legal moves as human-readable labels, in the legal set's storage
    /// order.
    pub fn legal_moves_as_strings(&self) -> (r: Vec<String>)
        requires
            self.wf(),
        ensures
            r@.len() == self.legal_elems().len(),
            forall|i: int|
                0 <= i < r@.len() ==> (#[trigger] r@[i])@ == format_move_spec(
                    self.legal_elems()[i],
                    self.size as int,
                ),
    {
        let actions = action_set_to_vec(&self.legal_actions_indexset);
        let mut r: Vec<String> = Vec::new();
        let mut i: usize = 0;
        while i < actions.len()
            invariant
                self.wf(),
                actions@ == self.legal_elems(),
                i <= actions@.len(),
                r@.len() == i,
                forall|j: int|
                    0 <= j < i ==> (#[trigger] r@[j])@ == format_move_spec(
                        self.legal_elems()[j],
                        self.size as int,
                    ),
            decreases actions@.len() - i,
        {
            let s = self.action_to_string(actions[i]);
            r.push(s);
            i = i + 1;
        }
        r
    }
}

/// The upper-case letter naming a column index.
fn col_name(c: usize) -> (r: &'static str)
    requires
        c < 26,
    ensures
        r@ == seq![col_char(c as int)],
{
    let r: &'static str = match c {
        0 => "A", 1 => "B", 2 => "C", 3 => "D", 4 => "E", 5 => "F", 6 => "G", 7 => "H",
        8 => "I", 9 => "J", 10 => "K", 11 => "L", 12 => "M", 13 => "N", 14 => "O", 15 => "P",
        16 => "Q", 17 => "R", 18 => "S", 19 => "T", 20 => "U", 21 => "V", 22 => "W", 23 => "X",
        24 => "Y", _ => "Z",
    };
    proof {
        reveal_strlit("A"); reveal_strlit("B"); reveal_strlit("C"); reveal_strlit("D");
        reveal_strlit("E"); reveal_strlit("F"); reveal_strlit("G"); reveal_strlit("H");
        reveal_strlit("I"); reveal_strlit("J"); reveal_strlit("K"); reveal_strlit("L");
        reveal_strlit("M"); reveal_strlit("N"); reveal_strlit("O"); reveal_strlit("P");
        reveal_strlit("Q"); reveal_strlit("R"); reveal_strlit("S"); reveal_strlit("T");
        reveal_strlit("U"); reveal_strlit("V"); reveal_strlit("W"); reveal_strlit("X");
        reveal_strlit("Y"); reveal_strlit("Z");
        assert(r@ =~= seq![col_char(c as int)]);
    }
    r
}

/// The decimal digits of a row label in `1 ..= 26`.
fn row_name(lbl: usize) -> (r: &'static str)
    requires
        1 <= lbl <= 26,
    ensures
        r@ == row_digits(lbl as int),
{
    let r: &'static str = match lbl {
        1 => "1", 2 => "2", 3 => "3", 4 => "4", 5 => "5", 6 => "6", 7 => "7", 8 => "8",
        9 => "9", 10 => "10", 11 => "11", 12 => "12", 13 => "13", 14 => "14", 15 => "15",
        16 => "16", 17 => "17", 18 => "18", 19 => "19", 20 => "20", 21 => "21", 22 => "22",
        23 => "23", 24 => "24", 25 => "25", _ => "26",
    };
    proof {
        reveal_strlit("1"); reveal_strlit("2"); reveal_strlit("3"); reveal_strlit("4");
        reveal_strlit("5"); reveal_strlit("6"); reveal_strlit("7"); reveal_strlit("8");
        reveal_strlit("9"); reveal_strlit("10"); reveal_strlit("11"); reveal_strlit("12");
        reveal_strlit("13"); reveal_strlit("14"); reveal_strlit("15"); reveal_strlit("16");
        reveal_strlit("17"); reveal_strlit("18"); reveal_strlit("19"); reveal_strlit("20");
        reveal_strlit("21"); reveal_strlit("22"); reveal_strlit("23"); reveal_strlit("24");
        reveal_strlit("25"); reveal_strlit("26");
        assert(r@ =~= row_digits(lbl as int));
    }
    r
}

/// After a stone of the mover is placed on a vacant in-range square and the
/// action leaves the legal set, every part of the board invariant except the
/// outcome clause holds again.
proof fn lemma_make_action_core(prev: Board, cur: Board, action: Action)
    requires
        prev.wf(),
        prev.outcome is None,
        action.0 < prev.size,
        action.1 < prev.size,
        cell_at(
            prev.cells(),
            prev.side(),
            action.0 + prev.pad(),
            action.1 + prev.pad(),
        ) == SquareState::Vacant,
        cur.size == prev.size,
        cur.n_in_a_row == prev.n_in_a_row,
        grid_side(&cur.base_board) == grid_side(&prev.base_board),
        cur.cells() == prev.cells().update(
            prev.action_cell(action.0 as int, action.1 as int),
            SquareState::Occupied(prev.turn),
        ),
        cur.action_to_check_indices == prev.action_to_check_indices,
        cur.num_stones_placed == prev.num_stones_placed + 1,
        exists|i: int|
            0 <= i < prev.legal_elems().len() && prev.legal_elems()[i] == action
                && cur.legal_elems() == swap_removed(prev.legal_elems(), i),
    ensures
        cur.config_wf(),
        cur.grid_wf(),
        cur.table_wf(),
        cur.legal_wf(),
        cur.num_stones_placed <= cur.size * cur.size,
{
    let row = action.0 as int;
    let col = action.1 as int;
    let pad = prev.pad();
    let side = prev.side();
    let target = prev.action_cell(row, col);
    lemma_flat_index_bound(row + pad, col + pad, side);
    assert(cur.cells().len() == side * side);
    assert forall|r: int, c: int|
        !(pad <= r < pad + cur.size && pad <= c < pad + cur.size) implies #[trigger] cell_at(
        cur.cells(),
        cur.side(),
        r,
        c,
    ) == SquareState::Vacant by {
        if 0 <= r < side && 0 <= c < side {
            lemma_flat_index_bound(r, c, side);
            lemma_flat_injective(r, c, row + pad, col + pad, side);
            assert(cell_at(prev.cells(), side, r, c) == SquareState::Vacant);
        }
    }
    assert(cur.grid_wf());
    assert forall|r: int, c: int| 0 <= r < cur.size && 0 <= c < cur.size implies check_entry_wf(
        #[trigger] cur.action_to_check_indices@[r * cur.size + c],
        cur.size as int,
        cur.n_in_a_row as int,
        r,
        c,
        cur.side(),
    ) by {
        assert(check_entry_wf(
            prev.action_to_check_indices@[r * prev.size + c],
            prev.size as int,
            prev.n_in_a_row as int,
            r,
            c,
            prev.side(),
        ));
    }
    assert(cur.table_wf());
    let i = choose|i: int|
        0 <= i < prev.legal_elems().len() && prev.legal_elems()[i] == action
            && cur.legal_elems() == swap_removed(prev.legal_elems(), i);
    lemma_swap_removed_props(prev.legal_elems(), i);
    assert forall|j: int| 0 <= j < cur.legal_elems().len() implies ((#[trigger] cur.legal_elems()[j]).0
        < cur.size && cur.legal_elems()[j].1 < cur.size && cur.cells()[cur.action_cell(
        cur.legal_elems()[j].0 as int,
        cur.legal_elems()[j].1 as int,
    )] == SquareState::Vacant) by {
        let x = cur.legal_elems()[j];
        assert(cur.legal_elems().contains(x));
        assert(prev.legal_elems().contains(x) && x != action);
        let jx = choose|jx: int| 0 <= jx < prev.legal_elems().len() && prev.legal_elems()[jx] == x;
        assert(prev.legal_elems()[jx].0 < prev.size);
        lemma_flat_injective(x.0 + pad, x.1 + pad, row + pad, col + pad, side);
        lemma_flat_index_bound(x.0 + pad, x.1 + pad, side);
    }
    assert forall|r: int, c: int|
        (0 <= r < cur.size && 0 <= c < cur.size && cur.cells()[#[trigger] cur.action_cell(r, c)]
            == SquareState::Vacant) implies cur.legal_elems().contains(
        (r as usize, c as usize),
    ) by {
        lemma_flat_index_bound(r + pad, c + pad, side);
        if r == row && c == col {
            assert(cur.cells()[target] == SquareState::Occupied(prev.turn));
            assert(false);
        } else {
            lemma_flat_injective(r + pad, c + pad, row + pad, col + pad, side);
            assert(prev.cells()[prev.action_cell(r, c)] == SquareState::Vacant);
            assert(prev.legal_elems().contains((r as usize, c as usize)));
            assert((r as usize, c as usize) != action);
        }
    }
    assert(cur.legal_wf());
}

/// After the outcome of the move is recorded and the turn flipped exactly
/// when the game goes on, the full board invariant holds again.
proof fn lemma_make_action_wf(prev: Board, cur: Board, action: Action)
    requires
        prev.wf(),
        prev.outcome is None,
        action.0 < prev.size,
        action.1 < prev.size,
        cell_at(
            prev.cells(),
            prev.side(),
            action.0 + prev.pad(),
            action.1 + prev.pad(),
        ) == SquareState::Vacant,
        cur.size == prev.size,
        cur.n_in_a_row == prev.n_in_a_row,
        grid_side(&cur.base_board) == grid_side(&prev.base_board),
        cur.cells() == prev.cells().update(
            prev.action_cell(action.0 as int, action.1 as int),
            SquareState::Occupied(prev.turn),
        ),
        cur.action_to_check_indices == prev.action_to_check_indices,
        cur.num_stones_placed == prev.num_stones_placed + 1,
        exists|i: int|
            0 <= i < prev.legal_elems().len() && prev.legal_elems()[i] == action
                && cur.legal_elems() == swap_removed(prev.legal_elems(), i),
        cur.outcome == (if wins_through(
            cur.cells(),
            cur.side(),
            cur.n_in_a_row as int,
            cur.size as int,
            action.0 as int,
            action.1 as int,
            prev.turn,
        ) {
            Some(Outcome::Winner(prev.turn))
        } else if cur.num_stones_placed == cur.size * cur.size {
            Some(Outcome::Draw)
        } else {
            None
        }),
        cur.turn == (if cur.outcome is None {
            prev.turn.opposite_spec()
        } else {
            prev.turn
        }),
    ensures
        cur.wf(),
{
    lemma_make_action_core(prev, cur, action);
    let row = action.0 as int;
    let col = action.1 as int;
    let ksz = prev.n_in_a_row as int;
    lemma_incremental_win_detection(
        prev.cells(),
        cur.cells(),
        prev.side(),
        ksz,
        prev.size as int,
        row,
        col,
        prev.turn,
    );
    assert(prev.turn.opposite_spec().opposite_spec() == prev.turn);
    assert(cur.outcome_wf());
}

/// Distinct in-range coordinate pairs have distinct row-major indices.
proof fn lemma_flat_injective(r1: int, c1: int, r2: int, c2: int, side: int)
    requires
        0 <= r1 < side,
        0 <= c1 < side,
        0 <= r2 < side,
        0 <= c2 < side,
        !(r1 == r2 && c1 == c2),
    ensures
        r1 * side + c1 != r2 * side + c2,
{
    assert(r1 * side + c1 != r2 * side + c2) by (nonlinear_arith)
        requires
            0 <= r1 < side,
            0 <= c1 < side,
            0 <= r2 < side,
            0 <= c2 < side,
            !(r1 == r2 && c1 == c2),
    ;
}

/// A winning window on a check line through an action is a winning line on
/// the board: the easy direction of the incremental-detection argument.
proof fn lemma_wins_through_implies_has_win(
    cells: Seq<SquareState>,
    side: int,
    k: int,
    size: int,
    row: int,
    col: int,
    p: Player,
)
    requires
        2 <= k <= size,
        side == size + 2 * (k - 1),
        0 <= row < size,
        0 <= col < size,
        wins_through(cells, side, k, size, row, col, p),
    ensures
        has_win(cells, side, k, p),
{
    let pad = k - 1;
    let (d, w): (int, int) = choose|d: int, w: int|
        0 <= d < 4 && 0 <= w < k && window_wins(cells, side, k, size, row, col, d, w, p);
    if d == 0 {
        let r0 = row + pad;
        let c0 = col + w;
        assert forall|j: int| 0 <= j < k implies cell_at(
            cells,
            side,
            (#[trigger] line_cell(r0, c0, 0, j)).0,
            line_cell(r0, c0, 0, j).1,
        ) == SquareState::Occupied(p) by {
            assert(line_cell(r0, c0, 0, j) == (r0 + j * 0, c0 + j * 1));
            assert(table_loc(size, k, row, col, 0, w + j) == (row + pad, col + (w + j)));
        }
        assert(line_wins(cells, side, k, p, r0, c0, 0));
    } else if d == 1 {
        let r0 = row + w;
        let c0 = col + pad;
        assert forall|j: int| 0 <= j < k implies cell_at(
            cells,
            side,
            (#[trigger] line_cell(r0, c0, 1, j)).0,
            line_cell(r0, c0, 1, j).1,
        ) == SquareState::Occupied(p) by {
            assert(line_cell(r0, c0, 1, j) == (r0 + j * 1, c0 + j * 0));
            assert(table_loc(size, k, row, col, 1, w + j) == (row + (w + j), col + pad));
        }
        assert(line_wins(cells, side, k, p, r0, c0, 1));
    } else if d == 2 {
        // The stored line runs up-right; read it from its lower-left end.
        let r0 = row + 2 * pad - (w + k - 1);
        let c0 = col + w + k - 1;
        assert forall|j: int| 0 <= j < k implies cell_at(
            cells,
            side,
            (#[trigger] line_cell(r0, c0, 2, j)).0,
            line_cell(r0, c0, 2, j).1,
        ) == SquareState::Occupied(p) by {
            let i = w + k - 1 - j;
            assert(line_cell(r0, c0, 2, j) == (r0 + j * 1, c0 + j * (-1)));
            assert(table_loc(size, k, row, col, 2, i) == (row + 2 * pad - i, col + i));
            assert(w <= i < w + k);
            assert(cell_at(
                cells,
                side,
                table_loc(size, k, row, col, 2, i).0,
                table_loc(size, k, row, col, 2, i).1,
            ) == SquareState::Occupied(p));
        }
        assert(line_wins(cells, side, k, p, r0, c0, 2));
    } else {
        let r0 = row + 2 * pad - (w + k - 1);
        let c0 = col + 2 * pad - (w + k - 1);
        assert forall|j: int| 0 <= j < k implies cell_at(
            cells,
            side,
            (#[trigger] line_cell(r0, c0, 3, j)).0,
            line_cell(r0, c0, 3, j).1,
        ) == SquareState::Occupied(p) by {
            let i = w + k - 1 - j;
            assert(line_cell(r0, c0, 3, j) == (r0 + j * 1, c0 + j * 1));
            assert(table_loc(size, k, row, col, 3, i) == (row + 2 * pad - i, col + 2 * pad - i));
            assert(w <= i < w + k);
            assert(cell_at(
                cells,
                side,
                table_loc(size, k, row, col, 3, i).0,
                table_loc(size, k, row, col, 3, i).1,
            ) == SquareState::Occupied(p));
        }
        assert(line_wins(cells, side, k, p, r0, c0, 3));
    }
}

/// After placing one stone of `p`, any winning line of `q` either already
/// stood on the previous grid or is `p`'s own and passes through the new
/// stone: the hard direction of the incremental-detection argument.
proof fn lemma_new_win_is_through_action(
    cells0: Seq<SquareState>,
    cells1: Seq<SquareState>,
    side: int,
    k: int,
    size: int,
    row: int,
    col: int,
    p: Player,
    q: Player,
)
    requires
        2 <= k <= size <= 26,
        side == size + 2 * (k - 1),
        cells0.len() == side * side,
        0 <= row < size,
        0 <= col < size,
        cells1 == cells0.update(
            (row + k - 1) * side + (col + k - 1),
            SquareState::Occupied(p),
        ),
        has_win(cells1, side, k, q),
    ensures
        has_win(cells0, side, k, q) || (q == p && wins_through(cells1, side, k, size, row, col, p)),
{
    let pad = k - 1;
    let pr = row + pad;
    let pc = col + pad;
    lemma_flat_index_bound(pr, pc, side);
    let (r0, c0, d): (int, int, int) = choose|r0: int, c0: int, d: int|
        0 <= d < 4 && line_wins(cells1, side, k, q, r0, c0, d);
    if exists|j: int| 0 <= j < k && line_cell(r0, c0, d, j) == (pr, pc) {
        let j = choose|j: int| 0 <= j < k && line_cell(r0, c0, d, j) == (pr, pc);
        assert(cell_at(cells1, side, pr, pc) == SquareState::Occupied(q));
        assert(cells1[pr * side + pc] == SquareState::Occupied(p));
        assert(q == p);
        if d == 0 {
            let w = k - 1 - j;
            assert(r0 == pr && c0 == pc - j) by {
                assert(line_cell(r0, c0, 0, j) == (r0 + j * 0, c0 + j * 1));
            }
            assert forall|i: int| w <= i < w + k implies cell_at(
                cells1,
                side,
                (#[trigger] table_loc(size, k, row, col, 0, i)).0,
                table_loc(size, k, row, col, 0, i).1,
            ) == SquareState::Occupied(p) by {
                let t = i - w;
                assert(line_cell(r0, c0, 0, t) == (r0 + t * 0, c0 + t * 1));
                assert(cell_at(cells1, side, line_cell(r0, c0, 0, t).0, line_cell(r0, c0, 0, t).1)
                    == SquareState::Occupied(p));
                assert(table_loc(size, k, row, col, 0, i) == (row + pad, col + i));
                assert(col + i == c0 + t);
            }
            assert(window_wins(cells1, side, k, size, row, col, 0, w, p));
            assert(wins_through(cells1, side, k, size, row, col, p));
        } else if d == 1 {
            let w = k - 1 - j;
            assert(r0 == pr - j && c0 == pc) by {
                assert(line_cell(r0, c0, 1, j) == (r0 + j * 1, c0 + j * 0));
            }
            assert forall|i: int| w <= i < w + k implies cell_at(
                cells1,
                side,
                (#[trigger] table_loc(size, k, row, col, 1, i)).0,
                table_loc(size, k, row, col, 1, i).1,
            ) == SquareState::Occupied(p) by {
                let t = i - w;
                assert(line_cell(r0, c0, 1, t) == (r0 + t * 1, c0 + t * 0));
                assert(cell_at(cells1, side, line_cell(r0, c0, 1, t).0, line_cell(r0, c0, 1, t).1)
                    == SquareState::Occupied(p));
                assert(table_loc(size, k, row, col, 1, i) == (row + i, col + pad));
                assert(row + i == r0 + t);
            }
            assert(window_wins(cells1, side, k, size, row, col, 1, w, p));
            assert(wins_through(cells1, side, k, size, row, col, p));
        } else if d == 2 {
            let w = j;
            assert(r0 == pr - j && c0 == pc + j) by {
                assert(line_cell(r0, c0, 2, j) == (r0 + j * 1, c0 + j * (-1)));
            }
            assert forall|i: int| w <= i < w + k implies cell_at(
                cells1,
                side,
                (#[trigger] table_loc(size, k, row, col, 2, i)).0,
                table_loc(size, k, row, col, 2, i).1,
            ) == SquareState::Occupied(p) by {
                let t = pad + j - i;
                assert(0 <= t < k);
                assert(line_cell(r0, c0, 2, t) == (r0 + t * 1, c0 + t * (-1)));
                assert(cell_at(cells1, side, line_cell(r0, c0, 2, t).0, line_cell(r0, c0, 2, t).1)
                    == SquareState::Occupied(p));
                assert(table_loc(size, k, row, col, 2, i) == (row + 2 * pad - i, col + i));
                assert(row + 2 * pad - i == r0 + t && col + i == c0 - t);
            }
            assert(window_wins(cells1, side, k, size, row, col, 2, w, p));
            assert(wins_through(cells1, side, k, size, row, col, p));
        } else {
            let w = j;
            assert(r0 == pr - j && c0 == pc - j) by {
                assert(line_cell(r0, c0, 3, j) == (r0 + j * 1, c0 + j * 1));
            }
            assert forall|i: int| w <= i < w + k implies cell_at(
                cells1,
                side,
                (#[trigger] table_loc(size, k, row, col, 3, i)).0,
                table_loc(size, k, row, col, 3, i).1,
            ) == SquareState::Occupied(p) by {
                let t = pad + j - i;
                assert(0 <= t < k);
                assert(line_cell(r0, c0, 3, t) == (r0 + t * 1, c0 + t * 1));
                assert(cell_at(cells1, side, line_cell(r0, c0, 3, t).0, line_cell(r0, c0, 3, t).1)
                    == SquareState::Occupied(p));
                assert(table_loc(size, k, row, col, 3, i) == (row + 2 * pad - i, col + 2 * pad - i));
                assert(row + 2 * pad - i == r0 + t && col + 2 * pad - i == c0 + t);
            }
            assert(window_wins(cells1, side, k, size, row, col, 3, w, p));
            assert(wins_through(cells1, side, k, size, row, col, p));
        }
    } else {
        // The line avoids the new stone, so it already stood before the move.
        assert forall|j: int| 0 <= j < k implies cell_at(
            cells0,
            side,
            (#[trigger] line_cell(r0, c0, d, j)).0,
            line_cell(r0, c0, d, j).1,
        ) == SquareState::Occupied(q) by {
            let lc = line_cell(r0, c0, d, j);
            assert(cell_at(cells1, side, lc.0, lc.1) == SquareState::Occupied(q));
            if 0 <= lc.0 < side && 0 <= lc.1 < side {
                lemma_flat_injective(lc.0, lc.1, pr, pc, side);
                lemma_flat_index_bound(lc.0, lc.1, side);
            }
        }
        assert(line_wins(cells0, side, k, q, r0, c0, d));
    }
}

/// Incremental win detection agrees with an independent full-board scan.
///
/// On any reachable position (one without a pre-existing winning line,
/// which the board's invariant guarantees whenever the outcome is still
/// undetermined), placing one stone of `p` on the square of the action at
/// `(row, col)` produces a winning line for `p` exactly when one of the
/// `n_in_a_row`-wide windows on the four check lines through that action is
/// wholly `p`'s, and produces no winning line for the opponent.
pub proof fn lemma_incremental_win_detection(
    cells0: Seq<SquareState>,
    cells1: Seq<SquareState>,
    side: int,
    k: int,
    size: int,
    row: int,
    col: int,
    p: Player,
)
    requires
        2 <= k <= size <= 26,
        side == size + 2 * (k - 1),
        cells0.len() == side * side,
        0 <= row < size,
        0 <= col < size,
        cells1 == cells0.update(
            (row + k - 1) * side + (col + k - 1),
            SquareState::Occupied(p),
        ),
        !has_win(cells0, side, k, p),
        !has_win(cells0, side, k, p.opposite_spec()),
    ensures
        has_win(cells1, side, k, p) <==> wins_through(cells1, side, k, size, row, col, p),
        !has_win(cells1, side, k, p.opposite_spec()),
{
    if has_win(cells1, side, k, p) {
        lemma_new_win_is_through_action(cells0, cells1, side, k, size, row, col, p, p);
    }
    if wins_through(cells1, side, k, size, row, col, p) {
        lemma_wins_through_implies_has_win(cells1, side, k, size, row, col, p);
    }
    if has_win(cells1, side, k, p.opposite_spec()) {
        lemma_new_win_is_through_action(
            cells0,
            cells1,
            side,
            k,
            size,
            row,
            col,
            p,
            p.opposite_spec(),
        );
    }
}

/// Row-major pair indices respect the row-major order on pairs.
proof fn lemma_flat_index_order(r: int, c: int, row: int, col: int, size: int)
    requires
        0 <= r,
        0 <= c < size,
        0 <= col,
        r < row || (r == row && c < col),
    ensures
        r * size + c < row * size + col,
{
    assert(r * size + c < row * size + col) by (nonlinear_arith)
        requires
            0 <= r,
            0 <= c < size,
            0 <= col,
            r < row || (r == row && c < col),
    ;
}

/// A row-major pair index stays below `size * size`.
pub(crate) proof fn lemma_flat_index_bound(r: int, c: int, size: int)
    requires
        0 <= r < size,
        0 <= c < size,
    ensures
        r * size + c < size * size,
        r * size + c >= 0,
{
    assert(r * size + c < size * size) by (nonlinear_arith)
        requires
            0 <= r < size,
            0 <= c < size,
    ;
    assert(r * size + c >= 0) by (nonlinear_arith)
        requires
            0 <= r < size,
            0 <= c < size,
    ;
}

impl Clone for BaseBoard {
    /// Relies on `ndarray`'s `Clone` on owned arrays: an equal grid.
    #[verifier::external_body]
    fn clone(&self) -> (r: Self)
        ensures
            grid_side(&r) == grid_side(self),
            grid_cells(&r) == grid_cells(self),
    {
        Self { data: self.data.clone() }
    }
}

} // verus!
