//! The 3x3 board: its cells, placement, and terminal-state evaluation.
use vstd::prelude::*;

verus! {

/// Side length of the square grid.
pub const BOARD_SIZE: usize = 3;

/// Number of cells on the grid.
pub const CELL_COUNT: usize = 9;

/// A marker on a cell. `Player` is the first, maximizing side; `Enemy` is the
/// automated, minimizing side.
#[derive(Clone, Copy, Debug, PartialEq, Eq, Structural)]
pub enum Marker {
    Player,
    Enemy,
}

/// The state of a board as judged by `Board::evaluate`.
#[derive(Clone, Copy, Debug, PartialEq, Eq, Structural)]
pub enum Outcome {
    Ongoing,
    Draw,
    PlayerWins,
    EnemyWins,
}

/// Errors that the board and the engine report to their caller.
#[derive(Clone, Copy, Debug, PartialEq, Eq, Structural)]
pub enum GameError {
    /// A coordinate lies outside the grid.
    OutOfBounds,
    /// The target cell already holds a marker.
    CellOccupied,
    /// A move was asked for on a board whose game is over.
    NoLegalMoves,
}

/// The cell at (`row`, `col`) of a grid stored in row-major order.
pub open spec fn at(g: Seq<Option<Marker>>, row: int, col: int) -> Option<Marker> {
    g[row * 3 + col]
}

/// The cell of row `i` on the diagonal from the top-right corner.
pub open spec fn anti_diag_at(g: Seq<Option<Marker>>, i: int) -> Option<Marker> {
    at(g, i, 2 - i)
}

/// Row `row` is filled with `m`.
pub open spec fn row_same(g: Seq<Option<Marker>>, row: int, m: Marker) -> bool {
    &&& at(g, row, 0) == Some(m)
    &&& at(g, row, 1) == Some(m)
    &&& at(g, row, 2) == Some(m)
}

/// Column `col` is filled with `m`.
pub open spec fn col_same(g: Seq<Option<Marker>>, col: int, m: Marker) -> bool {
    &&& at(g, 0, col) == Some(m)
    &&& at(g, 1, col) == Some(m)
    &&& at(g, 2, col) == Some(m)
}

/// The diagonal from the top-left corner is filled with `m`.
pub open spec fn main_diag_same(g: Seq<Option<Marker>>, m: Marker) -> bool {
    &&& at(g, 0, 0) == Some(m)
    &&& at(g, 1, 1) == Some(m)
    &&& at(g, 2, 2) == Some(m)
}

/// The diagonal from the top-right corner is filled with `m`.
pub open spec fn secondary_diag_same(g: Seq<Option<Marker>>, m: Marker) -> bool {
    &&& at(g, 0, 2) == Some(m)
    &&& at(g, 1, 1) == Some(m)
    &&& at(g, 2, 0) == Some(m)
}

/// Some line of the grid is filled with `m`.
pub open spec fn has_line(g: Seq<Option<Marker>>, m: Marker) -> bool {
    ||| exists|r: int| 0 <= r < 3 && #[trigger] row_same(g, r, m)
    ||| exists|c: int| 0 <= c < 3 && #[trigger] col_same(g, c, m)
    ||| main_diag_same(g, m)
    ||| secondary_diag_same(g, m)
}

/// The diagonals, checked after all rows and columns: `Player` before `Enemy`,
/// the main diagonal before the secondary one.
pub open spec fn diag_winner(g: Seq<Option<Marker>>) -> Option<Marker> {
    if main_diag_same(g, Marker::Player) {
        Some(Marker::Player)
    } else if main_diag_same(g, Marker::Enemy) {
        Some(Marker::Enemy)
    } else if secondary_diag_same(g, Marker::Player) {
        Some(Marker::Player)
    } else if secondary_diag_same(g, Marker::Enemy) {
        Some(Marker::Enemy)
    } else {
        None
    }
}

/// The first completed line found when index `i` onwards is scanned: for each
/// index, the `Player` row, the `Enemy` row, the `Player` column, then the
/// `Enemy` column; after the last index, the diagonals.
pub open spec fn winner_from(g: Seq<Option<Marker>>, i: int) -> Option<Marker>
    decreases 3 - i,
{
    if i >= 3 {
        diag_winner(g)
    } else if row_same(g, i, Marker::Player) {
        Some(Marker::Player)
    } else if row_same(g, i, Marker::Enemy) {
        Some(Marker::Enemy)
    } else if col_same(g, i, Marker::Player) {
        Some(Marker::Player)
    } else if col_same(g, i, Marker::Enemy) {
        Some(Marker::Enemy)
    } else {
        winner_from(g, i + 1)
    }
}

/// The marker of the first completed line in scan order, if any.
pub open spec fn winner(g: Seq<Option<Marker>>) -> Option<Marker> {
    winner_from(g, 0)
}

/// No cell is empty.
pub open spec fn full(g: Seq<Option<Marker>>) -> bool {
    forall|k: int| 0 <= k < 9 ==> #[trigger] g[k] is Some
}

/// The win indicator for a marker.
pub open spec fn win_of(m: Marker) -> Outcome {
    match m {
        Marker::Player => Outcome::PlayerWins,
        Marker::Enemy => Outcome::EnemyWins,
    }
}

/// A completed line decides the game; otherwise a full grid is a draw.
pub open spec fn outcome(g: Seq<Option<Marker>>) -> Outcome {
    match winner(g) {
        Some(m) => win_of(m),
        None => if full(g) {
            Outcome::Draw
        } else {
            Outcome::Ongoing
        },
    }
}

/// The integer tag of an outcome: 1 and -1 for the two wins, 2 for a draw,
/// 0 while the game goes on.
pub open spec fn outcome_code(o: Outcome) -> int {
    match o {
        Outcome::Ongoing => 0,
        Outcome::Draw => 2,
        Outcome::PlayerWins => 1,
        Outcome::EnemyWins => -1,
    }
}

/// The empty cells with index `k` or more, in increasing order.
pub open spec fn open_cells_from(g: Seq<Option<Marker>>, k: int) -> Seq<int>
    decreases 9 - k,
{
    if k >= 9 {
        Seq::empty()
    } else if g[k] is None {
        seq![k].add(open_cells_from(g, k + 1))
    } else {
        open_cells_from(g, k + 1)
    }
}

/// The empty cells in row-major order.
pub open spec fn open_cells(g: Seq<Option<Marker>>) -> Seq<int> {
    open_cells_from(g, 0)
}

/// The (row, column) pair of a row-major cell index.
pub open spec fn coords(k: int) -> (usize, usize) {
    ((k / 3) as usize, (k % 3) as usize)
}

/// The marker of the side to move: `Player` when maximizing.
pub open spec fn side_marker(maximize: bool) -> Marker {
    if maximize {
        Marker::Player
    } else {
        Marker::Enemy
    }
}

/// A grid with 9 cells, all of them empty.
pub open spec fn empty_grid() -> Seq<Option<Marker>> {
    Seq::new(9, |k: int| None)
}

/// A square grid of optional markers, stored in row-major order.
#[derive(Clone, Copy, Debug)]
pub struct Board {
    pub cells: [Option<Marker>; CELL_COUNT],
}

impl View for Board {
    type V = Seq<Option<Marker>>;

    open spec fn view(&self) -> Seq<Option<Marker>> {
        self.cells@
    }
}

impl Board {
    /// An empty board.
    pub fn new() -> (r: Board)
        ensures
            r@ == empty_grid(),
    {
        let r = Board { cells: [None; CELL_COUNT] };
        assert(r@ =~= empty_grid());
        r
    }

    /// Whether every cell holds a marker.
    pub fn is_full(&self) -> (r: bool)
        ensures
            r == full(self@),
    {
        let mut k: usize = 0;
        while k < CELL_COUNT
            invariant
                k <= 9,
                self@.len() == 9,
                forall|j: int| 0 <= j < k ==> #[trigger] self@[j] is Some,
            decreases 9 - k,
        {
            if self.cells[k].is_none() {
                return false;
            }
            k += 1;
        }
        true
    }
}


/// Facts about the list of empty cells from index `k` on: its entries are
/// empty cells in `k..9`, strictly increasing, and every empty cell there is listed.
pub proof fn lemma_open_cells_from(g: Seq<Option<Marker>>, k: int)
    requires
        0 <= k <= 9,
        g.len() == 9,
    ensures
        open_cells_from(g, k).len() <= 9 - k,
        forall|p: int|
            0 <= p < open_cells_from(g, k).len() ==> k <= #[trigger] open_cells_from(g, k)[p] < 9
                && g[open_cells_from(g, k)[p]] is None,
        forall|p: int, q: int|
            0 <= p < q < open_cells_from(g, k).len() ==> #[trigger] open_cells_from(g, k)[p]
                < #[trigger] open_cells_from(g, k)[q],
        forall|j: int|
            k <= j < 9 && #[trigger] g[j] is None ==> open_cells_from(g, k).contains(j),
    decreases 9 - k,
{
    if k < 9 {
        lemma_open_cells_from(g, k + 1);
        let rest = open_cells_from(g, k + 1);
        if g[k] is None {
            let s = seq![k].add(rest);
            assert forall|p: int| 0 <= p < s.len() implies k <= #[trigger] s[p] < 9 && g[s[p]]
                is None by {
                if p > 0 {
                    assert(s[p] == rest[p - 1]);
                }
            }
            assert forall|p: int, q: int| 0 <= p < q < s.len() implies #[trigger] s[p]
                < #[trigger] s[q] by {
                assert(s[q] == rest[q - 1]);
                if p > 0 {
                    assert(s[p] == rest[p - 1]);
                }
            }
            assert forall|j: int| k <= j < 9 && #[trigger] g[j] is None implies s.contains(j) by {
                if j == k {
                    assert(s[0] == k);
                } else {
                    let p = choose|p: int| 0 <= p < rest.len() && rest[p] == j;
                    assert(s[p + 1] == j);
                }
            }
        }
    }
}

/// The empty cells of `g` are listed in `open_cells(g)`, in increasing order.
pub proof fn lemma_open_cells(g: Seq<Option<Marker>>)
    requires
        g.len() == 9,
    ensures
        open_cells(g).len() <= 9,
        forall|p: int|
            0 <= p < open_cells(g).len() ==> 0 <= #[trigger] open_cells(g)[p] < 9
                && g[open_cells(g)[p]] is None,
        forall|p: int, q: int|
            0 <= p < q < open_cells(g).len() ==> #[trigger] open_cells(g)[p]
                < #[trigger] open_cells(g)[q],
        forall|j: int| 0 <= j < 9 && #[trigger] g[j] is None ==> open_cells(g).contains(j),
        full(g) <==> open_cells(g).len() == 0,
{
    lemma_open_cells_from(g, 0);
    if !full(g) {
        let j = choose|j: int| 0 <= j < 9 && !(g[j] is Some);
        assert(open_cells(g).contains(j));
    }
    if open_cells(g).len() > 0 {
        let j = open_cells(g)[0];
        assert(g[j] is None);
    }
}

/// Filling one empty cell removes exactly one entry from the list of empty cells.
pub proof fn lemma_open_cells_fill(g: Seq<Option<Marker>>, c: int, m: Marker, k: int)
    requires
        g.len() == 9,
        0 <= c < 9,
        g[c] is None,
        0 <= k <= 9,
    ensures
        k <= c ==> open_cells_from(g.update(c, Some(m)), k).len() + 1 == open_cells_from(g, k).len(),
        k > c ==> open_cells_from(g.update(c, Some(m)), k) == open_cells_from(g, k),
    decreases 9 - k,
{
    if k < 9 {
        lemma_open_cells_fill(g, c, m, k + 1);
    }
}

impl Board {
    /// The marker at (`row`, `col`), if any.
    pub fn cell(&self, row: usize, col: usize) -> (r: Option<Marker>)
        requires
            row < BOARD_SIZE,
            col < BOARD_SIZE,
        ensures
            r == at(self@, row as int, col as int),
    {
        self.cells[row * BOARD_SIZE + col]
    }

    /// Places a `Player` marker on an empty cell.
    pub fn set_player(&mut self, x: usize, y: usize)
        requires
            x < BOARD_SIZE,
            y < BOARD_SIZE,
            old(self)@[x * 3 + y] is None,
        ensures
            final(self)@ == old(self)@.update(x * 3 + y, Some(Marker::Player)),
    {
        self.cells[x * BOARD_SIZE + y] = Some(Marker::Player);
    }

    /// Places an `Enemy` marker on an empty cell.
    pub fn set_enemy(&mut self, x: usize, y: usize)
        requires
            x < BOARD_SIZE,
            y < BOARD_SIZE,
            old(self)@[x * 3 + y] is None,
        ensures
            final(self)@ == old(self)@.update(x * 3 + y, Some(Marker::Enemy)),
    {
        self.cells[x * BOARD_SIZE + y] = Some(Marker::Enemy);
    }

    /// Places `marker` at (`row`, `col`), rejecting a coordinate off the grid
    /// and a cell that is already taken; on an error the board is unchanged.
    pub fn place(&mut self, row: usize, col: usize, marker: Marker) -> (r: Result<(), GameError>)
        ensures
            row >= BOARD_SIZE || col >= BOARD_SIZE ==> r == Err::<(), GameError>(
                GameError::OutOfBounds,
            ) && final(self)@ == old(self)@,
            row < BOARD_SIZE && col < BOARD_SIZE && old(self)@[row * 3 + col] is Some ==> r
                == Err::<(), GameError>(GameError::CellOccupied) && final(self)@ == old(self)@,
            row < BOARD_SIZE && col < BOARD_SIZE && old(self)@[row * 3 + col] is None ==> r
                == Ok::<(), GameError>(()) && final(self)@ == old(self)@.update(
                row * 3 + col,
                Some(marker),
            ),
    {
        if row >= BOARD_SIZE || col >= BOARD_SIZE {
            return Err(GameError::OutOfBounds);
        }
        let k = row * BOARD_SIZE + col;
        if self.cells[k].is_some() {
            return Err(GameError::CellOccupied);
        }
        self.cells[k] = Some(marker);
        Ok(())
    }

    /// Whether `c` holds `m`.
    fn holds(c: Option<Marker>, m: Marker) -> (r: bool)
        ensures
            r == (c == Some(m)),
    {
        match c {
            Some(x) => x == m,
            None => false,
        }
    }

    /// Whether row `idx` is filled with `state`.
    pub fn check_row_same(&self, idx: usize, state: Marker) -> (r: bool)
        requires
            idx < BOARD_SIZE,
        ensures
            r == row_same(self@, idx as int, state),
    {
        let mut i: usize = 0;
        while i < BOARD_SIZE
            invariant
                i <= 3,
                idx < 3,
                forall|j: int| 0 <= j < i ==> #[trigger] at(self@, idx as int, j) == Some(state),
            decreases 3 - i,
        {
            if !Self::holds(self.cells[idx * BOARD_SIZE + i], state) {
                return false;
            }
            i += 1;
        }
        assert(at(self@, idx as int, 0) == Some(state));
        assert(at(self@, idx as int, 1) == Some(state));
        assert(at(self@, idx as int, 2) == Some(state));
        true
    }

    /// Whether column `idx` is filled with `state`.
    pub fn check_col_same(&self, idx: usize, state: Marker) -> (r: bool)
        requires
            idx < BOARD_SIZE,
        ensures
            r == col_same(self@, idx as int, state),
    {
        let mut i: usize = 0;
        while i < BOARD_SIZE
            invariant
                i <= 3,
                idx < 3,
                forall|j: int| 0 <= j < i ==> #[trigger] at(self@, j, idx as int) == Some(state),
            decreases 3 - i,
        {
            if !Self::holds(self.cells[i * BOARD_SIZE + idx], state) {
                return false;
            }
            i += 1;
        }
        assert(at(self@, 0, idx as int) == Some(state));
        assert(at(self@, 1, idx as int) == Some(state));
        assert(at(self@, 2, idx as int) == Some(state));
        true
    }

    /// Whether the diagonal from the top-left corner is filled with `state`.
    pub fn check_main_diag_same(&self, state: Marker) -> (r: bool)
        ensures
            r == main_diag_same(self@, state),
    {
        let mut i: usize = 0;
        while i < BOARD_SIZE
            invariant
                i <= 3,
                forall|j: int| 0 <= j < i ==> #[trigger] at(self@, j, j) == Some(state),
            decreases 3 - i,
        {
            if !Self::holds(self.cells[i * BOARD_SIZE + i], state) {
                return false;
            }
            i += 1;
        }
        assert(at(self@, 0, 0) == Some(state));
        assert(at(self@, 1, 1) == Some(state));
        assert(at(self@, 2, 2) == Some(state));
        true
    }

    /// Whether the diagonal from the top-right corner is filled with `state`.
    pub fn check_secondary_diag_same(&self, state: Marker) -> (r: bool)
        ensures
            r == secondary_diag_same(self@, state),
    {
        let mut i: usize = 0;
        while i < BOARD_SIZE
            invariant
                i <= 3,
                forall|j: int| 0 <= j < i ==> #[trigger] anti_diag_at(self@, j) == Some(state),
            decreases 3 - i,
        {
            if !Self::holds(self.cells[i * BOARD_SIZE + (BOARD_SIZE - i - 1)], state) {
                return false;
            }
            i += 1;
        }
        assert(anti_diag_at(self@, 0) == Some(state));
        assert(anti_diag_at(self@, 1) == Some(state));
        assert(anti_diag_at(self@, 2) == Some(state));
        true
    }

    /// Judges the board: the first completed line in scan order decides it,
    /// else a full board is a draw, else the game goes on.
    pub fn evaluate(&self) -> (r: Outcome)
        ensures
            r == outcome(self@),
    {
        let mut i: usize = 0;
        while i < BOARD_SIZE
            invariant
                i <= 3,
                winner(self@) == winner_from(self@, i as int),
            decreases 3 - i,
        {
            if self.check_row_same(i, Marker::Player) {
                return Outcome::PlayerWins;
            }
            if self.check_row_same(i, Marker::Enemy) {
                return Outcome::EnemyWins;
            }
            if self.check_col_same(i, Marker::Player) {
                return Outcome::PlayerWins;
            }
            if self.check_col_same(i, Marker::Enemy) {
                return Outcome::EnemyWins;
            }
            i += 1;
        }
        if self.check_main_diag_same(Marker::Player) {
            return Outcome::PlayerWins;
        }
        if self.check_main_diag_same(Marker::Enemy) {
            return Outcome::EnemyWins;
        }
        if self.check_secondary_diag_same(Marker::Player) {
            return Outcome::PlayerWins;
        }
        if self.check_secondary_diag_same(Marker::Enemy) {
            return Outcome::EnemyWins;
        }
        if self.is_full() {
            Outcome::Draw
        } else {
            Outcome::Ongoing
        }
    }

    /// The outcome as an integer tag: 1 when `Player` has won, -1 when
    /// `Enemy` has won, 2 for a draw, 0 while the game goes on.
    pub fn get_value(&self) -> (r: i32)
        ensures
            r == outcome_code(outcome(self@)),
    {
        match self.evaluate() {
            Outcome::Ongoing => 0,
            Outcome::Draw => 2,
            Outcome::PlayerWins => 1,
            Outcome::EnemyWins => -1,
        }
    }

    /// The empty cells as (row, column) pairs, in row-major order.
    pub fn enumerate_open_cells(&self) -> (r: Vec<(usize, usize)>)
        ensures
            r@.len() == open_cells(self@).len(),
            forall|p: int| 0 <= p < r@.len() ==> #[trigger] r@[p] == coords(open_cells(self@)[p]),
    {
        let ghost g = self@;
        let mut r: Vec<(usize, usize)> = Vec::new();
        let ghost mut done: Seq<int> = Seq::empty();
        let mut k: usize = 0;
        while k < CELL_COUNT
            invariant
                k <= 9,
                g == self@,
                g.len() == 9,
                done.add(open_cells_from(g, k as int)) == open_cells(g),
                r@.len() == done.len(),
                forall|p: int| 0 <= p < r@.len() ==> #[trigger] r@[p] == coords(done[p]),
            decreases 9 - k,
        {
            if self.cells[k].is_none() {
                proof {
                    assert(done.push(k as int).add(open_cells_from(g, k + 1)) =~= done.add(
                        open_cells_from(g, k as int),
                    ));
                    done = done.push(k as int);
                }
                r.push((k / BOARD_SIZE, k % BOARD_SIZE));
            }
            k += 1;
        }
        assert(done =~= open_cells(g));
        r
    }

    /// One board per empty cell, in row-major order, with the side to move
    /// (`Player` when `maximize`) placed there, paired with the cell's row and column.
    pub fn generate_children(&self, maximize: bool) -> (r: Vec<(Board, usize, usize)>)
        ensures
            r@.len() == open_cells(self@).len(),
            forall|p: int|
                0 <= p < r@.len() ==> {
                    let k = #[trigger] open_cells(self@)[p];
                    &&& r@[p].0@ == self@.update(k, Some(side_marker(maximize)))
                    &&& (r@[p].1, r@[p].2) == coords(k)
                },
    {
        let ghost g = self@;
        let marker = if maximize {
            Marker::Player
        } else {
            Marker::Enemy
        };
        let mut r: Vec<(Board, usize, usize)> = Vec::new();
        let ghost mut done: Seq<int> = Seq::empty();
        let mut k: usize = 0;
        while k < CELL_COUNT
            invariant
                k <= 9,
                g == self@,
                g.len() == 9,
                marker == side_marker(maximize),
                done.add(open_cells_from(g, k as int)) == open_cells(g),
                r@.len() == done.len(),
                forall|p: int|
                    0 <= p < r@.len() ==> {
                        let c = #[trigger] done[p];
                        &&& r@[p].0@ == g.update(c, Some(marker))
                        &&& (r@[p].1, r@[p].2) == coords(c)
                    },
            decreases 9 - k,
        {
            if self.cells[k].is_none() {
                let mut child = *self;
                child.cells[k] = Some(marker);
                proof {
                    assert(done.push(k as int).add(open_cells_from(g, k + 1)) =~= done.add(
                        open_cells_from(g, k as int),
                    ));
                    done = done.push(k as int);
                    assert(child@ =~= g.update(k as int, Some(marker)));
                }
                r.push((child, k / BOARD_SIZE, k % BOARD_SIZE));
            }
            k += 1;
        }
        assert(done =~= open_cells(g));
        r
    }
}

} // verus!
