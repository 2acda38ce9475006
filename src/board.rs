use vstd::arithmetic::div_mod::{lemma_fundamental_div_mod, lemma_fundamental_div_mod_converse};
use crate::game::{after_placement, try_put_stone, IllegalMove, Tile};
use vstd::prelude::*;

verus! {

/// The state of one cell, or the side whose turn it is.
#[derive(Copy, Clone, PartialEq, Eq, Structural, Debug)]
pub enum Team {
    Empty,
    White,
    Black,
}

/// The opponent of a player; `Empty` has none.
pub open spec fn opponent(t: Team) -> Team {
    match t {
        Team::White => Team::Black,
        Team::Black => Team::White,
        Team::Empty => Team::Empty,
    }
}

impl Team {
    /// The other player. Toggling `Empty` is a programming error.
    #[must_use]
    pub fn toggle(&self) -> (r: Team)
        requires
            *self != Team::Empty,
        ensures
            r == opponent(*self),
            r != Team::Empty,
    {
        match self {
            Team::White => Team::Black,
            _ => Team::White,
        }
    }

    /// Picks one of three values according to the team.
    pub fn select<T>(&self, if_empty: T, if_white: T, if_black: T) -> (r: T)
        ensures
            *self == Team::Empty ==> r == if_empty,
            *self == Team::White ==> r == if_white,
            *self == Team::Black ==> r == if_black,
    {
        match self {
            Team::Empty => if_empty,
            Team::White => if_white,
            Team::Black => if_black,
        }
    }
}


/// A grid is stored column by column: `board[x][y]` is the cell in column `x`, row `y`.
pub type Board2d = Vec<Vec<Team>>;

/// The grid as a sequence of columns.
pub open spec fn grid_view(b: Board2d) -> Seq<Seq<Team>> {
    b@.map_values(|c: Vec<Team>| c@)
}

/// Number of columns of a grid.
pub open spec fn columns_of(g: Seq<Seq<Team>>) -> int {
    g.len() as int
}

/// Number of rows of a grid (the length of its first column).
pub open spec fn rows_of(g: Seq<Seq<Team>>) -> int {
    g[0].len() as int
}

/// A grid of `columns` columns of `rows` cells each, both at least 1.
pub open spec fn is_grid(g: Seq<Seq<Team>>, columns: int, rows: int) -> bool {
    &&& 1 <= columns <= i32::MAX
    &&& 1 <= rows <= i32::MAX
    &&& g.len() == columns
    &&& forall|i: int| 0 <= i < columns ==> (#[trigger] g[i]).len() == rows
}

/// A grid of any admissible size.
pub open spec fn well_formed(g: Seq<Seq<Team>>) -> bool {
    g.len() >= 1 && is_grid(g, columns_of(g), rows_of(g))
}

/// Two grids of the same size.
pub open spec fn same_shape(a: Seq<Seq<Team>>, b: Seq<Seq<Team>>) -> bool {
    columns_of(a) == columns_of(b) && rows_of(a) == rows_of(b)
}

/// The cell at a logical coordinate: both coordinates wrap around.
pub open spec fn cell(g: Seq<Seq<Team>>, x: int, y: int) -> Team {
    g[x % columns_of(g)][y % rows_of(g)]
}

/// The grid with the cell at a logical coordinate replaced.
pub open spec fn with_cell(g: Seq<Seq<Team>>, x: int, y: int, t: Team) -> Seq<Seq<Team>> {
    let i = x % columns_of(g);
    g.update(i, g[i].update(y % rows_of(g), t))
}

/// A grid of the given size with every cell empty.
pub open spec fn empty_grid(columns: int, rows: int) -> Seq<Seq<Team>> {
    Seq::new(columns as nat, |i: int| Seq::new(rows as nat, |j: int| Team::Empty))
}

/// The index on an axis of `n` cells that the coordinate `v` stands for.
pub fn wrap_coordinate(v: i64, n: usize) -> (r: usize)
    requires
        1 <= n <= i32::MAX,
        v > i64::MIN,
    ensures
        r as int == v as int % n as int,
        r < n,
{
    if v >= 0 {
        (v as u64 % n as u64) as usize
    } else {
        let a: u64 = (-v) as u64;
        let k: usize = (a % n as u64) as usize;
        proof {
            let ai = a as int;
            let ni = n as int;
            let q = ai / ni;
            lemma_fundamental_div_mod(ai, ni);
            if k == 0 {
                assert(v as int == (-q) * ni + 0) by (nonlinear_arith)
                    requires ai == ni * q + (ai % ni), ai % ni == 0, v as int == -ai;
                lemma_fundamental_div_mod_converse(v as int, ni, -q, 0);
            } else {
                assert(v as int == (-q - 1) * ni + (ni - k)) by (nonlinear_arith)
                    requires ai == ni * q + (ai % ni), ai % ni == k, v as int == -ai;
                lemma_fundamental_div_mod_converse(v as int, ni, -q - 1, ni - k);
            }
        }
        if k == 0 {
            0
        } else {
            n - k
        }
    }
}

/// The team at a logical coordinate of the grid; both coordinates wrap around.
pub fn get_team(board: &Board2d, x: i64, y: i64) -> (r: Team)
    requires
        well_formed(grid_view(*board)),
        x > i64::MIN,
        y > i64::MIN,
    ensures
        r == cell(grid_view(*board), x as int, y as int),
{
    let columns = board.len();
    let rows = board[0].len();
    let i = wrap_coordinate(x, columns);
    let j = wrap_coordinate(y, rows);
    assert(board@[i as int]@.len() == rows) by {
        assert(grid_view(*board)[i as int] == board@[i as int]@);
    }
    board[i][j]
}

/// Sets the cell at a logical coordinate of the grid; both coordinates wrap around.
pub fn set_team(board: &mut Board2d, x: i64, y: i64, t: Team)
    requires
        well_formed(grid_view(*old(board))),
        x > i64::MIN,
        y > i64::MIN,
    ensures
        grid_view(*final(board)) == with_cell(grid_view(*old(board)), x as int, y as int, t),
        well_formed(grid_view(*final(board))),
        same_shape(grid_view(*final(board)), grid_view(*old(board))),
{
    let columns = board.len();
    let rows = board[0].len();
    let i = wrap_coordinate(x, columns);
    let j = wrap_coordinate(y, rows);
    assert(grid_view(*board)[i as int] == board@[i as int]@);
    board[i][j] = t;
    assert(grid_view(*board) =~= with_cell(grid_view(*old(board)), x as int, y as int, t));
}


/// How many cells of a column hold `t`.
pub open spec fn count_in(c: Seq<Team>, t: Team) -> nat
    decreases c.len(),
{
    if c.len() == 0 {
        0
    } else {
        count_in(c.drop_last(), t) + if c.last() == t {
            1nat
        } else {
            0nat
        }
    }
}

/// How many cells of a grid hold `t`.
pub open spec fn count_grid(g: Seq<Seq<Team>>, t: Team) -> nat
    decreases g.len(),
{
    if g.len() == 0 {
        0
    } else {
        count_grid(g.drop_last(), t) + count_in(g.last(), t)
    }
}

/// How many cells a grid has.
pub open spec fn cells(g: Seq<Seq<Team>>) -> nat
    decreases g.len(),
{
    if g.len() == 0 {
        0
    } else {
        cells(g.drop_last()) + g.last().len()
    }
}

proof fn lemma_cells_prefix(g: Seq<Seq<Team>>, i: int)
    requires
        0 <= i <= g.len(),
    ensures
        cells(g.take(i)) <= cells(g),
    decreases g.len() - i,
{
    if i == g.len() {
        assert(g.take(i) =~= g);
    } else {
        lemma_cells_prefix(g, i + 1);
        assert(g.take(i + 1).drop_last() =~= g.take(i));
    }
}

proof fn lemma_cells_uniform(g: Seq<Seq<Team>>, rows: int)
    requires
        forall|i: int| 0 <= i < g.len() ==> (#[trigger] g[i]).len() == rows,
    ensures
        cells(g) == g.len() * rows,
    decreases g.len(),
{
    if g.len() > 0 {
        lemma_cells_uniform(g.drop_last(), rows);
        assert(cells(g) == (g.len() - 1) * rows + rows);
        assert((g.len() - 1) * rows + rows == g.len() * rows) by (nonlinear_arith);
    }
}

/// A grid of `columns` columns of `rows` empty cells.
pub fn new_board(rows: i32, columns: i32) -> (r: Board2d)
    requires
        rows >= 0,
        columns >= 0,
    ensures
        grid_view(r) == empty_grid(columns as int, rows as int),
{
    let mut board: Board2d = Vec::new();
    let mut i: i32 = 0;
    while i < columns
        invariant
            0 <= i <= columns,
            rows >= 0,
            grid_view(board) =~= empty_grid(i as int, rows as int),
        decreases columns - i,
    {
        let mut column: Vec<Team> = Vec::new();
        let mut j: i32 = 0;
        while j < rows
            invariant
                0 <= j <= rows,
                0 <= i < columns,
                rows >= 0,
                grid_view(board) =~= empty_grid(i as int, rows as int),
                column@ =~= Seq::new(j as nat, |k: int| Team::Empty),
            decreases rows - j,
        {
            column.push(Team::Empty);
            j += 1;
        }
        assert(column@ =~= empty_grid(i as int + 1, rows as int)[i as int]);
        let ghost before = grid_view(board);
        board.push(column);
        assert(grid_view(board) =~= before.push(column@));
        i += 1;
    }
    board
}

/// A copy of a grid.
fn copy_grid(board: &Board2d) -> (r: Board2d)
    ensures
        grid_view(r) == grid_view(*board),
{
    let mut r: Board2d = Vec::new();
    let mut i: usize = 0;
    while i < board.len()
        invariant
            0 <= i <= board.len(),
            grid_view(r) =~= grid_view(*board).take(i as int),
        decreases board.len() - i,
    {
        let source = &board[i];
        let mut column: Vec<Team> = Vec::new();
        let mut j: usize = 0;
        while j < source.len()
            invariant
                0 <= i < board.len(),
                source == board@[i as int],
                0 <= j <= source.len(),
                grid_view(r) =~= grid_view(*board).take(i as int),
                column@ =~= source@.take(j as int),
            decreases source.len() - j,
        {
            column.push(source[j]);
            j += 1;
        }
        assert(column@ =~= source@);
        let ghost before = grid_view(r);
        r.push(column);
        assert(grid_view(r) =~= before.push(column@));
        i += 1;
        assert(grid_view(r) =~= grid_view(*board).take(i as int));
    }
    r
}

/// The number of white and of black stones on the grid.
pub fn compute_score(board: &Board2d) -> (r: (i32, i32))
    requires
        cells(grid_view(*board)) <= i32::MAX,
    ensures
        r.0 == count_grid(grid_view(*board), Team::White),
        r.1 == count_grid(grid_view(*board), Team::Black),
{
    let ghost g = grid_view(*board);
    let mut whites: i32 = 0;
    let mut blacks: i32 = 0;
    let mut i: usize = 0;
    while i < board.len()
        invariant
            g == grid_view(*board),
            cells(g) <= i32::MAX,
            0 <= i <= g.len(),
            whites == count_grid(g.take(i as int), Team::White),
            blacks == count_grid(g.take(i as int), Team::Black),
            whites + blacks <= cells(g.take(i as int)),
        decreases g.len() - i,
    {
        let column = &board[i];
        assert(column@ == g[i as int]);
        proof {
            assert(g.take(i + 1).drop_last() =~= g.take(i as int));
            lemma_cells_prefix(g, i + 1);
        }
        let mut j: usize = 0;
        while j < column.len()
            invariant
                g == grid_view(*board),
                column@ == g[i as int],
                0 <= i < g.len(),
                0 <= j <= column.len(),
                cells(g.take(i + 1)) <= i32::MAX,
                cells(g.take(i + 1)) == cells(g.take(i as int)) + column.len(),
                whites == count_grid(g.take(i as int), Team::White) + count_in(
                    column@.take(j as int),
                    Team::White,
                ),
                blacks == count_grid(g.take(i as int), Team::Black) + count_in(
                    column@.take(j as int),
                    Team::Black,
                ),
                whites + blacks <= cells(g.take(i as int)) + j,
            decreases column.len() - j,
        {
            assert(column@.take(j + 1).drop_last() =~= column@.take(j as int));
            match column[j] {
                Team::Empty => {},
                Team::White => whites += 1,
                Team::Black => blacks += 1,
            }
            j += 1;
        }
        assert(column@.take(j as int) =~= column@);
        i += 1;
    }
    assert(g.take(i as int) =~= g);
    (whites, blacks)
}

/// Which of the size buttons were clicked in one frame.
#[derive(Copy, Clone, PartialEq, Eq, Structural, Debug)]
pub struct SizeClicks {
    pub rows_increase: bool,
    pub rows_decrease: bool,
    pub columns_increase: bool,
    pub columns_decrease: bool,
}

/// A dimension after its buttons were clicked: one more, then one less,
/// each only while the dimension stays between 1 and `i32::MAX`.
pub open spec fn resized(n: int, increase: bool, decrease: bool) -> int {
    let a = if increase && n < i32::MAX {
        n + 1
    } else {
        n
    };
    if decrease && a > 1 {
        a - 1
    } else {
        a
    }
}

fn resize_dimension(n: i32, increase: bool, decrease: bool) -> (r: i32)
    requires
        n >= 1,
    ensures
        r == resized(n as int, increase, decrease),
        r >= 1,
{
    let mut a = n;
    if increase && a < i32::MAX {
        a += 1;
    }
    if decrease && a > 1 {
        a -= 1;
    }
    a
}

/// Applies the size buttons clicked in one frame. When any of them was
/// clicked the grid is replaced by an empty one of the new size. Returns
/// whether a rows button and whether a columns button was clicked.
pub fn maybe_change_size(
    size_rows: &mut i32,
    size_columns: &mut i32,
    clicks: SizeClicks,
    board: &mut Board2d,
) -> (r: (bool, bool))
    requires
        *old(size_rows) >= 1,
        *old(size_columns) >= 1,
    ensures
        r == (clicks.rows_increase || clicks.rows_decrease, clicks.columns_increase
            || clicks.columns_decrease),
        *final(size_rows) == resized(*old(size_rows) as int, clicks.rows_increase, clicks.rows_decrease),
        *final(size_columns) == resized(
            *old(size_columns) as int,
            clicks.columns_increase,
            clicks.columns_decrease,
        ),
        r.0 || r.1 ==> grid_view(*final(board)) == empty_grid(
            *final(size_columns) as int,
            *final(size_rows) as int,
        ),
        !(r.0 || r.1) ==> *final(board) == *old(board),
{
    let changed_rows = clicks.rows_increase || clicks.rows_decrease;
    let changed_columns = clicks.columns_increase || clicks.columns_decrease;
    *size_rows = resize_dimension(*size_rows, clicks.rows_increase, clicks.rows_decrease);
    *size_columns = resize_dimension(
        *size_columns,
        clicks.columns_increase,
        clicks.columns_decrease,
    );
    if changed_rows || changed_columns {
        *board = new_board(*size_rows, *size_columns);
    }
    (changed_rows, changed_columns)
}

/// What a board holds: its size, its grid, the grids before each move that
/// can be undone (the latest last), and the side to move.
pub struct BoardView {
    pub rows: int,
    pub columns: int,
    pub grid: Seq<Seq<Team>>,
    pub history: Seq<Seq<Seq<Team>>>,
    pub turn: Team,
}

/// A game board with its undo history and the side to move.
pub struct Board {
    pub size_rows: i32,
    pub size_columns: i32,
    pub board: Board2d,
    pub board_history: Vec<Board2d>,
    pub turn: Team,
}

impl View for Board {
    type V = BoardView;

    open spec fn view(&self) -> BoardView {
        BoardView {
            rows: self.size_rows as int,
            columns: self.size_columns as int,
            grid: grid_view(self.board),
            history: self.board_history@.map_values(|b: Board2d| grid_view(b)),
            turn: self.turn,
        }
    }
}

/// A board state is consistent: the grid and every saved grid have the
/// board's size, and a player is to move.
pub open spec fn valid_view(v: BoardView) -> bool {
    &&& is_grid(v.grid, v.columns, v.rows)
    &&& forall|i: int| 0 <= i < v.history.len() ==> is_grid(#[trigger] v.history[i], v.columns, v.rows)
    &&& v.turn != Team::Empty
}

/// The board state after the side to move places a stone on `(x, y)`: nothing
/// changes on an occupied cell; otherwise the previous grid is saved, the
/// placement is resolved and the turn passes.
pub open spec fn place_spec(v: BoardView, x: int, y: int) -> BoardView {
    if cell(v.grid, x, y) != Team::Empty {
        v
    } else {
        BoardView {
            grid: after_placement(v.grid, v.turn, x, y),
            history: v.history.push(v.grid),
            turn: opponent(v.turn),
            ..v
        }
    }
}

/// The board state after an undo: the latest saved grid comes back and the
/// turn passes back; with nothing saved, nothing changes.
pub open spec fn undo_spec(v: BoardView) -> BoardView {
    if v.history.len() == 0 {
        v
    } else {
        BoardView {
            grid: v.history.last(),
            history: v.history.drop_last(),
            turn: opponent(v.turn),
            ..v
        }
    }
}

/// The board state after the given moves, played in order.
pub open spec fn play(v: BoardView, moves: Seq<(int, int)>) -> BoardView
    decreases moves.len(),
{
    if moves.len() == 0 {
        v
    } else {
        place_spec(play(v, moves.drop_last()), moves.last().0, moves.last().1)
    }
}

/// Each of the moves, played in order, lands on an empty cell.
pub open spec fn all_legal(v: BoardView, moves: Seq<(int, int)>) -> bool {
    forall|k: int|
        0 <= k < moves.len() ==> cell(#[trigger] play(v, moves.take(k)).grid, moves[k].0, moves[k].1)
            == Team::Empty
}

/// The board state after `n` undos.
pub open spec fn undo_times(v: BoardView, n: nat) -> BoardView
    decreases n,
{
    if n == 0 {
        v
    } else {
        undo_times(undo_spec(v), (n - 1) as nat)
    }
}

proof fn lemma_play_turn(v: BoardView, moves: Seq<(int, int)>)
    requires
        v.turn != Team::Empty,
    ensures
        play(v, moves).turn != Team::Empty,
    decreases moves.len(),
{
    if moves.len() > 0 {
        lemma_play_turn(v, moves.drop_last());
    }
}

/// Undo on a board with nothing saved changes nothing.
pub proof fn lemma_undo_on_empty_history(v: BoardView)
    requires
        v.history.len() == 0,
    ensures
        undo_spec(v) == v,
{
}

/// Undoing `k` of `n` legal moves gives back the board state after the first
/// `n - k` of them: grid, saved grids and side to move. With `k == n` this is
/// the state before any of the moves.
pub proof fn lemma_undo_restores(v: BoardView, moves: Seq<(int, int)>, k: nat)
    requires
        v.turn != Team::Empty,
        all_legal(v, moves),
        k <= moves.len(),
    ensures
        undo_times(play(v, moves), k) == play(v, moves.take(moves.len() - k)),
    decreases k,
{
    if k == 0 {
        assert(moves.take(moves.len() as int) =~= moves);
    } else {
        let shorter = moves.drop_last();
        let n = moves.len() - 1;
        assert(moves.take(n) =~= shorter);
        assert(cell(play(v, moves.take(n)).grid, moves[n].0, moves[n].1) == Team::Empty);
        lemma_play_turn(v, shorter);
        let before = play(v, shorter);
        assert(play(v, moves).history == before.history.push(before.grid));
        assert(before.history.push(before.grid).drop_last() =~= before.history);
        assert(undo_spec(play(v, moves)) == before);
        assert forall|j: int| 0 <= j < shorter.len() implies cell(
            #[trigger] play(v, shorter.take(j)).grid,
            shorter[j].0,
            shorter[j].1,
        ) == Team::Empty by {
            assert(shorter.take(j) =~= moves.take(j));
            assert(cell(play(v, moves.take(j)).grid, moves[j].0, moves[j].1) == Team::Empty);
        }
        lemma_undo_restores(v, shorter, (k - 1) as nat);
        assert(shorter.take(shorter.len() - (k - 1)) =~= moves.take(moves.len() - k));
    }
}

impl Board {
    pub open spec fn wf(&self) -> bool {
        valid_view(self@)
    }

    /// An empty board of the given size, white to move.
    pub fn new(size_rows: i32, size_columns: i32) -> (r: Board)
        requires
            size_rows >= 1,
            size_columns >= 1,
        ensures
            r.wf(),
            r@.rows == size_rows,
            r@.columns == size_columns,
            r@.grid == empty_grid(size_columns as int, size_rows as int),
            r@.history.len() == 0,
            r@.turn == Team::White,
    {
        let board = new_board(size_rows, size_columns);
        let board_history: Vec<Board2d> = Vec::new();
        let r = Board { size_rows, size_columns, board, board_history, turn: Team::White };
        assert(r@.history =~= Seq::<Seq<Seq<Team>>>::empty());
        r
    }

    /// An empty board of 7 rows and 5 columns.
    pub fn new_default_size() -> (r: Board)
        ensures
            r.wf(),
            r@.rows == 7,
            r@.columns == 5,
            r@.grid == empty_grid(5, 7),
            r@.history.len() == 0,
            r@.turn == Team::White,
    {
        Self::new(7, 5)
    }

    /// Starts a new game on a board of the same size.
    pub fn reset(&mut self)
        requires
            old(self).wf(),
        ensures
            final(self).wf(),
            final(self)@.rows == old(self)@.rows,
            final(self)@.columns == old(self)@.columns,
            final(self)@.grid == empty_grid(old(self)@.columns, old(self)@.rows),
            final(self)@.history.len() == 0,
            final(self)@.turn == Team::White,
    {
        *self = Self::new(self.size_rows, self.size_columns);
    }

    /// The size as (rows, columns).
    pub fn size(&self) -> (r: (i32, i32))
        ensures
            r == (self.size_rows, self.size_columns),
    {
        (self.size_rows, self.size_columns)
    }

    /// Applies the size buttons clicked in one frame. A new size starts an
    /// empty grid with nothing to undo; the side to move stays.
    pub fn maybe_change_size(&mut self, clicks: SizeClicks) -> (r: (bool, bool))
        requires
            old(self).wf(),
        ensures
            final(self).wf(),
            r == (clicks.rows_increase || clicks.rows_decrease, clicks.columns_increase
                || clicks.columns_decrease),
            final(self)@.rows == resized(old(self)@.rows, clicks.rows_increase, clicks.rows_decrease),
            final(self)@.columns == resized(
                old(self)@.columns,
                clicks.columns_increase,
                clicks.columns_decrease,
            ),
            final(self)@.turn == old(self)@.turn,
            r.0 || r.1 ==> final(self)@.grid == empty_grid(final(self)@.columns, final(self)@.rows)
                && final(self)@.history.len() == 0,
            !(r.0 || r.1) ==> final(self)@ == old(self)@,
    {
        let r = maybe_change_size(
            &mut self.size_rows,
            &mut self.size_columns,
            clicks,
            &mut self.board,
        );
        if r.0 || r.1 {
            self.board_history = Vec::new();
            assert(self@.history =~= Seq::<Seq<Seq<Team>>>::empty());
        }
        r
    }

    /// Undoes the latest move, if there is one, and says whether there was.
    pub fn pop_history(&mut self) -> (r: bool)
        requires
            old(self).wf(),
        ensures
            final(self).wf(),
            final(self)@ == undo_spec(old(self)@),
            r == (old(self)@.history.len() > 0),
    {
        let ghost v = self@;
        let previous = self.board_history.pop();
        if let Some(b) = previous {
            self.board = b;
            self.turn = self.turn.toggle();
            assert(self@.history =~= v.history.drop_last());
            true
        } else {
            assert(self@.history =~= v.history);
            false
        }
    }

    /// The number of white and of black stones.
    pub fn score(&self) -> (r: (i32, i32))
        requires
            self.wf(),
            self.size_rows * self.size_columns <= i32::MAX,
        ensures
            r.0 == count_grid(self@.grid, Team::White),
            r.1 == count_grid(self@.grid, Team::Black),
    {
        proof {
            lemma_cells_uniform(self@.grid, self.size_rows as int);
            assert(self.size_columns * self.size_rows == self.size_rows * self.size_columns) by (nonlinear_arith);
        }
        compute_score(&self.board)
    }

    /// Places a stone of the side to move on `tile`, saving the grid so that
    /// the move can be undone. On an occupied cell nothing changes, and no
    /// grid is saved.
    pub fn put_stone(&mut self, tile: Tile) -> (r: Result<(), IllegalMove>)
        requires
            old(self).wf(),
            0 <= tile.x < old(self).size_columns,
            0 <= tile.y < old(self).size_rows,
        ensures
            final(self).wf(),
            final(self)@ == place_spec(old(self)@, tile.x as int, tile.y as int),
            r is Err <==> cell(old(self)@.grid, tile.x as int, tile.y as int) != Team::Empty,
    {
        let ghost v = self@;
        self.board_history.push(copy_grid(&self.board));
        assert(self@.history =~= v.history.push(v.grid));
        let previous_turn = self.turn;
        let r = try_put_stone(&mut self.turn, &mut self.board, tile);
        if self.turn == previous_turn {
            self.board_history.pop();
            assert(self@.history =~= v.history);
        }
        r
    }
}

} // verus!
