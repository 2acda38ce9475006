use crate::board::{
    cell, columns_of, get_team, grid_view, opponent, place_spec, rows_of, same_shape, set_team,
    well_formed, with_cell, Board, Board2d, Team,
};
use crate::remote_player::Command;
use vstd::arithmetic::div_mod::{
    lemma_add_mod_noop, lemma_small_mod, lemma_sub_mod_noop, lemma_sub_mod_noop_right,
};
use vstd::prelude::*;

verus! {

/// A grid coordinate: column `x`, row `y`.
#[derive(Copy, Clone, PartialEq, Eq, Structural, Debug)]
pub struct Tile {
    pub x: i32,
    pub y: i32,
}

impl Tile {
    pub fn new(x: i32, y: i32) -> (r: Tile)
        ensures
            r.x == x,
            r.y == y,
    {
        Tile { x, y }
    }
}

/// A stone was placed on a cell that is not empty.
#[derive(Copy, Clone, PartialEq, Eq, Structural, Debug)]
pub struct IllegalMove;

/// One of the four orthogonal unit steps.
pub open spec fn is_direction(dx: int, dy: int) -> bool {
    (dx == 0 && (dy == 1 || dy == -1)) || (dy == 0 && (dx == 1 || dx == -1))
}

/// The stored position `(column, row)` of a logical coordinate.
pub open spec fn index_of(g: Seq<Seq<Team>>, x: int, y: int) -> (int, int) {
    (x % columns_of(g), y % rows_of(g))
}

/// One step of the scan from a new stone of `team` at `(x, y)` along
/// `(dx, dy)`, at distance `d`, while the scan is still `active`. A stone of
/// `team` ends the scan; a stone of the opponent is pulled: it is removed and
/// the cell next to the new stone takes `team`, which ends the scan too; an
/// empty cell lets the scan go on. Returns the grid and whether to go on.
pub open spec fn check_step(
    g: Seq<Seq<Team>>,
    team: Team,
    x: int,
    y: int,
    dx: int,
    dy: int,
    d: int,
    active: bool,
) -> (Seq<Seq<Team>>, bool) {
    if !active {
        (g, false)
    } else {
        let t = cell(g, x + d * dx, y + d * dy);
        if t == team {
            (g, false)
        } else if t == opponent(team) {
            (with_cell(with_cell(g, x + dx, y + dy, team), x + d * dx, y + d * dy, Team::Empty), false)
        } else {
            (g, true)
        }
    }
}

/// The scans along `(ax, ay)` and along `(-ax, -ay)` from distance `d` up to
/// `n` (excluded), taken in turn at each distance: first the positive
/// direction, then the negative one.
pub open spec fn scan_axis(
    g: Seq<Seq<Team>>,
    team: Team,
    x: int,
    y: int,
    ax: int,
    ay: int,
    d: int,
    n: int,
    ap: bool,
    an: bool,
) -> Seq<Seq<Team>>
    decreases n - d,
{
    if d >= n {
        g
    } else {
        let (g1, ap1) = check_step(g, team, x, y, ax, ay, d, ap);
        let (g2, an1) = check_step(g1, team, x, y, -ax, -ay, d, an);
        scan_axis(g2, team, x, y, ax, ay, d + 1, n, ap1, an1)
    }
}

/// The grid after `team` places a stone on the empty cell `(x, y)`. A
/// direction is scanned only where the cell next to the new stone is empty
/// (there is room to pull a stone into). The horizontal directions are
/// scanned first, over the distances from 2 up to the number of columns; then
/// the vertical ones, up to the number of rows.
pub open spec fn after_placement(g: Seq<Seq<Team>>, team: Team, x: int, y: int) -> Seq<Seq<Team>> {
    let g1 = with_cell(g, x, y, team);
    let h = scan_axis(
        g1,
        team,
        x,
        y,
        1,
        0,
        2,
        columns_of(g),
        cell(g1, x + 1, y) == Team::Empty,
        cell(g1, x - 1, y) == Team::Empty,
    );
    scan_axis(
        h,
        team,
        x,
        y,
        0,
        1,
        2,
        rows_of(g),
        cell(g1, x, y + 1) == Team::Empty,
        cell(g1, x, y - 1) == Team::Empty,
    )
}

/// Whether the stored position `(i, j)` is one of the four cells next to
/// `(x, y)`.
pub open spec fn is_neighbour(g: Seq<Seq<Team>>, x: int, y: int, i: int, j: int) -> bool {
    ||| (i, j) == index_of(g, x + 1, y)
    ||| (i, j) == index_of(g, x - 1, y)
    ||| (i, j) == index_of(g, x, y + 1)
    ||| (i, j) == index_of(g, x, y - 1)
}

/// One step of a scan changes at most two cells: the cell next to the new
/// stone, which takes the mover's team, and the pulled stone, which was the
/// opponent's and becomes empty. Every other cell keeps its team.
pub proof fn lemma_pull_changes_two_cells(
    g: Seq<Seq<Team>>,
    team: Team,
    x: int,
    y: int,
    dx: int,
    dy: int,
    d: int,
    active: bool,
)
    requires
        well_formed(g),
        team != Team::Empty,
        is_direction(dx, dy),
    ensures
        ({
            let h = check_step(g, team, x, y, dx, dy, d, active).0;
            &&& well_formed(h)
            &&& same_shape(h, g)
            &&& forall|i: int, j: int|
                0 <= i < columns_of(g) && 0 <= j < rows_of(g) && #[trigger] h[i][j] != g[i][j] ==> {
                    ||| ((i, j) == index_of(g, x + dx, y + dy) && h[i][j] == team)
                    ||| ((i, j) == index_of(g, x + d * dx, y + d * dy) && g[i][j] == opponent(team)
                        && h[i][j] == Team::Empty)
                }
        }),
{
    let h = check_step(g, team, x, y, dx, dy, d, active).0;
    if h != g {
        let g1 = with_cell(g, x + dx, y + dy, team);
        assert(well_formed(g1));
        assert(same_shape(g1, g));
        assert(cell(g, x + d * dx, y + d * dy) == opponent(team));
    }
}

/// Every cell that differs between `g1` and `h` either took `team` and lies
/// next to `(x, y)`, or held the opponent's stone and became empty.
pub open spec fn changes_allowed(g1: Seq<Seq<Team>>, h: Seq<Seq<Team>>, team: Team, x: int, y: int) -> bool {
    forall|i: int, j: int|
        0 <= i < columns_of(g1) && 0 <= j < rows_of(g1) && #[trigger] h[i][j] != g1[i][j] ==> {
            ||| (h[i][j] == team && is_neighbour(g1, x, y, i, j))
            ||| (g1[i][j] == opponent(team) && h[i][j] == Team::Empty)
        }
}

proof fn lemma_step_keeps_changes_allowed(
    g1: Seq<Seq<Team>>,
    h: Seq<Seq<Team>>,
    team: Team,
    x: int,
    y: int,
    dx: int,
    dy: int,
    d: int,
    active: bool,
)
    requires
        well_formed(g1),
        well_formed(h),
        same_shape(h, g1),
        team != Team::Empty,
        is_direction(dx, dy),
        changes_allowed(g1, h, team, x, y),
    ensures
        ({
            let h2 = check_step(h, team, x, y, dx, dy, d, active).0;
            well_formed(h2) && same_shape(h2, g1) && changes_allowed(g1, h2, team, x, y)
        }),
{
    lemma_pull_changes_two_cells(h, team, x, y, dx, dy, d, active);
    let h2 = check_step(h, team, x, y, dx, dy, d, active).0;
    assert forall|i: int, j: int|
        0 <= i < columns_of(g1) && 0 <= j < rows_of(g1) && #[trigger] h2[i][j] != g1[i][j] implies {
        ||| (h2[i][j] == team && is_neighbour(g1, x, y, i, j))
        ||| (g1[i][j] == opponent(team) && h2[i][j] == Team::Empty)
    } by {
        if h2[i][j] != h[i][j] {
            if (i, j) == index_of(h, x + dx, y + dy) && h2[i][j] == team {
                assert(is_neighbour(g1, x, y, i, j));
            } else {
                assert(h[i][j] == opponent(team));
                if h[i][j] != g1[i][j] {
                    assert(h[i][j] == team || h[i][j] == Team::Empty);
                }
            }
        }
    }
}

proof fn lemma_scan_keeps_changes_allowed(
    g1: Seq<Seq<Team>>,
    h: Seq<Seq<Team>>,
    team: Team,
    x: int,
    y: int,
    ax: int,
    ay: int,
    d: int,
    n: int,
    ap: bool,
    an: bool,
)
    requires
        well_formed(g1),
        well_formed(h),
        same_shape(h, g1),
        team != Team::Empty,
        is_direction(ax, ay),
        changes_allowed(g1, h, team, x, y),
    ensures
        ({
            let h2 = scan_axis(h, team, x, y, ax, ay, d, n, ap, an);
            well_formed(h2) && same_shape(h2, g1) && changes_allowed(g1, h2, team, x, y)
        }),
    decreases n - d,
{
    if d < n {
        let (after_pos, ap1) = check_step(h, team, x, y, ax, ay, d, ap);
        lemma_step_keeps_changes_allowed(g1, h, team, x, y, ax, ay, d, ap);
        let (after_neg, an1) = check_step(after_pos, team, x, y, -ax, -ay, d, an);
        lemma_step_keeps_changes_allowed(g1, after_pos, team, x, y, -ax, -ay, d, an);
        lemma_scan_keeps_changes_allowed(g1, after_neg, team, x, y, ax, ay, d + 1, n, ap1, an1);
    }
}

/// What a whole placement changes: the cell of the new stone and cells next
/// to it take the mover's team; any other change removes an opponent's stone.
pub proof fn lemma_placement_changes(g: Seq<Seq<Team>>, team: Team, x: int, y: int)
    requires
        well_formed(g),
        team != Team::Empty,
        cell(g, x, y) == Team::Empty,
    ensures
        ({
            let h = after_placement(g, team, x, y);
            &&& well_formed(h)
            &&& same_shape(h, g)
            &&& cell(h, x, y) == team
            &&& forall|i: int, j: int|
                0 <= i < columns_of(g) && 0 <= j < rows_of(g) && #[trigger] h[i][j] != g[i][j] ==> {
                    ||| (h[i][j] == team && ((i, j) == index_of(g, x, y) || is_neighbour(g, x, y, i, j)))
                    ||| (g[i][j] == opponent(team) && h[i][j] == Team::Empty)
                }
        }),
{
    let g1 = with_cell(g, x, y, team);
    assert(well_formed(g1) && same_shape(g1, g));
    let h1 = scan_axis(
        g1,
        team,
        x,
        y,
        1,
        0,
        2,
        columns_of(g),
        cell(g1, x + 1, y) == Team::Empty,
        cell(g1, x - 1, y) == Team::Empty,
    );
    lemma_scan_keeps_changes_allowed(
        g1,
        g1,
        team,
        x,
        y,
        1,
        0,
        2,
        columns_of(g),
        cell(g1, x + 1, y) == Team::Empty,
        cell(g1, x - 1, y) == Team::Empty,
    );
    lemma_scan_keeps_changes_allowed(
        g1,
        h1,
        team,
        x,
        y,
        0,
        1,
        2,
        rows_of(g),
        cell(g1, x, y + 1) == Team::Empty,
        cell(g1, x, y - 1) == Team::Empty,
    );
    let h = after_placement(g, team, x, y);
    let (ti, tj) = index_of(g, x, y);
    assert(g1[ti][tj] == team);
    if h[ti][tj] != g1[ti][tj] {
        assert(g1[ti][tj] == opponent(team) || h[ti][tj] == team);
    }
}

/// The grid moved by `s` columns and `t` rows around the torus: what stood
/// at `(x, y)` stands at `(x + s, y + t)`.
pub open spec fn shifted(g: Seq<Seq<Team>>, s: int, t: int) -> Seq<Seq<Team>> {
    Seq::new(
        g.len(),
        |i: int| Seq::new(rows_of(g) as nat, |j: int| g[(i - s) % columns_of(g)][(j - t) % rows_of(g)]),
    )
}

proof fn lemma_mod_shift(a: int, s: int, n: int, i: int)
    requires
        n > 0,
        0 <= i < n,
    ensures
        ((a + s) % n - s) % n == a % n,
        i == (a + s) % n <==> (i - s) % n == a % n,
{
    lemma_sub_mod_noop(a + s, s, n);
    lemma_sub_mod_noop_right((a + s) % n, s, n);
    lemma_add_mod_noop(i - s, s, n);
    lemma_add_mod_noop(a, s, n);
    lemma_small_mod(i as nat, n as nat);
}

proof fn lemma_shifted_cell(g: Seq<Seq<Team>>, s: int, t: int, a: int, b: int)
    requires
        well_formed(g),
    ensures
        well_formed(shifted(g, s, t)),
        same_shape(shifted(g, s, t), g),
        cell(shifted(g, s, t), a + s, b + t) == cell(g, a, b),
{
    let h = shifted(g, s, t);
    assert(h[0].len() == rows_of(g));
    lemma_mod_shift(a, s, columns_of(g), 0);
    lemma_mod_shift(b, t, rows_of(g), 0);
}

proof fn lemma_shifted_with_cell(g: Seq<Seq<Team>>, s: int, t: int, a: int, b: int, v: Team)
    requires
        well_formed(g),
    ensures
        with_cell(shifted(g, s, t), a + s, b + t, v) == shifted(with_cell(g, a, b, v), s, t),
{
    let c = columns_of(g);
    let r = rows_of(g);
    let w = with_cell(g, a, b, v);
    lemma_shifted_cell(g, s, t, a, b);
    assert(same_shape(w, g));
    let lhs = with_cell(shifted(g, s, t), a + s, b + t, v);
    let rhs = shifted(w, s, t);
    assert forall|i: int| 0 <= i < c implies #[trigger] lhs[i] =~= rhs[i] by {
        lemma_mod_shift(a, s, c, i);
        assert forall|j: int| 0 <= j < r implies lhs[i][j] == rhs[i][j] by {
            lemma_mod_shift(b, t, r, j);
            lemma_mod_shift(0, -s, c, i);
            lemma_mod_shift(0, -t, r, j);
        }
    }
    assert(lhs =~= rhs);
}

proof fn lemma_shifted_step(
    g: Seq<Seq<Team>>,
    s: int,
    t: int,
    team: Team,
    x: int,
    y: int,
    dx: int,
    dy: int,
    d: int,
    active: bool,
)
    requires
        well_formed(g),
    ensures
        check_step(shifted(g, s, t), team, x + s, y + t, dx, dy, d, active) == (
            shifted(check_step(g, team, x, y, dx, dy, d, active).0, s, t),
            check_step(g, team, x, y, dx, dy, d, active).1,
        ),
{
    let (fx, fy) = (x + d * dx, y + d * dy);
    assert(x + s + d * dx == fx + s && y + t + d * dy == fy + t);
    assert(x + s + dx == (x + dx) + s && y + t + dy == (y + dy) + t);
    lemma_shifted_cell(g, s, t, fx, fy);
    if active && cell(g, fx, fy) != team && cell(g, fx, fy) == opponent(team) {
        lemma_shifted_with_cell(g, s, t, x + dx, y + dy, team);
        let w = with_cell(g, x + dx, y + dy, team);
        assert(well_formed(w));
        lemma_shifted_with_cell(w, s, t, fx, fy, Team::Empty);
    }
}

proof fn lemma_shifted_scan(
    g: Seq<Seq<Team>>,
    s: int,
    t: int,
    team: Team,
    x: int,
    y: int,
    ax: int,
    ay: int,
    d: int,
    n: int,
    ap: bool,
    an: bool,
)
    requires
        well_formed(g),
        team != Team::Empty,
        is_direction(ax, ay),
    ensures
        scan_axis(shifted(g, s, t), team, x + s, y + t, ax, ay, d, n, ap, an) == shifted(
            scan_axis(g, team, x, y, ax, ay, d, n, ap, an),
            s,
            t,
        ),
    decreases n - d,
{
    if d < n {
        let (after_pos, ap1) = check_step(g, team, x, y, ax, ay, d, ap);
        lemma_shifted_step(g, s, t, team, x, y, ax, ay, d, ap);
        lemma_pull_changes_two_cells(g, team, x, y, ax, ay, d, ap);
        let (after_neg, an1) = check_step(after_pos, team, x, y, -ax, -ay, d, an);
        lemma_shifted_step(after_pos, s, t, team, x, y, -ax, -ay, d, an);
        lemma_pull_changes_two_cells(after_pos, team, x, y, -ax, -ay, d, an);
        lemma_shifted_scan(after_neg, s, t, team, x, y, ax, ay, d + 1, n, ap1, an1);
    }
}

/// The capture rule reads and writes the grid only through wrapped
/// coordinates: moving the grid around the torus and placing at the moved
/// position gives the moved result. A pull across the board's edge is thus
/// resolved exactly as one that does not cross it.
pub proof fn lemma_placement_wraps_identically(g: Seq<Seq<Team>>, s: int, t: int, team: Team, x: int, y: int)
    requires
        well_formed(g),
        team != Team::Empty,
    ensures
        well_formed(shifted(g, s, t)),
        cell(shifted(g, s, t), x + s, y + t) == cell(g, x, y),
        after_placement(shifted(g, s, t), team, x + s, y + t) == shifted(
            after_placement(g, team, x, y),
            s,
            t,
        ),
{
    let sg = shifted(g, s, t);
    lemma_shifted_cell(g, s, t, x, y);
    lemma_shifted_with_cell(g, s, t, x, y, team);
    let g1 = with_cell(g, x, y, team);
    assert(well_formed(g1) && same_shape(g1, g));
    lemma_shifted_cell(g1, s, t, x + 1, y);
    lemma_shifted_cell(g1, s, t, x - 1, y);
    lemma_shifted_cell(g1, s, t, x, y + 1);
    lemma_shifted_cell(g1, s, t, x, y - 1);
    assert(x + s + 1 == (x + 1) + s && x + s - 1 == (x - 1) + s);
    assert(y + t + 1 == (y + 1) + t && y + t - 1 == (y - 1) + t);
    let (xp, xn) = (cell(g1, x + 1, y) == Team::Empty, cell(g1, x - 1, y) == Team::Empty);
    let (yp, yn) = (cell(g1, x, y + 1) == Team::Empty, cell(g1, x, y - 1) == Team::Empty);
    lemma_shifted_scan(g1, s, t, team, x, y, 1, 0, 2, columns_of(g), xp, xn);
    let h1 = scan_axis(g1, team, x, y, 1, 0, 2, columns_of(g), xp, xn);
    lemma_scan_keeps_changes_allowed(g1, g1, team, x, y, 1, 0, 2, columns_of(g), xp, xn);
    lemma_shifted_scan(h1, s, t, team, x, y, 0, 1, 2, rows_of(g), yp, yn);
}

/// `d` steps of `dx`, where `dx` is -1, 0 or 1.
fn scaled(d: i64, dx: i32) -> (r: i64)
    requires
        -1 <= dx <= 1,
        0 <= d <= i32::MAX,
    ensures
        r == d * dx,
        -d <= r <= d,
{
    assert(dx == 1 || dx == 0 || dx == -1);
    assert(d * 1 == d && d * 0 == 0 && d * -1 == -d) by (nonlinear_arith);
    if dx > 0 {
        d
    } else if dx < 0 {
        -d
    } else {
        0
    }
}

/// Takes one step of the scan along `(dx, dy)` at distance `d`; see
/// `check_step`.
fn check_direction(
    board: &mut Board2d,
    team: Team,
    x: i32,
    y: i32,
    dx: i32,
    dy: i32,
    d: i32,
    keep_checking: &mut bool,
)
    requires
        well_formed(grid_view(*old(board))),
        team != Team::Empty,
        is_direction(dx as int, dy as int),
        d >= 0,
    ensures
        well_formed(grid_view(*final(board))),
        same_shape(grid_view(*final(board)), grid_view(*old(board))),
        (grid_view(*final(board)), *final(keep_checking)) == check_step(
            grid_view(*old(board)),
            team,
            x as int,
            y as int,
            dx as int,
            dy as int,
            d as int,
            *old(keep_checking),
        ),
{
    if *keep_checking {
        let (xi, yi, di) = (x as i64, y as i64, d as i64);
        let (px, py) = (xi + scaled(di, dx), yi + scaled(di, dy));
        let pulled_stone_color = get_team(board, px, py);
        if pulled_stone_color == team {
            *keep_checking = false;
        } else if pulled_stone_color != Team::Empty {
            set_team(board, xi + dx as i64, yi + dy as i64, team);
            set_team(board, px, py, Team::Empty);
            *keep_checking = false;
        }
    }
}

/// Runs the scans of one axis; see `scan_axis`.
fn check_axis(
    board: &mut Board2d,
    team: Team,
    x: i32,
    y: i32,
    ax: i32,
    ay: i32,
    n: i32,
    check_p: bool,
    check_n: bool,
)
    requires
        well_formed(grid_view(*old(board))),
        team != Team::Empty,
        is_direction(ax as int, ay as int),
    ensures
        well_formed(grid_view(*final(board))),
        same_shape(grid_view(*final(board)), grid_view(*old(board))),
        grid_view(*final(board)) == scan_axis(
            grid_view(*old(board)),
            team,
            x as int,
            y as int,
            ax as int,
            ay as int,
            2,
            n as int,
            check_p,
            check_n,
        ),
{
    let ghost target = scan_axis(
        grid_view(*board),
        team,
        x as int,
        y as int,
        ax as int,
        ay as int,
        2,
        n as int,
        check_p,
        check_n,
    );
    let mut check_p = check_p;
    let mut check_n = check_n;
    let mut i: i32 = 2;
    while i < n
        invariant
            well_formed(grid_view(*board)),
            same_shape(grid_view(*board), grid_view(*old(board))),
            team != Team::Empty,
            is_direction(ax as int, ay as int),
            2 <= i,
            target == scan_axis(
                grid_view(*board),
                team,
                x as int,
                y as int,
                ax as int,
                ay as int,
                i as int,
                n as int,
                check_p,
                check_n,
            ),
        decreases n - i,
    {
        check_direction(board, team, x, y, ax, ay, i, &mut check_p);
        check_direction(board, team, x, y, -ax, -ay, i, &mut check_n);
        i += 1;
    }
}

/// Places a stone of the side to move on `tile` and resolves its pulls.
/// On an occupied cell nothing changes and `IllegalMove` is returned; otherwise
/// the turn passes to the opponent, whether or not anything was captured.
pub fn try_put_stone(turn: &mut Team, board: &mut Board2d, tile: Tile) -> (r: Result<(), IllegalMove>)
    requires
        well_formed(grid_view(*old(board))),
        0 <= tile.x < columns_of(grid_view(*old(board))),
        0 <= tile.y < rows_of(grid_view(*old(board))),
        *old(turn) != Team::Empty,
    ensures
        well_formed(grid_view(*final(board))),
        same_shape(grid_view(*final(board)), grid_view(*old(board))),
        r is Err <==> cell(grid_view(*old(board)), tile.x as int, tile.y as int) != Team::Empty,
        r is Err ==> *final(board) == *old(board) && *final(turn) == *old(turn),
        r is Ok ==> grid_view(*final(board)) == after_placement(
            grid_view(*old(board)),
            *old(turn),
            tile.x as int,
            tile.y as int,
        ),
        r is Ok ==> *final(turn) == opponent(*old(turn)),
{
    let (x, y) = (tile.x, tile.y);
    if get_team(board, x as i64, y as i64) != Team::Empty {
        return Err(IllegalMove);
    }
    let team = *turn;
    set_team(board, x as i64, y as i64, team);
    let (xi, yi) = (x as i64, y as i64);
    let check_xp = get_team(board, xi + 1, yi) == Team::Empty;
    let check_xn = get_team(board, xi - 1, yi) == Team::Empty;
    let check_yp = get_team(board, xi, yi + 1) == Team::Empty;
    let check_yn = get_team(board, xi, yi - 1) == Team::Empty;
    let column_count = board.len() as i32;
    let row_count = board[0].len() as i32;
    check_axis(board, team, x, y, 1, 0, column_count, check_xp, check_xn);
    check_axis(board, team, x, y, 0, 1, row_count, check_yp, check_yn);
    *turn = turn.toggle();
    Ok(())
}

/// Places a stone for `team`, but only on its turn: in a networked game each
/// instance plays one side. Returns whether a stone was placed.
pub fn put_stone_as(board: &mut Board, team: Team, tile: Tile) -> (r: bool)
    requires
        old(board).wf(),
        0 <= tile.x < old(board).size_columns,
        0 <= tile.y < old(board).size_rows,
    ensures
        final(board).wf(),
        old(board).turn == team ==> final(board)@ == place_spec(old(board)@, tile.x as int, tile.y as int),
        old(board).turn != team ==> final(board)@ == old(board)@,
        r == (old(board).turn == team && cell(old(board)@.grid, tile.x as int, tile.y as int)
            == Team::Empty),
{
    if board.turn == team {
        board.put_stone(tile).is_ok()
    } else {
        false
    }
}

/// The message that tells the peer where the local pointer rests.
pub open spec fn hover_message(tile: Option<Tile>) -> Command {
    match tile {
        Some(t) => Command::StoneHover { x: t.x, y: t.y },
        None => Command::StopStoneHover,
    }
}

/// Follows the local pointer's tile: when it changed since the last frame,
/// records it and returns the message for the peer.
pub fn local_hover_update(previous_mouse_tile: &mut Option<Tile>, new_tile: Option<Tile>) -> (r: Option<Command>)
    ensures
        new_tile == *old(previous_mouse_tile) ==> r is None && *final(previous_mouse_tile) == new_tile,
        new_tile != *old(previous_mouse_tile) ==> r == Some(hover_message(new_tile))
            && *final(previous_mouse_tile) == new_tile,
{
    if new_tile != *previous_mouse_tile {
        *previous_mouse_tile = new_tile;
        let command = match new_tile {
            Some(t) => Command::StoneHover { x: t.x, y: t.y },
            None => Command::StopStoneHover,
        };
        Some(command)
    } else {
        None
    }
}

/// Follows the peer's pointer from one of its messages. `Connected` is for
/// the host's own loop, never forwarded to a game.
pub fn update_remote_mouse(remote_mouse: &mut Option<Tile>, command: &Command)
    requires
        !(*command is Connected),
    ensures
        *command matches Command::StoneHover { x, y } ==> *final(remote_mouse) == Some(Tile { x, y }),
        *command is StopStoneHover ==> *final(remote_mouse) is None,
{
    match command {
        Command::StoneHover { x, y } => {
            *remote_mouse = Some(Tile { x: *x, y: *y });
        },
        _ => {
            *remote_mouse = None;
        },
    }
}

} // verus!
