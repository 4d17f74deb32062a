//! The move simulator and the solution validator.
//!
//! A state is a grid together with the tracked player position. One move
//! steps the player in a direction, possibly pushing a box; an illegal move
//! (off the grid, into a wall, or a blocked push) is silently dropped. A
//! solution is valid when, after all moves, the number of boxes sitting on
//! goals equals the number of boxes the level started with.

use vstd::prelude::*;
use crate::grid::{Grid, cell_count, get2d, grid_fits, grid_set, in_bounds, set2d, tile_at};
use crate::grid::{lemma_cell_count_same_shape, lemma_grid_set_shape};

verus! {

/// One of the four directions a move can take.
#[derive(Clone, Copy, Debug, PartialEq, Eq, Structural)]
pub enum Direction {
    Up,
    Down,
    Left,
    Right,
}

/// The tracked player coordinates: `x` is the column, `y` the row. Signed,
/// so that a candidate cell just off the grid can be formed and rejected.
#[derive(Clone, Copy, Debug, PartialEq, Eq, Structural)]
pub struct Position {
    pub x: isize,
    pub y: isize,
}

/// Column delta of a direction.
pub open spec fn dir_dx(d: Direction) -> int {
    match d {
        Direction::Up => 0,
        Direction::Down => 0,
        Direction::Left => -1,
        Direction::Right => 1,
    }
}

/// Row delta of a direction.
pub open spec fn dir_dy(d: Direction) -> int {
    match d {
        Direction::Up => -1,
        Direction::Down => 1,
        Direction::Left => 0,
        Direction::Right => 0,
    }
}

/// Whether (dx, dy) is one of the four unit vectors a `Direction` maps to.
pub open spec fn is_unit_step(dx: int, dy: int) -> bool {
    ||| (dx == 0 && (dy == 1 || dy == -1))
    ||| (dy == 0 && (dx == 1 || dx == -1))
}

/// A box, whether or not it sits on a goal.
pub open spec fn is_box(c: char) -> bool {
    c == '$' || c == '*'
}

/// A box sitting on a goal.
pub open spec fn is_placed_box(c: char) -> bool {
    c == '*'
}

/// The player, whether or not it stands on a goal.
pub open spec fn is_player(c: char) -> bool {
    c == '@' || c == '+'
}

/// The fixed tile vocabulary: floor, wall, goal, box, box on goal, player,
/// player on goal.
pub open spec fn is_tile(c: char) -> bool {
    c == ' ' || c == '#' || c == '.' || c == '$' || c == '*' || c == '@' || c == '+'
}

/// Whether the move by (dx, dy) from (py, px) is legal, judged exactly as
/// `is_valid_move` reports it: `None` when the candidate cell (or, for a
/// push, the cell beyond it) lies off the grid, `Some(false)` for a wall or a
/// blocked push, `Some(true)` otherwise.
pub open spec fn spec_valid_move(g: Seq<Seq<char>>, py: int, px: int, dx: int, dy: int) -> Option<
    bool,
> {
    let ny = py + dy;
    let nx = px + dx;
    match tile_at(g, ny, nx) {
        None => None,
        Some(t) => if t == ' ' || t == '.' {
            Some(true)
        } else if t == '#' {
            Some(false)
        } else if t == '$' || t == '*' {
            if !is_unit_step(dx, dy) {
                None
            } else {
                match tile_at(g, ny + dy, nx + dx) {
                    None => None,
                    Some(b) => Some(!(b == '$' || b == '*' || b == '#')),
                }
            }
        } else {
            Some(true)
        },
    }
}

/// A move is carried out only when it is judged legal and the player's own
/// cell lies on the grid (a tracked position off the grid leaves the state
/// untouched rather than failing).
pub open spec fn move_allowed(g: Seq<Seq<char>>, py: int, px: int, dx: int, dy: int) -> bool {
    spec_valid_move(g, py, px, dx, dy) == Some(true) && in_bounds(g, py, px)
}

/// A simulation state: the grid and the tracked player cell.
pub ghost struct SimState {
    pub g: Seq<Seq<char>>,
    pub y: int,
    pub x: int,
}

/// The state after carrying out an allowed move: the player's cell reverts
/// to the terrain beneath it (`.` when the player stood on a goal, ` `
/// otherwise); the player takes the candidate cell; a box on the candidate
/// cell is pushed one further, landing as `*` on a goal and `$` on floor.
pub open spec fn apply_move(g: Seq<Seq<char>>, py: int, px: int, dx: int, dy: int) -> SimState {
    let ny = py + dy;
    let nx = px + dx;
    let t = g[ny][nx];
    let vacated: char = if g[py][px] == '+' {
        '.'
    } else {
        ' '
    };
    let g1 = grid_set(g, py, px, vacated);
    if t == ' ' {
        SimState { g: grid_set(g1, ny, nx, '@'), y: ny, x: nx }
    } else if t == '.' {
        SimState { g: grid_set(g1, ny, nx, '+'), y: ny, x: nx }
    } else if t == '$' || t == '*' {
        let by = ny + dy;
        let bx = nx + dx;
        let b = g[by][bx];
        let player_tile: char = if t == '$' {
            '@'
        } else {
            '+'
        };
        let g2 = grid_set(g1, ny, nx, player_tile);
        let g3 = if b == '.' {
            grid_set(g2, by, bx, '*')
        } else if b == ' ' {
            grid_set(g2, by, bx, '$')
        } else {
            g2
        };
        SimState { g: g3, y: ny, x: nx }
    } else {
        // Defensive default for a tile outside the vocabulary: the player
        // vacates and the position moves, but nothing is written at the
        // candidate cell.
        SimState { g: g1, y: ny, x: nx }
    }
}

/// One move of the simulation: the state after the move when it is allowed,
/// the state unchanged otherwise.
pub open spec fn step(g: Seq<Seq<char>>, py: int, px: int, dx: int, dy: int) -> SimState {
    if move_allowed(g, py, px, dx, dy) {
        apply_move(g, py, px, dx, dy)
    } else {
        SimState { g: g, y: py, x: px }
    }
}

/// The state after applying every direction of `dirs` in order.
pub open spec fn run_moves(g: Seq<Seq<char>>, py: int, px: int, dirs: Seq<Direction>) -> SimState
    decreases dirs.len(),
{
    if dirs.len() == 0 {
        SimState { g: g, y: py, x: px }
    } else {
        let prev = run_moves(g, py, px, dirs.drop_last());
        let d = dirs.last();
        step(prev.g, prev.y, prev.x, dir_dx(d), dir_dy(d))
    }
}

/// Reports whether the move by (dx, dy) from `pos` is legal: `None` when the
/// candidate cell (or, for a push, the cell beyond it) lies off the grid,
/// `Some(false)` for a wall or a blocked push, `Some(true)` otherwise.
pub fn is_valid_move(grid: &Grid, pos: &Position, dx: isize, dy: isize) -> (r: Option<bool>)
    requires
        grid_fits(grid.deep_view()),
    ensures
        r == spec_valid_move(grid.deep_view(), pos.y as int, pos.x as int, dx as int, dy as int),
{
    let new_x = match pos.x.checked_add(dx) {
        Some(v) => v,
        None => {
            // the candidate column is below zero or past any row's length
            return None;
        },
    };
    let new_y = match pos.y.checked_add(dy) {
        Some(v) => v,
        None => {
            return None;
        },
    };
    let t = match get2d(grid, new_y, new_x) {
        Some(t) => t,
        None => {
            return None;
        },
    };
    if t == ' ' || t == '.' {
        return Some(true);
    }
    if t == '#' {
        return Some(false);
    }
    if t == '$' || t == '*' {
        // the candidate cell is on the grid, so one further step stays
        // within isize
        let beyond = match (dx, dy) {
            (0isize, 1isize) => get2d(grid, new_y + 1, new_x),
            (0isize, -1isize) => get2d(grid, new_y - 1, new_x),
            (1isize, 0isize) => get2d(grid, new_y, new_x + 1),
            (-1isize, 0isize) => get2d(grid, new_y, new_x - 1),
            _ => {
                return None;
            },
        };
        let b = match beyond {
            Some(b) => b,
            None => {
                return None;
            },
        };
        return Some(!(b == '$' || b == '*' || b == '#'));
    }
    Some(true)
}

/// Applies one move to the grid and the tracked position: moves the player,
/// pushes a box when one stands on the candidate cell, and silently drops
/// the move when it is illegal or the tracked position lies off the grid.
pub fn move_player(level_grid: &mut Grid, pos: &mut Position, dx: isize, dy: isize)
    requires
        grid_fits(old(level_grid).deep_view()),
        is_unit_step(dx as int, dy as int),
    ensures
        ({
            let s = step(
                old(level_grid).deep_view(),
                old(pos).y as int,
                old(pos).x as int,
                dx as int,
                dy as int,
            );
            &&& final(level_grid).deep_view() == s.g
            &&& final(pos).y as int == s.y
            &&& final(pos).x as int == s.x
        }),
        grid_fits(final(level_grid).deep_view()),
{
    let ghost g0 = level_grid.deep_view();
    proof {
        lemma_step_fits(g0, old(pos).y as int, old(pos).x as int, dx as int, dy as int);
    }
    let valid = is_valid_move(level_grid, pos, dx, dy);
    let is_allowed = match valid {
        Some(b) => b,
        None => false,
    };
    if !is_allowed {
        return;
    }
    // The tracked position may lie off the grid (the permissive fallback for
    // a level without a player); such a move is dropped rather than failing.
    let prev_tile = match get2d(level_grid, pos.y, pos.x) {
        Some(c) => c,
        None => {
            return;
        },
    };
    assert(move_allowed(g0, pos.y as int, pos.x as int, dx as int, dy as int));
    // the candidate cell is on the grid, so these additions stay within isize
    assert(in_bounds(g0, pos.y as int + dy as int, pos.x as int + dx as int));
    let new_x = pos.x + dx;
    let new_y = pos.y + dy;
    let tile = match get2d(level_grid, new_y, new_x) {
        Some(c) => c,
        None => {
            // unreachable: the move was judged legal
            return;
        },
    };
    // the player vacates, leaving the terrain beneath it
    if prev_tile == '+' {
        set2d(level_grid, '.', pos.y, pos.x);
    } else {
        set2d(level_grid, ' ', pos.y, pos.x);
    }
    pos.x = new_x;
    pos.y = new_y;
    if tile == ' ' {
        set2d(level_grid, '@', new_y, new_x);
        return;
    }
    if tile == '.' {
        set2d(level_grid, '+', new_y, new_x);
        return;
    }
    if tile == '$' || tile == '*' {
        let bx = new_x + dx;
        let by = new_y + dy;
        let b = match get2d(level_grid, by, bx) {
            Some(c) => c,
            None => {
                // unreachable: the push was judged legal
                return;
            },
        };
        assert(b == g0[by as int][bx as int]);
        if tile == '$' {
            set2d(level_grid, '@', new_y, new_x);
        } else {
            set2d(level_grid, '+', new_y, new_x);
        }
        if b == '.' {
            set2d(level_grid, '*', by, bx);
        } else if b == ' ' {
            set2d(level_grid, '$', by, bx);
        }
        return;
    }
    // a tile outside the vocabulary: the player vacates and the position
    // moves, but nothing is written at the candidate cell
}

/// The column of the first player tile of a row, scanning left to right.
pub open spec fn row_first_player(row: Seq<char>) -> Option<int>
    decreases row.len(),
{
    if row.len() == 0 {
        None
    } else {
        match row_first_player(row.drop_last()) {
            Some(i) => Some(i),
            None => if is_player(row.last()) {
                Some(row.len() - 1)
            } else {
                None
            },
        }
    }
}

/// The first player tile of the grid in row-major order: the earliest row
/// holding a player, and the leftmost player column within it.
pub open spec fn grid_first_player(g: Seq<Seq<char>>) -> Option<(int, int)>
    decreases g.len(),
{
    if g.len() == 0 {
        None
    } else {
        match grid_first_player(g.drop_last()) {
            Some(p) => Some(p),
            None => match row_first_player(g.last()) {
                Some(x) => Some((g.len() - 1, x)),
                None => None,
            },
        }
    }
}

/// The starting position: the first player tile in row-major order, or the
/// permissive fallback (row 0, column 0) when the level holds no player.
pub open spec fn spec_player_pos(g: Seq<Seq<char>>) -> (int, int) {
    match grid_first_player(g) {
        Some(p) => p,
        None => (0, 0),
    }
}

/// Finds the player's starting position: the first tile equal to `@` or `+`
/// scanning rows top to bottom and columns left to right, or (0, 0) when no
/// player tile exists.
pub fn find_player_pos(level: &Grid) -> (r: Position)
    requires
        grid_fits(level.deep_view()),
    ensures
        r.y as int == spec_player_pos(level.deep_view()).0,
        r.x as int == spec_player_pos(level.deep_view()).1,
{
    let ghost g = level.deep_view();
    let mut found = false;
    let mut ry: usize = 0;
    let mut rx: usize = 0;
    let mut y: usize = 0;
    while y < level.len()
        invariant
            g == level.deep_view(),
            grid_fits(g),
            y <= level.len(),
            found ==> ry < level.len() && rx < g[ry as int].len(),
            !found ==> ry == 0 && rx == 0,
            grid_first_player(g.take(y as int)) == (if found {
                Some((ry as int, rx as int))
            } else {
                None
            }),
        decreases level.len() - y,
    {
        let mut x: usize = 0;
        while x < level[y].len()
            invariant
                g == level.deep_view(),
                grid_fits(g),
                y < level.len(),
                x <= g[y as int].len(),
                found ==> ry < level.len() && rx < g[ry as int].len(),
            !found ==> ry == 0 && rx == 0,
                (match grid_first_player(g.take(y as int)) {
                    Some(p) => Some(p),
                    None => match row_first_player(g[y as int].take(x as int)) {
                        Some(i) => Some((y as int, i)),
                        None => None,
                    },
                }) == (if found {
                    Some((ry as int, rx as int))
                } else {
                    None
                }),
            decreases level[y as int].len() - x,
        {
            let c = level[y][x];
            assert(c == g[y as int][x as int]);
            if !found && (c == '@' || c == '+') {
                found = true;
                ry = y;
                rx = x;
            }
            proof {
                assert(g[y as int].take(x as int + 1).drop_last() =~= g[y as int].take(x as int));
                assert(g[y as int].take(x as int + 1).last() == g[y as int][x as int]);
            }
            x = x + 1;
        }
        proof {
            assert(g[y as int].take(g[y as int].len() as int) =~= g[y as int]);
            assert(g.take(y as int + 1).drop_last() =~= g.take(y as int));
            assert(g.take(y as int + 1).last() == g[y as int]);
        }
        y = y + 1;
    }
    proof {
        assert(g.take(level.len() as int) =~= g);
        if found {
            assert(g.len() <= isize::MAX as int);
            assert(g[ry as int].len() <= isize::MAX as int);
        }
    }
    Position { x: rx as isize, y: ry as isize }
}

/// How many tiles of a row satisfy `f`.
pub open spec fn count_row(row: Seq<char>, f: spec_fn(char) -> bool) -> nat
    decreases row.len(),
{
    if row.len() == 0 {
        0
    } else {
        count_row(row.drop_last(), f) + (if f(row.last()) {
            1nat
        } else {
            0nat
        })
    }
}

/// How many tiles of the grid satisfy `f`.
pub open spec fn count_grid(g: Seq<Seq<char>>, f: spec_fn(char) -> bool) -> nat
    decreases g.len(),
{
    if g.len() == 0 {
        0
    } else {
        count_grid(g.drop_last(), f) + count_row(g.last(), f)
    }
}

/// The tiles counted by the validator: boxes on goals only after the moves,
/// every box before them.
pub open spec fn count_pred(placed_only: bool) -> spec_fn(char) -> bool {
    if placed_only {
        |c: char| is_placed_box(c)
    } else {
        |c: char| is_box(c)
    }
}

/// The player tiles, for counting.
pub open spec fn player_pred() -> spec_fn(char) -> bool {
    |c: char| is_player(c)
}

pub proof fn lemma_count_row_le(row: Seq<char>, f: spec_fn(char) -> bool)
    ensures
        count_row(row, f) <= row.len(),
    decreases row.len(),
{
    if row.len() > 0 {
        lemma_count_row_le(row.drop_last(), f);
    }
}

pub proof fn lemma_count_grid_le(g: Seq<Seq<char>>, f: spec_fn(char) -> bool)
    ensures
        count_grid(g, f) <= cell_count(g),
    decreases g.len(),
{
    if g.len() > 0 {
        lemma_count_grid_le(g.drop_last(), f);
        lemma_count_row_le(g.last(), f);
    }
}

pub proof fn lemma_count_row_take_step(row: Seq<char>, x: int, f: spec_fn(char) -> bool)
    requires
        0 <= x < row.len(),
    ensures
        count_row(row.take(x + 1), f) == count_row(row.take(x), f) + (if f(row[x]) {
            1nat
        } else {
            0nat
        }),
{
    assert(row.take(x + 1).drop_last() =~= row.take(x));
    assert(row.take(x + 1).last() == row[x]);
}

pub proof fn lemma_count_grid_take_step(g: Seq<Seq<char>>, y: int, f: spec_fn(char) -> bool)
    requires
        0 <= y < g.len(),
    ensures
        count_grid(g.take(y + 1), f) == count_grid(g.take(y), f) + count_row(g[y], f),
{
    assert(g.take(y + 1).drop_last() =~= g.take(y));
    assert(g.take(y + 1).last() == g[y]);
}

pub proof fn lemma_cell_count_take_step(g: Seq<Seq<char>>, y: int)
    requires
        0 <= y < g.len(),
    ensures
        cell_count(g.take(y + 1)) == cell_count(g.take(y)) + g[y].len(),
{
    assert(g.take(y + 1).drop_last() =~= g.take(y));
    assert(g.take(y + 1).last() == g[y]);
}

pub proof fn lemma_cell_count_take_le(g: Seq<Seq<char>>, y: int)
    requires
        0 <= y <= g.len(),
    ensures
        cell_count(g.take(y)) <= cell_count(g),
    decreases g.len() - y,
{
    if y == g.len() {
        assert(g.take(y) =~= g);
    } else {
        lemma_cell_count_take_step(g, y);
        lemma_cell_count_take_le(g, y + 1);
    }
}

/// Counts the box tiles of the grid: only `*` (a box on a goal) when
/// `placed_only` is set, both `$` and `*` otherwise.
pub fn count_boxes(grid: &Grid, placed_only: bool) -> (n: usize)
    requires
        grid_fits(grid.deep_view()),
    ensures
        n as nat == count_grid(grid.deep_view(), count_pred(placed_only)),
{
    let ghost g = grid.deep_view();
    let ghost f = count_pred(placed_only);
    let mut n: usize = 0;
    let mut y: usize = 0;
    while y < grid.len()
        invariant
            g == grid.deep_view(),
            grid_fits(g),
            y <= grid.len(),
            n as nat == count_grid(g.take(y as int), f),
            f == count_pred(placed_only),
        decreases grid.len() - y,
    {
        let mut x: usize = 0;
        while x < grid[y].len()
            invariant
                g == grid.deep_view(),
                grid_fits(g),
                y < grid.len(),
                x <= g[y as int].len(),
                n as nat == count_grid(g.take(y as int), f) + count_row(
                    g[y as int].take(x as int),
                    f,
                ),
                f == count_pred(placed_only),
            decreases grid[y as int].len() - x,
        {
            let c = grid[y][x];
            assert(c == g[y as int][x as int]);
            let hit = if placed_only {
                c == '*'
            } else {
                c == '$' || c == '*'
            };
            assert(hit == f(c));
            if hit {
                proof {
                    lemma_count_grid_le(g.take(y as int), f);
                    lemma_count_row_le(g[y as int].take(x as int), f);
                    lemma_cell_count_take_step(g, y as int);
                    lemma_cell_count_take_le(g, y as int + 1);
                }
                n = n + 1;
            }
            proof {
                lemma_count_row_take_step(g[y as int], x as int, f);
            }
            x = x + 1;
        }
        proof {
            assert(g[y as int].take(g[y as int].len() as int) =~= g[y as int]);
            lemma_count_grid_take_step(g, y as int, f);
        }
        y = y + 1;
    }
    proof {
        assert(g.take(grid.len() as int) =~= g);
    }
    n
}

/// Writing a cell never changes the grid's shape, and neither does a move.
pub proof fn lemma_step_shape(g: Seq<Seq<char>>, py: int, px: int, dx: int, dy: int)
    ensures
        step(g, py, px, dx, dy).g.len() == g.len(),
        forall|i: int|
            0 <= i < g.len() ==> (#[trigger] step(g, py, px, dx, dy).g[i].len()) == g[i].len(),
{
    if move_allowed(g, py, px, dx, dy) {
        let ny = py + dy;
        let nx = px + dx;
        let t = g[ny][nx];
        let vacated: char = if g[py][px] == '+' {
            '.'
        } else {
            ' '
        };
        let g1 = grid_set(g, py, px, vacated);
        lemma_grid_set_shape(g, py, px, vacated);
        if t == ' ' {
            lemma_grid_set_shape(g1, ny, nx, '@');
        } else if t == '.' {
            lemma_grid_set_shape(g1, ny, nx, '+');
        } else if t == '$' || t == '*' {
            let by = ny + dy;
            let bx = nx + dx;
            let b = g[by][bx];
            let player_tile: char = if t == '$' {
                '@'
            } else {
                '+'
            };
            let g2 = grid_set(g1, ny, nx, player_tile);
            lemma_grid_set_shape(g1, ny, nx, player_tile);
            if b == '.' {
                lemma_grid_set_shape(g2, by, bx, '*');
            } else if b == ' ' {
                lemma_grid_set_shape(g2, by, bx, '$');
            }
        }
    }
}

/// A move keeps the grid within the machine-size bounds.
pub proof fn lemma_step_fits(g: Seq<Seq<char>>, py: int, px: int, dx: int, dy: int)
    requires
        grid_fits(g),
    ensures
        grid_fits(step(g, py, px, dx, dy).g),
{
    lemma_step_shape(g, py, px, dx, dy);
    lemma_cell_count_same_shape(step(g, py, px, dx, dy).g, g);
}

/// Validates a proposed solution: finds the player, applies every direction
/// in order, and reports whether the number of boxes standing on goals at
/// the end equals the number of boxes the level started with.
pub fn is_valid_solution(level_grid: &mut Grid, dirs: &Vec<Direction>) -> (r: bool)
    requires
        grid_fits(old(level_grid).deep_view()),
    ensures
        ({
            let g0 = old(level_grid).deep_view();
            let p0 = spec_player_pos(g0);
            let end = run_moves(g0, p0.0, p0.1, dirs@);
            &&& final(level_grid).deep_view() == end.g
            &&& r == (count_grid(end.g, count_pred(true)) == count_grid(g0, count_pred(false)))
        }),
        grid_fits(final(level_grid).deep_view()),
{
    let ghost g0 = level_grid.deep_view();
    let mut pos = find_player_pos(level_grid);
    let initial_boxes_num = count_boxes(level_grid, false);
    let ghost p0 = spec_player_pos(g0);
    let mut i: usize = 0;
    while i < dirs.len()
        invariant
            grid_fits(level_grid.deep_view()),
            i <= dirs.len(),
            ({
                let s = run_moves(g0, p0.0, p0.1, dirs@.take(i as int));
                &&& s.g == level_grid.deep_view()
                &&& s.y == pos.y as int
                &&& s.x == pos.x as int
            }),
            p0 == spec_player_pos(g0),
        decreases dirs.len() - i,
    {
        let d = dirs[i];
        let dir_step: (isize, isize) = match d {
            Direction::Up => (0, -1),
            Direction::Down => (0, 1),
            Direction::Left => (-1, 0),
            Direction::Right => (1, 0),
        };
        let dx = dir_step.0;
        let dy = dir_step.1;
        assert(dx as int == dir_dx(dirs@[i as int]) && dy as int == dir_dy(dirs@[i as int]));
        let ghost pre = run_moves(g0, p0.0, p0.1, dirs@.take(i as int));
        move_player(level_grid, &mut pos, dx, dy);
        proof {
            lemma_step_fits(pre.g, pre.y, pre.x, dx as int, dy as int);
            assert(dirs@.take(i as int + 1).drop_last() =~= dirs@.take(i as int));
            assert(dirs@.take(i as int + 1).last() == dirs@[i as int]);
        }
        i = i + 1;
    }
    proof {
        assert(dirs@.take(dirs.len() as int) =~= dirs@);
    }
    let placed_boxes_num = count_boxes(level_grid, true);
    initial_boxes_num == placed_boxes_num
}

} // verus!

