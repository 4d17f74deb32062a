//! The laws of the move simulator, proved once and for all: illegal moves
//! change nothing, boxes are never created or destroyed, exactly one player
//! tile exists after any sequence of moves, and a push onto a goal can be
//! undone by the reverse push from the far side.

use vstd::prelude::*;
use crate::checker::{Direction, SimState, count_grid, count_pred, count_row, dir_dx, dir_dy,
    grid_first_player, is_player, is_tile, is_unit_step, lemma_step_shape, move_allowed,
    player_pred, row_first_player, run_moves, spec_player_pos, spec_valid_move, step};
use crate::grid::{grid_set, in_bounds, tile_at};

verus! {

/// Every tile of the grid belongs to the fixed vocabulary.
pub open spec fn wf_tiles(g: Seq<Seq<char>>) -> bool {
    forall|y: int, x: int| in_bounds(g, y, x) ==> is_tile(#[trigger] g[y][x])
}

/// The player stands at (row `py`, column `px`) and nowhere else.
pub open spec fn only_player_at(g: Seq<Seq<char>>, py: int, px: int) -> bool {
    &&& in_bounds(g, py, px)
    &&& is_player(g[py][px])
    &&& forall|y: int, x: int|
        in_bounds(g, y, x) && is_player(#[trigger] g[y][x]) ==> y == py && x == px
}

/// A well-formed simulation state: vocabulary tiles only, and a single
/// player standing at the tracked position.
pub open spec fn wf_state(g: Seq<Seq<char>>, py: int, px: int) -> bool {
    wf_tiles(g) && only_player_at(g, py, px)
}

/// Idempotence of illegal moves: a move whose candidate cell is off the
/// grid or a wall, or whose push is blocked (the cell beyond the box is off
/// the grid, a wall, or another box), leaves the grid and the tracked
/// position exactly as they were.
pub proof fn lemma_illegal_move_is_noop(g: Seq<Seq<char>>, py: int, px: int, dx: int, dy: int)
    requires
        ({
            let t = tile_at(g, py + dy, px + dx);
            let b = tile_at(g, py + 2 * dy, px + 2 * dx);
            ||| (t is None)
            ||| t == Some('#')
            ||| ((t == Some('$') || t == Some('*')) && ((b is None) || b == Some('#') || b == Some(
                '$',
            ) || b == Some('*')))
        }),
    ensures
        step(g, py, px, dx, dy) == (SimState { g: g, y: py, x: px }),
{
    assert(spec_valid_move(g, py, px, dx, dy) != Some(true));
}

pub proof fn lemma_count_row_update(row: Seq<char>, x: int, v: char, f: spec_fn(char) -> bool)
    requires
        0 <= x < row.len(),
    ensures
        count_row(row.update(x, v), f) + (if f(row[x]) {
            1nat
        } else {
            0nat
        }) == count_row(row, f) + (if f(v) {
            1nat
        } else {
            0nat
        }),
    decreases row.len(),
{
    if x == row.len() - 1 {
        assert(row.update(x, v).drop_last() =~= row.drop_last());
        assert(row.update(x, v).last() == v);
    } else {
        assert(row.update(x, v).drop_last() =~= row.drop_last().update(x, v));
        assert(row.update(x, v).last() == row.last());
        lemma_count_row_update(row.drop_last(), x, v, f);
    }
}

pub proof fn lemma_count_grid_set(
    g: Seq<Seq<char>>,
    y: int,
    x: int,
    v: char,
    f: spec_fn(char) -> bool,
)
    requires
        in_bounds(g, y, x),
    ensures
        count_grid(grid_set(g, y, x, v), f) + (if f(g[y][x]) {
            1nat
        } else {
            0nat
        }) == count_grid(g, f) + (if f(v) {
            1nat
        } else {
            0nat
        }),
    decreases g.len(),
{
    let row2 = g[y].update(x, v);
    if y == g.len() - 1 {
        assert(grid_set(g, y, x, v).drop_last() =~= g.drop_last());
        assert(grid_set(g, y, x, v).last() == row2);
        lemma_count_row_update(g[y], x, v, f);
    } else {
        assert(grid_set(g, y, x, v).drop_last() =~= grid_set(g.drop_last(), y, x, v));
        assert(grid_set(g, y, x, v).last() == g.last());
        lemma_count_grid_set(g.drop_last(), y, x, v, f);
    }
}

pub proof fn lemma_count_row_zero(row: Seq<char>, f: spec_fn(char) -> bool)
    requires
        forall|i: int| 0 <= i < row.len() ==> !(#[trigger] f(row[i])),
    ensures
        count_row(row, f) == 0,
    decreases row.len(),
{
    if row.len() > 0 {
        lemma_count_row_zero(row.drop_last(), f);
    }
}

pub proof fn lemma_count_row_single(row: Seq<char>, x: int, f: spec_fn(char) -> bool)
    requires
        0 <= x < row.len(),
        f(row[x]),
        forall|i: int| 0 <= i < row.len() && i != x ==> !(#[trigger] f(row[i])),
    ensures
        count_row(row, f) == 1,
    decreases row.len(),
{
    if x == row.len() - 1 {
        lemma_count_row_zero(row.drop_last(), f);
    } else {
        lemma_count_row_single(row.drop_last(), x, f);
    }
}

pub proof fn lemma_count_grid_zero(g: Seq<Seq<char>>, f: spec_fn(char) -> bool)
    requires
        forall|y: int, x: int| in_bounds(g, y, x) ==> !(#[trigger] f(g[y][x])),
    ensures
        count_grid(g, f) == 0,
    decreases g.len(),
{
    if g.len() > 0 {
        lemma_count_grid_zero(g.drop_last(), f);
        lemma_count_row_zero(g.last(), f);
    }
}

/// A predicate true at exactly one cell counts exactly one tile.
pub proof fn lemma_only_player_count_one(g: Seq<Seq<char>>, py: int, px: int)
    requires
        only_player_at(g, py, px),
    ensures
        count_grid(g, player_pred()) == 1,
    decreases g.len(),
{
    let f = player_pred();
    if py == g.len() - 1 {
        lemma_count_grid_zero(g.drop_last(), f);
        lemma_count_row_single(g.last(), px, f);
    } else {
        lemma_count_row_zero(g.last(), f);
        lemma_only_player_count_one(g.drop_last(), py, px);
    }
}

/// One move keeps the state well formed: the tiles stay within the
/// vocabulary and the player stands exactly at the tracked position.
pub proof fn lemma_step_preserves_wf(g: Seq<Seq<char>>, py: int, px: int, dx: int, dy: int)
    requires
        wf_state(g, py, px),
        is_unit_step(dx, dy),
    ensures
        ({
            let s = step(g, py, px, dx, dy);
            wf_state(s.g, s.y, s.x)
        }),
{
    lemma_step_shape(g, py, px, dx, dy);
    if move_allowed(g, py, px, dx, dy) {
        let s = step(g, py, px, dx, dy);
        let ny = py + dy;
        let nx = px + dx;
        assert(in_bounds(g, ny, nx));
        let t = g[ny][nx];
        assert(is_tile(t));
        assert(ny != py || nx != px);
        assert(!is_player(t));
        let vacated: char = if g[py][px] == '+' {
            '.'
        } else {
            ' '
        };
        if t == '$' || t == '*' {
            let by = ny + dy;
            let bx = nx + dx;
            assert(in_bounds(g, by, bx));
            let b = g[by][bx];
            assert(is_tile(b));
            assert(by != py || bx != px);
            assert(by != ny || bx != nx);
            assert(!is_player(b));
            assert(b == ' ' || b == '.');
            assert(s.g[py][px] == vacated);
            assert(is_player(s.g[ny][nx]));
            assert(!is_player(s.g[by][bx]));
            assert(forall|y: int, x: int|
                in_bounds(g, y, x) && !(y == py && x == px) && !(y == ny && x == nx) && !(y == by
                    && x == bx) ==> #[trigger] s.g[y][x] == g[y][x]);
        } else {
            assert(t == ' ' || t == '.');
            assert(s.g[py][px] == vacated);
            assert(is_player(s.g[ny][nx]));
            assert(forall|y: int, x: int|
                in_bounds(g, y, x) && !(y == py && x == px) && !(y == ny && x == nx)
                    ==> #[trigger] s.g[y][x] == g[y][x]);
        }
        assert(forall|y: int, x: int| in_bounds(s.g, y, x) <==> in_bounds(g, y, x));
    }
}

/// One move neither creates nor destroys a box: the number of tiles equal
/// to `$` or `*` is unchanged.
pub proof fn lemma_step_preserves_box_count(g: Seq<Seq<char>>, py: int, px: int, dx: int, dy: int)
    requires
        wf_state(g, py, px),
        is_unit_step(dx, dy),
    ensures
        count_grid(step(g, py, px, dx, dy).g, count_pred(false)) == count_grid(
            g,
            count_pred(false),
        ),
{
    let f = count_pred(false);
    if move_allowed(g, py, px, dx, dy) {
        let ny = py + dy;
        let nx = px + dx;
        assert(in_bounds(g, ny, nx));
        let t = g[ny][nx];
        assert(is_tile(t));
        assert(ny != py || nx != px);
        assert(!is_player(t));
        let vacated: char = if g[py][px] == '+' {
            '.'
        } else {
            ' '
        };
        let g1 = grid_set(g, py, px, vacated);
        lemma_count_grid_set(g, py, px, vacated, f);
        assert(!f(g[py][px]));
        assert(!f(vacated));
        assert(in_bounds(g1, ny, nx));
        assert(g1[ny][nx] == t);
        if t == ' ' {
            lemma_count_grid_set(g1, ny, nx, '@', f);
        } else if t == '.' {
            lemma_count_grid_set(g1, ny, nx, '+', f);
        } else {
            assert(t == '$' || t == '*');
            let by = ny + dy;
            let bx = nx + dx;
            assert(in_bounds(g, by, bx));
            let b = g[by][bx];
            assert(is_tile(b));
            assert(by != py || bx != px);
            assert(by != ny || bx != nx);
            assert(!is_player(b));
            assert(b == ' ' || b == '.');
            let player_tile: char = if t == '$' {
                '@'
            } else {
                '+'
            };
            let g2 = grid_set(g1, ny, nx, player_tile);
            lemma_count_grid_set(g1, ny, nx, player_tile, f);
            assert(f(t));
            assert(!f(player_tile));
            assert(in_bounds(g2, by, bx));
            assert(g2[by][bx] == b);
            assert(!f(b));
            if b == '.' {
                lemma_count_grid_set(g2, by, bx, '*', f);
                assert(f('*'));
            } else {
                lemma_count_grid_set(g2, by, bx, '$', f);
                assert(f('$'));
            }
        }
    }
}

/// Every direction maps to one of the four unit vectors.
pub proof fn lemma_dir_unit(d: Direction)
    ensures
        is_unit_step(dir_dx(d), dir_dy(d)),
{
}

/// A whole move sequence keeps the state well formed.
pub proof fn lemma_run_moves_preserves_wf(
    g: Seq<Seq<char>>,
    py: int,
    px: int,
    dirs: Seq<Direction>,
)
    requires
        wf_state(g, py, px),
    ensures
        ({
            let s = run_moves(g, py, px, dirs);
            wf_state(s.g, s.y, s.x)
        }),
    decreases dirs.len(),
{
    if dirs.len() > 0 {
        lemma_run_moves_preserves_wf(g, py, px, dirs.drop_last());
        let prev = run_moves(g, py, px, dirs.drop_last());
        let d = dirs.last();
        lemma_dir_unit(d);
        lemma_step_preserves_wf(prev.g, prev.y, prev.x, dir_dx(d), dir_dy(d));
    }
}

/// Player singularity: after any sequence of moves on a well-formed state,
/// exactly one tile is `@` or `+`, and it stands at the tracked position.
pub proof fn lemma_run_moves_player_singularity(
    g: Seq<Seq<char>>,
    py: int,
    px: int,
    dirs: Seq<Direction>,
)
    requires
        wf_state(g, py, px),
    ensures
        ({
            let s = run_moves(g, py, px, dirs);
            &&& only_player_at(s.g, s.y, s.x)
            &&& count_grid(s.g, player_pred()) == 1
        }),
{
    lemma_run_moves_preserves_wf(g, py, px, dirs);
    let s = run_moves(g, py, px, dirs);
    lemma_only_player_count_one(s.g, s.y, s.x);
}

/// Box conservation: no sequence of moves creates or destroys a box; the
/// number of tiles equal to `$` or `*` after the simulation equals the
/// number before it.
pub proof fn lemma_run_moves_box_conservation(
    g: Seq<Seq<char>>,
    py: int,
    px: int,
    dirs: Seq<Direction>,
)
    requires
        wf_state(g, py, px),
    ensures
        count_grid(run_moves(g, py, px, dirs).g, count_pred(false)) == count_grid(
            g,
            count_pred(false),
        ),
    decreases dirs.len(),
{
    if dirs.len() > 0 {
        lemma_run_moves_box_conservation(g, py, px, dirs.drop_last());
        lemma_run_moves_preserves_wf(g, py, px, dirs.drop_last());
        let prev = run_moves(g, py, px, dirs.drop_last());
        let d = dirs.last();
        lemma_dir_unit(d);
        lemma_step_preserves_box_count(prev.g, prev.y, prev.x, dir_dx(d), dir_dy(d));
    }
}

pub proof fn lemma_row_first_player_sound(row: Seq<char>)
    ensures
        match row_first_player(row) {
            Some(i) => 0 <= i < row.len() && is_player(row[i]),
            None => forall|i: int| 0 <= i < row.len() ==> !is_player(#[trigger] row[i]),
        },
    decreases row.len(),
{
    if row.len() > 0 {
        lemma_row_first_player_sound(row.drop_last());
        match row_first_player(row.drop_last()) {
            Some(i) => {
                assert(row.drop_last()[i] == row[i]);
            },
            None => {
                if !is_player(row.last()) {
                    assert forall|i: int| 0 <= i < row.len() implies !is_player(
                        #[trigger] row[i],
                    ) by {
                        if i < row.len() - 1 {
                            assert(row.drop_last()[i] == row[i]);
                        } else {
                            assert(row.last() == row[i]);
                        }
                    }
                }
            },
        }
    }
}

/// The row-major first player really is a player tile, and a `None` answer
/// means the grid holds no player tile at all.
pub proof fn lemma_grid_first_player_sound(g: Seq<Seq<char>>)
    ensures
        match grid_first_player(g) {
            Some(p) => in_bounds(g, p.0, p.1) && is_player(g[p.0][p.1]),
            None => forall|y: int, x: int| in_bounds(g, y, x) ==> !is_player(#[trigger] g[y][x]),
        },
    decreases g.len(),
{
    if g.len() > 0 {
        lemma_grid_first_player_sound(g.drop_last());
        lemma_row_first_player_sound(g.last());
        if grid_first_player(g.drop_last()) is None && row_first_player(g.last()) is None {
            assert forall|y: int, x: int| in_bounds(g, y, x) implies !is_player(
                #[trigger] g[y][x],
            ) by {
                if y < g.len() - 1 {
                    assert(g.drop_last()[y] == g[y]);
                } else {
                    assert(g.last() == g[y]);
                }
            }
        }
    }
}

/// On a level with a single player, the validator's starting position is
/// exactly the player's cell, so the sequence laws speak of precisely the
/// simulation that `is_valid_solution` runs.
pub proof fn lemma_player_pos_on_wf(g: Seq<Seq<char>>, py: int, px: int)
    requires
        only_player_at(g, py, px),
    ensures
        spec_player_pos(g) == (py, px),
{
    lemma_grid_first_player_sound(g);
    match grid_first_player(g) {
        Some(p) => {
            assert(p.0 == py && p.1 == px);
        },
        None => {
            assert(!is_player(g[py][px]));
        },
    }
}

/// The validator's own simulation obeys the conservation laws: on a level
/// with vocabulary tiles and a single player, the simulation that
/// `is_valid_solution` runs starts at that player, ends with exactly as
/// many boxes as the level began with, and leaves exactly one player tile,
/// standing at the tracked position.
pub proof fn lemma_validator_state_laws(
    g: Seq<Seq<char>>,
    py: int,
    px: int,
    dirs: Seq<Direction>,
)
    requires
        wf_state(g, py, px),
    ensures
        spec_player_pos(g) == (py, px),
        ({
            let end = run_moves(g, py, px, dirs);
            &&& count_grid(end.g, count_pred(false)) == count_grid(g, count_pred(false))
            &&& only_player_at(end.g, end.y, end.x)
            &&& count_grid(end.g, player_pred()) == 1
        }),
{
    lemma_player_pos_on_wf(g, py, px);
    lemma_run_moves_box_conservation(g, py, px, dirs);
    lemma_run_moves_player_singularity(g, py, px, dirs);
}

/// Pushing a box onto a goal: when the candidate cell holds a plain box `$`
/// and the cell beyond it an empty goal `.`, the move is legal; the box
/// lands on the goal as `*`, the player takes the box's cell as `@`, the
/// vacated cell reverts to its terrain, and no other cell changes.
pub proof fn lemma_push_onto_goal(g: Seq<Seq<char>>, py: int, px: int, dx: int, dy: int)
    requires
        is_unit_step(dx, dy),
        in_bounds(g, py, px),
        tile_at(g, py + dy, px + dx) == Some('$'),
        tile_at(g, py + 2 * dy, px + 2 * dx) == Some('.'),
    ensures
        ({
            let s = step(g, py, px, dx, dy);
            &&& s.y == py + dy
            &&& s.x == px + dx
            &&& tile_at(s.g, py + dy, px + dx) == Some('@')
            &&& tile_at(s.g, py + 2 * dy, px + 2 * dx) == Some('*')
            &&& tile_at(s.g, py, px) == Some(
                if g[py][px] == '+' {
                    '.'
                } else {
                    ' '
                },
            )
            &&& forall|y: int, x: int|
                in_bounds(g, y, x) && !(y == py && x == px) && !(y == py + dy && x == px + dx) && !(
                y == py + 2 * dy && x == px + 2 * dx) ==> #[trigger] step(
                    g,
                    py,
                    px,
                    dx,
                    dy,
                ).g[y][x] == g[y][x]
        }),
{
    lemma_step_shape(g, py, px, dx, dy);
    assert(move_allowed(g, py, px, dx, dy));
}

/// Pushing a box off a goal: when the candidate cell holds a box on a goal
/// `*` and the cell beyond it empty floor ` `, the move is legal; the box
/// leaves the goal and lands as a plain box `$`, the player takes the goal
/// cell as `+` (the goal stays beneath it), the vacated cell reverts to its
/// terrain, and no other cell changes.
pub proof fn lemma_push_off_goal(g: Seq<Seq<char>>, py: int, px: int, dx: int, dy: int)
    requires
        is_unit_step(dx, dy),
        in_bounds(g, py, px),
        tile_at(g, py + dy, px + dx) == Some('*'),
        tile_at(g, py + 2 * dy, px + 2 * dx) == Some(' '),
    ensures
        ({
            let s = step(g, py, px, dx, dy);
            &&& s.y == py + dy
            &&& s.x == px + dx
            &&& tile_at(s.g, py + dy, px + dx) == Some('+')
            &&& tile_at(s.g, py + 2 * dy, px + 2 * dx) == Some('$')
            &&& tile_at(s.g, py, px) == Some(
                if g[py][px] == '+' {
                    '.'
                } else {
                    ' '
                },
            )
            &&& forall|y: int, x: int|
                in_bounds(g, y, x) && !(y == py && x == px) && !(y == py + dy && x == px + dx) && !(
                y == py + 2 * dy && x == px + 2 * dx) ==> #[trigger] step(
                    g,
                    py,
                    px,
                    dx,
                    dy,
                ).g[y][x] == g[y][x]
        }),
{
    lemma_step_shape(g, py, px, dx, dy);
    assert(move_allowed(g, py, px, dx, dy));
}

/// Goal-state round trip: pushing a box onto a goal and then, from the far
/// side, pushing it straight back (the reverse direction) restores the box
/// to a plain box `$` on its original cell, and the goal cell carries its
/// goal again: the player stands on it as `+`, so vacating it writes `.`
/// back. The walk around to the far side is modelled by lifting the player
/// from the box's old cell and placing it on the empty far cell.
pub proof fn lemma_goal_push_round_trip(g: Seq<Seq<char>>, py: int, px: int, dx: int, dy: int)
    requires
        is_unit_step(dx, dy),
        in_bounds(g, py, px),
        tile_at(g, py + dy, px + dx) == Some('$'),
        tile_at(g, py + 2 * dy, px + 2 * dx) == Some('.'),
        tile_at(g, py + 3 * dy, px + 3 * dx) == Some(' '),
    ensures
        ({
            let pushed = step(g, py, px, dx, dy);
            let walked = grid_set(
                grid_set(pushed.g, py + dy, px + dx, ' '),
                py + 3 * dy,
                px + 3 * dx,
                '@',
            );
            let back = step(walked, py + 3 * dy, px + 3 * dx, -dx, -dy);
            &&& tile_at(pushed.g, py + 2 * dy, px + 2 * dx) == Some('*')
            &&& tile_at(back.g, py + dy, px + dx) == Some('$')
            &&& tile_at(back.g, py + 2 * dy, px + 2 * dx) == Some('+')
            &&& back.y == py + 2 * dy
            &&& back.x == px + 2 * dx
        }),
{
    lemma_push_onto_goal(g, py, px, dx, dy);
    let pushed = step(g, py, px, dx, dy);
    let walked = grid_set(grid_set(pushed.g, py + dy, px + dx, ' '), py + 3 * dy, px + 3 * dx, '@');
    assert(in_bounds(pushed.g, py + 3 * dy, px + 3 * dx));
    assert(tile_at(walked, py + 2 * dy, px + 2 * dx) == Some('*'));
    assert(tile_at(walked, py + dy, px + dx) == Some(' '));
    assert(in_bounds(walked, py + 3 * dy, px + 3 * dx));
    lemma_push_off_goal(walked, py + 3 * dy, px + 3 * dx, -dx, -dy);
}

} // verus!
