use sokoban_checker::checker::{count_boxes, find_player_pos, is_valid_move, is_valid_solution,
    move_player, Direction, Position};
use sokoban_checker::grid::{get2d, set2d};
use sokoban_checker::parse::{parse_direction, parse_solution};

fn grid_of(level: &str) -> Vec<Vec<char>> {
    level.split('\n').map(|line| line.chars().collect()).collect()
}

fn grid_text(grid: &Vec<Vec<char>>) -> String {
    let rows: Vec<String> = grid.iter().map(|row| row.iter().collect()).collect();
    rows.join("\n")
}

fn dirs_of(solution: &str) -> Vec<Direction> {
    parse_solution(solution).expect("solution string should parse")
}

fn count_players(grid: &Vec<Vec<char>>) -> usize {
    grid.iter()
        .flatten()
        .filter(|c| **c == '@' || **c == '+')
        .count()
}

#[test]
fn push_box_onto_goal_is_valid() {
    let mut grid = grid_of("#####\n#@$.#\n#####");
    assert!(is_valid_solution(&mut grid, &dirs_of("r")));
    assert_eq!(grid_text(&grid), "#####\n# @*#\n#####");
}

#[test]
fn move_into_wall_is_dropped_and_invalid() {
    let mut grid = grid_of("#####\n#@$.#\n#####");
    assert!(!is_valid_solution(&mut grid, &dirs_of("l")));
    assert_eq!(grid_text(&grid), "#####\n#@$.#\n#####");
}

#[test]
fn two_boxes_one_goal_never_valid() {
    let mut grid = grid_of("######\n#@$$.#\n######");
    assert!(!is_valid_solution(&mut grid, &dirs_of("r")));
    let mut grid = grid_of("######\n#@$$.#\n######");
    assert!(!is_valid_solution(&mut grid, &dirs_of("rr")));
    let mut grid = grid_of("######\n#@$$.#\n######");
    assert!(!is_valid_solution(&mut grid, &dirs_of("rrllrr")));
}

#[test]
fn illegal_wall_move_changes_nothing() {
    let mut grid = grid_of("#####\n#@$.#\n#####");
    let mut pos = Position { x: 1, y: 1 };
    move_player(&mut grid, &mut pos, 0, -1);
    assert_eq!(grid_text(&grid), "#####\n#@$.#\n#####");
    assert_eq!(pos, Position { x: 1, y: 1 });
}

#[test]
fn illegal_off_grid_move_changes_nothing() {
    let mut grid = grid_of("@..");
    let mut pos = Position { x: 0, y: 0 };
    move_player(&mut grid, &mut pos, 0, -1);
    assert_eq!(grid_text(&grid), "@..");
    assert_eq!(pos, Position { x: 0, y: 0 });
}

#[test]
fn blocked_push_changes_nothing() {
    // pushing into a box backed by a wall, and a box backed by a box
    let mut grid = grid_of("#@$##");
    let mut pos = Position { x: 1, y: 0 };
    move_player(&mut grid, &mut pos, 1, 0);
    assert_eq!(grid_text(&grid), "#@$##");
    assert_eq!(pos, Position { x: 1, y: 0 });

    let mut grid = grid_of("#@$$ #");
    let mut pos = Position { x: 1, y: 0 };
    move_player(&mut grid, &mut pos, 1, 0);
    assert_eq!(grid_text(&grid), "#@$$ #");
    assert_eq!(pos, Position { x: 1, y: 0 });
}

#[test]
fn push_off_short_row_edge_is_blocked() {
    // the row beyond the box is shorter than needed: the push is illegal
    let mut grid = grid_of("#@$");
    let mut pos = Position { x: 1, y: 0 };
    move_player(&mut grid, &mut pos, 1, 0);
    assert_eq!(grid_text(&grid), "#@$");
    assert_eq!(pos, Position { x: 1, y: 0 });
}

#[test]
fn boxes_are_conserved_over_any_sequence() {
    let level = "#######\n#@$ . #\n# $$. #\n#  .  #\n#######";
    let mut grid = grid_of(level);
    let before = count_boxes(&grid, false);
    is_valid_solution(&mut grid, &dirs_of("rrddlluurrdd"));
    let after = count_boxes(&grid, false);
    assert_eq!(before, 3);
    assert_eq!(after, 3);
}

#[test]
fn exactly_one_player_after_any_sequence() {
    let level = "#######\n#@$ . #\n# $$. #\n#  .  #\n#######";
    let mut grid = grid_of(level);
    assert_eq!(count_players(&grid), 1);
    is_valid_solution(&mut grid, &dirs_of("ddrruuldlurrrddll"));
    assert_eq!(count_players(&grid), 1);
}

#[test]
fn goal_round_trip_restores_box_and_goal() {
    // push the box onto the goal, walk around it, push it straight back off
    let level = "#######\n#     #\n# @$. #\n#     #\n#######";
    let mut grid = grid_of(level);
    let mut pos = find_player_pos(&grid);
    assert_eq!(pos, Position { x: 2, y: 2 });
    move_player(&mut grid, &mut pos, 1, 0);
    assert_eq!(grid_text(&grid), "#######\n#     #\n#  @* #\n#     #\n#######");
    for (dx, dy) in [(0isize, -1isize), (1, 0), (1, 0), (0, 1)] {
        move_player(&mut grid, &mut pos, dx, dy);
    }
    assert_eq!(pos, Position { x: 5, y: 2 });
    move_player(&mut grid, &mut pos, -1, 0);
    // the box is a plain box on its old cell again; the player stands on the
    // goal, so the goal is still there beneath it
    assert_eq!(grid_text(&grid), "#######\n#     #\n#  $+ #\n#     #\n#######");
    move_player(&mut grid, &mut pos, 0, -1);
    assert_eq!(grid_text(&grid), "#######\n#   @ #\n#  $. #\n#     #\n#######");
}

#[test]
fn case_insensitive_solutions_match() {
    let level = "########\n#  .   #\n# @$   #\n#      #\n########";
    let upper = dirs_of("RULD");
    let lower = dirs_of("ruld");
    let mixed = dirs_of("RuLd");
    assert_eq!(upper, lower);
    assert_eq!(upper, mixed);
    let mut g1 = grid_of(level);
    let mut g2 = grid_of(level);
    let r1 = is_valid_solution(&mut g1, &upper);
    let r2 = is_valid_solution(&mut g2, &lower);
    assert_eq!(r1, r2);
    assert_eq!(grid_text(&g1), grid_text(&g2));
}

#[test]
fn parse_direction_accepts_both_cases() {
    assert_eq!(parse_direction('u'), Some(Direction::Up));
    assert_eq!(parse_direction('U'), Some(Direction::Up));
    assert_eq!(parse_direction('d'), Some(Direction::Down));
    assert_eq!(parse_direction('D'), Some(Direction::Down));
    assert_eq!(parse_direction('l'), Some(Direction::Left));
    assert_eq!(parse_direction('L'), Some(Direction::Left));
    assert_eq!(parse_direction('r'), Some(Direction::Right));
    assert_eq!(parse_direction('R'), Some(Direction::Right));
    assert_eq!(parse_direction('x'), None);
    assert_eq!(parse_direction(' '), None);
}

#[test]
fn parse_solution_rejects_any_bad_character() {
    assert_eq!(parse_solution("ruld"), Some(vec![
        Direction::Right,
        Direction::Up,
        Direction::Left,
        Direction::Down,
    ]));
    assert_eq!(parse_solution(""), Some(vec![]));
    assert_eq!(parse_solution("ru x"), None);
    assert_eq!(parse_solution("q"), None);
}

#[test]
fn get2d_distinguishes_absent_from_tile() {
    let grid = grid_of("#@\n#  $\n#");
    assert_eq!(get2d(&grid, 0, 1), Some('@'));
    assert_eq!(get2d(&grid, 1, 3), Some('$'));
    assert_eq!(get2d(&grid, -1, 0), None);
    assert_eq!(get2d(&grid, 0, -1), None);
    assert_eq!(get2d(&grid, 3, 0), None);
    // the column check uses the specific row's length
    assert_eq!(get2d(&grid, 0, 2), None);
    assert_eq!(get2d(&grid, 2, 1), None);
}

#[test]
fn set2d_writes_in_bounds_and_drops_the_rest() {
    let mut grid = grid_of("ab\ncd");
    set2d(&mut grid, 'x', 1, 0);
    assert_eq!(grid_text(&grid), "ab\nxd");
    set2d(&mut grid, 'y', 5, 0);
    set2d(&mut grid, 'y', 0, 5);
    set2d(&mut grid, 'y', -1, -1);
    assert_eq!(grid_text(&grid), "ab\nxd");
}

#[test]
fn find_player_takes_first_in_row_major_order() {
    let grid = grid_of("##\n#+\n#@");
    assert_eq!(find_player_pos(&grid), Position { x: 1, y: 1 });
    let grid = grid_of("# @ @");
    assert_eq!(find_player_pos(&grid), Position { x: 2, y: 0 });
}

#[test]
fn find_player_falls_back_to_origin() {
    let grid = grid_of("###\n# #\n###");
    assert_eq!(find_player_pos(&grid), Position { x: 0, y: 0 });
}

#[test]
fn player_leaving_goal_restores_goal_tile() {
    let mut grid = grid_of("#+ #");
    let mut pos = Position { x: 1, y: 0 };
    move_player(&mut grid, &mut pos, 1, 0);
    assert_eq!(grid_text(&grid), "#.@#");
    assert_eq!(pos, Position { x: 2, y: 0 });
}

#[test]
fn player_stepping_onto_goal_becomes_plus() {
    let mut grid = grid_of("#@.#");
    let mut pos = Position { x: 1, y: 0 };
    move_player(&mut grid, &mut pos, 1, 0);
    assert_eq!(grid_text(&grid), "# +#");
}

#[test]
fn pushing_box_off_goal_keeps_goal_under_player() {
    let mut grid = grid_of("#@* #");
    let mut pos = Position { x: 1, y: 0 };
    move_player(&mut grid, &mut pos, 1, 0);
    assert_eq!(grid_text(&grid), "# +$#");
}

#[test]
fn is_valid_move_classification() {
    let grid = grid_of("#####\n#@$.#\n#####");
    let pos = Position { x: 1, y: 1 };
    // push with a free goal beyond: legal
    assert_eq!(is_valid_move(&grid, &pos, 1, 0), Some(true));
    // wall: illegal but on the grid
    assert_eq!(is_valid_move(&grid, &pos, -1, 0), Some(false));
    assert_eq!(is_valid_move(&grid, &pos, 0, -1), Some(false));
    // off the grid entirely
    let edge = Position { x: 0, y: 0 };
    assert_eq!(is_valid_move(&grid, &edge, 0, -1), None);
}

#[test]
fn solution_on_solved_level_with_no_moves() {
    // a level whose boxes already sit on goals is valid under the empty
    // solution, and a level with no boxes is trivially valid
    let mut grid = grid_of("#@*#");
    assert!(is_valid_solution(&mut grid, &vec![]));
    let mut grid = grid_of("#@ #");
    assert!(is_valid_solution(&mut grid, &vec![]));
    let mut grid = grid_of("#@$.#");
    assert!(!is_valid_solution(&mut grid, &vec![]));
}

#[test]
fn missing_player_defaults_to_origin_and_still_runs() {
    // no player tile: the tracked position falls back to (0, 0); moves from
    // there still follow the same rules
    let mut grid = grid_of("  \n$.");
    assert!(!is_valid_solution(&mut grid, &dirs_of("d")));
}
