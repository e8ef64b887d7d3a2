use pipe_maze::{part_one, part_two, solve, Answer, PipeError, Position};

const SQUARE: &str = ".....\n.S-7.\n.|.|.\n.L-J.\n.....";

const SQUARE_IN_CLUTTER: &str = "-L|F7\n7S-7|\nL|7||\n-L-J|\nL|-JF";

const WINDING: &str = "..F7.\n.FJ|.\nSJ.L7\n|F--J\nLJ...";

const WINDING_IN_CLUTTER: &str = "7-F7-\n.FJ|7\nSJLL7\n|F--J\nLJ.LJ";

const POCKETS: &str = "...........\n.S-------7.\n.|F-----7|.\n.||.....||.\n.||.....||.\n.|L-7.F-J|.\n.|..|.|..|.\n.L--J.L--J.\n...........";

const POCKETS_SQUEEZED: &str = "..........\n.S------7.\n.|F----7|.\n.||....||.\n.||....||.\n.|L-7F-J|.\n.|..||..|.\n.L--JL--J.\n..........";

const POCKETS_IN_CLUTTER: &str = "F-7|L-J7.|F\n7S-------7J\nL|F-----7|-\n.||7F|-L||L\n-||JL-7F||.\nF|L-7.F-J|7\nJ|7L|.|-J|F\n|L--J|L--J-\nL-J.F7.|.LJ";

const LARGE: &str = ".F----7F7F7F7F-7....\n.|F--7||||||||FJ....\n.||.FJ||||||||L7....\nFJL7L7LJLJ||LJ.L-7..\nL--J.L7...LJS7F-7L7.\n....F-J..F7FJ|L7L7L7\n....L7.F7||L7|.L7L7|\n.....|FJLJ|FJ|F7|.LJ\n....FJL-7.||.||||...\n....L---J.LJ.LJLJ...";

const LARGE_IN_CLUTTER: &str = "|F----7F7F7F7F-7|7-F
F|F--7||||||||FJFL.J
J||.FJ||||||||L77-FL
FJL7L7LJLJ||LJLL-7-F
L--JJL7.J|LJS7F-7L7J
J|7-F-J|7F7FJ|L7L7L7
L.J|L7JF7||L7||L7L7|
-FL.J|FJLJ|FJ|F7|-LJ
|7-FFJL-7J||.||||-FL
L.J|L---JFLJ-LJLJJ|7";

#[test]
fn test_part_one() {
    let result = part_one(WINDING_IN_CLUTTER);
    assert_eq!(result, Some(8));
}

#[test]
fn test_part_two() {
    let result = part_two(POCKETS);
    assert_eq!(result, Some(4));
}

#[test]
fn square_loop_has_one_cell_inside() {
    assert_eq!(part_one(SQUARE), Some(4));
    assert_eq!(part_two(SQUARE), Some(1));
    assert_eq!(solve(SQUARE), Ok(Answer { farthest: 4, enclosed: 1 }));
}

#[test]
fn square_loop_in_clutter() {
    assert_eq!(solve(SQUARE_IN_CLUTTER), Ok(Answer { farthest: 4, enclosed: 1 }));
}

#[test]
fn loop_of_sixteen_steps_is_eight_far() {
    assert_eq!(part_one(WINDING), Some(8));
    assert_eq!(part_two(WINDING), Some(1));
}

#[test]
fn clutter_does_not_change_the_answer() {
    assert_eq!(solve(WINDING_IN_CLUTTER), solve(WINDING));
    assert_eq!(solve(POCKETS_IN_CLUTTER), solve(POCKETS));
    assert_eq!(solve(POCKETS_IN_CLUTTER), Ok(Answer { farthest: 23, enclosed: 4 }));
}

#[test]
fn no_gap_is_needed_to_be_outside() {
    assert_eq!(solve(POCKETS_SQUEEZED), Ok(Answer { farthest: 22, enclosed: 4 }));
}

#[test]
fn large_grids() {
    assert_eq!(solve(LARGE), Ok(Answer { farthest: 70, enclosed: 8 }));
    assert_eq!(solve(LARGE_IN_CLUTTER), Ok(Answer { farthest: 70, enclosed: 8 }));
}

#[test]
fn smallest_loop() {
    assert_eq!(solve("S7\nLJ"), Ok(Answer { farthest: 2, enclosed: 0 }));
    assert_eq!(solve("F7\nLS"), Ok(Answer { farthest: 2, enclosed: 0 }));
}

#[test]
fn line_endings() {
    assert_eq!(solve(".....\r\n.S-7.\r\n.|.|.\r\n.L-J.\r\n.....\r\n"), Ok(Answer { farthest: 4, enclosed: 1 }));
    assert_eq!(solve(".....\n.S-7.\n.|.|.\n.L-J.\n.....\n"), Ok(Answer { farthest: 4, enclosed: 1 }));
}

#[test]
fn start_as_each_shape() {
    assert_eq!(solve("FS7\n|.|\nL-J"), Ok(Answer { farthest: 4, enclosed: 1 }));
    assert_eq!(solve("F-7\nS.|\nL-J"), Ok(Answer { farthest: 4, enclosed: 1 }));
    assert_eq!(solve("F-7\n|.|\nL-S"), Ok(Answer { farthest: 4, enclosed: 1 }));
    assert_eq!(solve("F-7\n|.|\nS-J"), Ok(Answer { farthest: 4, enclosed: 1 }));
    assert_eq!(solve("F-S\n|.|\nL-J"), Ok(Answer { farthest: 4, enclosed: 1 }));
    assert_eq!(solve("S-7\n|.|\nL-J"), Ok(Answer { farthest: 4, enclosed: 1 }));
}

#[test]
fn start_west_of_enclosed_cells() {
    assert_eq!(part_two("F--7\nS..|\n|..|\nL--J"), Some(4));
    assert_eq!(part_two("F--7\n|..|\nS..|\nL--J"), Some(4));
    assert_eq!(part_two("S--7\n|..|\n|..|\nL--J"), Some(4));
    assert_eq!(part_two("F--7\n|..|\n|..|\nS--J"), Some(4));
}

#[test]
fn two_starts_fail_with_duplicate_start() {
    let text = ".....\n.S-7.\n.|.|.\n.L-S.\n.....";
    assert_eq!(solve(text), Err(PipeError::DuplicateStart { at: Position { row: 3, col: 3 } }));
    assert_eq!(part_one(text), None);
    assert_eq!(part_two(text), None);
}

#[test]
fn invalid_tile() {
    assert_eq!(solve("S-7\n|x|\nL-J"), Err(PipeError::InvalidTile { at: Position { row: 1, col: 1 } }));
    assert_eq!(solve("S-7\n|.|\nL-J "), Err(PipeError::InvalidTile { at: Position { row: 2, col: 3 } }));
    assert_eq!(solve("S-7\r|.|\nL-J"), Err(PipeError::InvalidTile { at: Position { row: 0, col: 3 } }));
    assert_eq!(part_one("S-7\n|x|\nL-J"), None);
}

#[test]
fn invalid_tile_comes_before_other_faults() {
    assert_eq!(solve("S-7\n|.|.\nS-?"), Err(PipeError::InvalidTile { at: Position { row: 2, col: 2 } }));
}

#[test]
fn inconsistent_row_length() {
    assert_eq!(solve("S-7\n|.|\nL-J."), Err(PipeError::InconsistentRowLength { row: 2 }));
    assert_eq!(solve("S-7\n\n|.|\nL-J"), Err(PipeError::InconsistentRowLength { row: 1 }));
    assert_eq!(solve("S-7\n|.\nL-JS"), Err(PipeError::InconsistentRowLength { row: 1 }));
    assert_eq!(part_two("S-7\n|.|\nL-J."), None);
}

#[test]
fn missing_start() {
    assert_eq!(solve("F-7\n|.|\nL-J"), Err(PipeError::MissingStart));
    assert_eq!(solve(""), Err(PipeError::MissingStart));
    assert_eq!(solve("\n\n"), Err(PipeError::MissingStart));
    assert_eq!(part_one("F-7\n|.|\nL-J"), None);
}

#[test]
fn duplicate_start_names_the_second() {
    assert_eq!(solve("SS7\n|.|\nL-J"), Err(PipeError::DuplicateStart { at: Position { row: 0, col: 1 } }));
    assert_eq!(solve("S-7\n|.|\nS-S"), Err(PipeError::DuplicateStart { at: Position { row: 2, col: 0 } }));
}

#[test]
fn ambiguous_start() {
    assert_eq!(solve("S"), Err(PipeError::AmbiguousStart { at: Position { row: 0, col: 0 }, exits: 0 }));
    assert_eq!(solve("...\n.S-\n..."), Err(PipeError::AmbiguousStart { at: Position { row: 1, col: 1 }, exits: 1 }));
    assert_eq!(solve(".|.\n-S-\n.|."), Err(PipeError::AmbiguousStart { at: Position { row: 1, col: 1 }, exits: 4 }));
    assert_eq!(solve("F7.\n|S7\nLJ|"), Err(PipeError::AmbiguousStart { at: Position { row: 1, col: 1 }, exits: 3 }));
    assert_eq!(part_one("S"), None);
    assert_eq!(part_two("S"), None);
}

#[test]
fn broken_loop() {
    assert_eq!(solve("S-7\n|.|\nL-."), Err(PipeError::BrokenLoop { at: Position { row: 2, col: 1 } }));
    assert_eq!(solve("S-7\n|.|\nL-|"), Err(PipeError::BrokenLoop { at: Position { row: 2, col: 1 } }));
    assert_eq!(solve("S-\n|."), Err(PipeError::BrokenLoop { at: Position { row: 1, col: 0 } }));
    assert_eq!(part_one("S-7\n|.|\nL-."), None);
    assert_eq!(part_two("S-7\n|.|\nL-."), None);
}
