use pipe_maze::region::{mark_loop, on_border};
use pipe_maze::tracer::{advance, farthest_steps, find_exits};
use pipe_maze::{classify, flood_outside, trace_loop, Direction, Grid, PipeError, Position, Region};

const SQUARE: &str = ".....\n.S-7.\n.|.|.\n.L-J.\n.....";

const POCKETS_IN_CLUTTER: &str = "F-7|L-J7.|F\n7S-------7J\nL|F-----7|-\n.||7F|-L||L\n-||JL-7F||.\nF|L-7.F-J|7\nJ|7L|.|-J|F\n|L--J|L--J-\nL-J.F7.|.LJ";

const LARGE_IN_CLUTTER: &str = "|F----7F7F7F7F-7|7-F
F|F--7||||||||FJFL.J
J||.FJ||||||||L77-FL
FJL7L7LJLJ||LJLL-7-F
L--JJL7.J|LJS7F-7L7J
J|7-F-J|7F7FJ|L7L7L7
L.J|L7JF7||L7||L7L7|
-FL.J|FJLJ|FJ|F7|-LJ
|7-FFJL-7J||.||||-FL
L.J|L---JFLJ-LJLJJ|7";

fn at(row: usize, col: usize) -> Position {
    Position { row, col }
}

#[test]
fn walk_round_the_square() {
    let grid = Grid::parse(SQUARE).ok().unwrap();
    let path = trace_loop(&grid).ok().unwrap();
    assert_eq!(
        path,
        vec![at(1, 1), at(2, 1), at(3, 1), at(3, 2), at(3, 3), at(2, 3), at(1, 3), at(1, 2), at(1, 1)]
    );
    assert_eq!(farthest_steps(&path), 4);
}

#[test]
fn first_exit_is_taken_in_fixed_order() {
    let grid = Grid::parse("F-7\n|.|\nL-S").ok().unwrap();
    assert_eq!(find_exits(&grid), (2, Direction::North));
    let path = trace_loop(&grid).ok().unwrap();
    assert_eq!(path[1], at(1, 2));
    let grid = Grid::parse("F-7\n|.|\n.S-").ok().unwrap();
    assert_eq!(find_exits(&grid), (1, Direction::East));
    let grid = Grid::parse("F-7\n|.|\nLS.").ok().unwrap();
    assert_eq!(find_exits(&grid), (1, Direction::West));
}

#[test]
fn one_step_of_the_walk() {
    let grid = Grid::parse("S-7\n|.|\nL-.").ok().unwrap();
    assert_eq!(advance(&grid, at(1, 0), Direction::South), Some((at(2, 0), Direction::South)));
    assert_eq!(advance(&grid, at(2, 0), Direction::South), Some((at(2, 1), Direction::East)));
    assert_eq!(advance(&grid, at(2, 1), Direction::East), None);
    assert_eq!(advance(&grid, at(0, 1), Direction::East), Some((at(0, 2), Direction::East)));
    assert_eq!(advance(&grid, at(0, 1), Direction::West), Some((at(0, 0), Direction::West)));
}

#[test]
fn walk_that_leaves_the_grid() {
    let grid = Grid::parse("S-\n|.").ok().unwrap();
    assert_eq!(trace_loop(&grid).err(), Some(PipeError::BrokenLoop { at: at(1, 0) }));
}

#[test]
fn loop_length_is_even() {
    for text in [SQUARE, POCKETS_IN_CLUTTER, LARGE_IN_CLUTTER, "S7\nLJ"] {
        let grid = Grid::parse(text).ok().unwrap();
        let path = trace_loop(&grid).ok().unwrap();
        let steps = path.len() - 1;
        assert_eq!(steps % 2, 0);
        assert_eq!(farthest_steps(&path) * 2, steps);
        assert_eq!(path[0], grid.start());
        assert_eq!(path[steps], grid.start());
    }
}

#[test]
fn regions_add_up_to_the_grid() {
    for text in [SQUARE, POCKETS_IN_CLUTTER, LARGE_IN_CLUTTER, "S7\nLJ"] {
        let grid = Grid::parse(text).ok().unwrap();
        let path = trace_loop(&grid).ok().unwrap();
        let part = classify(&grid, &path);
        let on_loop = part.count(Region::OnLoop);
        let outside = part.count(Region::Outside);
        let inside = part.count(Region::Inside);
        assert_eq!(on_loop + outside + inside, grid.rows() * grid.cols());
        assert_eq!(on_loop, path.len() - 1);
        assert_eq!(part.rows(), grid.rows());
        assert_eq!(part.cols(), grid.cols());
    }
}

#[test]
fn regions_of_the_pockets() {
    let grid = Grid::parse(POCKETS_IN_CLUTTER).ok().unwrap();
    let path = trace_loop(&grid).ok().unwrap();
    let part = classify(&grid, &path);
    assert_eq!(part.count(Region::OnLoop), 46);
    assert_eq!(part.count(Region::Inside), 4);
    assert_eq!(part.count(Region::Outside), 49);
    assert_eq!(part.region(at(6, 2)), Region::Inside);
    assert_eq!(part.region(at(6, 3)), Region::Inside);
    assert_eq!(part.region(at(6, 7)), Region::Inside);
    assert_eq!(part.region(at(6, 8)), Region::Inside);
    assert_eq!(part.region(at(3, 5)), Region::Outside);
    assert_eq!(part.region(at(6, 5)), Region::Outside);
    assert_eq!(part.region(at(0, 0)), Region::Outside);
    assert_eq!(part.region(at(8, 10)), Region::Outside);
    assert_eq!(part.region(at(1, 1)), Region::OnLoop);
    assert_eq!(part.region(at(5, 4)), Region::OnLoop);
}

#[test]
fn flood_and_crossings_agree() {
    for text in [SQUARE, POCKETS_IN_CLUTTER, LARGE_IN_CLUTTER] {
        let grid = Grid::parse(text).ok().unwrap();
        let path = trace_loop(&grid).ok().unwrap();
        let open = flood_outside(&grid, &path);
        let part = classify(&grid, &path);
        for row in 0..grid.rows() {
            for col in 0..grid.cols() {
                if open.get(row, col) {
                    assert_eq!(part.region(at(row, col)), Region::Outside);
                }
            }
        }
    }
}

#[test]
fn flood_stops_at_the_loop() {
    let grid = Grid::parse(SQUARE).ok().unwrap();
    let path = trace_loop(&grid).ok().unwrap();
    let open = flood_outside(&grid, &path);
    let mut reached: usize = 0;
    for row in 0..5 {
        for col in 0..5 {
            if open.get(row, col) {
                reached += 1;
            }
        }
    }
    assert_eq!(reached, 16);
    assert!(!open.get(2, 2));
    assert!(!open.get(1, 1));
    assert!(open.get(0, 0));
    assert!(open.get(4, 2));
}

#[test]
fn flood_does_not_squeeze_between_pipes() {
    let grid = Grid::parse(LARGE_IN_CLUTTER).ok().unwrap();
    let path = trace_loop(&grid).ok().unwrap();
    let open = flood_outside(&grid, &path);
    let part = classify(&grid, &path);
    let mut unreached_outside: usize = 0;
    for row in 0..grid.rows() {
        for col in 0..grid.cols() {
            if !open.get(row, col) && part.region(at(row, col)) == Region::Outside {
                unreached_outside += 1;
            }
        }
    }
    assert_eq!(unreached_outside, 2);
    assert_eq!(part.count(Region::Inside), 8);
}

#[test]
fn classifying_twice_gives_the_same_partition() {
    let grid = Grid::parse(POCKETS_IN_CLUTTER).ok().unwrap();
    let path = trace_loop(&grid).ok().unwrap();
    let first = classify(&grid, &path);
    let second = classify(&grid, &path);
    for row in 0..grid.rows() {
        for col in 0..grid.cols() {
            assert_eq!(first.region(at(row, col)), second.region(at(row, col)));
        }
    }
}

#[test]
fn border_cell_with_no_crossing_is_outside() {
    let grid = Grid::parse(".S-7\n.|.|\n.L-J").ok().unwrap();
    let path = trace_loop(&grid).ok().unwrap();
    let part = classify(&grid, &path);
    assert_eq!(part.region(at(0, 0)), Region::Outside);
    assert_eq!(part.region(at(1, 0)), Region::Outside);
    assert_eq!(part.region(at(2, 0)), Region::Outside);
    assert_eq!(part.region(at(1, 2)), Region::Inside);
}

#[test]
fn border_cells_east_of_the_loop_are_outside() {
    let grid = Grid::parse("S-7.\n|.|.\nL-J.").ok().unwrap();
    let path = trace_loop(&grid).ok().unwrap();
    let part = classify(&grid, &path);
    assert_eq!(part.region(at(0, 3)), Region::Outside);
    assert_eq!(part.region(at(1, 3)), Region::Outside);
    assert_eq!(part.region(at(2, 3)), Region::Outside);
    assert_eq!(part.count(Region::Inside), 1);
}

#[test]
fn marks_of_the_loop() {
    let grid = Grid::parse(SQUARE).ok().unwrap();
    let path = trace_loop(&grid).ok().unwrap();
    let marks = mark_loop(&grid, &path);
    assert_eq!(marks.rows(), 5);
    assert_eq!(marks.cols(), 5);
    assert!(marks.get(1, 1));
    assert!(marks.get(3, 3));
    assert!(marks.get(2, 1));
    assert!(!marks.get(2, 2));
    assert!(!marks.get(0, 0));
}

#[test]
fn edge_of_the_grid() {
    let grid = Grid::parse(SQUARE).ok().unwrap();
    assert!(on_border(&grid, at(0, 2)));
    assert!(on_border(&grid, at(4, 4)));
    assert!(on_border(&grid, at(2, 0)));
    assert!(on_border(&grid, at(3, 4)));
    assert!(!on_border(&grid, at(2, 2)));
    assert!(!on_border(&grid, at(5, 0)));
}
