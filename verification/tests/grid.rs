use pipe_maze::parse::{chars_of, read_tiles, split_lines};
use pipe_maze::{Direction, Grid, PipeError, Position, Tile};

fn lines(text: &str) -> Vec<String> {
    split_lines(&chars_of(text)).iter().map(|line| line.iter().collect()).collect()
}

#[test]
fn tile_from_str() {
    assert_eq!(Tile::from_str("|"), Ok(Tile::VerticalPipe));
    assert_eq!(Tile::from_str("-"), Ok(Tile::HorizontalPipe));
    assert_eq!(Tile::from_str("L"), Ok(Tile::BendNorthEast));
    assert_eq!(Tile::from_str("J"), Ok(Tile::BendNorthWest));
    assert_eq!(Tile::from_str("7"), Ok(Tile::BendSouthWest));
    assert_eq!(Tile::from_str("F"), Ok(Tile::BendSouthEast));
    assert_eq!(Tile::from_str("."), Ok(Tile::Ground));
    assert_eq!(Tile::from_str("S"), Ok(Tile::Start));
    assert_eq!(Tile::from_str("x"), Err(()));
    assert_eq!(Tile::from_str(""), Err(()));
    assert_eq!(Tile::from_str("||"), Err(()));
    assert_eq!(Tile::from_str("é"), Err(()));
}

#[test]
fn tile_characters_round_trip() {
    for c in ['|', '-', 'L', 'J', '7', 'F', '.', 'S'] {
        let tile = Tile::from_char(c).unwrap();
        assert_eq!(tile.to_char(), c);
    }
    assert_eq!(Tile::from_char('s'), None);
    assert_eq!(Tile::from_char(' '), None);
    assert_eq!(Tile::from_char('\n'), None);
}

#[test]
fn tile_connections() {
    assert_eq!(Tile::VerticalPipe.connections(), Some((Direction::North, Direction::South)));
    assert_eq!(Tile::HorizontalPipe.connections(), Some((Direction::West, Direction::East)));
    assert_eq!(Tile::BendNorthEast.connections(), Some((Direction::North, Direction::East)));
    assert_eq!(Tile::BendNorthWest.connections(), Some((Direction::North, Direction::West)));
    assert_eq!(Tile::BendSouthWest.connections(), Some((Direction::South, Direction::West)));
    assert_eq!(Tile::BendSouthEast.connections(), Some((Direction::South, Direction::East)));
    assert_eq!(Tile::Ground.connections(), None);
    assert_eq!(Tile::Start.connections(), None);
}

#[test]
fn tile_connects() {
    assert!(Tile::BendSouthEast.connects(Direction::South));
    assert!(Tile::BendSouthEast.connects(Direction::East));
    assert!(!Tile::BendSouthEast.connects(Direction::North));
    assert!(!Tile::BendSouthEast.connects(Direction::West));
    assert!(!Tile::Ground.connects(Direction::North));
    assert!(!Tile::Start.connects(Direction::East));
}

#[test]
fn opposite_directions() {
    assert_eq!(Direction::North.opposite(), Direction::South);
    assert_eq!(Direction::South.opposite(), Direction::North);
    assert_eq!(Direction::West.opposite(), Direction::East);
    assert_eq!(Direction::East.opposite(), Direction::West);
}

#[test]
fn lines_of_a_text() {
    assert_eq!(lines("ab\ncd"), vec!["ab", "cd"]);
    assert_eq!(lines("ab\ncd\n"), vec!["ab", "cd"]);
    assert_eq!(lines("ab\r\ncd\r\n"), vec!["ab", "cd"]);
    assert_eq!(lines("ab\n\ncd"), vec!["ab", "", "cd"]);
    assert_eq!(lines("ab\rcd"), vec!["ab\rcd"]);
    assert_eq!(lines("ab\r"), vec!["ab"]);
    assert_eq!(lines("\n"), vec![""]);
    assert_eq!(lines(""), Vec::<String>::new());
}

#[test]
fn characters_of_a_text() {
    assert_eq!(chars_of("S-7"), vec!['S', '-', '7']);
    assert_eq!(chars_of("é|"), vec!['é', '|']);
    assert_eq!(chars_of(""), Vec::<char>::new());
}

#[test]
fn tiles_of_lines() {
    let rows = vec![vec!['S', '7'], vec!['L', 'J']];
    assert_eq!(
        read_tiles(&rows),
        Ok(vec![vec![Tile::Start, Tile::BendSouthWest], vec![Tile::BendNorthEast, Tile::BendNorthWest]])
    );
    let rows = vec![vec!['S', '7'], vec!['L', '?']];
    assert_eq!(read_tiles(&rows), Err(PipeError::InvalidTile { at: Position { row: 1, col: 1 } }));
}

#[test]
fn grid_from_rows() {
    let rows = vec![vec![Tile::Start, Tile::BendSouthWest], vec![Tile::BendNorthEast, Tile::BendNorthWest]];
    let grid = Grid::from_rows(&rows).ok().unwrap();
    assert_eq!(grid.rows(), 2);
    assert_eq!(grid.cols(), 2);
    assert_eq!(grid.start(), Position { row: 0, col: 0 });
    assert_eq!(grid.tile(Position { row: 1, col: 0 }), Tile::BendNorthEast);
    let ragged = vec![vec![Tile::Start, Tile::Ground], vec![Tile::Ground]];
    assert_eq!(Grid::from_rows(&ragged).err(), Some(PipeError::InconsistentRowLength { row: 1 }));
    let none = vec![vec![Tile::Ground, Tile::Ground]];
    assert_eq!(Grid::from_rows(&none).err(), Some(PipeError::MissingStart));
    let two = vec![vec![Tile::Start, Tile::Ground], vec![Tile::Ground, Tile::Start]];
    assert_eq!(
        Grid::from_rows(&two).err(),
        Some(PipeError::DuplicateStart { at: Position { row: 1, col: 1 } })
    );
}

#[test]
fn parsed_grid() {
    let grid = Grid::parse("..F7.\n.FJ|.\nSJ.L7\n|F--J\nLJ...").ok().unwrap();
    assert_eq!(grid.rows(), 5);
    assert_eq!(grid.cols(), 5);
    assert_eq!(grid.start(), Position { row: 2, col: 0 });
    assert_eq!(grid.tile(Position { row: 0, col: 2 }), Tile::BendSouthEast);
    assert_eq!(grid.tile(Position { row: 3, col: 4 }), Tile::BendNorthWest);
    assert_eq!(grid.tile(Position { row: 4, col: 4 }), Tile::Ground);
    assert_eq!(grid.tiles().get(2, 0), Tile::Start);
    assert_eq!(grid.tiles().cell_count(), 25);
}

#[test]
fn neighbors_stop_at_the_edge() {
    let grid = Grid::parse("S-7\n|.|\nL-J").ok().unwrap();
    let corner = Position { row: 0, col: 0 };
    assert_eq!(grid.neighbor(corner, Direction::North), None);
    assert_eq!(grid.neighbor(corner, Direction::West), None);
    assert_eq!(grid.neighbor(corner, Direction::South), Some(Position { row: 1, col: 0 }));
    assert_eq!(grid.neighbor(corner, Direction::East), Some(Position { row: 0, col: 1 }));
    let far = Position { row: 2, col: 2 };
    assert_eq!(grid.neighbor(far, Direction::South), None);
    assert_eq!(grid.neighbor(far, Direction::East), None);
    assert_eq!(grid.neighbor(far, Direction::North), Some(Position { row: 1, col: 2 }));
    assert_eq!(grid.neighbor(far, Direction::West), Some(Position { row: 2, col: 1 }));
    let outside = Position { row: 3, col: 0 };
    assert_eq!(grid.neighbor(outside, Direction::North), None);
}

#[test]
fn exits_of_the_start() {
    let grid = Grid::parse("7-F7-\n.FJ|7\nSJLL7\n|F--J\nLJ.LJ").ok().unwrap();
    assert!(!grid.is_exit(Direction::North));
    assert!(grid.is_exit(Direction::South));
    assert!(!grid.is_exit(Direction::West));
    assert!(grid.is_exit(Direction::East));
    let start = grid.start();
    assert!(grid.links(start, Direction::South));
    assert!(grid.links(start, Direction::East));
    assert!(!grid.links(start, Direction::North));
    assert!(grid.links(Position { row: 0, col: 0 }, Direction::West));
    assert!(!grid.links(Position { row: 1, col: 0 }, Direction::West));
}
