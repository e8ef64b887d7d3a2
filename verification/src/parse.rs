//! Reading a grid from text: one row per line, one character per tile.

use crate::grid::{
    is_first_ragged, is_rectangular, lemma_start_is_counted, lemma_starts_before_grows, reads_before,
    rows_of, starts_before, Grid, PipeError,
};
use crate::maze::{Maze, Position};
use crate::tally::count_in_rows;
use crate::tile::Tile;
use vstd::prelude::*;

verus! {

/// Place of the first line feed at or after `from`, or the length of the text
/// if there is none.
pub open spec fn line_end(text: Seq<char>, from: int) -> int
    decreases text.len() - from,
{
    if from < 0 || from >= text.len() {
        text.len() as int
    } else if text[from] == '\n' {
        from
    } else {
        line_end(text, from + 1)
    }
}

/// A line without the carriage return at its end, if it has one.
pub open spec fn strip_cr(line: Seq<char>) -> Seq<char> {
    if line.len() > 0 && line.last() == '\r' {
        line.drop_last()
    } else {
        line
    }
}

/// The lines of the text from place `from` on. A line ends at a line feed or at
/// the end of the text; a carriage return at the end of a line belongs to the
/// line ending; after the last line feed no empty line follows.
pub open spec fn lines_from(text: Seq<char>, from: int) -> Seq<Seq<char>>
    decreases text.len() - from,
{
    if from < 0 || from >= text.len() {
        Seq::empty()
    } else if line_end(text, from) < from || line_end(text, from) >= text.len() {
        seq![strip_cr(text.subrange(from, text.len() as int))]
    } else {
        seq![strip_cr(text.subrange(from, line_end(text, from)))] + lines_from(
            text,
            line_end(text, from) + 1,
        )
    }
}

/// The lines of a text.
pub open spec fn lines_of(text: Seq<char>) -> Seq<Seq<char>> {
    lines_from(text, 0)
}

/// The tile that a character stands for; ground where it stands for none.
pub open spec fn tile_of(c: char) -> Tile {
    match Tile::spec_from_char(c) {
        Some(t) => t,
        None => Tile::Ground,
    }
}

/// The tiles that the lines of a text stand for.
pub open spec fn tiles_of(lines: Seq<Seq<char>>) -> Seq<Seq<Tile>> {
    Seq::new(lines.len(), |r: int| Seq::new(lines[r].len(), |c: int| tile_of(lines[r][c])))
}

/// Every character of the lines is in the lexicon.
pub open spec fn is_readable(lines: Seq<Seq<char>>) -> bool {
    forall|r: int, c: int|
        0 <= r < lines.len() && 0 <= c < lines[r].len() ==> Tile::spec_from_char(
            #[trigger] lines[r][c],
        ) is Some
}

/// The character at `at` is the first, in reading order, that is not in the
/// lexicon.
pub open spec fn is_first_unreadable(lines: Seq<Seq<char>>, at: Position) -> bool {
    &&& at.row < lines.len()
    &&& at.col < lines[at.row as int].len()
    &&& Tile::spec_from_char(lines[at.row as int][at.col as int]) is None
    &&& forall|r: int, c: int|
        0 <= r < lines.len() && 0 <= c < lines[r].len() && (r < at.row || (r == at.row && c < at.col))
            ==> Tile::spec_from_char(#[trigger] lines[r][c]) is Some
}

/// Whether a text is a grid: all its characters are tiles, all its lines are
/// equally long, and one of its tiles is the start.
pub open spec fn is_grid_text(text: Seq<char>) -> bool {
    &&& is_readable(lines_of(text))
    &&& is_rectangular(tiles_of(lines_of(text)))
    &&& count_in_rows(tiles_of(lines_of(text)), Tile::Start) == 1
}

/// The cell of a start marker among rows of tiles.
pub open spec fn start_of(tiles: Seq<Seq<Tile>>) -> Position {
    choose|p: Position|
        p.row < tiles.len() && p.col < tiles[p.row as int].len() && tiles[p.row as int][p.col as int]
            == Tile::Start
}

/// The grid that a text describes.
pub open spec fn maze_of(text: Seq<char>) -> Maze {
    Maze { tiles: tiles_of(lines_of(text)), start: start_of(tiles_of(lines_of(text))) }
}

/// Whether `e` is the fault for which a text is not a grid. An unreadable
/// character is reported before a line of the wrong length, and that before a
/// missing or a second start.
pub open spec fn is_parse_fault(text: Seq<char>, e: PipeError) -> bool {
    let lines = lines_of(text);
    let tiles = tiles_of(lines);
    match e {
        PipeError::InvalidTile { at } => is_first_unreadable(lines, at),
        PipeError::InconsistentRowLength { row } => is_readable(lines) && is_first_ragged(
            tiles,
            row as int,
        ),
        PipeError::MissingStart => is_readable(lines) && is_rectangular(tiles) && count_in_rows(
            tiles,
            Tile::Start,
        ) == 0,
        PipeError::DuplicateStart { at } => {
            &&& is_readable(lines)
            &&& is_rectangular(tiles)
            &&& at.row < tiles.len()
            &&& at.col < tiles[at.row as int].len()
            &&& tiles[at.row as int][at.col as int] == Tile::Start
            &&& starts_before(tiles, at) == 1
        },
        _ => false,
    }
}

/// A text that has a fault is not a grid.
pub proof fn lemma_parse_fault_excludes_grid(text: Seq<char>, e: PipeError)
    requires
        is_parse_fault(text, e),
    ensures
        !is_grid_text(text),
{
    let tiles = tiles_of(lines_of(text));
    match e {
        PipeError::DuplicateStart { at } => {
            lemma_start_is_counted(tiles, at);
        },
        _ => {},
    }
}

/// A text has at most one fault: the first that reading it meets.
pub proof fn lemma_parse_fault_unique(text: Seq<char>, a: PipeError, b: PipeError)
    requires
        is_parse_fault(text, a),
        is_parse_fault(text, b),
    ensures
        a == b,
{
    let lines = lines_of(text);
    let tiles = tiles_of(lines);
    match (a, b) {
        (PipeError::InvalidTile { at: p }, PipeError::InvalidTile { at: q }) => {
            if reads_before(p, q) {
                assert(Tile::spec_from_char(lines[p.row as int][p.col as int]) is Some);
            } else if reads_before(q, p) {
                assert(Tile::spec_from_char(lines[q.row as int][q.col as int]) is Some);
            }
        },
        (PipeError::InvalidTile { at: p }, _) => {
            assert(Tile::spec_from_char(lines[p.row as int][p.col as int]) is Some);
        },
        (_, PipeError::InvalidTile { at: q }) => {
            assert(Tile::spec_from_char(lines[q.row as int][q.col as int]) is Some);
        },
        (PipeError::InconsistentRowLength { row: r }, PipeError::InconsistentRowLength { row: k }) => {
            if r < k {
                assert(tiles[r as int].len() == tiles[0].len());
            } else if k < r {
                assert(tiles[k as int].len() == tiles[0].len());
            }
        },
        (PipeError::InconsistentRowLength { row: r }, _) => {
            assert(tiles[r as int].len() == tiles[0].len());
        },
        (_, PipeError::InconsistentRowLength { row: k }) => {
            assert(tiles[k as int].len() == tiles[0].len());
        },
        (PipeError::DuplicateStart { at: p }, PipeError::DuplicateStart { at: q }) => {
            if reads_before(p, q) {
                lemma_starts_before_grows(tiles, p, q);
            } else if reads_before(q, p) {
                lemma_starts_before_grows(tiles, q, p);
            }
        },
        (PipeError::DuplicateStart { at: p }, _) => {
            lemma_start_is_counted(tiles, p);
        },
        (_, PipeError::DuplicateStart { at: q }) => {
            lemma_start_is_counted(tiles, q);
        },
        _ => {},
    }
}

/// The characters of a string.
pub fn chars_of(text: &str) -> (chars: Vec<char>)
    ensures
        chars@ == text@,
{
    let mut chars: Vec<char> = Vec::new();
    for c in it: text.chars()
        invariant
            chars@ == it.seq().take(it.index@),
    {
        chars.push(c);
    }
    chars
}

/// Splits a text into its lines.
pub fn split_lines(text: &Vec<char>) -> (lines: Vec<Vec<char>>)
    ensures
        rows_of(lines@) == lines_of(text@),
{
    let n: usize = text.len();
    let mut lines: Vec<Vec<char>> = Vec::new();
    let mut pos: usize = 0;
    proof {
        assert(rows_of(lines@) + lines_from(text@, 0) =~= lines_of(text@));
    }
    while pos < n
        invariant
            n == text@.len(),
            pos <= n,
            rows_of(lines@) + lines_from(text@, pos as int) == lines_of(text@),
        decreases n - pos,
    {
        let mut line: Vec<char> = Vec::new();
        let mut end: usize = pos;
        while end < n && text[end] != '\n'
            invariant
                n == text@.len(),
                pos <= end <= n,
                line_end(text@, end as int) == line_end(text@, pos as int),
                line@ == text@.subrange(pos as int, end as int),
            decreases n - end,
        {
            line.push(text[end]);
            proof {
                assert(line@ =~= text@.subrange(pos as int, end + 1));
            }
            end += 1;
        }
        assert(end == line_end(text@, pos as int));
        if line.len() > 0 && line[line.len() - 1] == '\r' {
            line.pop();
        }
        assert(line@ =~= strip_cr(text@.subrange(pos as int, end as int)));
        let ghost before = lines@;
        let ghost line_view = line@;
        let ghost pos0 = pos;
        lines.push(line);
        proof {
            assert(rows_of(lines@) =~= rows_of(before) + seq![line_view]);
        }
        pos = if end < n {
            end + 1
        } else {
            n
        };
        proof {
            assert(lines_from(text@, n as int) =~= Seq::<Seq<char>>::empty());
            assert(lines_from(text@, pos0 as int) =~= seq![line_view] + lines_from(text@, pos as int));
            assert(rows_of(lines@) + lines_from(text@, pos as int) =~= rows_of(before) + lines_from(
                text@,
                pos0 as int,
            ));
        }
    }
    proof {
        assert(rows_of(lines@) + lines_from(text@, n as int) =~= rows_of(lines@));
    }
    lines
}

/// Reads the tiles of the lines of a text, or reports the first character that
/// is not in the lexicon.
pub fn read_tiles(lines: &Vec<Vec<char>>) -> (r: Result<Vec<Vec<Tile>>, PipeError>)
    ensures
        r is Ok <==> is_readable(rows_of(lines@)),
        match r {
            Ok(tiles) => rows_of(tiles@) == tiles_of(rows_of(lines@)),
            Err(PipeError::InvalidTile { at }) => is_first_unreadable(rows_of(lines@), at),
            Err(_) => false,
        },
{
    let ghost all = rows_of(lines@);
    let mut tiles: Vec<Vec<Tile>> = Vec::new();
    let mut r: usize = 0;
    while r < lines.len()
        invariant
            r <= lines@.len(),
            all == rows_of(lines@),
            tiles@.len() == r,
            forall|k: int, c: int|
                0 <= k < r && 0 <= c < all[k].len() ==> Tile::spec_from_char(#[trigger] all[k][c]) is Some,
            forall|k: int| 0 <= k < r ==> (#[trigger] tiles@[k])@ == tiles_of(all)[k],
        decreases lines@.len() - r,
    {
        let line = &lines[r];
        assert(line@ == all[r as int]);
        let mut row: Vec<Tile> = Vec::new();
        let mut c: usize = 0;
        while c < line.len()
            invariant
                r < lines@.len(),
                all == rows_of(lines@),
                line@ == all[r as int],
                c <= line@.len(),
                row@.len() == c,
                forall|k: int, j: int|
                    0 <= k < r && 0 <= j < all[k].len() ==> Tile::spec_from_char(
                        #[trigger] all[k][j],
                    ) is Some,
                forall|j: int| 0 <= j < c ==> Tile::spec_from_char(#[trigger] line@[j]) is Some,
                forall|j: int| 0 <= j < c ==> #[trigger] row@[j] == tile_of(line@[j]),
            decreases line@.len() - c,
        {
            match Tile::from_char(line[c]) {
                Some(t) => {
                    row.push(t);
                },
                None => {
                    let at = Position { row: r, col: c };
                    assert(Tile::spec_from_char(all[r as int][c as int]) is None);
                    return Err(PipeError::InvalidTile { at });
                },
            }
            c += 1;
        }
        proof {
            assert(row@ =~= tiles_of(all)[r as int]);
        }
        tiles.push(row);
        r += 1;
    }
    proof {
        assert(rows_of(tiles@) =~= tiles_of(all));
    }
    Ok(tiles)
}

impl Grid {
    /// Reads a grid from text.
    ///
    /// Succeeds exactly when the text is a grid, and then returns the grid it
    /// describes. Otherwise it reports the fault: the first character that is
    /// not a tile; else the first line that is not as long as the first; else
    /// that there is no start; else the second start.
    pub fn parse(text: &str) -> (r: Result<Grid, PipeError>)
        ensures
            r is Ok <==> is_grid_text(text@),
            match r {
                Ok(grid) => grid.wf() && grid@ == maze_of(text@),
                Err(e) => is_parse_fault(text@, e),
            },
    {
        let chars = chars_of(text);
        let lines = split_lines(&chars);
        let tiles = match read_tiles(&lines) {
            Ok(tiles) => tiles,
            Err(e) => {
                return Err(e);
            },
        };
        match Grid::from_rows(&tiles) {
            Ok(grid) => {
                proof {
                    let p = start_of(grid@.tiles);
                    assert(grid@.contains(grid@.start) && grid@.tile(grid@.start) == Tile::Start);
                    assert(grid@.contains(p));
                    assert(grid@.tile(p) == Tile::Start);
                }
                Ok(grid)
            },
            Err(e) => Err(e),
        }
    }
}

} // verus!
