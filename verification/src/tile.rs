//! Connector tiles and the four compass directions they link.

use vstd::prelude::*;

verus! {

/// A direction of travel on the grid. North is towards row 0, west towards column 0.
#[derive(Clone, Copy, Debug, PartialEq, Eq, Hash, Structural)]
pub enum Direction {
    North,
    South,
    West,
    East,
}

impl Direction {
    /// The direction pointing the other way.
    pub open spec fn spec_opposite(self) -> Direction {
        match self {
            Direction::North => Direction::South,
            Direction::South => Direction::North,
            Direction::West => Direction::East,
            Direction::East => Direction::West,
        }
    }

    #[verifier::when_used_as_spec(spec_opposite)]
    pub fn opposite(self) -> (d: Direction)
        ensures
            d == self.spec_opposite(),
    {
        match self {
            Direction::North => Direction::South,
            Direction::South => Direction::North,
            Direction::West => Direction::East,
            Direction::East => Direction::West,
        }
    }
}

/// One cell of the grid: a connector shape, bare ground, or the start marker.
#[derive(Clone, Copy, Debug, PartialEq, Eq, Hash, Structural)]
pub enum Tile {
    VerticalPipe,
    HorizontalPipe,
    BendNorthEast,
    BendNorthWest,
    BendSouthWest,
    BendSouthEast,
    Ground,
    Start,
}

impl Tile {
    /// The one-character lexicon of the text format.
    pub open spec fn spec_from_char(c: char) -> Option<Tile> {
        if c == '|' {
            Some(Tile::VerticalPipe)
        } else if c == '-' {
            Some(Tile::HorizontalPipe)
        } else if c == 'L' {
            Some(Tile::BendNorthEast)
        } else if c == 'J' {
            Some(Tile::BendNorthWest)
        } else if c == '7' {
            Some(Tile::BendSouthWest)
        } else if c == 'F' {
            Some(Tile::BendSouthEast)
        } else if c == '.' {
            Some(Tile::Ground)
        } else if c == 'S' {
            Some(Tile::Start)
        } else {
            None
        }
    }

    /// The character a tile is written as.
    pub open spec fn spec_to_char(self) -> char {
        match self {
            Tile::VerticalPipe => '|',
            Tile::HorizontalPipe => '-',
            Tile::BendNorthEast => 'L',
            Tile::BendNorthWest => 'J',
            Tile::BendSouthWest => '7',
            Tile::BendSouthEast => 'F',
            Tile::Ground => '.',
            Tile::Start => 'S',
        }
    }

    /// The fixed pair of directions a connector shape links, first the
    /// north-south one where there is one. Ground links nothing, and the start
    /// marker has no shape of its own.
    pub open spec fn spec_connections(self) -> Option<(Direction, Direction)> {
        match self {
            Tile::VerticalPipe => Some((Direction::North, Direction::South)),
            Tile::HorizontalPipe => Some((Direction::West, Direction::East)),
            Tile::BendNorthEast => Some((Direction::North, Direction::East)),
            Tile::BendNorthWest => Some((Direction::North, Direction::West)),
            Tile::BendSouthWest => Some((Direction::South, Direction::West)),
            Tile::BendSouthEast => Some((Direction::South, Direction::East)),
            Tile::Ground => None,
            Tile::Start => None,
        }
    }

    /// Whether the shape has an arm pointing in direction `d`.
    pub open spec fn spec_connects(self, d: Direction) -> bool {
        match self.spec_connections() {
            Some((a, b)) => d == a || d == b,
            None => false,
        }
    }

    /// Reads one character of the text format.
    pub fn from_char(c: char) -> (t: Option<Tile>)
        ensures
            t == Tile::spec_from_char(c),
    {
        if c == '|' {
            Some(Tile::VerticalPipe)
        } else if c == '-' {
            Some(Tile::HorizontalPipe)
        } else if c == 'L' {
            Some(Tile::BendNorthEast)
        } else if c == 'J' {
            Some(Tile::BendNorthWest)
        } else if c == '7' {
            Some(Tile::BendSouthWest)
        } else if c == 'F' {
            Some(Tile::BendSouthEast)
        } else if c == '.' {
            Some(Tile::Ground)
        } else if c == 'S' {
            Some(Tile::Start)
        } else {
            None
        }
    }

    /// Reads a tile from a string, which must hold exactly one character of the
    /// lexicon.
    pub fn from_str(s: &str) -> (t: Result<Tile, ()>)
        ensures
            t is Ok <==> s@.len() == 1 && Tile::spec_from_char(s@[0]) is Some,
            t is Ok ==> Some(t->Ok_0) == Tile::spec_from_char(s@[0]),
    {
        if s.unicode_len() != 1 {
            return Err(());
        }
        match Tile::from_char(s.get_char(0)) {
            Some(t) => Ok(t),
            None => Err(()),
        }
    }

    #[verifier::when_used_as_spec(spec_to_char)]
    pub fn to_char(self) -> (c: char)
        ensures
            c == self.spec_to_char(),
    {
        match self {
            Tile::VerticalPipe => '|',
            Tile::HorizontalPipe => '-',
            Tile::BendNorthEast => 'L',
            Tile::BendNorthWest => 'J',
            Tile::BendSouthWest => '7',
            Tile::BendSouthEast => 'F',
            Tile::Ground => '.',
            Tile::Start => 'S',
        }
    }

    #[verifier::when_used_as_spec(spec_connections)]
    pub fn connections(self) -> (pair: Option<(Direction, Direction)>)
        ensures
            pair == self.spec_connections(),
    {
        match self {
            Tile::VerticalPipe => Some((Direction::North, Direction::South)),
            Tile::HorizontalPipe => Some((Direction::West, Direction::East)),
            Tile::BendNorthEast => Some((Direction::North, Direction::East)),
            Tile::BendNorthWest => Some((Direction::North, Direction::West)),
            Tile::BendSouthWest => Some((Direction::South, Direction::West)),
            Tile::BendSouthEast => Some((Direction::South, Direction::East)),
            Tile::Ground => None,
            Tile::Start => None,
        }
    }

    #[verifier::when_used_as_spec(spec_connects)]
    pub fn connects(self, d: Direction) -> (b: bool)
        ensures
            b == self.spec_connects(d),
    {
        match self.connections() {
            Some((a, b)) => d == a || d == b,
            None => false,
        }
    }
}

/// Writing a tile and reading it back gives the same tile.
pub proof fn lemma_char_round_trip(t: Tile)
    ensures
        Tile::spec_from_char(t.spec_to_char()) == Some(t),
{
}

} // verus!
