use vstd::prelude::*;

verus! {

/// One of the two players.
#[derive(Clone, Copy, Debug, PartialEq, Eq, Structural)]
pub enum Color {
    White,
    Black,
}

impl Color {
    pub open spec fn opposite(self) -> Color {
        match self {
            Color::White => Color::Black,
            Color::Black => Color::White,
        }
    }

    pub fn flip(self) -> (r: Color)
        ensures
            r == self.opposite(),
    {
        match self {
            Color::White => Color::Black,
            Color::Black => Color::White,
        }
    }
}

/// A piece and the player it belongs to.
#[derive(Clone, Copy, Debug, PartialEq, Eq, Structural)]
pub enum Piece {
    Flatstone(Color),
    StandingStone(Color),
    Capstone(Color),
}

impl Piece {
    pub open spec fn color(self) -> Color {
        match self {
            Piece::Flatstone(c) => c,
            Piece::StandingStone(c) => c,
            Piece::Capstone(c) => c,
        }
    }

    /// Whether the piece counts toward a road: flatstones and capstones do.
    pub open spec fn is_road(self) -> bool {
        !(self is StandingStone)
    }

    pub fn get_color(&self) -> (r: Color)
        ensures
            r == self.color(),
    {
        match *self {
            Piece::Flatstone(c) => c,
            Piece::StandingStone(c) => c,
            Piece::Capstone(c) => c,
        }
    }
}

/// A compass direction on the board; north is toward larger y, east toward larger x.
#[derive(Clone, Copy, Debug, PartialEq, Eq, Structural)]
pub enum Direction {
    North,
    East,
    South,
    West,
}

/// The pieces a player has left to place.
#[derive(Clone, Copy, Debug, PartialEq, Eq, Structural)]
pub struct Seat {
    pub color: Color,
    pub flatstone_count: u8,
    pub capstone_count: u8,
}

impl Seat {
    pub fn new(color: Color, flatstone_count: u8, capstone_count: u8) -> (r: Seat)
        ensures
            r == (Seat { color, flatstone_count, capstone_count }),
    {
        Seat { color, flatstone_count, capstone_count }
    }
}

/// A game position: `board[x][y]` is the stack on cell (x, y), bottom piece first.
#[derive(Clone, Debug)]
pub struct State {
    pub p1: Seat,
    pub p2: Seat,
    pub board: Vec<Vec<Vec<Piece>>>,
    pub ply_count: u16,
}

impl State {
    pub open spec fn size(&self) -> int {
        self.board@.len() as int
    }

    /// A square board whose side is between 3 and 8.
    pub open spec fn is_well_formed(&self) -> bool {
        &&& 3 <= self.size() <= 8
        &&& forall|x: int| 0 <= x < self.size() ==> #[trigger] self.board@[x]@.len() == self.size()
    }

    pub open spec fn stack(&self, x: int, y: int) -> Seq<Piece> {
        self.board@[x]@[y]@
    }

    /// White moves on even ply counts, Black on odd ones.
    pub open spec fn to_move(&self) -> Color {
        if self.ply_count % 2 == 0 {
            Color::White
        } else {
            Color::Black
        }
    }

    /// White plays from `p1`, Black from `p2`.
    pub open spec fn seat_of(&self, c: Color) -> Seat {
        if c == Color::White {
            self.p1
        } else {
            self.p2
        }
    }
}

/// Something that chooses the next ply of a game: a person at a prompt, or a search.
pub trait Player {
    fn get_move(&mut self, state: &State) -> crate::ply::Ply;
}

} // verus!
