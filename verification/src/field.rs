//! The content of a single square and the movement geometry of a piece.

use vstd::prelude::*;
use vstd::string::StringExecFns;

verus! {

/// The two sides of the game.
#[derive(Copy, Clone, PartialEq, Eq, Debug, Structural)]
pub enum Colour {
    Black,
    White,
}

/// What a piece is allowed to do: a pawn steps forward only, a queen slides
/// along any diagonal.
#[derive(Copy, Clone, PartialEq, Eq, Debug, Structural)]
pub enum Role {
    Pawn,
    Queen,
}

/// The content of one square.
#[derive(Copy, Clone, PartialEq, Eq, Debug, Structural)]
pub enum Field {
    Piece(Role, Colour),
    Empty,
}

impl Colour {
    /// The opposing side.
    pub open spec fn spec_invert(self) -> Colour {
        match self {
            Colour::Black => Colour::White,
            Colour::White => Colour::Black,
        }
    }

    /// Swaps Black and White. Inverting twice gives the colour back.
    pub fn invert(&self) -> (r: Colour)
        ensures
            r == self.spec_invert(),
            r != *self,
            r.spec_invert() == *self,
    {
        match self {
            Colour::Black => Colour::White,
            Colour::White => Colour::Black,
        }
    }
}

/// `x` moved into the range from `low` to `high`.
pub open spec fn clamp(x: int, low: int, high: int) -> int {
    if x < low {
        low
    } else if x > high {
        high
    } else {
        x
    }
}

impl Field {
    pub open spec fn spec_is_queen(self) -> bool {
        self matches Field::Piece(Role::Queen, _)
    }

    pub open spec fn spec_is_white(self) -> bool {
        self matches Field::Piece(_, Colour::White)
    }

    pub open spec fn spec_is_black(self) -> bool {
        self matches Field::Piece(_, Colour::Black)
    }

    pub open spec fn spec_has_colour(self, colour: Colour) -> bool {
        self matches Field::Piece(_, other) && other == colour
    }

    pub open spec fn spec_is_empty(self) -> bool {
        self == Field::Empty
    }

    /// A piece becomes a queen of its own colour; an empty square stays empty.
    pub open spec fn spec_promoted(self) -> Field {
        match self {
            Field::Piece(_, colour) => Field::Piece(Role::Queen, colour),
            Field::Empty => Field::Empty,
        }
    }

    /// The sign of a forward row step: White climbs towards row 0, Black
    /// descends towards row 7, and an empty square has no direction.
    pub open spec fn spec_direction(self) -> int {
        match self {
            Field::Empty => 0,
            Field::Piece(_, Colour::White) => -1,
            Field::Piece(_, Colour::Black) => 1,
        }
    }

    /// The one row step a pawn of this colour takes: a single row for a
    /// simple move, two rows for a jump.
    pub open spec fn pawn_dy(self, jump: bool) -> int {
        if jump {
            2 * self.spec_direction()
        } else {
            self.spec_direction()
        }
    }

    /// The smallest row displacement this square's content may make.
    pub open spec fn spec_min_dy(self, jump: bool) -> int {
        if self.spec_is_queen() {
            -7
        } else {
            self.pawn_dy(jump)
        }
    }

    /// The largest row displacement this square's content may make.
    pub open spec fn spec_max_dy(self, jump: bool) -> int {
        if self.spec_is_queen() {
            7
        } else {
            self.pawn_dy(jump)
        }
    }

    /// The smallest row displacement to scan from row `row`: `spec_min_dy`
    /// clamped between `-row` and 7, so that the target row is not above the
    /// board.
    pub open spec fn spec_min_step(self, row: int, jump: bool) -> int {
        clamp(self.spec_min_dy(jump), -row, 7)
    }

    /// The largest row displacement to scan from row `row`: `spec_max_dy`
    /// clamped between -7 and `7 - row`, so that the target row is not below
    /// the board.
    pub open spec fn spec_max_step(self, row: int, jump: bool) -> int {
        clamp(self.spec_max_dy(jump), -7, 7 - row)
    }

    /// The character a square is drawn with.
    pub open spec fn symbol(self) -> char {
        match self {
            Field::Empty => '-',
            Field::Piece(Role::Queen, Colour::White) => 'W',
            Field::Piece(Role::Pawn, Colour::White) => 'w',
            Field::Piece(Role::Queen, Colour::Black) => 'B',
            Field::Piece(Role::Pawn, Colour::Black) => 'b',
        }
    }

    pub fn is_queen(&self) -> (r: bool)
        ensures
            r == self.spec_is_queen(),
    {
        match self {
            Field::Piece(Role::Queen, _) => true,
            _ => false,
        }
    }

    pub fn is_white(&self) -> (r: bool)
        ensures
            r == self.spec_is_white(),
    {
        match self {
            Field::Piece(_, Colour::White) => true,
            _ => false,
        }
    }

    pub fn is_black(&self) -> (r: bool)
        ensures
            r == self.spec_is_black(),
    {
        match self {
            Field::Piece(_, Colour::Black) => true,
            _ => false,
        }
    }

    /// True exactly for a piece of the given colour.
    pub fn has_colour(&self, colour: Colour) -> (r: bool)
        ensures
            r == self.spec_has_colour(colour),
            r == (*self == Field::Piece(Role::Pawn, colour) || *self == Field::Piece(
                Role::Queen,
                colour,
            )),
    {
        match self {
            Field::Piece(_, other) => *other == colour,
            Field::Empty => false,
        }
    }

    pub fn is_empty(&self) -> (r: bool)
        ensures
            r == self.spec_is_empty(),
            r == !(self.spec_is_white() || self.spec_is_black()),
    {
        match self {
            Field::Empty => true,
            _ => false,
        }
    }

    /// Promotion keeps the colour and the occupancy of a square, always
    /// yields a queen for a piece, and is idempotent.
    pub fn promoted(self) -> (r: Field)
        ensures
            r == self.spec_promoted(),
            r.spec_is_empty() == self.spec_is_empty(),
            r.spec_is_white() == self.spec_is_white(),
            r.spec_is_black() == self.spec_is_black(),
            r.spec_is_queen() == !self.spec_is_empty(),
            r.spec_promoted() == r,
    {
        match self {
            Field::Piece(_, colour) => Field::Piece(Role::Queen, colour),
            Field::Empty => self,
        }
    }

    pub fn direction(&self) -> (r: i32)
        ensures
            r == self.spec_direction(),
            r == -1 <==> self.spec_is_white(),
            r == 1 <==> self.spec_is_black(),
            r == 0 <==> self.spec_is_empty(),
    {
        match self {
            Field::Empty => 0,
            Field::Piece(_, Colour::White) => -1,
            Field::Piece(_, Colour::Black) => 1,
        }
    }

    pub fn min_dy(&self, jump: bool) -> (r: i32)
        ensures
            r == self.spec_min_dy(jump),
            -7 <= r <= 2,
    {
        if self.is_queen() {
            -7
        } else if jump {
            2 * self.direction()
        } else {
            self.direction()
        }
    }

    pub fn max_dy(&self, jump: bool) -> (r: i32)
        ensures
            r == self.spec_max_dy(jump),
            -2 <= r <= 7,
            self.spec_min_dy(jump) <= r,
    {
        if self.is_queen() {
            7
        } else if jump {
            2 * self.direction()
        } else {
            self.direction()
        }
    }

    /// The lower end of the row displacements to scan from row `row`.
    pub fn min_step(&self, row: i32, jump: bool) -> (r: i32)
        requires
            0 <= row <= 7,
        ensures
            r == self.spec_min_step(row as int, jump),
            0 <= row + r,
    {
        let dy = self.min_dy(jump);
        if dy < -row {
            -row
        } else {
            dy
        }
    }

    /// The upper end of the row displacements to scan from row `row`.
    pub fn max_step(&self, row: i32, jump: bool) -> (r: i32)
        requires
            0 <= row <= 7,
        ensures
            r == self.spec_max_step(row as int, jump),
            row + r <= 7,
    {
        let dy = self.max_dy(jump);
        if dy > 7 - row {
            7 - row
        } else {
            dy
        }
    }

    /// The square as text: its one-character symbol.
    pub fn to_string(&self) -> (s: String)
        ensures
            s@ == seq![self.symbol()],
    {
        proof {
            reveal_strlit("-");
            reveal_strlit("W");
            reveal_strlit("w");
            reveal_strlit("B");
            reveal_strlit("b");
        }
        let text = match self {
            Field::Empty => "-",
            Field::Piece(Role::Queen, Colour::White) => "W",
            Field::Piece(Role::Pawn, Colour::White) => "w",
            Field::Piece(Role::Queen, Colour::Black) => "B",
            Field::Piece(Role::Pawn, Colour::Black) => "b",
        };
        assert(text@ =~= seq![self.symbol()]);
        String::from_str(text)
    }
}

} // verus!
