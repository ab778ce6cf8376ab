//! The board: 64 squares in row-major order, and the application of a
//! single move.
//!
//! A position is modelled as a `Seq<Field>` of length 64. The `spec`
//! functions in this module work on that model; every executable method of
//! `Board` is proved to compute them.

use vstd::prelude::*;
use vstd::std_specs::cmp::PartialEqSpecImpl;
use vstd::string::StringExecFns;
use crate::field::{Colour, Field, Role};
use crate::geometry::{abs, col, dark, diagonal_step, on_board, path, path_len, row, same_diagonal};
use crate::geometry::{lemma_path_shape, lemma_path_square};

verus! {

/// The content of square `i` in the starting position: Black pawns on the
/// dark squares of rows 0 to 2, White pawns on those of rows 5 to 7.
pub open spec fn initial_field(i: int) -> Field {
    if dark(i) && row(i) <= 2 {
        Field::Piece(Role::Pawn, Colour::Black)
    } else if dark(i) && row(i) >= 5 {
        Field::Piece(Role::Pawn, Colour::White)
    } else {
        Field::Empty
    }
}

/// The starting position.
pub open spec fn initial_position() -> Seq<Field> {
    Seq::new(64, |i: int| initial_field(i))
}

/// The position without any piece.
pub open spec fn empty_position() -> Seq<Field> {
    Seq::new(64, |i: int| Field::Empty)
}

/// A position is regular when every piece stands on a dark square.
pub open spec fn regular(fields: Seq<Field>) -> bool {
    forall|i: int| 0 <= i < fields.len() && !dark(i) ==> #[trigger] fields[i] == Field::Empty
}

/// True when a piece on square `i` has reached the far row of its colour:
/// row 0 for White, row 7 for Black.
pub open spec fn on_far_row(fields: Seq<Field>, i: int) -> bool {
    (row(i) == 0 && fields[i].spec_is_white()) || (row(i) == 7 && fields[i].spec_is_black())
}

/// The position after every piece on its far row has been promoted.
pub open spec fn crowned(fields: Seq<Field>) -> Seq<Field> {
    Seq::new(
        fields.len(),
        |i: int|
            if on_far_row(fields, i) {
                fields[i].spec_promoted()
            } else {
                fields[i]
            },
    )
}

/// What a square adds to a count of pieces: 1 if it holds one, else 0.
pub open spec fn occupancy(field: Field) -> nat {
    if field == Field::Empty {
        0
    } else {
        1
    }
}

/// How many of the listed squares hold a piece.
pub open spec fn count_occupied(fields: Seq<Field>, squares: Seq<int>) -> nat
    decreases squares.len(),
{
    if squares.len() == 0 {
        0
    } else {
        count_occupied(fields, squares.drop_last()) + occupancy(fields[squares.last()])
    }
}

/// The position with every listed square emptied.
pub open spec fn swept(fields: Seq<Field>, squares: Seq<int>) -> Seq<Field> {
    Seq::new(
        fields.len(),
        |i: int|
            if squares.contains(i) {
                Field::Empty
            } else {
                fields[i]
            },
    )
}

/// The position after the content of `start` has travelled to `end`: the
/// whole path between them is emptied, both ends included, the traveller is
/// set down on `end`, and pieces on their far row are promoted. Where the two
/// squares share no diagonal there is no path and nothing is emptied.
pub open spec fn moved(fields: Seq<Field>, start: int, end: int) -> Seq<Field> {
    crowned(swept(fields, path(start, end)).update(end, fields[start]))
}

/// The least distance of a move, which is also the number of pieces that
/// its path must hold: the traveller alone for a simple move, the traveller
/// and the piece it takes for a jump.
pub open spec fn min_distance(jump: bool) -> int {
    if jump {
        2
    } else {
        1
    }
}

/// Whether the step from `start` to `end` is allowed: the target is empty,
/// the index distance taken modulo 8 reaches the minimum, and the path holds
/// exactly as many pieces as the kind of move asks for.
pub open spec fn movable(fields: Seq<Field>, start: int, end: int, jump: bool) -> bool {
    &&& fields[end] == Field::Empty
    &&& abs(start - end) % 8 >= min_distance(jump)
    &&& count_occupied(fields, path(start, end)) == min_distance(jump)
}

/// The one target `end`, if it is a square and the step to it is allowed.
pub open spec fn target_if_movable(fields: Seq<Field>, start: int, end: int, jump: bool) -> Seq<
    int,
> {
    if on_board(end) && movable(fields, start, end, jump) {
        seq![end]
    } else {
        Seq::empty()
    }
}

/// The allowed targets among `start + dy * 7` and `start + dy * 9` for the
/// row displacements `dy` from `low` to `high`, by rising `dy`, the offset by
/// sevens before the offset by nines.
pub open spec fn targets(fields: Seq<Field>, start: int, jump: bool, low: int, high: int) -> Seq<
    int,
>
    decreases high - low + 1,
{
    if high < low {
        Seq::empty()
    } else {
        targets(fields, start, jump, low, high - 1) + target_if_movable(
            fields,
            start,
            start + high * 7,
            jump,
        ) + target_if_movable(fields, start, start + high * 9, jump)
    }
}

/// The squares the piece on `start` may travel to in one step. Nothing
/// unless `start` holds a piece of `player`.
pub open spec fn allowed(fields: Seq<Field>, start: int, jump: bool, player: Colour) -> Seq<int> {
    if fields[start].spec_has_colour(player) {
        targets(
            fields,
            start,
            jump,
            fields[start].spec_min_step(row(start), jump),
            fields[start].spec_max_step(row(start), jump),
        )
    } else {
        Seq::empty()
    }
}

/// The board as text, one line of 17 characters per row: for each square a
/// bar and the square's symbol, then a line feed.
pub open spec fn rendered(fields: Seq<Field>) -> Seq<char> {
    Seq::new(
        136,
        |p: int|
            if p % 17 == 16 {
                '\n'
            } else if p % 17 % 2 == 0 {
                '|'
            } else {
                fields[8 * (p / 17) + p % 17 / 2].symbol()
            },
    )
}

/// Every square of the board, in index order.
pub open spec fn all_squares() -> Seq<int> {
    Seq::new(64, |i: int| i)
}

/// The number of pieces in a position.
pub open spec fn pieces(fields: Seq<Field>) -> nat {
    count_occupied(fields, all_squares())
}

/// An 8x8 board. Square `i` lies in row `i / 8` and column `i % 8`.
#[derive(Clone, Copy, Debug)]
pub struct Board([Field; 64]);

impl View for Board {
    type V = Seq<Field>;

    closed spec fn view(&self) -> Seq<Field> {
        self.0@
    }
}

impl PartialEq for Board {
    /// Two boards are equal when all 64 squares agree.
    fn eq(&self, other: &Board) -> (r: bool) {
        proof {
            self.lemma_len();
            other.lemma_len();
        }
        let mut i: usize = 0;
        while i < 64
            invariant
                i <= 64,
                self@.len() == 64,
                other@.len() == 64,
                forall|k: int| 0 <= k < i ==> self@[k] == other@[k],
            decreases 64 - i,
        {
            if self.0[i] != other.0[i] {
                return false;
            }
            i += 1;
        }
        assert(self@ =~= other@);
        true
    }
}

impl PartialEqSpecImpl for Board {
    open spec fn obeys_eq_spec() -> bool {
        true
    }

    open spec fn eq_spec(&self, other: &Board) -> bool {
        self.view() == other.view()
    }
}

impl Eq for Board {

}

impl Board {
    /// Every board has exactly 64 squares.
    pub broadcast proof fn lemma_len(&self)
        ensures
            #[trigger] self@.len() == 64,
    {
    }

    /// The starting position.
    pub fn new() -> (r: Board)
        ensures
            r@ == initial_position(),
            regular(r@),
    {
        let black = Field::Piece(Role::Pawn, Colour::Black);
        let white = Field::Piece(Role::Pawn, Colour::White);
        let empty = Field::Empty;
        let fields = [
            empty, black, empty, black, empty, black, empty, black,
            black, empty, black, empty, black, empty, black, empty,
            empty, black, empty, black, empty, black, empty, black,
            empty, empty, empty, empty, empty, empty, empty, empty,
            empty, empty, empty, empty, empty, empty, empty, empty,
            white, empty, white, empty, white, empty, white, empty,
            empty, white, empty, white, empty, white, empty, white,
            white, empty, white, empty, white, empty, white, empty,
        ];
        assert(fields@ =~= initial_position());
        Board(fields)
    }

    /// A board without pieces, to set positions up on.
    pub fn empty() -> (r: Board)
        ensures
            r@ == empty_position(),
            regular(r@),
    {
        let fields = [Field::Empty;64];
        assert(fields@ =~= empty_position());
        Board(fields)
    }

    /// The same board with square `i` holding `field`.
    pub fn put(self, i: i32, field: Field) -> (r: Board)
        requires
            on_board(i as int),
        ensures
            r@ == self@.update(i as int, field),
            regular(self@) && (dark(i as int) || field == Field::Empty) ==> regular(r@),
    {
        let mut fields = self.0;
        fields[i as usize] = field;
        Board(fields)
    }

    /// The content of square `i`.
    pub fn index(&self, i: i32) -> (r: &Field)
        requires
            on_board(i as int),
        ensures
            *r == self@[i as int],
    {
        &self.0[i as usize]
    }

    /// Promotes every White piece on row 0 and every Black piece on row 7;
    /// all other squares are unchanged.
    pub fn promote_all(self) -> (r: Board)
        ensures
            r@ == crowned(self@),
    {
        let mut fields = self.0;
        let mut i: usize = 0;
        while i < 8
            invariant
                i <= 8,
                fields@.len() == 64,
                forall|k: int|
                    0 <= k < 64 ==> #[trigger] fields@[k] == if k < i || 63 - i < k {
                        crowned(self.0@)[k]
                    } else {
                        self.0@[k]
                    },
            decreases 8 - i,
        {
            if fields[i].is_white() {
                fields[i] = fields[i].promoted();
            }
            if fields[63 - i].is_black() {
                fields[63 - i] = fields[63 - i].promoted();
            }
            i += 1;
        }
        assert(fields@ =~= crowned(self.0@));
        Board(fields)
    }
    /// The squares a move from `start` to `end` passes, `start` first and
    /// `end` last; none where the two share no diagonal.
    pub fn fields_between(start: i32, end: i32) -> (r: Vec<i32>)
        requires
            on_board(start as int),
            on_board(end as int),
        ensures
            r@.len() == path_len(start as int, end as int),
            r@.map_values(|s: i32| s as int) == path(start as int, end as int),
            forall|k: int| 0 <= k < r@.len() ==> on_board(#[trigger] r@[k] as int),
    {
        let dy = end / 8 - start / 8;
        let dx = end % 8 - start % 8;
        let mut squares: Vec<i32> = Vec::new();
        if dy == 0 || (dx != dy && dx != -dy) {
            assert(squares@.map_values(|s: i32| s as int) =~= path(start as int, end as int));
            return squares;
        }
        let step: i32 = if dy > 0 {
            if dx == dy {
                9
            } else {
                7
            }
        } else {
            if dx == dy {
                -9
            } else {
                -7
            }
        };
        let n: i32 = if dy < 0 {
            -dy
        } else {
            dy
        };
        let mut k: i32 = 0;
        let mut square = start;
        while k <= n
            invariant
                on_board(start as int),
                on_board(end as int),
                same_diagonal(start as int, end as int),
                step == diagonal_step(start as int, end as int),
                n == abs(row(end as int) - row(start as int)),
                0 <= k <= n + 1,
                k <= n ==> square == start + k * step,
                squares@.len() == k,
                forall|j: int| 0 <= j < k ==> #[trigger] squares@[j] == start + j * step,
                forall|j: int| 0 <= j < k ==> on_board(#[trigger] squares@[j] as int),
            decreases n + 1 - k,
        {
            proof {
                lemma_path_square(start as int, end as int, k as int);
                assert((k + 1) * step == k * step + step) by (nonlinear_arith);
            }
            squares.push(square);
            k += 1;
            if k <= n {
                proof {
                    lemma_path_square(start as int, end as int, k as int);
                }
                square += step;
            }
        }
        assert(squares@.map_values(|s: i32| s as int) =~= path(start as int, end as int));
        squares
    }

    /// The number of pieces on the path from `start` to `end`.
    pub fn count_pieces(&self, start: i32, end: i32) -> (r: i32)
        requires
            on_board(start as int),
            on_board(end as int),
        ensures
            r == count_occupied(self@, path(start as int, end as int)),
            0 <= r <= 8,
    {
        let squares = Board::fields_between(start, end);
        let ghost whole = path(start as int, end as int);
        let mut count: i32 = 0;
        let mut k: usize = 0;
        while k < squares.len()
            invariant
                k <= squares@.len(),
                squares@.len() == whole.len(),
                whole.len() <= 8,
                squares@.map_values(|s: i32| s as int) == whole,
                forall|j: int| 0 <= j < squares@.len() ==> on_board(#[trigger] squares@[j] as int),
                count == count_occupied(self@, whole.take(k as int)),
                0 <= count <= k,
            decreases squares@.len() - k,
        {
            proof {
                assert(whole.take(k + 1).drop_last() =~= whole.take(k as int));
                assert(whole[k as int] == squares@[k as int] as int);
            }
            if !self.0[squares[k] as usize].is_empty() {
                count += 1;
            }
            k += 1;
        }
        assert(whole.take(k as int) =~= whole);
        count
    }

    /// Whether the content of `start` may travel to `end`.
    pub fn can_move(&self, start: i32, end: i32, jump: bool) -> (r: bool)
        requires
            on_board(start as int),
            on_board(end as int),
        ensures
            r == movable(self@, start as int, end as int, jump),
    {
        let min_distance: i32 = if jump {
            2
        } else {
            1
        };
        let distance: i32 = if start < end {
            end - start
        } else {
            start - end
        };
        let is_free = self.0[end as usize].is_empty();
        let enough_distance = distance % 8 >= min_distance;
        let piece_count_ok = self.count_pieces(start, end) == min_distance;
        is_free && enough_distance && piece_count_ok
    }

    /// Carries the content of `start` to `end`, empties the path between
    /// them and promotes what stands on its far row.
    pub fn move_piece(self, start: i32, end: i32) -> (r: Board)
        requires
            on_board(start as int),
            on_board(end as int),
        ensures
            r@ == moved(self@, start as int, end as int),
    {
        let piece = self.0[start as usize];
        let squares = Board::fields_between(start, end);
        let ghost whole = path(start as int, end as int);
        let mut fields = self.0;
        let mut k: usize = 0;
        while k < squares.len()
            invariant
                k <= squares@.len(),
                squares@.len() == whole.len(),
                squares@.map_values(|s: i32| s as int) == whole,
                forall|j: int| 0 <= j < squares@.len() ==> on_board(#[trigger] squares@[j] as int),
                fields@ == swept(self.0@, whole.take(k as int)),
            decreases squares@.len() - k,
        {
            proof {
                assert(whole[k as int] == squares@[k as int] as int);
                let before = whole.take(k as int);
                let after = whole.take(k + 1);
                assert(after =~= before.push(whole[k as int]));
                assert forall|i: int| after.contains(i) <==> before.contains(i) || i == whole[k as int] by {
                    if before.contains(i) {
                        let j = choose|j: int| 0 <= j < before.len() && before[j] == i;
                        assert(after[j] == i);
                    }
                    if i == whole[k as int] {
                        assert(after[k as int] == i);
                    }
                }
                assert(swept(self.0@, after) =~= swept(self.0@, before).update(
                    whole[k as int],
                    Field::Empty,
                ));
            }
            fields[squares[k] as usize] = Field::Empty;
            k += 1;
        }
        assert(whole.take(k as int) =~= whole);
        fields[end as usize] = piece;
        Board(fields).promote_all()
    }
    /// The squares the piece on `start` may travel to in one step, given
    /// that it is `player`'s turn.
    pub fn allowed_moves(&self, start: i32, jump: bool, player: Colour) -> (r: Vec<i32>)
        requires
            on_board(start as int),
        ensures
            r@.map_values(|s: i32| s as int) == allowed(self@, start as int, jump, player),
            forall|k: int| 0 <= k < r@.len() ==> on_board(#[trigger] r@[k] as int),
    {
        let mut ends: Vec<i32> = Vec::new();
        let piece = self.0[start as usize];
        if !piece.has_colour(player) {
            assert(ends@.map_values(|s: i32| s as int) =~= allowed(
                self@,
                start as int,
                jump,
                player,
            ));
            return ends;
        }
        let low = piece.min_step(start / 8, jump);
        let high = piece.max_step(start / 8, jump);
        let mut dy = low;
        while dy <= high
            invariant
                on_board(start as int),
                -7 <= low <= dy,
                dy <= high + 1 || (high < low && dy == low),
                high <= 7,
                ends@.map_values(|s: i32| s as int) == targets(
                    self@,
                    start as int,
                    jump,
                    low as int,
                    dy - 1,
                ),
                forall|k: int| 0 <= k < ends@.len() ==> on_board(#[trigger] ends@[k] as int),
            decreases high + 1 - dy,
        {
            let ghost before = ends@.map_values(|s: i32| s as int);
            let by_seven = start + dy * 7;
            if 0 <= by_seven && by_seven < 64 && self.can_move(start, by_seven, jump) {
                ends.push(by_seven);
            }
            let ghost between = ends@.map_values(|s: i32| s as int);
            assert(between =~= before + target_if_movable(
                self@,
                start as int,
                start + dy * 7,
                jump,
            ));
            let by_nine = start + dy * 9;
            if 0 <= by_nine && by_nine < 64 && self.can_move(start, by_nine, jump) {
                ends.push(by_nine);
            }
            assert(ends@.map_values(|s: i32| s as int) =~= between + target_if_movable(
                self@,
                start as int,
                start + dy * 9,
                jump,
            ));
            dy += 1;
        }
        assert(dy - 1 == high || high < low);
        ends
    }
    /// The board as text, row by row.
    pub fn to_string(&self) -> (text: String)
        ensures
            text@ == rendered(self@),
    {
        let ghost whole = rendered(self@);
        let mut text = String::new();
        let mut r: usize = 0;
        proof {
            reveal_strlit("|");
            reveal_strlit("\n");
            assert(text@ =~= whole.take(0));
        }
        while r < 8
            invariant
                r <= 8,
                whole == rendered(self@),
                "|"@ == seq!['|'],
                "\n"@ == seq!['\n'],
                text@ == whole.take(17 * r),
            decreases 8 - r,
        {
            let mut c: usize = 0;
            while c < 8
                invariant
                    r < 8,
                    c <= 8,
                    whole == rendered(self@),
                    "|"@ == seq!['|'],
                    "\n"@ == seq!['\n'],
                    text@ == whole.take(17 * r + 2 * c),
                decreases 8 - c,
            {
                let symbol = self.0[r * 8 + c].to_string();
                text.append("|");
                text.append(symbol.as_str());
                proof {
                    let p = 17 * r + 2 * c;
                    assert(whole[p] == '|');
                    assert(whole[p + 1] == self.0@[8 * r + c].symbol());
                    assert(text@ =~= whole.take(p + 2));
                }
                c += 1;
            }
            text.append("\n");
            proof {
                assert(whole[17 * r + 16] == '\n');
                assert(text@ =~= whole.take(17 * (r + 1)));
            }
            r += 1;
        }
        assert(whole.take(136) =~= whole);
        text
    }
}

} // verus!
