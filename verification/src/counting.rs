//! How moves change the number of pieces on a path and on the board.

use vstd::prelude::*;
use crate::board::{
    all_squares,
    count_occupied,
    crowned,
    initial_position,
    movable,
    moved,
    occupancy,
    pieces,
    swept,
};
use crate::field::{Colour, Field, Role};
use crate::geometry::{lemma_path_shape, on_board, path, same_diagonal};

verus! {

/// Positions that are occupied on the same squares have the same counts.
pub proof fn lemma_count_by_occupancy(f: Seq<Field>, g: Seq<Field>, squares: Seq<int>)
    requires
        forall|k: int|
            0 <= k < squares.len() ==> occupancy(f[#[trigger] squares[k]]) == occupancy(
                g[squares[k]],
            ),
    ensures
        count_occupied(f, squares) == count_occupied(g, squares),
    decreases squares.len(),
{
    if squares.len() > 0 {
        let rest = squares.drop_last();
        assert forall|k: int| 0 <= k < rest.len() implies occupancy(f[#[trigger] rest[k]])
            == occupancy(g[rest[k]]) by {
            assert(rest[k] == squares[k]);
        }
        lemma_count_by_occupancy(f, g, rest);
        assert(squares.last() == squares[squares.len() - 1]);
    }
}

/// Changing one square changes the count of a duplicate-free list by the
/// change of that square's occupancy, if the list holds the square.
pub proof fn lemma_count_update(f: Seq<Field>, squares: Seq<int>, i: int, field: Field)
    requires
        0 <= i < f.len(),
        squares.no_duplicates(),
        forall|k: int| 0 <= k < squares.len() ==> 0 <= #[trigger] squares[k] < f.len(),
    ensures
        count_occupied(f.update(i, field), squares) + (if squares.contains(i) {
            occupancy(f[i])
        } else {
            0
        }) == count_occupied(f, squares) + (if squares.contains(i) {
            occupancy(field)
        } else {
            0
        }),
    decreases squares.len(),
{
    if squares.len() > 0 {
        let rest = squares.drop_last();
        let last = squares.last();
        assert(forall|k: int| 0 <= k < rest.len() ==> rest[k] == squares[k]);
        lemma_count_update(f, rest, i, field);
        assert(squares[squares.len() - 1] == last);
        if rest.contains(i) {
            let k = choose|k: int| 0 <= k < rest.len() && rest[k] == i;
            assert(squares[k] == i);
            assert(last != i);
        } else if squares.contains(i) {
            let k = choose|k: int| 0 <= k < squares.len() && squares[k] == i;
            assert(k == squares.len() - 1);
        } else {
            assert(last != i);
        }
    }
}

/// Emptying a duplicate-free list of squares takes off the board exactly
/// the pieces that stood on them, and leaves none on them.
pub proof fn lemma_swept_pieces(f: Seq<Field>, squares: Seq<int>)
    requires
        f.len() == 64,
        squares.no_duplicates(),
        forall|k: int| 0 <= k < squares.len() ==> on_board(#[trigger] squares[k]),
    ensures
        pieces(swept(f, squares)) + count_occupied(f, squares) == pieces(f),
        count_occupied(swept(f, squares), squares) == 0,
    decreases squares.len(),
{
    assert forall|k: int| 0 <= k < squares.len() implies swept(f, squares)[#[trigger] squares[k]]
        == Field::Empty by {
        assert(squares.contains(squares[k]));
    }
    lemma_count_none(swept(f, squares), squares);
    if squares.len() == 0 {
        assert(swept(f, squares) =~= f);
    } else {
        let rest = squares.drop_last();
        let last = squares.last();
        assert(forall|k: int| 0 <= k < rest.len() ==> rest[k] == squares[k]);
        assert(squares[squares.len() - 1] == last);
        lemma_swept_pieces(f, rest);
        assert(!rest.contains(last));
        assert forall|i: int| squares.contains(i) <==> rest.contains(i) || i == last by {
            if rest.contains(i) {
                let k = choose|k: int| 0 <= k < rest.len() && rest[k] == i;
                assert(squares[k] == i);
            }
        }
        assert(swept(f, squares) =~= swept(f, rest).update(last, Field::Empty));
        lemma_all_squares();
        lemma_count_update(swept(f, rest), all_squares(), last, Field::Empty);
    }
}

/// Nothing is counted where every listed square is empty.
pub proof fn lemma_count_none(f: Seq<Field>, squares: Seq<int>)
    requires
        forall|k: int| 0 <= k < squares.len() ==> f[#[trigger] squares[k]] == Field::Empty,
    ensures
        count_occupied(f, squares) == 0,
    decreases squares.len(),
{
    if squares.len() > 0 {
        let rest = squares.drop_last();
        assert(forall|k: int| 0 <= k < rest.len() ==> rest[k] == squares[k]);
        lemma_count_none(f, rest);
        assert(squares[squares.len() - 1] == squares.last());
    }
}

/// The list of all squares names each square of the board once.
pub proof fn lemma_all_squares()
    ensures
        all_squares().no_duplicates(),
        all_squares().len() == 64,
        forall|i: int| on_board(i) <==> all_squares().contains(i),
        forall|k: int| 0 <= k < 64 ==> #[trigger] all_squares()[k] == k,
{
    assert forall|i: int| on_board(i) implies all_squares().contains(i) by {
        assert(all_squares()[i] == i);
    }
}

/// The squares of a diagonal path are pairwise different.
pub proof fn lemma_path_no_duplicates(start: int, end: int)
    requires
        on_board(start),
        on_board(end),
    ensures
        path(start, end).no_duplicates(),
        forall|k: int| 0 <= k < path(start, end).len() ==> on_board(#[trigger] path(start, end)[k]),
        same_diagonal(start, end) ==> path(start, end).contains(start) && path(
            start,
            end,
        ).contains(end),
{
    if same_diagonal(start, end) {
        lemma_path_shape(start, end);
        let p = path(start, end);
        assert(p[0] == start);
        assert(p[p.len() - 1] == end);
    }
}

/// The balance of a move. On the board, the pieces of the path leave and
/// the traveller comes back; on the path, only the traveller is left.
/// Without a common diagonal nothing is swept: the content of `start` is
/// set down on `end` over whatever stood there.
pub proof fn lemma_moved_pieces(f: Seq<Field>, start: int, end: int)
    requires
        f.len() == 64,
        on_board(start),
        on_board(end),
    ensures
        same_diagonal(start, end) ==> pieces(moved(f, start, end)) + count_occupied(
            f,
            path(start, end),
        ) == pieces(f) + occupancy(f[start]),
        same_diagonal(start, end) ==> count_occupied(moved(f, start, end), path(start, end))
            == occupancy(f[start]),
        !same_diagonal(start, end) ==> pieces(moved(f, start, end)) + occupancy(f[end]) == pieces(
            f,
        ) + occupancy(f[start]),
{
    let p = path(start, end);
    let cleared = swept(f, p);
    let set_down = cleared.update(end, f[start]);
    lemma_path_no_duplicates(start, end);
    lemma_swept_pieces(f, p);
    lemma_all_squares();
    lemma_count_update(cleared, all_squares(), end, f[start]);
    lemma_count_update(cleared, p, end, f[start]);
    lemma_count_by_occupancy(crowned(set_down), set_down, all_squares());
    lemma_count_by_occupancy(crowned(set_down), set_down, p);
    if !same_diagonal(start, end) {
        assert(cleared =~= f);
    }
}

/// The number of pieces a move takes: one for a jump, none for a simple
/// move.
pub open spec fn taken(jump: bool) -> int {
    if jump {
        1
    } else {
        0
    }
}

/// An allowed step of a piece keeps the number of pieces on the board if
/// it is a simple move and lowers it by one if it is a jump; the path loses
/// as many pieces as the board. The start must hold a piece: from an empty
/// start, a path with one piece on it passes for a simple move, and carrying
/// nothing along it takes that piece off the board.
pub proof fn law_step_pieces(f: Seq<Field>, start: int, end: int, jump: bool)
    requires
        f.len() == 64,
        on_board(start),
        on_board(end),
        f[start] != Field::Empty,
        movable(f, start, end, jump),
    ensures
        same_diagonal(start, end),
        pieces(moved(f, start, end)) == pieces(f) - taken(jump),
        count_occupied(moved(f, start, end), path(start, end)) == count_occupied(
            f,
            path(start, end),
        ) - taken(jump),
        count_occupied(f, path(start, end)) == 1 + taken(jump),
{
    lemma_moved_pieces(f, start, end);
}

/// Counting one square more adds what stands on it.
pub proof fn lemma_count_push(f: Seq<Field>, squares: Seq<int>, square: int)
    ensures
        count_occupied(f, squares.push(square)) == count_occupied(f, squares) + occupancy(
            f[square],
        ),
{
    assert(squares.push(square).drop_last() =~= squares);
}

/// The pieces of the rows up to row `r` are those of the rows above it and
/// those on its eight squares.
pub proof fn lemma_count_row(f: Seq<Field>, r: int)
    requires
        0 <= r < 8,
    ensures
        count_occupied(f, all_squares().take(8 * r + 8)) == count_occupied(
            f,
            all_squares().take(8 * r),
        ) + occupancy(f[8 * r]) + occupancy(f[8 * r + 1]) + occupancy(f[8 * r + 2]) + occupancy(
            f[8 * r + 3],
        ) + occupancy(f[8 * r + 4]) + occupancy(f[8 * r + 5]) + occupancy(f[8 * r + 6])
            + occupancy(f[8 * r + 7]),
{
    let all = all_squares();
    assert forall|c: int| 0 <= c < 8 implies count_occupied(f, #[trigger] all.take(8 * r + c + 1))
        == count_occupied(f, all.take(8 * r + c)) + occupancy(f[8 * r + c]) by {
        assert(all.take(8 * r + c + 1) =~= all.take(8 * r + c).push(8 * r + c));
        lemma_count_push(f, all.take(8 * r + c), 8 * r + c);
    }
    assert(all.take(8 * r + 0 + 1) == all.take(8 * r + 1));
    assert(all.take(8 * r + 1 + 1) == all.take(8 * r + 2));
    assert(all.take(8 * r + 2 + 1) == all.take(8 * r + 3));
    assert(all.take(8 * r + 3 + 1) == all.take(8 * r + 4));
    assert(all.take(8 * r + 4 + 1) == all.take(8 * r + 5));
    assert(all.take(8 * r + 5 + 1) == all.take(8 * r + 6));
    assert(all.take(8 * r + 6 + 1) == all.take(8 * r + 7));
    assert(all.take(8 * r + 7 + 1) == all.take(8 * r + 8));
    assert(all.take(8 * r + 0) == all.take(8 * r));
}

/// The starting position holds 24 pieces and no queen: 12 Black pawns on
/// rows 0 to 2, nothing on rows 3 and 4, and 12 White pawns on rows 5 to 7.
pub proof fn law_initial_layout()
    ensures
        pieces(initial_position()) == 24,
        count_occupied(initial_position(), all_squares().take(24)) == 12,
        count_occupied(initial_position(), all_squares().take(40)) == 12,
        forall|i: int|
            0 <= i < 24 ==> #[trigger] initial_position()[i] == Field::Empty || initial_position()[i]
                == Field::Piece(Role::Pawn, Colour::Black),
        forall|i: int| 24 <= i < 40 ==> #[trigger] initial_position()[i] == Field::Empty,
        forall|i: int|
            40 <= i < 64 ==> #[trigger] initial_position()[i] == Field::Empty || initial_position()[i]
                == Field::Piece(Role::Pawn, Colour::White),
{
    let f = initial_position();
    let all = all_squares();
    assert(all.take(0) =~= Seq::empty());
    assert(all.take(64) =~= all);
    lemma_count_row(f, 0);
    lemma_count_row(f, 1);
    lemma_count_row(f, 2);
    lemma_count_row(f, 3);
    lemma_count_row(f, 4);
    lemma_count_row(f, 5);
    lemma_count_row(f, 6);
    lemma_count_row(f, 7);
}

} // verus!
