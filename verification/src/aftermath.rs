//! What a position looks like after a single move: where pieces stand,
//! which of them are queens, and whether the traveller can go back.

use vstd::prelude::*;
use crate::board::{allowed, count_occupied, min_distance, movable, moved, occupancy, regular};
use crate::counting::{lemma_count_none, lemma_count_update, lemma_path_no_duplicates};
use crate::field::{Colour, Field};
use crate::geometry::{
    dark,
    lemma_path_reverse,
    lemma_path_shape,
    on_board,
    path,
    row,
    same_diagonal,
};
use crate::legal::{
    legal_step,
    lemma_allowed_contains,
    lemma_diagonal_distance,
    lemma_movable_diagonal,
};

verus! {

/// Whether a piece like `field`, standing on `square`, has reached the far
/// row of its colour.
pub open spec fn reaches_far_row(field: Field, square: int) -> bool {
    (row(square) == 0 && field.spec_is_white()) || (row(square) == 7 && field.spec_is_black())
}

/// Square by square, the position after a move. The traveller stands on
/// `end`, promoted if that is its far row. The rest of the path is empty.
/// Every other square holds what it held, promoted if it stands on its far
/// row. So after any move no pawn is left on its far row, and a queen away
/// from the path is still a queen.
pub proof fn law_promotion(f: Seq<Field>, start: int, end: int)
    requires
        f.len() == 64,
        on_board(start),
        on_board(end),
    ensures
        moved(f, start, end).len() == 64,
        moved(f, start, end)[end] == if reaches_far_row(f[start], end) {
            f[start].spec_promoted()
        } else {
            f[start]
        },
        forall|i: int|
            on_board(i) && i != end && path(start, end).contains(i) ==> #[trigger] moved(
                f,
                start,
                end,
            )[i] == Field::Empty,
        forall|i: int|
            on_board(i) && i != end && !path(start, end).contains(i) ==> #[trigger] moved(
                f,
                start,
                end,
            )[i] == if reaches_far_row(f[i], i) {
                f[i].spec_promoted()
            } else {
                f[i]
            },
        forall|i: int|
            on_board(i) && reaches_far_row(#[trigger] moved(f, start, end)[i], i) ==> moved(
                f,
                start,
                end,
            )[i].spec_is_queen(),
        forall|i: int|
            on_board(i) && i != end && !path(start, end).contains(i) && f[i].spec_is_queen()
                ==> #[trigger] moved(f, start, end)[i] == f[i],
{
}

/// A move along a diagonal keeps every piece on the dark squares.
pub proof fn lemma_moved_regular(f: Seq<Field>, start: int, end: int)
    requires
        f.len() == 64,
        on_board(start),
        on_board(end),
        regular(f),
        same_diagonal(start, end),
    ensures
        regular(moved(f, start, end)),
{
    lemma_path_shape(start, end);
    let p = path(start, end);
    assert(p[p.len() - 1] == end);
    assert(dark(end) == dark(start));
    let g = moved(f, start, end);
    assert forall|i: int| 0 <= i < g.len() && !dark(i) implies #[trigger] g[i] == Field::Empty by {
        assert(f[i] == Field::Empty);
        if i == end {
            assert(f[start] == Field::Empty);
        }
    }
}

/// After a move from `start` to `end`, the way back holds the traveller
/// and nothing else.
pub proof fn lemma_way_back_count(f: Seq<Field>, start: int, end: int)
    requires
        f.len() == 64,
        on_board(start),
        on_board(end),
        same_diagonal(start, end),
    ensures
        moved(f, start, end)[start] == Field::Empty,
        occupancy(moved(f, start, end)[end]) == occupancy(f[start]),
        count_occupied(moved(f, start, end), path(end, start)) == occupancy(f[start]),
{
    let g = moved(f, start, end);
    let p = path(start, end);
    let q = path(end, start);
    lemma_path_shape(start, end);
    lemma_path_reverse(start, end);
    lemma_path_no_duplicates(start, end);
    lemma_path_no_duplicates(end, start);
    let bare = g.update(end, Field::Empty);
    assert forall|k: int| 0 <= k < q.len() implies bare[#[trigger] q[k]] == Field::Empty by {
        assert(q[k] == p[p.len() - 1 - k]);
        assert(p.contains(q[k]));
    }
    lemma_count_none(bare, q);
    lemma_count_update(bare, q, end, g[end]);
    assert(bare.update(end, g[end]) =~= g);
    assert(p.contains(start));
}

/// Whether the traveller is offered its old square again, right after a
/// move from `start` to `end`. Never as a jump. As a simple move, if the
/// two squares share a diagonal, the piece belongs to the player asked for
/// and it may travel in that direction: a queen always, a pawn only if it
/// had been carried backwards.
pub proof fn lemma_way_back(
    f: Seq<Field>,
    start: int,
    end: int,
    again: bool,
    mover: Colour,
)
    requires
        f.len() == 64,
        on_board(start),
        on_board(end),
    ensures
        allowed(moved(f, start, end), end, again, mover).contains(start) <==> {
            let piece = moved(f, start, end)[end];
            &&& !again
            &&& same_diagonal(start, end)
            &&& piece.spec_has_colour(mover)
            &&& (piece.spec_is_queen() || row(start) - row(end) == piece.spec_direction())
        },
{
    let g = moved(f, start, end);
    let piece = g[end];
    let offered = allowed(g, end, again, mover).contains(start);
    lemma_allowed_contains(g, end, start, again, mover);
    assert(offered == legal_step(g, end, start, again, mover));
    if same_diagonal(start, end) {
        lemma_way_back_count(f, start, end);
        lemma_path_reverse(start, end);
        lemma_diagonal_distance(end, start);
        assert(movable(g, end, start, again) == (occupancy(piece) == min_distance(again)));
        if again {
            assert(!offered);
        } else if piece.spec_has_colour(mover) {
            assert(movable(g, end, start, again));
            assert(offered == (piece.spec_min_dy(false) <= row(start) - row(end)
                <= piece.spec_max_dy(false)));
        } else {
            assert(!offered);
        }
    } else {
        if movable(g, end, start, again) {
            lemma_movable_diagonal(g, end, start, again);
        }
        assert(!offered);
    }
}

/// After a legal step the traveller cannot jump back to where it came
/// from, and a pawn cannot step back either. Only a queen, moved by a simple
/// move of the same player, is offered its old square.
pub proof fn law_no_way_back(
    f: Seq<Field>,
    start: int,
    end: int,
    jump: bool,
    player: Colour,
    again: bool,
    mover: Colour,
)
    requires
        f.len() == 64,
        on_board(start),
        legal_step(f, start, end, jump, player),
    ensures
        allowed(moved(f, start, end), end, again, mover).contains(start) <==> !again && mover
            == player && moved(f, start, end)[end].spec_is_queen(),
        again ==> !allowed(moved(f, start, end), end, again, mover).contains(start),
{
    lemma_way_back(f, start, end, again, mover);
    lemma_movable_diagonal(f, start, end, jump);
}

} // verus!
