//! What the scan of `allowed` amounts to: the allowed targets of a piece,
//! said without reference to the order of the scan.

use vstd::prelude::*;
use crate::board::{allowed, count_occupied, min_distance, movable, target_if_movable, targets};
use crate::field::{Colour, Field};
use crate::geometry::{abs, col, dark, lemma_path_shape, on_board, path, row, same_diagonal};

verus! {

/// A step of `player`'s piece on `start` to the square `end` is legal when
/// the piece may travel that many rows and the way is open.
pub open spec fn legal_step(
    f: Seq<Field>,
    start: int,
    end: int,
    jump: bool,
    player: Colour,
) -> bool {
    &&& on_board(end)
    &&& f[start].spec_has_colour(player)
    &&& f[start].spec_min_dy(jump) <= row(end) - row(start) <= f[start].spec_max_dy(jump)
    &&& movable(f, start, end, jump)
}

/// A step is only ever allowed along a diagonal.
pub proof fn lemma_movable_diagonal(f: Seq<Field>, start: int, end: int, jump: bool)
    requires
        movable(f, start, end, jump),
    ensures
        same_diagonal(start, end),
        start != end,
{
    if !same_diagonal(start, end) {
        assert(path(start, end).len() == 0);
        assert(count_occupied(f, path(start, end)) == 0);
    }
}

/// An index offset of `dy` sevens or `dy` nines that stays on the board and
/// on a diagonal of `start` leads exactly `dy` rows away.
pub proof fn lemma_offset_rows(start: int, end: int, dy: int)
    requires
        on_board(start),
        on_board(end),
        same_diagonal(start, end),
        -7 <= dy <= 7,
        end == start + dy * 7 || end == start + dy * 9,
    ensures
        row(end) - row(start) == dy,
{
    let rows = row(end) - row(start);
    let cols = col(end) - col(start);
    assert(end - start == 8 * rows + cols);
}

/// A square on a diagonal of `start` is `start` offset by sevens or by
/// nines, once for each row between them.
pub proof fn lemma_diagonal_offset(start: int, end: int)
    requires
        on_board(start),
        on_board(end),
        same_diagonal(start, end),
    ensures
        ({
            let dy = row(end) - row(start);
            end == start + dy * 7 || end == start + dy * 9
        }),
{
    let rows = row(end) - row(start);
    let cols = col(end) - col(start);
    assert(end - start == 8 * rows + cols);
}

/// The two candidates `dy` rows away from `start`.
pub open spec fn row_targets(f: Seq<Field>, start: int, jump: bool, dy: int) -> Seq<int> {
    target_if_movable(f, start, start + dy * 7, jump) + target_if_movable(
        f,
        start,
        start + dy * 9,
        jump,
    )
}

/// Whether `end` is a square `dy` rows from `start` to which the step is
/// allowed.
pub open spec fn target_in_row(f: Seq<Field>, start: int, jump: bool, dy: int, end: int) -> bool {
    on_board(end) && movable(f, start, end, jump) && row(end) - row(start) == dy
}

/// The candidates `dy` rows away that pass are the squares in that row to
/// which the step is allowed, each once.
pub proof fn lemma_row_targets(f: Seq<Field>, start: int, jump: bool, dy: int)
    requires
        on_board(start),
        -7 <= dy <= 7,
    ensures
        row_targets(f, start, jump, dy).no_duplicates(),
        forall|e: int| #[trigger]
            row_targets(f, start, jump, dy).contains(e) <==> target_in_row(f, start, jump, dy, e),
{
    let by_seven = target_if_movable(f, start, start + dy * 7, jump);
    let by_nine = target_if_movable(f, start, start + dy * 9, jump);
    let both = row_targets(f, start, jump, dy);
    if by_seven.len() > 0 {
        lemma_movable_diagonal(f, start, start + dy * 7, jump);
        lemma_offset_rows(start, start + dy * 7, dy);
    }
    if by_nine.len() > 0 {
        lemma_movable_diagonal(f, start, start + dy * 9, jump);
        lemma_offset_rows(start, start + dy * 9, dy);
    }
    assert forall|e: int| #[trigger] both.contains(e) <==> target_in_row(f, start, jump, dy, e) by {
        if both.contains(e) {
            let k = choose|k: int| 0 <= k < both.len() && both[k] == e;
            assert(e == start + dy * 7 || e == start + dy * 9);
        }
        if target_in_row(f, start, jump, dy, e) {
            lemma_movable_diagonal(f, start, e, jump);
            lemma_diagonal_offset(start, e);
            if e == start + dy * 7 {
                assert(both[0] == e);
            } else {
                assert(both[by_seven.len() as int] == e);
            }
        }
    }
}

/// The targets found by scanning the row displacements from `low` to `high`
/// are the squares that many rows away to which the step is allowed, each
/// found once.
pub proof fn lemma_targets(f: Seq<Field>, start: int, jump: bool, low: int, high: int)
    requires
        on_board(start),
        -7 <= low,
        high <= 7,
    ensures
        targets(f, start, jump, low, high).no_duplicates(),
        forall|e: int| #[trigger]
            targets(f, start, jump, low, high).contains(e) <==> exists|dy: int|
                low <= dy <= high && target_in_row(f, start, jump, dy, e),
    decreases high - low + 1,
{
    let all = targets(f, start, jump, low, high);
    if high >= low {
        let before = targets(f, start, jump, low, high - 1);
        let last = row_targets(f, start, jump, high);
        lemma_targets(f, start, jump, low, high - 1);
        lemma_row_targets(f, start, jump, high);
        assert(all =~= before + last);
        assert forall|e: int| #[trigger]
            all.contains(e) <==> exists|dy: int|
                low <= dy <= high && target_in_row(f, start, jump, dy, e) by {
            if all.contains(e) {
                let k = choose|k: int| 0 <= k < all.len() && all[k] == e;
                if k < before.len() {
                    assert(before[k] == e);
                    assert(before.contains(e));
                    let dy = choose|dy: int|
                        low <= dy <= high - 1 && target_in_row(f, start, jump, dy, e);
                    assert(low <= dy <= high && target_in_row(f, start, jump, dy, e));
                } else {
                    assert(last[k - before.len()] == e);
                    assert(last.contains(e));
                    assert(target_in_row(f, start, jump, high, e));
                }
            }
            if exists|dy: int| low <= dy <= high && target_in_row(f, start, jump, dy, e) {
                let dy = choose|dy: int| low <= dy <= high && target_in_row(f, start, jump, dy, e);
                if dy < high {
                    assert(low <= dy <= high - 1 && target_in_row(f, start, jump, dy, e));
                    assert(before.contains(e));
                    let k = choose|k: int| 0 <= k < before.len() && before[k] == e;
                    assert(all[k] == e);
                } else {
                    assert(last.contains(e));
                    let k = choose|k: int| 0 <= k < last.len() && last[k] == e;
                    assert(all[before.len() + k] == e);
                }
            }
        }
        assert forall|i: int, j: int| 0 <= i < j < all.len() implies all[i] != all[j] by {
            if j < before.len() {
                assert(before[i] == all[i] && before[j] == all[j]);
            } else if i < before.len() {
                assert(before[i] == all[i]);
                assert(last[j - before.len()] == all[j]);
                assert(before.contains(all[i]));
                assert(last.contains(all[j]));
                let dy = choose|dy: int|
                    low <= dy <= high - 1 && target_in_row(f, start, jump, dy, all[i]);
                assert(target_in_row(f, start, jump, high, all[j]));
            } else {
                assert(last[i - before.len()] == all[i]);
                assert(last[j - before.len()] == all[j]);
            }
        }
    } else {
        assert forall|e: int| #[trigger]
            all.contains(e) <==> exists|dy: int|
                low <= dy <= high && target_in_row(f, start, jump, dy, e) by {}
    }
}

/// The allowed targets are exactly the legal steps, each listed once.
pub proof fn lemma_allowed(f: Seq<Field>, start: int, jump: bool, player: Colour)
    requires
        f.len() == 64,
        on_board(start),
    ensures
        allowed(f, start, jump, player).no_duplicates(),
        forall|e: int| #[trigger]
            allowed(f, start, jump, player).contains(e) <==> legal_step(f, start, e, jump, player),
{
    let all = allowed(f, start, jump, player);
    if f[start].spec_has_colour(player) {
        let low = f[start].spec_min_step(row(start), jump);
        let high = f[start].spec_max_step(row(start), jump);
        lemma_targets(f, start, jump, low, high);
        assert forall|e: int| #[trigger] all.contains(e) <==> legal_step(
            f,
            start,
            e,
            jump,
            player,
        ) by {
            if all.contains(e) {
                let dy = choose|dy: int|
                    low <= dy <= high && target_in_row(f, start, jump, dy, e);
                assert(legal_step(f, start, e, jump, player));
            }
            if legal_step(f, start, e, jump, player) {
                let dy = row(e) - row(start);
                assert(low <= dy <= high && target_in_row(f, start, jump, dy, e));
            }
        }
    }
}

/// Every listed target is a legal step.
pub proof fn lemma_allowed_at(f: Seq<Field>, start: int, jump: bool, player: Colour, k: int)
    requires
        f.len() == 64,
        on_board(start),
        0 <= k < allowed(f, start, jump, player).len(),
    ensures
        legal_step(f, start, allowed(f, start, jump, player)[k], jump, player),
        f[start] != Field::Empty,
        same_diagonal(start, allowed(f, start, jump, player)[k]),
        count_occupied(f, path(start, allowed(f, start, jump, player)[k])) == min_distance(jump),
{
    lemma_allowed(f, start, jump, player);
    let e = allowed(f, start, jump, player)[k];
    assert(allowed(f, start, jump, player).contains(e));
    lemma_movable_diagonal(f, start, e, jump);
}

/// Whether one given square is among the allowed targets.
pub proof fn lemma_allowed_contains(
    f: Seq<Field>,
    start: int,
    end: int,
    jump: bool,
    player: Colour,
)
    requires
        f.len() == 64,
        on_board(start),
    ensures
        allowed(f, start, jump, player).contains(end) <==> legal_step(f, start, end, jump, player),
{
    lemma_allowed(f, start, jump, player);
}

/// Squares on one diagonal are never a multiple of 8 apart, and at most
/// seven rows.
pub proof fn lemma_diagonal_distance(start: int, end: int)
    requires
        on_board(start),
        on_board(end),
        same_diagonal(start, end),
    ensures
        abs(start - end) % 8 >= 1,
        abs(end - start) % 8 >= 1,
        -7 <= row(end) - row(start) <= 7,
        row(end) != row(start),
{
    lemma_diagonal_offset(start, end);
}

/// What the distance rule of `movable` asks of two squares on one
/// diagonal. A simple move always meets it. A jump meets it unless the
/// squares are 9 apart, which leaves no square to jump over, or 49 apart,
/// which are the two ends of the long diagonal through squares 7 and 56.
pub proof fn law_distance_rule(start: int, end: int, jump: bool)
    requires
        on_board(start),
        on_board(end),
        same_diagonal(start, end),
    ensures
        abs(start - end) % 8 >= min_distance(jump) <==> !jump || (abs(start - end) != 9 && abs(
            start - end,
        ) != 49),
        abs(start - end) == 49 <==> (start == 7 && end == 56) || (start == 56 && end == 7),
{
    lemma_diagonal_offset(start, end);
}

/// A legal step leads from a dark square to a dark square.
pub proof fn lemma_legal_step_dark(
    f: Seq<Field>,
    start: int,
    end: int,
    jump: bool,
    player: Colour,
)
    requires
        on_board(start),
        legal_step(f, start, end, jump, player),
    ensures
        same_diagonal(start, end),
        dark(end) == dark(start),
        f[start] != Field::Empty,
{
    lemma_movable_diagonal(f, start, end, jump);
    lemma_path_shape(start, end);
    let p = path(start, end);
    assert(p[p.len() - 1] == end);
}

} // verus!
