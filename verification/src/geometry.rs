//! Squares, rows, columns and diagonals of the 8x8 grid.
//!
//! A square is an index from 0 to 63 in row-major order. Everything here is
//! ghost code: the executable code in `board` is proved against it.

use vstd::prelude::*;

verus! {

/// The indices that name a square.
pub open spec fn on_board(i: int) -> bool {
    0 <= i < 64
}

pub open spec fn row(i: int) -> int {
    i / 8
}

pub open spec fn col(i: int) -> int {
    i % 8
}

/// The squares that pieces live on: those whose row and column have
/// different parity.
pub open spec fn dark(i: int) -> bool {
    (row(i) + col(i)) % 2 == 1
}

pub open spec fn abs(x: int) -> int {
    if x < 0 {
        -x
    } else {
        x
    }
}

/// Two distinct squares lie on one diagonal when they are as many columns
/// apart as rows.
pub open spec fn same_diagonal(start: int, end: int) -> bool {
    let dy = row(end) - row(start);
    let dx = col(end) - col(start);
    dy != 0 && (dx == dy || dx == -dy)
}

/// The index difference between neighbours on the diagonal from `start`
/// towards `end`: 7 or 9 down the board, -7 or -9 up the board.
pub open spec fn diagonal_step(start: int, end: int) -> int {
    let dy = row(end) - row(start);
    let dx = col(end) - col(start);
    if dy > 0 {
        if dx == dy {
            9
        } else {
            7
        }
    } else {
        if dx == dy {
            -9
        } else {
            -7
        }
    }
}

/// How many squares a move from `start` to `end` sweeps, both ends counted.
/// Squares that share no diagonal have nothing between them.
pub open spec fn path_len(start: int, end: int) -> nat {
    if same_diagonal(start, end) {
        (abs(row(end) - row(start)) + 1) as nat
    } else {
        0
    }
}

/// The squares swept by a move from `start` to `end`, in the order they are
/// passed: `start` first, `end` last. Empty unless the two share a diagonal.
pub open spec fn path(start: int, end: int) -> Seq<int> {
    Seq::new(path_len(start, end), |k: int| start + k * diagonal_step(start, end))
}

/// A diagonal path leads from `start` to `end` one row and one column at a
/// time, and never leaves the board.
pub proof fn lemma_path_shape(start: int, end: int)
    requires
        on_board(start),
        on_board(end),
        same_diagonal(start, end),
    ensures
        path(start, end).len() == abs(row(end) - row(start)) + 1,
        path(start, end).len() >= 2,
        path(start, end)[0] == start,
        path(start, end).last() == end,
        diagonal_step(start, end) != 0,
        forall|k: int|
            0 <= k < path(start, end).len() ==> {
                let s = #[trigger] path(start, end)[k];
                &&& on_board(s)
                &&& abs(row(s) - row(start)) == k
                &&& abs(col(s) - col(start)) == k
                &&& dark(s) == dark(start)
                &&& (0 < k ==> same_diagonal(start, s) && diagonal_step(start, s) == diagonal_step(
                    start,
                    end,
                ))
            },
{
    let step = diagonal_step(start, end);
    let dy = row(end) - row(start);
    let n = abs(dy);
    assert(end == start + n * step) by (nonlinear_arith)
        requires
            0 <= start < 64,
            0 <= end < 64,
            dy == end / 8 - start / 8,
            n == if dy < 0 {
                -dy
            } else {
                dy
            },
            dy != 0,
            step == diagonal_step(start, end),
            end % 8 - start % 8 == dy || end % 8 - start % 8 == -dy,
    ;
    assert forall|k: int| 0 <= k < path(start, end).len() implies {
        let s = #[trigger] path(start, end)[k];
        &&& on_board(s)
        &&& abs(row(s) - row(start)) == k
        &&& abs(col(s) - col(start)) == k
        &&& dark(s) == dark(start)
        &&& (0 < k ==> same_diagonal(start, s) && diagonal_step(start, s) == diagonal_step(
            start,
            end,
        ))
    } by {
        lemma_path_square(start, end, k);
    }
}

/// Where the `k`-th square of a diagonal path lies.
pub proof fn lemma_path_square(start: int, end: int, k: int)
    requires
        on_board(start),
        on_board(end),
        same_diagonal(start, end),
        0 <= k <= abs(row(end) - row(start)),
    ensures
        ({
            let s = start + k * diagonal_step(start, end);
            &&& on_board(s)
            &&& row(s) == if row(end) > row(start) {
                row(start) + k
            } else {
                row(start) - k
            }
            &&& col(s) == if col(end) > col(start) {
                col(start) + k
            } else {
                col(start) - k
            }
            &&& abs(row(s) - row(start)) == k
            &&& abs(col(s) - col(start)) == k
            &&& dark(s) == dark(start)
            &&& (0 < k ==> same_diagonal(start, s) && diagonal_step(start, s) == diagonal_step(
                start,
                end,
            ))
        }),
{
    let r = row(start);
    let c = col(start);
    let dy = row(end) - r;
    let dx = col(end) - c;
    let step = diagonal_step(start, end);
    let s = start + k * step;
    assert(0 <= k <= 7);
    if dy > 0 && dx == dy {
        assert(s == 8 * (r + k) + (c + k));
    } else if dy > 0 {
        assert(s == 8 * (r + k) + (c - k));
    } else if dx == dy {
        assert(s == 8 * (r - k) + (c - k));
    } else {
        assert(s == 8 * (r - k) + (c + k));
    }
}

/// The way back passes the same squares in the opposite order.
pub proof fn lemma_path_reverse(start: int, end: int)
    requires
        on_board(start),
        on_board(end),
        same_diagonal(start, end),
    ensures
        same_diagonal(end, start),
        diagonal_step(end, start) == -diagonal_step(start, end),
        path(end, start).len() == path(start, end).len(),
        forall|k: int|
            0 <= k < path(end, start).len() ==> #[trigger] path(end, start)[k] == path(
                start,
                end,
            )[path(start, end).len() - 1 - k],
{
    lemma_path_shape(start, end);
    let n = path(start, end).len() - 1;
    let step = diagonal_step(start, end);
    assert(end == start + n * step);
    assert forall|k: int| 0 <= k < path(end, start).len() implies #[trigger] path(end, start)[k]
        == path(start, end)[n - k] by {
        assert(start + n * step + k * (-step) == start + (n - k) * step) by (nonlinear_arith);
    }
}

} // verus!
