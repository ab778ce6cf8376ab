//! The move generator: every position a player can reach in one turn.
//!
//! A turn is either one simple move or a chain of jumps by one piece. When
//! any jump is open to the player, only jumps are legal. A chain may stop
//! after any of its jumps.

use vstd::prelude::*;
use crate::board::{allowed, moved, pieces, Board};
use crate::counting::law_step_pieces;
use crate::field::{Colour, Field};
use crate::geometry::on_board;
use crate::legal::lemma_allowed_at;

verus! {

/// The positions that a list of boards stands for.
pub open spec fn positions(boards: Seq<Board>) -> Seq<Seq<Field>> {
    boards.map_values(|b: Board| b@)
}

/// The model of a list of live states: the square of the travelling piece
/// and the position it stands in.
pub open spec fn states(pairs: Seq<(i32, Board)>) -> Seq<(int, Seq<Field>)> {
    pairs.map_values(|p: (i32, Board)| (p.0 as int, p.1@))
}

/// The positions of a list of states.
pub open spec fn boards_of(live: Seq<(int, Seq<Field>)>) -> Seq<Seq<Field>> {
    live.map_values(|s: (int, Seq<Field>)| s.1)
}

/// Every single step open to the piece on `start`: each allowed target,
/// paired with the position that the step leads to.
pub open spec fn steps(fields: Seq<Field>, player: Colour, start: int, jump: bool) -> Seq<
    (int, Seq<Field>),
> {
    allowed(fields, start, jump, player).map_values(|end: int| (end, moved(fields, start, end)))
}

/// The positions reached by one simple move of the piece on `start`.
pub open spec fn simple_moves(fields: Seq<Field>, player: Colour, start: int) -> Seq<Seq<Field>> {
    boards_of(steps(fields, player, start, false))
}

/// One round of jumping: from every live state, in order, every jump of its
/// travelling piece.
pub open spec fn jump_round(live: Seq<(int, Seq<Field>)>, player: Colour) -> Seq<
    (int, Seq<Field>),
>
    decreases live.len(),
{
    if live.len() == 0 {
        Seq::empty()
    } else {
        jump_round(live.drop_last(), player) + steps(live.last().1, player, live.last().0, true)
    }
}

/// The positions reached from the live states by one jump or more, round by
/// round: first all that are one jump away, then all that are two jumps
/// away, and so on for at most `rounds` rounds.
pub open spec fn chains(live: Seq<(int, Seq<Field>)>, player: Colour, rounds: nat) -> Seq<
    Seq<Field>,
>
    decreases rounds,
{
    if rounds == 0 || live.len() == 0 {
        Seq::empty()
    } else {
        let next = jump_round(live, player);
        boards_of(next) + chains(next, player, (rounds - 1) as nat)
    }
}

/// The positions reached by the piece on `start` through one jump or more.
/// Every jump takes a piece off the board, so no chain has more jumps than
/// the position has pieces.
pub open spec fn jump_chains(fields: Seq<Field>, player: Colour, start: int) -> Seq<Seq<Field>> {
    chains(seq![(start, fields)], player, pieces(fields))
}

/// The jump chains of the pieces on the squares below `upto`, by square.
pub open spec fn all_jumps(fields: Seq<Field>, player: Colour, upto: int) -> Seq<Seq<Field>>
    decreases upto,
{
    if upto <= 0 {
        Seq::empty()
    } else {
        all_jumps(fields, player, upto - 1) + jump_chains(fields, player, upto - 1)
    }
}

/// The simple moves of the pieces on the squares below `upto`, by square.
pub open spec fn all_simple_moves(fields: Seq<Field>, player: Colour, upto: int) -> Seq<
    Seq<Field>,
>
    decreases upto,
{
    if upto <= 0 {
        Seq::empty()
    } else {
        all_simple_moves(fields, player, upto - 1) + simple_moves(fields, player, upto - 1)
    }
}

/// Every position `player` can leave behind after one turn: all jump
/// chains if there is any, and all simple moves otherwise.
pub open spec fn turns(fields: Seq<Field>, player: Colour) -> Seq<Seq<Field>> {
    let jumps = all_jumps(fields, player, 64);
    if jumps.len() == 0 {
        all_simple_moves(fields, player, 64)
    } else {
        jumps
    }
}

/// Live states are sound within `bound` when each names a square of a
/// 64-square position that holds at most `bound` pieces.
pub open spec fn live_within(live: Seq<(int, Seq<Field>)>, bound: int) -> bool {
    forall|k: int|
        0 <= k < live.len() ==> {
            &&& on_board((#[trigger] live[k]).0)
            &&& live[k].1.len() == 64
            &&& pieces(live[k].1) <= bound
        }
}

/// A single jump leads to a position with one piece fewer, a simple move
/// to one with as many pieces.
pub proof fn lemma_steps_within(f: Seq<Field>, player: Colour, start: int, jump: bool)
    requires
        f.len() == 64,
        on_board(start),
    ensures
        live_within(
            steps(f, player, start, jump),
            if jump {
                pieces(f) - 1
            } else {
                pieces(f) as int
            },
        ),
        forall|k: int|
            0 <= k < steps(f, player, start, jump).len() ==> pieces(
                (#[trigger] steps(f, player, start, jump)[k]).1,
            ) == if jump {
                pieces(f) - 1
            } else {
                pieces(f) as int
            },
{
    let found = steps(f, player, start, jump);
    assert forall|k: int| 0 <= k < found.len() implies {
        &&& on_board((#[trigger] found[k]).0)
        &&& found[k].1.len() == 64
        &&& pieces(found[k].1) == if jump {
            pieces(f) - 1
        } else {
            pieces(f) as int
        }
    } by {
        lemma_allowed_at(f, start, jump, player, k);
        law_step_pieces(f, start, found[k].0, jump);
    }
}

/// A round of jumps takes one piece off every live position.
pub proof fn lemma_round_within(live: Seq<(int, Seq<Field>)>, player: Colour, bound: int)
    requires
        live_within(live, bound),
    ensures
        live_within(jump_round(live, player), bound - 1),
    decreases live.len(),
{
    if live.len() > 0 {
        let rest = live.drop_last();
        let last = live.last();
        assert(forall|k: int| 0 <= k < rest.len() ==> rest[k] == live[k]);
        assert(last == live[live.len() - 1]);
        lemma_round_within(rest, player, bound);
        lemma_steps_within(last.1, player, last.0, true);
        let before = jump_round(rest, player);
        let found = steps(last.1, player, last.0, true);
        let all = jump_round(live, player);
        assert forall|k: int| 0 <= k < all.len() implies {
            &&& on_board((#[trigger] all[k]).0)
            &&& all[k].1.len() == 64
            &&& pieces(all[k].1) <= bound - 1
        } by {
            if k < before.len() {
                assert(all[k] == before[k]);
            } else {
                assert(all[k] == found[k - before.len()]);
            }
        }
    }
}

/// Every single step open to the piece on `start`, each with the board it
/// leads to.
pub fn possible(board: &Board, player: Colour, start: i32, jump: bool) -> (r: Vec<(i32, Board)>)
    requires
        on_board(start as int),
    ensures
        states(r@) == steps(board@, player, start as int, jump),
        forall|k: int| 0 <= k < r@.len() ==> on_board(#[trigger] r@[k].0 as int),
{
    let ends = board.allowed_moves(start, jump, player);
    let ghost targets = allowed(board@, start as int, jump, player);
    let mut result: Vec<(i32, Board)> = Vec::new();
    let mut k: usize = 0;
    while k < ends.len()
        invariant
            on_board(start as int),
            k <= ends@.len(),
            ends@.map_values(|s: i32| s as int) == targets,
            forall|j: int| 0 <= j < ends@.len() ==> on_board(#[trigger] ends@[j] as int),
            result@.len() == k,
            forall|j: int|
                0 <= j < k ==> #[trigger] result@[j].0 == ends@[j] && result@[j].1@ == moved(
                    board@,
                    start as int,
                    ends@[j] as int,
                ),
        decreases ends@.len() - k,
    {
        let end = ends[k];
        result.push((end, board.move_piece(start, end)));
        k += 1;
    }
    proof {
        assert forall|j: int| 0 <= j < targets.len() implies states(result@)[j] == steps(
            board@,
            player,
            start as int,
            jump,
        )[j] by {
            assert(targets[j] == ends@[j] as int);
        }
        assert(states(result@) =~= steps(board@, player, start as int, jump));
    }
    result
}

/// The boards reached by one simple move of the piece on `start`.
pub fn nonjumps_from(board: &Board, player: Colour, start: i32) -> (r: Vec<Board>)
    requires
        on_board(start as int),
    ensures
        positions(r@) == simple_moves(board@, player, start as int),
{
    let found = possible(board, player, start, false);
    let mut result: Vec<Board> = Vec::new();
    let mut k: usize = 0;
    while k < found.len()
        invariant
            k <= found@.len(),
            result@.len() == k,
            forall|j: int| 0 <= j < k ==> #[trigger] result@[j] == found@[j].1,
        decreases found@.len() - k,
    {
        result.push(found[k].1);
        k += 1;
    }
    assert(positions(result@) =~= boards_of(states(found@)));
    result
}

/// One round of jumping from every live state.
fn jump_round_from(live: &Vec<(i32, Board)>, player: Colour) -> (r: Vec<(i32, Board)>)
    requires
        forall|k: int| 0 <= k < live@.len() ==> on_board(#[trigger] live@[k].0 as int),
    ensures
        states(r@) == jump_round(states(live@), player),
        forall|k: int| 0 <= k < r@.len() ==> on_board(#[trigger] r@[k].0 as int),
{
    let mut next: Vec<(i32, Board)> = Vec::new();
    let mut k: usize = 0;
    assert(states(live@).take(0) =~= Seq::empty());
    while k < live.len()
        invariant
            k <= live@.len(),
            forall|j: int| 0 <= j < live@.len() ==> on_board(#[trigger] live@[j].0 as int),
            states(next@) == jump_round(states(live@).take(k as int), player),
            forall|j: int| 0 <= j < next@.len() ==> on_board(#[trigger] next@[j].0 as int),
        decreases live@.len() - k,
    {
        let found = possible(&live[k].1, player, live[k].0, true);
        let ghost before = next@;
        let mut j: usize = 0;
        while j < found.len()
            invariant
                j <= found@.len(),
                next@ == before + found@.take(j as int),
                forall|i: int| 0 <= i < found@.len() ==> on_board(#[trigger] found@[i].0 as int),
                forall|i: int| 0 <= i < before.len() ==> on_board(#[trigger] before[i].0 as int),
            decreases found@.len() - j,
        {
            next.push(found[j]);
            assert(found@.take(j + 1) =~= found@.take(j as int).push(found@[j as int]));
            j += 1;
        }
        proof {
            assert(found@.take(j as int) =~= found@);
            let upto = states(live@).take(k + 1);
            assert(upto.drop_last() =~= states(live@).take(k as int));
            assert(upto.last() == (live@[k as int].0 as int, live@[k as int].1@));
            assert(states(next@) =~= states(before) + states(found@));
        }
        k += 1;
    }
    assert(states(live@).take(k as int) =~= states(live@));
    next
}

/// The boards reached by the piece on `start` through one jump or more,
/// nearest first.
pub fn jumps_from(board: &Board, player: Colour, start: i32) -> (r: Vec<Board>)
    requires
        on_board(start as int),
    ensures
        positions(r@) == jump_chains(board@, player, start as int),
{
    let mut result: Vec<Board> = Vec::new();
    let mut live: Vec<(i32, Board)> = Vec::new();
    live.push((start, *board));
    let ghost mut rounds: nat = pieces(board@);
    proof {
        board.lemma_len();
        assert(states(live@) =~= seq![(start as int, board@)]);
        assert(positions(result@) =~= Seq::empty());
    }
    while live.len() > 0
        invariant
            forall|k: int| 0 <= k < live@.len() ==> on_board(#[trigger] live@[k].0 as int),
            live_within(states(live@), rounds as int),
            positions(result@) + chains(states(live@), player, rounds) == jump_chains(
                board@,
                player,
                start as int,
            ),
        decreases rounds, live@.len(),
    {
        let next = jump_round_from(&live, player);
        let ghost before = result@;
        proof {
            lemma_round_within(states(live@), player, rounds as int);
            if rounds == 0 {
                if next@.len() > 0 {
                    assert(pieces(states(next@)[0].1) <= -1);
                }
            }
        }
        let mut k: usize = 0;
        while k < next.len()
            invariant
                k <= next@.len(),
                result@.len() == before.len() + k,
                forall|j: int| 0 <= j < before.len() ==> result@[j] == before[j],
                forall|j: int|
                    before.len() <= j < result@.len() ==> #[trigger] result@[j] == next@[j
                        - before.len()].1,
            decreases next@.len() - k,
        {
            result.push(next[k].1);
            k += 1;
        }
        proof {
            assert(positions(result@) =~= positions(before) + boards_of(states(next@)));
            if rounds > 0 {
                assert(chains(states(live@), player, rounds) == boards_of(states(next@)) + chains(
                    states(next@),
                    player,
                    (rounds - 1) as nat,
                ));
                assert(positions(result@) + chains(states(next@), player, (rounds - 1) as nat)
                    =~= positions(before) + chains(states(live@), player, rounds));
                rounds = (rounds - 1) as nat;
            } else {
                assert(next@.len() == 0);
                assert(positions(result@) =~= positions(before));
            }
        }
        live = next;
    }
    proof {
        assert(positions(result@) + chains(states(live@), player, rounds) =~= positions(result@));
    }
    result
}

/// Every board `player` can leave behind after one turn. If any piece can
/// jump, the jump chains of all pieces; otherwise the simple moves of all
/// pieces. Within each kind the boards come by the starting square.
pub fn list(board: &Board, player: Colour) -> (r: Vec<Board>)
    ensures
        positions(r@) == turns(board@, player),
{
    let mut jumps: Vec<Board> = Vec::new();
    let mut i: i32 = 0;
    assert(positions(jumps@) =~= all_jumps(board@, player, 0));
    while i < 64
        invariant
            0 <= i <= 64,
            positions(jumps@) == all_jumps(board@, player, i as int),
        decreases 64 - i,
    {
        let mut found = jumps_from(board, player, i);
        let ghost before = jumps@;
        jumps.append(&mut found);
        assert(positions(jumps@) =~= positions(before) + jump_chains(board@, player, i as int));
        i += 1;
    }
    if jumps.len() > 0 {
        return jumps;
    }
    let mut simple: Vec<Board> = Vec::new();
    let mut i: i32 = 0;
    assert(positions(simple@) =~= all_simple_moves(board@, player, 0));
    while i < 64
        invariant
            0 <= i <= 64,
            positions(simple@) == all_simple_moves(board@, player, i as int),
        decreases 64 - i,
    {
        let mut found = nonjumps_from(board, player, i);
        let ghost before = simple@;
        simple.append(&mut found);
        assert(positions(simple@) =~= positions(before) + simple_moves(board@, player, i as int));
        i += 1;
    }
    simple
}

} // verus!
