//! What holds of every turn: captures are mandatory, a turn exists exactly
//! when some piece can step, and a jump always costs a piece.

use vstd::prelude::*;
use crate::board::{allowed, moved, pieces};
use crate::field::{Colour, Field};
use crate::geometry::on_board;
use crate::moves::{
    all_jumps,
    all_simple_moves,
    boards_of,
    chains,
    jump_chains,
    jump_round,
    lemma_round_within,
    lemma_steps_within,
    live_within,
    simple_moves,
    steps,
    turns,
};

verus! {

/// Every position reached by jumping from live states that hold at most
/// `bound` pieces holds fewer than `bound`.
pub proof fn lemma_chains_within(
    live: Seq<(int, Seq<Field>)>,
    player: Colour,
    rounds: nat,
    bound: int,
)
    requires
        live_within(live, bound),
    ensures
        forall|k: int|
            0 <= k < chains(live, player, rounds).len() ==> {
                &&& (#[trigger] chains(live, player, rounds)[k]).len() == 64
                &&& pieces(chains(live, player, rounds)[k]) < bound
            },
    decreases rounds,
{
    if rounds > 0 && live.len() > 0 {
        let next = jump_round(live, player);
        let first = boards_of(next);
        let later = chains(next, player, (rounds - 1) as nat);
        lemma_round_within(live, player, bound);
        lemma_chains_within(next, player, (rounds - 1) as nat, bound - 1);
        let all = chains(live, player, rounds);
        assert forall|k: int| 0 <= k < all.len() implies {
            &&& (#[trigger] all[k]).len() == 64
            &&& pieces(all[k]) < bound
        } by {
            if k < first.len() {
                assert(all[k] == next[k].1);
            } else {
                assert(all[k] == later[k - first.len()]);
            }
        }
    }
}

/// The jump chains of a piece begin with its single jumps, in the order
/// of its allowed targets.
pub proof fn lemma_jump_chains_begin(f: Seq<Field>, player: Colour, start: int)
    requires
        f.len() == 64,
        on_board(start),
    ensures
        jump_chains(f, player, start).len() >= allowed(f, start, true, player).len(),
        forall|k: int|
            0 <= k < allowed(f, start, true, player).len() ==> #[trigger] jump_chains(
                f,
                player,
                start,
            )[k] == moved(f, start, allowed(f, start, true, player)[k]),
        allowed(f, start, true, player).len() == 0 ==> jump_chains(f, player, start).len() == 0,
{
    let live = seq![(start, f)];
    let found = steps(f, player, start, true);
    assert(live.drop_last() =~= Seq::empty());
    assert(jump_round(live.drop_last(), player) =~= Seq::empty());
    assert(jump_round(live, player) =~= found);
    lemma_steps_within(f, player, start, true);
    if found.len() > 0 {
        assert(pieces(found[0].1) == pieces(f) - 1);
        assert forall|k: int| 0 <= k < found.len() implies #[trigger] jump_chains(
            f,
            player,
            start,
        )[k] == moved(f, start, allowed(f, start, true, player)[k]) by {
            assert(boards_of(found)[k] == found[k].1);
        }
    } else if pieces(f) > 0 {
        assert(chains(found, player, (pieces(f) - 1) as nat) =~= Seq::empty());
    }
}

/// The boards gathered over the squares below `upto` are those of each
/// such square.
pub proof fn lemma_all_jumps_gathered(f: Seq<Field>, player: Colour, upto: int)
    requires
        0 <= upto <= 64,
    ensures
        forall|b: Seq<Field>| #[trigger]
            all_jumps(f, player, upto).contains(b) <==> exists|i: int|
                0 <= i < upto && #[trigger] jump_chains(f, player, i).contains(b),
        all_jumps(f, player, upto).len() == 0 <==> forall|i: int|
            0 <= i < upto ==> #[trigger] jump_chains(f, player, i).len() == 0,
    decreases upto,
{
    let all = all_jumps(f, player, upto);
    if upto > 0 {
        let before = all_jumps(f, player, upto - 1);
        let last = jump_chains(f, player, upto - 1);
        lemma_all_jumps_gathered(f, player, upto - 1);
        assert forall|b: Seq<Field>| #[trigger]
            all.contains(b) <==> exists|i: int|
                0 <= i < upto && #[trigger] jump_chains(f, player, i).contains(b) by {
            if all.contains(b) {
                let k = choose|k: int| 0 <= k < all.len() && all[k] == b;
                if k < before.len() {
                    assert(before[k] == b);
                    assert(before.contains(b));
                } else {
                    assert(last[k - before.len()] == b);
                    assert(last.contains(b));
                }
            }
            if exists|i: int| 0 <= i < upto && #[trigger] jump_chains(f, player, i).contains(b) {
                let i = choose|i: int|
                    0 <= i < upto && #[trigger] jump_chains(f, player, i).contains(b);
                if i < upto - 1 {
                    assert(before.contains(b));
                    let k = choose|k: int| 0 <= k < before.len() && before[k] == b;
                    assert(all[k] == b);
                } else {
                    let k = choose|k: int| 0 <= k < last.len() && last[k] == b;
                    assert(all[before.len() + k] == b);
                }
            }
        }
    } else {
        assert forall|b: Seq<Field>| #[trigger]
            all.contains(b) <==> exists|i: int|
                0 <= i < upto && #[trigger] jump_chains(f, player, i).contains(b) by {}
    }
}

/// The simple moves gathered over the squares below `upto` are those of
/// each such square.
pub proof fn lemma_all_simple_gathered(f: Seq<Field>, player: Colour, upto: int)
    requires
        0 <= upto <= 64,
    ensures
        forall|b: Seq<Field>| #[trigger]
            all_simple_moves(f, player, upto).contains(b) <==> exists|i: int|
                0 <= i < upto && #[trigger] simple_moves(f, player, i).contains(b),
        all_simple_moves(f, player, upto).len() == 0 <==> forall|i: int|
            0 <= i < upto ==> #[trigger] simple_moves(f, player, i).len() == 0,
    decreases upto,
{
    let all = all_simple_moves(f, player, upto);
    if upto > 0 {
        let before = all_simple_moves(f, player, upto - 1);
        let last = simple_moves(f, player, upto - 1);
        lemma_all_simple_gathered(f, player, upto - 1);
        assert forall|b: Seq<Field>| #[trigger]
            all.contains(b) <==> exists|i: int|
                0 <= i < upto && #[trigger] simple_moves(f, player, i).contains(b) by {
            if all.contains(b) {
                let k = choose|k: int| 0 <= k < all.len() && all[k] == b;
                if k < before.len() {
                    assert(before[k] == b);
                    assert(before.contains(b));
                } else {
                    assert(last[k - before.len()] == b);
                    assert(last.contains(b));
                }
            }
            if exists|i: int| 0 <= i < upto && #[trigger] simple_moves(f, player, i).contains(b) {
                let i = choose|i: int|
                    0 <= i < upto && #[trigger] simple_moves(f, player, i).contains(b);
                if i < upto - 1 {
                    assert(before.contains(b));
                    let k = choose|k: int| 0 <= k < before.len() && before[k] == b;
                    assert(all[k] == b);
                } else {
                    let k = choose|k: int| 0 <= k < last.len() && last[k] == b;
                    assert(all[before.len() + k] == b);
                }
            }
        }
    } else {
        assert forall|b: Seq<Field>| #[trigger]
            all.contains(b) <==> exists|i: int|
                0 <= i < upto && #[trigger] simple_moves(f, player, i).contains(b) by {}
    }
}

/// A jump chain leaves fewer pieces on the board than it found; a simple
/// move leaves as many.
pub proof fn lemma_pieces_after_turn(f: Seq<Field>, player: Colour, b: Seq<Field>)
    requires
        f.len() == 64,
    ensures
        all_jumps(f, player, 64).contains(b) ==> b.len() == 64 && pieces(b) < pieces(f),
        all_simple_moves(f, player, 64).contains(b) ==> b.len() == 64 && pieces(b) == pieces(f),
{
    lemma_all_jumps_gathered(f, player, 64);
    lemma_all_simple_gathered(f, player, 64);
    if all_jumps(f, player, 64).contains(b) {
        let i = choose|i: int| 0 <= i < 64 && #[trigger] jump_chains(f, player, i).contains(b);
        let found = jump_chains(f, player, i);
        lemma_chains_within(seq![(i, f)], player, pieces(f), pieces(f) as int);
        let k = choose|k: int| 0 <= k < found.len() && found[k] == b;
        assert(pieces(found[k]) < pieces(f));
    }
    if all_simple_moves(f, player, 64).contains(b) {
        let i = choose|i: int| 0 <= i < 64 && #[trigger] simple_moves(f, player, i).contains(b);
        let found = simple_moves(f, player, i);
        lemma_steps_within(f, player, i, false);
        let k = choose|k: int| 0 <= k < found.len() && found[k] == b;
        assert(found[k] == steps(f, player, i, false)[k].1);
    }
}

/// Captures are mandatory. If any piece of `player` can jump, the turns
/// are the jump chains and nothing else: every turn takes a piece off the
/// board, and no position reached by a simple move is among them.
pub proof fn law_mandatory_capture(f: Seq<Field>, player: Colour, start: int)
    requires
        f.len() == 64,
        on_board(start),
        allowed(f, start, true, player).len() > 0,
    ensures
        turns(f, player).len() > 0,
        turns(f, player) == all_jumps(f, player, 64),
        forall|k: int|
            0 <= k < turns(f, player).len() ==> pieces(#[trigger] turns(f, player)[k]) < pieces(f),
        forall|k: int|
            0 <= k < turns(f, player).len() ==> !all_simple_moves(f, player, 64).contains(
                #[trigger] turns(f, player)[k],
            ),
{
    lemma_jump_chains_begin(f, player, start);
    lemma_all_jumps_gathered(f, player, 64);
    assert(jump_chains(f, player, start).len() > 0);
    let all = turns(f, player);
    assert forall|k: int| 0 <= k < all.len() implies pieces(#[trigger] all[k]) < pieces(f)
        && !all_simple_moves(f, player, 64).contains(all[k]) by {
        assert(all_jumps(f, player, 64).contains(all[k]));
        lemma_pieces_after_turn(f, player, all[k]);
    }
}

/// Without a capture, the turns are the simple moves: each leaves every
/// piece on the board.
pub proof fn law_simple_turns(f: Seq<Field>, player: Colour)
    requires
        f.len() == 64,
        forall|i: int| on_board(i) ==> #[trigger] allowed(f, i, true, player).len() == 0,
    ensures
        turns(f, player) == all_simple_moves(f, player, 64),
        forall|k: int|
            0 <= k < turns(f, player).len() ==> pieces(#[trigger] turns(f, player)[k]) == pieces(f),
{
    lemma_all_jumps_gathered(f, player, 64);
    assert forall|i: int| 0 <= i < 64 implies #[trigger] jump_chains(f, player, i).len() == 0 by {
        assert(allowed(f, i, true, player).len() == 0);
        lemma_jump_chains_begin(f, player, i);
    }
    let all = turns(f, player);
    assert forall|k: int| 0 <= k < all.len() implies pieces(#[trigger] all[k]) == pieces(f) by {
        assert(all_simple_moves(f, player, 64).contains(all[k]));
        lemma_pieces_after_turn(f, player, all[k]);
    }
}

/// A player has no turn exactly when none of their pieces has an allowed
/// target, by jump or by simple move.
pub proof fn law_no_turn(f: Seq<Field>, player: Colour)
    requires
        f.len() == 64,
    ensures
        turns(f, player).len() == 0 <==> forall|i: int, jump: bool|
            on_board(i) ==> #[trigger] allowed(f, i, jump, player).len() == 0,
{
    lemma_all_jumps_gathered(f, player, 64);
    lemma_all_simple_gathered(f, player, 64);
    if turns(f, player).len() == 0 {
        assert forall|i: int, jump: bool| on_board(i) implies #[trigger] allowed(
            f,
            i,
            jump,
            player,
        ).len() == 0 by {
            lemma_jump_chains_begin(f, player, i);
            assert(jump_chains(f, player, i).len() == 0);
            assert(simple_moves(f, player, i).len() == 0);
            assert(steps(f, player, i, false).len() == allowed(f, i, false, player).len());
        }
    }
    if forall|i: int, jump: bool|
        on_board(i) ==> #[trigger] allowed(f, i, jump, player).len() == 0 {
        assert forall|i: int| 0 <= i < 64 implies #[trigger] jump_chains(f, player, i).len()
            == 0 by {
            assert(allowed(f, i, true, player).len() == 0);
            lemma_jump_chains_begin(f, player, i);
        }
        assert forall|i: int| 0 <= i < 64 implies #[trigger] simple_moves(f, player, i).len()
            == 0 by {
            assert(allowed(f, i, false, player).len() == 0);
        }
    }
}

} // verus!
