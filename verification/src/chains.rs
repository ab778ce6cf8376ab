//! Jump chains, said as paths of one piece: which positions the
//! round-by-round search of `moves` finds, and that it finds them all.

use vstd::prelude::*;
use crate::aftermath::lemma_moved_regular;
use crate::board::{allowed, moved, pieces, regular};
use crate::field::{Colour, Field};
use crate::geometry::on_board;
use crate::laws::{lemma_all_jumps_gathered, lemma_all_simple_gathered};
use crate::legal::{legal_step, lemma_allowed_contains, lemma_legal_step_dark};
use crate::moves::{
    all_jumps,
    all_simple_moves,
    boards_of,
    chains,
    jump_chains,
    jump_round,
    lemma_round_within,
    live_within,
    simple_moves,
    steps,
    turns,
};

verus! {

/// The position after a piece has travelled from square to square along
/// `squares`, the first of which is where it stood.
pub open spec fn after_chain(f: Seq<Field>, squares: Seq<int>) -> Seq<Field>
    decreases squares.len(),
{
    if squares.len() <= 1 {
        f
    } else {
        moved(
            after_chain(f, squares.drop_last()),
            squares[squares.len() - 2],
            squares.last(),
        )
    }
}

/// Whether `squares` is the way of one piece of `player` through a chain
/// of jumps: it starts on a square of the board, and each further square
/// is a legal jump in the position that the jumps before it left.
pub open spec fn is_jump_chain(f: Seq<Field>, player: Colour, squares: Seq<int>) -> bool
    decreases squares.len(),
{
    if squares.len() == 0 {
        false
    } else if squares.len() == 1 {
        on_board(squares[0])
    } else {
        &&& is_jump_chain(f, player, squares.drop_last())
        &&& legal_step(
            after_chain(f, squares.drop_last()),
            squares[squares.len() - 2],
            squares.last(),
            true,
            player,
        )
    }
}

/// Whether `squares` is a chain of `jumps` jumps from `start` that ends in
/// the state `s`.
pub open spec fn chain_to(
    f: Seq<Field>,
    player: Colour,
    start: int,
    jumps: nat,
    s: (int, Seq<Field>),
    squares: Seq<int>,
) -> bool {
    &&& squares.len() == jumps + 1
    &&& squares[0] == start
    &&& is_jump_chain(f, player, squares)
    &&& squares.last() == s.0
    &&& after_chain(f, squares) == s.1
}

/// The live states after `n` rounds of jumping.
pub open spec fn nth_round(live: Seq<(int, Seq<Field>)>, player: Colour, n: nat) -> Seq<
    (int, Seq<Field>),
>
    decreases n,
{
    if n == 0 {
        live
    } else {
        jump_round(nth_round(live, player, (n - 1) as nat), player)
    }
}

/// A jump chain ends on a square of the board, in a position of 64 squares.
pub proof fn lemma_chain_end(f: Seq<Field>, player: Colour, squares: Seq<int>)
    requires
        f.len() == 64,
        is_jump_chain(f, player, squares),
    ensures
        on_board(squares.last()),
        on_board(squares[0]),
        after_chain(f, squares).len() == 64,
    decreases squares.len(),
{
    if squares.len() > 1 {
        lemma_chain_end(f, player, squares.drop_last());
    }
}

/// Every start of a jump chain is a jump chain.
pub proof fn lemma_chain_prefix(f: Seq<Field>, player: Colour, squares: Seq<int>, n: int)
    requires
        is_jump_chain(f, player, squares),
        1 <= n <= squares.len(),
    ensures
        is_jump_chain(f, player, squares.take(n)),
    decreases squares.len(),
{
    if n == squares.len() {
        assert(squares.take(n) =~= squares);
    } else {
        lemma_chain_prefix(f, player, squares.drop_last(), n);
        assert(squares.drop_last().take(n) =~= squares.take(n));
    }
}

/// The steps from a state are the legal steps of its piece, each with the
/// position it leads to.
pub proof fn lemma_steps_member(
    f: Seq<Field>,
    player: Colour,
    start: int,
    jump: bool,
    s: (int, Seq<Field>),
)
    requires
        f.len() == 64,
        on_board(start),
    ensures
        steps(f, player, start, jump).contains(s) <==> legal_step(f, start, s.0, jump, player)
            && s.1 == moved(f, start, s.0),
{
    let ends = allowed(f, start, jump, player);
    let found = steps(f, player, start, jump);
    lemma_allowed_contains(f, start, s.0, jump, player);
    if found.contains(s) {
        let k = choose|k: int| 0 <= k < found.len() && found[k] == s;
        assert(ends[k] == s.0);
        assert(ends.contains(s.0));
    }
    if legal_step(f, start, s.0, jump, player) && s.1 == moved(f, start, s.0) {
        let k = choose|k: int| 0 <= k < ends.len() && ends[k] == s.0;
        assert(found[k] == s);
    }
}

/// A round of jumps finds what a step from one of the live states finds.
pub proof fn lemma_round_member(live: Seq<(int, Seq<Field>)>, player: Colour, s: (int, Seq<Field>))
    ensures
        jump_round(live, player).contains(s) <==> exists|k: int|
            0 <= k < live.len() && #[trigger] steps(live[k].1, player, live[k].0, true).contains(s),
    decreases live.len(),
{
    let all = jump_round(live, player);
    if live.len() > 0 {
        let rest = live.drop_last();
        let before = jump_round(rest, player);
        let found = steps(live.last().1, player, live.last().0, true);
        lemma_round_member(rest, player, s);
        if all.contains(s) {
            let j = choose|j: int| 0 <= j < all.len() && all[j] == s;
            if j < before.len() {
                assert(before[j] == s);
                assert(before.contains(s));
                let k = choose|k: int|
                    0 <= k < rest.len() && #[trigger] steps(
                        rest[k].1,
                        player,
                        rest[k].0,
                        true,
                    ).contains(s);
                assert(rest[k] == live[k]);
                assert(steps(live[k].1, player, live[k].0, true).contains(s));
            } else {
                assert(found[j - before.len()] == s);
                assert(found.contains(s));
                assert(live.last() == live[live.len() - 1]);
                assert(steps(
                    live[live.len() - 1].1,
                    player,
                    live[live.len() - 1].0,
                    true,
                ).contains(s));
            }
        }
        if exists|k: int|
            0 <= k < live.len() && #[trigger] steps(live[k].1, player, live[k].0, true).contains(
                s,
            ) {
            let k = choose|k: int|
                0 <= k < live.len() && #[trigger] steps(
                    live[k].1,
                    player,
                    live[k].0,
                    true,
                ).contains(s);
            if k < rest.len() {
                assert(rest[k] == live[k]);
                assert(steps(rest[k].1, player, rest[k].0, true).contains(s));
                assert(before.contains(s));
                let j = choose|j: int| 0 <= j < before.len() && before[j] == s;
                assert(all[j] == s);
            } else {
                assert(live[k] == live.last());
                let j = choose|j: int| 0 <= j < found.len() && found[j] == s;
                assert(all[before.len() + j] == s);
            }
        }
    }
}

/// After `n` rounds every live position has lost `n` pieces.
pub proof fn lemma_nth_round_within(
    live: Seq<(int, Seq<Field>)>,
    player: Colour,
    n: nat,
    bound: int,
)
    requires
        live_within(live, bound),
    ensures
        live_within(nth_round(live, player, n), bound - n),
    decreases n,
{
    if n > 0 {
        lemma_nth_round_within(live, player, (n - 1) as nat, bound);
        lemma_round_within(nth_round(live, player, (n - 1) as nat), player, bound - (n - 1));
    }
}

/// Starting one round later is the same as doing one round more.
pub proof fn lemma_nth_round_shift(live: Seq<(int, Seq<Field>)>, player: Colour, n: nat)
    ensures
        nth_round(jump_round(live, player), player, n) == jump_round(
            nth_round(live, player, n),
            player,
        ),
    decreases n,
{
    if n > 0 {
        lemma_nth_round_shift(live, player, (n - 1) as nat);
    }
}

/// From no live state nothing is ever reached.
pub proof fn lemma_nth_round_empty(player: Colour, n: nat)
    ensures
        nth_round(Seq::empty(), player, n) == Seq::<(int, Seq<Field>)>::empty(),
    decreases n,
{
    if n > 0 {
        lemma_nth_round_empty(player, (n - 1) as nat);
    }
}

/// The search gathers exactly the positions of its first `rounds` rounds.
pub proof fn lemma_chains_rounds(
    live: Seq<(int, Seq<Field>)>,
    player: Colour,
    rounds: nat,
    b: Seq<Field>,
)
    ensures
        chains(live, player, rounds).contains(b) <==> exists|n: nat|
            1 <= n <= rounds && #[trigger] boards_of(nth_round(live, player, n)).contains(b),
    decreases rounds,
{
    let all = chains(live, player, rounds);
    if rounds > 0 && live.len() > 0 {
        let next = jump_round(live, player);
        let first = boards_of(next);
        let later = chains(next, player, (rounds - 1) as nat);
        lemma_chains_rounds(next, player, (rounds - 1) as nat, b);
        assert(nth_round(live, player, 1) == jump_round(nth_round(live, player, 0), player));
        if all.contains(b) {
            let j = choose|j: int| 0 <= j < all.len() && all[j] == b;
            if j < first.len() {
                assert(first[j] == b);
                assert(boards_of(nth_round(live, player, 1)).contains(b));
            } else {
                assert(later[j - first.len()] == b);
                assert(later.contains(b));
                let n = choose|n: nat|
                    1 <= n <= rounds - 1 && #[trigger] boards_of(
                        nth_round(next, player, n),
                    ).contains(b);
                lemma_nth_round_shift(live, player, n);
                assert(boards_of(nth_round(live, player, n + 1)).contains(b));
            }
        }
        if exists|n: nat|
            1 <= n <= rounds && #[trigger] boards_of(nth_round(live, player, n)).contains(b) {
            let n = choose|n: nat|
                1 <= n <= rounds && #[trigger] boards_of(nth_round(live, player, n)).contains(b);
            if n == 1 {
                let j = choose|j: int| 0 <= j < first.len() && first[j] == b;
                assert(all[j] == b);
            } else {
                let m = (n - 1) as nat;
                lemma_nth_round_shift(live, player, m);
                assert(boards_of(nth_round(next, player, m)).contains(b));
                assert(later.contains(b));
                let j = choose|j: int| 0 <= j < later.len() && later[j] == b;
                assert(all[first.len() + j] == b);
            }
        }
    } else if rounds > 0 {
        assert(live =~= Seq::empty());
        assert forall|n: nat| 1 <= n <= rounds implies !(#[trigger] boards_of(
            nth_round(live, player, n),
        ).contains(b)) by {
            lemma_nth_round_empty(player, n);
        }
    }
}

/// The states that are live after `n` rounds from the single state
/// `(start, f)` are the ends of the chains of `n` jumps from `start`.
pub proof fn lemma_nth_round_chain(
    f: Seq<Field>,
    player: Colour,
    start: int,
    n: nat,
    s: (int, Seq<Field>),
)
    requires
        f.len() == 64,
        on_board(start),
    ensures
        nth_round(seq![(start, f)], player, n).contains(s) <==> exists|squares: Seq<int>| #[trigger]
            chain_to(f, player, start, n, s, squares),
    decreases n,
{
    let live = seq![(start, f)];
    let now = nth_round(live, player, n);
    if n == 0 {
        if now.contains(s) {
            let k = choose|k: int| 0 <= k < now.len() && now[k] == s;
            assert(chain_to(f, player, start, n, s, seq![start]));
        }
        if exists|squares: Seq<int>| #[trigger] chain_to(f, player, start, n, s, squares) {
            assert(now[0] == s);
        }
    } else {
        let m = (n - 1) as nat;
        let prev = nth_round(live, player, m);
        lemma_round_member(prev, player, s);
        assert(live_within(live, pieces(f) as int));
        lemma_nth_round_within(live, player, m, pieces(f) as int);
        if now.contains(s) {
            let k = choose|k: int|
                0 <= k < prev.len() && #[trigger] steps(prev[k].1, player, prev[k].0, true).contains(
                    s,
                );
            lemma_steps_member(prev[k].1, player, prev[k].0, true, s);
            assert(prev.contains(prev[k]));
            lemma_nth_round_chain(f, player, start, m, prev[k]);
            let before = choose|squares: Seq<int>| #[trigger]
                chain_to(f, player, start, m, prev[k], squares);
            let squares = before.push(s.0);
            assert(squares.drop_last() =~= before);
            assert(chain_to(f, player, start, n, s, squares));
        }
        if exists|squares: Seq<int>| #[trigger] chain_to(f, player, start, n, s, squares) {
            let squares = choose|squares: Seq<int>| #[trigger]
                chain_to(f, player, start, n, s, squares);
            let before = squares.drop_last();
            let from = (before.last(), after_chain(f, before));
            assert(before.last() == squares[squares.len() - 2]);
            assert(chain_to(f, player, start, m, from, before));
            lemma_nth_round_chain(f, player, start, m, from);
            let k = choose|k: int| 0 <= k < prev.len() && prev[k] == from;
            lemma_steps_member(prev[k].1, player, prev[k].0, true, s);
            assert(steps(prev[k].1, player, prev[k].0, true).contains(s));
        }
    }
}

/// The jump chains found for a piece are exactly the positions at the end
/// of a chain of one jump or more that starts on its square.
pub proof fn law_jump_chains(f: Seq<Field>, player: Colour, start: int, b: Seq<Field>)
    requires
        f.len() == 64,
        on_board(start),
    ensures
        jump_chains(f, player, start).contains(b) <==> exists|squares: Seq<int>|
            {
                &&& squares.len() >= 2
                &&& squares[0] == start
                &&& #[trigger] is_jump_chain(f, player, squares)
                &&& after_chain(f, squares) == b
            },
{
    let live = seq![(start, f)];
    lemma_chains_rounds(live, player, pieces(f), b);
    if jump_chains(f, player, start).contains(b) {
        let n = choose|n: nat|
            1 <= n <= pieces(f) && #[trigger] boards_of(nth_round(live, player, n)).contains(b);
        let now = nth_round(live, player, n);
        let k = choose|k: int| 0 <= k < boards_of(now).len() && boards_of(now)[k] == b;
        assert(now.contains(now[k]));
        lemma_nth_round_chain(f, player, start, n, now[k]);
        let squares = choose|squares: Seq<int>| #[trigger]
            chain_to(f, player, start, n, now[k], squares);
        assert(squares.len() >= 2 && squares[0] == start && is_jump_chain(f, player, squares)
            && after_chain(f, squares) == b);
    }
    if exists|squares: Seq<int>|
        {
            &&& squares.len() >= 2
            &&& squares[0] == start
            &&& #[trigger] is_jump_chain(f, player, squares)
            &&& after_chain(f, squares) == b
        } {
        let squares = choose|squares: Seq<int>|
            {
                &&& squares.len() >= 2
                &&& squares[0] == start
                &&& #[trigger] is_jump_chain(f, player, squares)
                &&& after_chain(f, squares) == b
            };
        let n = (squares.len() - 1) as nat;
        let s = (squares.last(), b);
        assert(chain_to(f, player, start, n, s, squares));
        lemma_nth_round_chain(f, player, start, n, s);
        let now = nth_round(live, player, n);
        let k = choose|k: int| 0 <= k < now.len() && now[k] == s;
        assert(live_within(live, pieces(f) as int));
        lemma_nth_round_within(live, player, n, pieces(f) as int);
        assert(pieces(now[k].1) <= pieces(f) - n);
        assert(boards_of(now)[k] == b);
        assert(boards_of(now).contains(b));
    }
}

/// A chain of jumps may stop after any of its jumps: the position after
/// each jump of a chain is a turn of its own.
pub proof fn law_chain_turns(f: Seq<Field>, player: Colour, squares: Seq<int>, n: int)
    requires
        f.len() == 64,
        is_jump_chain(f, player, squares),
        2 <= n <= squares.len(),
    ensures
        turns(f, player).contains(after_chain(f, squares.take(n))),
        turns(f, player) == all_jumps(f, player, 64),
{
    let part = squares.take(n);
    lemma_chain_prefix(f, player, squares, n);
    lemma_chain_end(f, player, part);
    law_jump_chains(f, player, part[0], after_chain(f, part));
    lemma_all_jumps_gathered(f, player, 64);
    assert(jump_chains(f, player, part[0]).contains(after_chain(f, part)));
    assert(all_jumps(f, player, 64).contains(after_chain(f, part)));
}

/// Every turn made of jumps is the end of a chain of jumps of one piece.
pub proof fn law_turn_chains(f: Seq<Field>, player: Colour, b: Seq<Field>)
    requires
        f.len() == 64,
        all_jumps(f, player, 64).contains(b),
    ensures
        exists|squares: Seq<int>|
            {
                &&& squares.len() >= 2
                &&& #[trigger] is_jump_chain(f, player, squares)
                &&& after_chain(f, squares) == b
            },
{
    lemma_all_jumps_gathered(f, player, 64);
    let i = choose|i: int| 0 <= i < 64 && #[trigger] jump_chains(f, player, i).contains(b);
    law_jump_chains(f, player, i, b);
    let squares = choose|squares: Seq<int>|
        {
            &&& squares.len() >= 2
            &&& squares[0] == i
            &&& #[trigger] is_jump_chain(f, player, squares)
            &&& after_chain(f, squares) == b
        };
    assert(squares.len() >= 2 && is_jump_chain(f, player, squares) && after_chain(f, squares)
        == b);
}

/// A chain of jumps keeps every piece on the dark squares.
pub proof fn lemma_chain_regular(f: Seq<Field>, player: Colour, squares: Seq<int>)
    requires
        f.len() == 64,
        regular(f),
        is_jump_chain(f, player, squares),
    ensures
        regular(after_chain(f, squares)),
    decreases squares.len(),
{
    if squares.len() > 1 {
        let before = squares.drop_last();
        lemma_chain_regular(f, player, before);
        lemma_chain_end(f, player, before);
        assert(before.last() == squares[squares.len() - 2]);
        lemma_legal_step_dark(after_chain(f, before), before.last(), squares.last(), true, player);
        lemma_moved_regular(after_chain(f, before), before.last(), squares.last());
    }
}

/// Pieces never leave the dark squares: from a position with every piece
/// on a dark square, every turn leads to such a position.
pub proof fn law_turns_regular(f: Seq<Field>, player: Colour)
    requires
        f.len() == 64,
        regular(f),
    ensures
        forall|k: int| 0 <= k < turns(f, player).len() ==> regular(#[trigger] turns(f, player)[k]),
{
    let all = turns(f, player);
    assert forall|k: int| 0 <= k < all.len() implies regular(#[trigger] all[k]) by {
        let b = all[k];
        if all_jumps(f, player, 64).len() > 0 {
            assert(all_jumps(f, player, 64).contains(b));
            law_turn_chains(f, player, b);
            let squares = choose|squares: Seq<int>|
                {
                    &&& squares.len() >= 2
                    &&& #[trigger] is_jump_chain(f, player, squares)
                    &&& after_chain(f, squares) == b
                };
            lemma_chain_regular(f, player, squares);
        } else {
            assert(all_simple_moves(f, player, 64).contains(b));
            lemma_all_simple_gathered(f, player, 64);
            let i = choose|i: int| 0 <= i < 64 && #[trigger] simple_moves(f, player, i).contains(b);
            let found = steps(f, player, i, false);
            let j = choose|j: int|
                0 <= j < simple_moves(f, player, i).len() && simple_moves(f, player, i)[j] == b;
            assert(found.contains(found[j]));
            lemma_steps_member(f, player, i, false, found[j]);
            lemma_legal_step_dark(f, i, found[j].0, false, player);
            lemma_moved_regular(f, i, found[j].0);
        }
    }
}

} // verus!
