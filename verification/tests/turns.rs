use checkers::board::Board;
use checkers::field::{Colour, Field, Role};
use checkers::moves::{jumps_from, list, nonjumps_from, possible};

const WHITE_PAWN: Field = Field::Piece(Role::Pawn, Colour::White);
const WHITE_QUEEN: Field = Field::Piece(Role::Queen, Colour::White);
const BLACK_PAWN: Field = Field::Piece(Role::Pawn, Colour::Black);
const BLACK_QUEEN: Field = Field::Piece(Role::Queen, Colour::Black);

fn position(pieces: &[(i32, Field)]) -> Board {
    let mut board = Board::empty();
    for (square, field) in pieces {
        board = board.put(*square, *field);
    }
    board
}

fn pieces_on(board: &Board) -> usize {
    (0..64).filter(|i| !board.index(*i).is_empty()).count()
}

#[test]
fn possible_pairs_each_target_with_its_board() {
    let board = Board::new();
    let found = possible(&board, Colour::Black, 17, false);
    assert_eq!(found.len(), 2);
    assert_eq!(found[0].0, 24);
    assert_eq!(found[0].1, board.move_piece(17, 24));
    assert_eq!(found[1].0, 26);
    assert_eq!(found[1].1, board.move_piece(17, 26));
    assert_ne!(found[0].1, board);
}

#[test]
fn possible_yields_nothing_for_the_other_player() {
    let board = Board::new();
    assert!(possible(&board, Colour::White, 17, false).is_empty());
    assert!(possible(&board, Colour::White, 17, true).is_empty());
    assert!(possible(&board, Colour::Black, 27, false).is_empty());
}

#[test]
fn nonjumps_from_lists_the_simple_moves() {
    let board = Board::new();
    assert_eq!(
        nonjumps_from(&board, Colour::White, 42),
        vec![board.move_piece(42, 35), board.move_piece(42, 33)]
    );
    assert_eq!(nonjumps_from(&board, Colour::White, 62), Vec::<Board>::new());
    assert_eq!(nonjumps_from(&board, Colour::Black, 42), Vec::<Board>::new());
}

#[test]
fn jumps_from_follows_a_chain_of_two() {
    let board = position(&[(44, WHITE_PAWN), (35, BLACK_PAWN), (17, BLACK_PAWN)]);
    let after_one = position(&[(26, WHITE_PAWN), (17, BLACK_PAWN)]);
    let after_two = position(&[(8, WHITE_PAWN)]);
    assert_eq!(jumps_from(&board, Colour::White, 44), vec![after_one, after_two]);
    assert_eq!(jumps_from(&board, Colour::White, 26), Vec::<Board>::new());
    assert_eq!(jumps_from(&board, Colour::Black, 44), Vec::<Board>::new());
}

#[test]
fn jump_chain_completeness() {
    let board = position(&[(44, WHITE_PAWN), (35, BLACK_PAWN), (17, BLACK_PAWN)]);
    let after_one = position(&[(26, WHITE_PAWN), (17, BLACK_PAWN)]);
    let after_two = position(&[(8, WHITE_PAWN)]);
    let turns = list(&board, Colour::White);
    assert!(turns.contains(&after_one));
    assert!(turns.contains(&after_two));
    assert_eq!(turns, vec![after_one, after_two]);
}

#[test]
fn jump_chains_come_round_by_round() {
    let board = position(&[
        (44, WHITE_PAWN),
        (35, BLACK_PAWN),
        (37, BLACK_PAWN),
        (17, BLACK_PAWN),
        (19, BLACK_PAWN),
        (21, BLACK_PAWN),
    ]);
    let left = board.move_piece(44, 26);
    let right = board.move_piece(44, 30);
    let found = jumps_from(&board, Colour::White, 44);
    assert_eq!(
        found,
        vec![
            right,
            left,
            right.move_piece(30, 12),
            left.move_piece(26, 12),
            left.move_piece(26, 8),
        ]
    );
    assert_eq!(pieces_on(&found[0]), 5);
    assert_eq!(pieces_on(&found[1]), 5);
    assert_eq!(pieces_on(&found[2]), 4);
    assert_eq!(pieces_on(&found[3]), 4);
    assert_eq!(pieces_on(&found[4]), 4);
}

#[test]
fn a_chain_goes_on_with_a_fresh_queen() {
    let board = position(&[(17, WHITE_PAWN), (10, BLACK_PAWN), (12, BLACK_PAWN)]);
    let crowned = position(&[(3, WHITE_QUEEN), (12, BLACK_PAWN)]);
    assert_eq!(
        jumps_from(&board, Colour::White, 17),
        vec![
            crowned,
            position(&[(21, WHITE_QUEEN)]),
            position(&[(30, WHITE_QUEEN)]),
            position(&[(39, WHITE_QUEEN)]),
        ]
    );
}

#[test]
fn mandatory_capture() {
    let board = position(&[
        (44, WHITE_PAWN),
        (35, BLACK_PAWN),
        (17, BLACK_PAWN),
        (60, WHITE_PAWN),
    ]);
    assert!(!nonjumps_from(&board, Colour::White, 60).is_empty());
    assert!(!nonjumps_from(&board, Colour::White, 44).is_empty());
    let turns = list(&board, Colour::White);
    assert_eq!(
        turns,
        vec![
            position(&[(26, WHITE_PAWN), (17, BLACK_PAWN), (60, WHITE_PAWN)]),
            position(&[(8, WHITE_PAWN), (60, WHITE_PAWN)]),
        ]
    );
    for turn in &turns {
        assert!(pieces_on(turn) < pieces_on(&board));
        for start in 0..64 {
            assert!(!nonjumps_from(&board, Colour::White, start).contains(turn));
        }
    }
}

#[test]
fn without_a_capture_the_simple_moves_are_listed() {
    let board = position(&[(44, WHITE_PAWN), (60, WHITE_PAWN), (17, BLACK_PAWN)]);
    assert_eq!(
        list(&board, Colour::White),
        vec![
            board.move_piece(44, 37),
            board.move_piece(44, 35),
            board.move_piece(60, 53),
            board.move_piece(60, 51),
        ]
    );
    assert_eq!(
        list(&board, Colour::Black),
        vec![board.move_piece(17, 24), board.move_piece(17, 26)]
    );
}

#[test]
fn list_gathers_the_squares_in_index_order() {
    let board = position(&[
        (44, WHITE_PAWN),
        (35, BLACK_PAWN),
        (53, WHITE_PAWN),
        (46, BLACK_PAWN),
    ]);
    assert_eq!(
        list(&board, Colour::White),
        vec![board.move_piece(44, 26), board.move_piece(53, 39)]
    );
    assert_eq!(
        list(&board, Colour::Black),
        vec![position(&[(44, WHITE_PAWN), (35, BLACK_PAWN), (60, BLACK_QUEEN)])]
    );
}

#[test]
fn no_move_for_a_blocked_player() {
    let board = position(&[(8, WHITE_PAWN), (1, BLACK_PAWN)]);
    assert_eq!(list(&board, Colour::White), Vec::<Board>::new());

    let cornered = position(&[(56, BLACK_PAWN), (62, BLACK_PAWN)]);
    assert_eq!(list(&cornered, Colour::Black), Vec::<Board>::new());

    let walled = position(&[
        (40, WHITE_PAWN),
        (33, BLACK_PAWN),
        (26, BLACK_PAWN),
    ]);
    assert_eq!(list(&walled, Colour::White), Vec::<Board>::new());
}

#[test]
fn no_move_without_pieces() {
    assert_eq!(list(&Board::empty(), Colour::White), Vec::<Board>::new());
    assert_eq!(list(&Board::empty(), Colour::Black), Vec::<Board>::new());
    let board = position(&[(35, BLACK_QUEEN)]);
    assert_eq!(list(&board, Colour::White), Vec::<Board>::new());
    assert_eq!(list(&board, Colour::Black).len(), 13);
}

#[test]
fn a_jump_takes_whatever_piece_stands_in_the_way() {
    let board = Board::new();
    let turns = list(&board, Colour::Black);
    assert_eq!(
        turns,
        vec![
            board.move_piece(8, 26),
            board.move_piece(10, 24),
            board.move_piece(10, 28),
            board.move_piece(12, 26),
            board.move_piece(12, 30),
            board.move_piece(14, 28),
        ]
    );
    for turn in &turns {
        assert_eq!(pieces_on(turn), 23);
    }
}

#[test]
fn turns_alternate_by_inverting_the_colour() {
    let board = position(&[(44, WHITE_PAWN), (19, BLACK_PAWN)]);
    let mut player = Colour::White;
    let mut current = board;
    for _ in 0..2 {
        let turns = list(&current, player);
        assert_eq!(turns.len(), 2);
        current = turns[0];
        player = player.invert();
    }
    assert_eq!(current, position(&[(37, WHITE_PAWN), (26, BLACK_PAWN)]));
    assert_eq!(player, Colour::White);
}

#[test]
fn the_vacated_square_is_not_offered_again() {
    let board = position(&[(44, WHITE_PAWN), (35, BLACK_PAWN), (17, BLACK_PAWN)]);
    for (end, after) in possible(&board, Colour::White, 44, true) {
        assert!(after.index(44).is_empty());
        assert!(!after.allowed_moves(end, true, Colour::White).contains(&44));
        assert!(!after.allowed_moves(end, false, Colour::White).contains(&44));
    }
    let start = Board::new();
    for from in 0..64 {
        for (end, after) in possible(&start, Colour::White, from, false) {
            assert!(after.index(from).is_empty());
            assert!(!after.allowed_moves(end, false, Colour::White).contains(&from));
            assert!(!after.allowed_moves(end, true, Colour::White).contains(&from));
        }
    }
}

#[test]
fn turns_keep_the_pieces_on_the_dark_squares() {
    let mut current = Board::new();
    let mut player = Colour::White;
    for round in 0..12 {
        let turns = list(&current, player);
        assert!(!turns.is_empty());
        for turn in &turns {
            for i in 0..64 {
                if (i / 8 + i % 8) % 2 == 0 {
                    assert!(turn.index(i).is_empty());
                }
            }
        }
        current = turns[round % turns.len()];
        player = player.invert();
    }
}
