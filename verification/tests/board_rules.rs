use checkers::board::Board;
use checkers::field::{Colour, Field, Role};

const WHITE_PAWN: Field = Field::Piece(Role::Pawn, Colour::White);
const WHITE_QUEEN: Field = Field::Piece(Role::Queen, Colour::White);
const BLACK_PAWN: Field = Field::Piece(Role::Pawn, Colour::Black);
const BLACK_QUEEN: Field = Field::Piece(Role::Queen, Colour::Black);

fn set_up(pieces: &[(i32, Field)]) -> Board {
    let mut board = Board::empty();
    for (square, field) in pieces {
        board = board.put(*square, *field);
    }
    board
}

fn count(board: &Board) -> usize {
    (0..64).filter(|i| !board.index(*i).is_empty()).count()
}

#[test]
fn initial_layout_counts() {
    let board = Board::new();
    let mut black = 0;
    let mut white = 0;
    let mut queens = 0;
    let mut empty = 0;
    for i in 0..64 {
        let field = *board.index(i);
        if field.is_queen() {
            queens += 1;
        }
        if field.is_empty() {
            empty += 1;
        } else if field.is_black() {
            assert!(i / 8 <= 2);
            assert_eq!(field, BLACK_PAWN);
            black += 1;
        } else {
            assert!(field.is_white());
            assert!(i / 8 >= 5);
            assert_eq!(field, WHITE_PAWN);
            white += 1;
        }
    }
    assert_eq!(black, 12);
    assert_eq!(white, 12);
    assert_eq!(queens, 0);
    assert_eq!(empty, 40);
}

#[test]
fn initial_layout_uses_alternating_squares() {
    let board = Board::new();
    for i in 0..64 {
        let dark = (i / 8 + i % 8) % 2 == 1;
        if !dark {
            assert!(board.index(i).is_empty());
        } else {
            assert_eq!(board.index(i).is_empty(), i / 8 == 3 || i / 8 == 4);
        }
    }
    assert_eq!(*board.index(1), BLACK_PAWN);
    assert_eq!(*board.index(8), BLACK_PAWN);
    assert_eq!(*board.index(23), BLACK_PAWN);
    assert_eq!(*board.index(40), WHITE_PAWN);
    assert_eq!(*board.index(62), WHITE_PAWN);
    assert_eq!(*board.index(0), Field::Empty);
    assert_eq!(*board.index(63), Field::Empty);
}

#[test]
fn initial_layout_renders_row_by_row() {
    let text = Board::new().to_string();
    let lines: Vec<&str> = text.lines().collect();
    assert_eq!(lines.len(), 8);
    assert_eq!(lines[0], "|-|b|-|b|-|b|-|b");
    assert_eq!(lines[1], "|b|-|b|-|b|-|b|-");
    assert_eq!(lines[2], "|-|b|-|b|-|b|-|b");
    assert_eq!(lines[3], "|-|-|-|-|-|-|-|-");
    assert_eq!(lines[4], "|-|-|-|-|-|-|-|-");
    assert_eq!(lines[5], "|w|-|w|-|w|-|w|-");
    assert_eq!(lines[6], "|-|w|-|w|-|w|-|w");
    assert_eq!(lines[7], "|w|-|w|-|w|-|w|-");
    assert_eq!(text.len(), 8 * 17);
    assert!(text.ends_with('\n'));
}

#[test]
fn queens_render_in_capitals() {
    let board = set_up(&[(1, WHITE_QUEEN), (62, BLACK_QUEEN), (35, WHITE_PAWN)]);
    let text = board.to_string();
    let lines: Vec<&str> = text.lines().collect();
    assert_eq!(lines[0], "|-|W|-|-|-|-|-|-");
    assert_eq!(lines[4], "|-|-|-|w|-|-|-|-");
    assert_eq!(lines[7], "|-|-|-|-|-|-|B|-");
}

#[test]
fn put_changes_one_square() {
    let board = Board::empty();
    for i in 0..64 {
        assert_eq!(*board.index(i), Field::Empty);
    }
    let changed = board.put(35, WHITE_QUEEN);
    for i in 0..64 {
        let expected = if i == 35 { WHITE_QUEEN } else { Field::Empty };
        assert_eq!(*changed.index(i), expected);
    }
    assert_eq!(changed.put(35, Field::Empty), board);
}

#[test]
fn boards_compare_square_by_square() {
    assert_eq!(Board::new(), Board::new());
    assert_ne!(Board::new(), Board::empty());
    let one = set_up(&[(17, BLACK_PAWN)]);
    let other = set_up(&[(17, BLACK_QUEEN)]);
    assert_ne!(one, other);
    assert_eq!(one, other.put(17, BLACK_PAWN));
    assert_ne!(set_up(&[(63, WHITE_PAWN)]), Board::empty());
}

#[test]
fn fields_between_walks_the_diagonal() {
    assert_eq!(Board::fields_between(17, 24), vec![17, 24]);
    assert_eq!(Board::fields_between(24, 17), vec![24, 17]);
    assert_eq!(Board::fields_between(44, 26), vec![44, 35, 26]);
    assert_eq!(Board::fields_between(26, 44), vec![26, 35, 44]);
    assert_eq!(Board::fields_between(0, 63), vec![0, 9, 18, 27, 36, 45, 54, 63]);
    assert_eq!(Board::fields_between(56, 7), vec![56, 49, 42, 35, 28, 21, 14, 7]);
    assert_eq!(Board::fields_between(7, 56), vec![7, 14, 21, 28, 35, 42, 49, 56]);
}

#[test]
fn fields_between_is_empty_off_the_diagonal() {
    assert_eq!(Board::fields_between(5, 5), Vec::<i32>::new());
    assert_eq!(Board::fields_between(17, 18), Vec::<i32>::new());
    assert_eq!(Board::fields_between(17, 25), Vec::<i32>::new());
    assert_eq!(Board::fields_between(8, 15), Vec::<i32>::new());
    assert_eq!(Board::fields_between(23, 32), Vec::<i32>::new());
    assert_eq!(Board::fields_between(0, 49), Vec::<i32>::new());
}

#[test]
fn count_pieces_counts_both_ends() {
    let board = Board::new();
    assert_eq!(board.count_pieces(17, 24), 1);
    assert_eq!(board.count_pieces(8, 26), 2);
    assert_eq!(board.count_pieces(1, 10), 2);
    assert_eq!(board.count_pieces(24, 33), 0);
    assert_eq!(board.count_pieces(7, 56), 6);
    assert_eq!(board.count_pieces(17, 25), 0);
}

#[test]
fn can_move_needs_a_free_target() {
    let board = Board::new();
    assert!(board.can_move(17, 24, false));
    assert!(board.can_move(17, 26, false));
    assert!(!board.can_move(8, 17, false));
    assert!(!board.can_move(1, 10, false));
}

#[test]
fn can_move_needs_a_diagonal() {
    let board = Board::new();
    assert!(!board.can_move(17, 25, false));
    assert!(!board.can_move(17, 18, false));
    assert!(!board.can_move(23, 32, false));
    assert!(!board.can_move(40, 31, false));
    let lone = set_up(&[(8, BLACK_PAWN)]);
    assert!(!lone.can_move(8, 15, false));
    assert!(!lone.can_move(8, 8, false));
}

#[test]
fn can_move_counts_the_pieces_on_the_path() {
    let board = set_up(&[(44, WHITE_PAWN), (35, BLACK_PAWN)]);
    assert!(board.can_move(44, 26, true));
    assert!(!board.can_move(44, 26, false));
    assert!(board.can_move(44, 37, false));
    assert!(!board.can_move(44, 37, true));
    assert!(!board.can_move(44, 30, true));

    let crowded = set_up(&[(56, WHITE_QUEEN), (42, BLACK_PAWN), (35, BLACK_PAWN)]);
    assert!(!crowded.can_move(56, 28, true));
    assert!(!crowded.can_move(56, 28, false));
    assert!(crowded.can_move(56, 49, false));
}

#[test]
fn can_move_takes_the_distance_modulo_eight() {
    let board = set_up(&[(56, WHITE_QUEEN), (35, BLACK_PAWN)]);
    assert!(board.can_move(56, 14, true));
    assert!(board.can_move(56, 28, true));
    assert!(!board.can_move(56, 7, true));
    let mirrored = set_up(&[(7, WHITE_QUEEN), (35, BLACK_PAWN)]);
    assert!(!mirrored.can_move(7, 56, true));
    assert!(mirrored.can_move(7, 49, true));
    let open = set_up(&[(56, WHITE_QUEEN)]);
    assert!(open.can_move(56, 7, false));
}

#[test]
fn a_simple_move_relocates_the_piece() {
    let before = Board::new();
    let after = before.move_piece(17, 24);
    for i in 0..64 {
        let expected = if i == 17 {
            Field::Empty
        } else if i == 24 {
            BLACK_PAWN
        } else {
            *before.index(i)
        };
        assert_eq!(*after.index(i), expected);
    }
    assert_eq!(count(&after), 24);
}

#[test]
fn a_jump_clears_the_path() {
    let before = set_up(&[(44, WHITE_PAWN), (35, BLACK_PAWN), (17, BLACK_PAWN)]);
    let after = before.move_piece(44, 26);
    assert_eq!(after, set_up(&[(26, WHITE_PAWN), (17, BLACK_PAWN)]));
    assert_eq!(before.count_pieces(44, 26), 2);
    assert_eq!(after.count_pieces(44, 26), 1);
    assert_eq!(count(&before), 3);
    assert_eq!(count(&after), 2);
}

#[test]
fn a_simple_move_keeps_the_piece_count() {
    let before = set_up(&[(35, WHITE_QUEEN), (17, BLACK_PAWN), (60, WHITE_PAWN)]);
    assert!(before.can_move(35, 62, false));
    let after = before.move_piece(35, 62);
    assert_eq!(before.count_pieces(35, 62), 1);
    assert_eq!(after.count_pieces(35, 62), 1);
    assert_eq!(count(&after), count(&before));
    assert_eq!(after, set_up(&[(62, WHITE_QUEEN), (17, BLACK_PAWN), (60, WHITE_PAWN)]));
}

#[test]
fn a_long_jump_of_a_queen_takes_one_piece() {
    let before = set_up(&[(56, WHITE_QUEEN), (35, BLACK_PAWN), (1, BLACK_PAWN)]);
    assert!(before.can_move(56, 14, true));
    let after = before.move_piece(56, 14);
    assert_eq!(after, set_up(&[(14, WHITE_QUEEN), (1, BLACK_PAWN)]));
    assert_eq!(count(&after), count(&before) - 1);
}

#[test]
fn a_white_pawn_is_promoted_on_row_zero() {
    let before = set_up(&[(8, WHITE_PAWN)]);
    let after = before.move_piece(8, 1);
    assert_eq!(after, set_up(&[(1, WHITE_QUEEN)]));
}

#[test]
fn a_black_pawn_is_promoted_on_row_seven() {
    let before = set_up(&[(49, BLACK_PAWN)]);
    assert_eq!(before.move_piece(49, 56), set_up(&[(56, BLACK_QUEEN)]));
    assert_eq!(before.move_piece(49, 58), set_up(&[(58, BLACK_QUEEN)]));
}

#[test]
fn a_pawn_is_promoted_by_a_jump_onto_the_far_row() {
    let before = set_up(&[(17, WHITE_PAWN), (10, BLACK_PAWN)]);
    assert!(before.can_move(17, 3, true));
    assert_eq!(before.move_piece(17, 3), set_up(&[(3, WHITE_QUEEN)]));
}

#[test]
fn a_pawn_is_not_promoted_on_its_own_side() {
    let before = set_up(&[(49, WHITE_PAWN), (10, BLACK_PAWN)]);
    assert_eq!(
        before.move_piece(10, 1),
        set_up(&[(49, WHITE_PAWN), (1, BLACK_PAWN)])
    );
    let low = set_up(&[(49, WHITE_PAWN)]).put(56, WHITE_PAWN);
    assert_eq!(*low.move_piece(49, 42).index(56), WHITE_PAWN);
}

#[test]
fn a_queen_on_the_edge_stays_a_queen() {
    let before = set_up(&[(1, WHITE_QUEEN), (62, BLACK_QUEEN), (44, WHITE_PAWN)]);
    let after = before.move_piece(44, 37);
    assert_eq!(
        after,
        set_up(&[(1, WHITE_QUEEN), (62, BLACK_QUEEN), (37, WHITE_PAWN)])
    );
}

#[test]
fn every_move_promotes_the_whole_edge_rows() {
    let before = set_up(&[(1, WHITE_PAWN), (5, BLACK_PAWN), (62, BLACK_PAWN), (58, WHITE_PAWN), (44, WHITE_PAWN)]);
    let after = before.move_piece(44, 37);
    assert_eq!(
        after,
        set_up(&[(1, WHITE_QUEEN), (5, BLACK_PAWN), (62, BLACK_QUEEN), (58, WHITE_PAWN), (37, WHITE_PAWN)])
    );
}

#[test]
fn promote_all_touches_only_the_far_rows() {
    let before = set_up(&[
        (0, WHITE_PAWN),
        (7, WHITE_PAWN),
        (3, BLACK_PAWN),
        (8, WHITE_PAWN),
        (55, BLACK_PAWN),
        (56, BLACK_PAWN),
        (63, BLACK_PAWN),
        (60, WHITE_PAWN),
    ]);
    let after = before.promote_all();
    assert_eq!(
        after,
        set_up(&[
            (0, WHITE_QUEEN),
            (7, WHITE_QUEEN),
            (3, BLACK_PAWN),
            (8, WHITE_PAWN),
            (55, BLACK_PAWN),
            (56, BLACK_QUEEN),
            (63, BLACK_QUEEN),
            (60, WHITE_PAWN),
        ])
    );
    assert_eq!(after.promote_all(), after);
    assert_eq!(Board::new().promote_all(), Board::new());
}

#[test]
fn off_the_diagonal_nothing_is_swept() {
    let before = set_up(&[(17, BLACK_PAWN), (18, WHITE_PAWN)]);
    let after = before.move_piece(17, 25);
    assert_eq!(
        after,
        set_up(&[(17, BLACK_PAWN), (18, WHITE_PAWN), (25, BLACK_PAWN)])
    );
    assert_eq!(before.move_piece(17, 17), before);
}

#[test]
fn allowed_moves_of_the_first_rank_pawns() {
    let board = Board::new();
    assert_eq!(board.allowed_moves(17, false, Colour::Black), vec![24, 26]);
    assert_eq!(board.allowed_moves(19, false, Colour::Black), vec![26, 28]);
    assert_eq!(board.allowed_moves(23, false, Colour::Black), vec![30]);
    assert_eq!(board.allowed_moves(40, false, Colour::White), vec![33]);
    assert_eq!(board.allowed_moves(42, false, Colour::White), vec![35, 33]);
    assert_eq!(board.allowed_moves(46, false, Colour::White), vec![39, 37]);
}

#[test]
fn allowed_moves_is_empty_for_the_other_player() {
    let board = Board::new();
    assert_eq!(board.allowed_moves(17, false, Colour::White), Vec::<i32>::new());
    assert_eq!(board.allowed_moves(40, false, Colour::Black), Vec::<i32>::new());
    assert_eq!(board.allowed_moves(27, false, Colour::Black), Vec::<i32>::new());
    assert_eq!(board.allowed_moves(27, true, Colour::White), Vec::<i32>::new());
}

#[test]
fn allowed_moves_is_empty_for_a_blocked_pawn() {
    let board = Board::new();
    assert_eq!(board.allowed_moves(1, false, Colour::Black), Vec::<i32>::new());
    assert_eq!(board.allowed_moves(8, false, Colour::Black), Vec::<i32>::new());
    assert_eq!(board.allowed_moves(62, false, Colour::White), Vec::<i32>::new());
    assert_eq!(board.allowed_moves(17, true, Colour::Black), Vec::<i32>::new());
}

#[test]
fn allowed_moves_stay_on_the_board() {
    let board = set_up(&[(8, WHITE_PAWN), (7, WHITE_PAWN), (63, BLACK_PAWN), (55, BLACK_PAWN), (39, WHITE_QUEEN)]);
    assert_eq!(board.allowed_moves(8, false, Colour::White), vec![1]);
    assert_eq!(board.allowed_moves(7, false, Colour::White), Vec::<i32>::new());
    assert_eq!(board.allowed_moves(63, false, Colour::Black), Vec::<i32>::new());
    assert_eq!(board.allowed_moves(55, false, Colour::Black), vec![62]);
    assert_eq!(
        board.allowed_moves(39, false, Colour::White),
        vec![3, 12, 21, 30, 46, 53, 60]
    );
}

#[test]
fn allowed_moves_of_a_queen_follow_the_scan() {
    let board = set_up(&[(35, WHITE_QUEEN)]);
    assert_eq!(
        board.allowed_moves(35, false, Colour::White),
        vec![7, 14, 8, 21, 17, 28, 26, 42, 44, 49, 53, 56, 62]
    );
    assert_eq!(board.allowed_moves(35, true, Colour::White), Vec::<i32>::new());
}

#[test]
fn allowed_jumps_of_a_queen() {
    let board = set_up(&[(35, WHITE_QUEEN), (21, BLACK_PAWN), (26, BLACK_PAWN), (49, BLACK_PAWN), (53, WHITE_PAWN)]);
    assert_eq!(
        board.allowed_moves(35, true, Colour::White),
        vec![7, 14, 8, 17, 56, 62]
    );
    assert_eq!(
        board.allowed_moves(35, false, Colour::White),
        vec![28, 42, 44]
    );
}

#[test]
fn allowed_jumps_of_a_pawn_go_forward_only() {
    let board = set_up(&[(35, WHITE_PAWN), (26, BLACK_PAWN), (28, BLACK_PAWN), (42, BLACK_PAWN), (44, BLACK_PAWN)]);
    assert_eq!(board.allowed_moves(35, true, Colour::White), vec![21, 17]);
    let black = set_up(&[(35, BLACK_PAWN), (26, WHITE_PAWN), (28, WHITE_PAWN), (42, WHITE_PAWN), (44, WHITE_PAWN)]);
    assert_eq!(black.allowed_moves(35, true, Colour::Black), vec![49, 53]);
}

#[test]
fn the_vacated_square_is_not_offered_to_a_pawn() {
    let before = Board::new();
    let after = before.move_piece(17, 24);
    assert!(!after.allowed_moves(24, false, Colour::Black).contains(&17));
    assert!(!after.allowed_moves(24, true, Colour::Black).contains(&17));
    assert!(after.index(17).is_empty());

    let jumped = set_up(&[(44, WHITE_PAWN), (35, BLACK_PAWN)]).move_piece(44, 26);
    assert!(!jumped.allowed_moves(26, true, Colour::White).contains(&44));
    assert!(!jumped.allowed_moves(26, false, Colour::White).contains(&44));
}

#[test]
fn the_vacated_square_is_never_a_jump_target() {
    let before = set_up(&[(56, WHITE_QUEEN), (35, BLACK_PAWN), (21, BLACK_PAWN)]);
    let after = before.move_piece(56, 28);
    assert!(!after.allowed_moves(28, true, Colour::White).contains(&56));
    assert_eq!(after.allowed_moves(28, true, Colour::White), vec![7, 14]);
    assert!(after.allowed_moves(28, false, Colour::White).contains(&56));
    assert!(!after.allowed_moves(28, false, Colour::Black).contains(&56));
}

#[test]
fn can_move_does_not_look_at_the_start() {
    let board = set_up(&[(26, BLACK_PAWN)]);
    assert!(board.can_move(17, 35, false));
    assert!(!board.can_move(17, 35, true));
    assert_eq!(board.move_piece(17, 35), Board::empty());
    assert_eq!(board.allowed_moves(17, false, Colour::Black), Vec::<i32>::new());
    assert_eq!(board.allowed_moves(17, false, Colour::White), Vec::<i32>::new());
}
