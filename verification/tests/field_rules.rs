use checkers::field::{Colour, Field, Role};

const WHITE_PAWN: Field = Field::Piece(Role::Pawn, Colour::White);
const WHITE_QUEEN: Field = Field::Piece(Role::Queen, Colour::White);
const BLACK_PAWN: Field = Field::Piece(Role::Pawn, Colour::Black);
const BLACK_QUEEN: Field = Field::Piece(Role::Queen, Colour::Black);

#[test]
fn invert_swaps_the_colours() {
    assert_eq!(Colour::Black.invert(), Colour::White);
    assert_eq!(Colour::White.invert(), Colour::Black);
    assert_eq!(Colour::Black.invert().invert(), Colour::Black);
    assert_eq!(Colour::White.invert().invert(), Colour::White);
}

#[test]
fn predicates_tell_the_five_contents_apart() {
    assert!(Field::Empty.is_empty());
    assert!(!Field::Empty.is_queen());
    assert!(!Field::Empty.is_white());
    assert!(!Field::Empty.is_black());
    assert!(!Field::Empty.has_colour(Colour::White));
    assert!(!Field::Empty.has_colour(Colour::Black));

    assert!(WHITE_PAWN.is_white());
    assert!(!WHITE_PAWN.is_black());
    assert!(!WHITE_PAWN.is_queen());
    assert!(!WHITE_PAWN.is_empty());
    assert!(WHITE_PAWN.has_colour(Colour::White));
    assert!(!WHITE_PAWN.has_colour(Colour::Black));

    assert!(BLACK_QUEEN.is_black());
    assert!(!BLACK_QUEEN.is_white());
    assert!(BLACK_QUEEN.is_queen());
    assert!(BLACK_QUEEN.has_colour(Colour::Black));
    assert!(!BLACK_QUEEN.has_colour(Colour::White));

    assert!(WHITE_QUEEN.is_queen());
    assert!(BLACK_PAWN.is_black());
}

#[test]
fn promotion_keeps_the_colour() {
    assert_eq!(WHITE_PAWN.promoted(), WHITE_QUEEN);
    assert_eq!(BLACK_PAWN.promoted(), BLACK_QUEEN);
    assert_eq!(WHITE_QUEEN.promoted(), WHITE_QUEEN);
    assert_eq!(BLACK_QUEEN.promoted(), BLACK_QUEEN);
    assert_eq!(Field::Empty.promoted(), Field::Empty);
}

#[test]
fn direction_is_fixed_per_colour() {
    assert_eq!(WHITE_PAWN.direction(), -1);
    assert_eq!(WHITE_QUEEN.direction(), -1);
    assert_eq!(BLACK_PAWN.direction(), 1);
    assert_eq!(BLACK_QUEEN.direction(), 1);
    assert_eq!(Field::Empty.direction(), 0);
}

#[test]
fn a_pawn_has_one_row_step() {
    assert_eq!(WHITE_PAWN.min_dy(false), -1);
    assert_eq!(WHITE_PAWN.max_dy(false), -1);
    assert_eq!(WHITE_PAWN.min_dy(true), -2);
    assert_eq!(WHITE_PAWN.max_dy(true), -2);
    assert_eq!(BLACK_PAWN.min_dy(false), 1);
    assert_eq!(BLACK_PAWN.max_dy(false), 1);
    assert_eq!(BLACK_PAWN.min_dy(true), 2);
    assert_eq!(BLACK_PAWN.max_dy(true), 2);
}

#[test]
fn a_queen_ranges_over_seven_rows() {
    for jump in [false, true] {
        assert_eq!(WHITE_QUEEN.min_dy(jump), -7);
        assert_eq!(WHITE_QUEEN.max_dy(jump), 7);
        assert_eq!(BLACK_QUEEN.min_dy(jump), -7);
        assert_eq!(BLACK_QUEEN.max_dy(jump), 7);
    }
}

#[test]
fn an_empty_square_does_not_move() {
    for jump in [false, true] {
        assert_eq!(Field::Empty.min_dy(jump), 0);
        assert_eq!(Field::Empty.max_dy(jump), 0);
    }
}

#[test]
fn steps_are_clamped_to_the_board() {
    assert_eq!(WHITE_QUEEN.min_step(3, false), -3);
    assert_eq!(WHITE_QUEEN.max_step(3, false), 4);
    assert_eq!(WHITE_QUEEN.min_step(0, true), 0);
    assert_eq!(WHITE_QUEEN.max_step(0, true), 7);
    assert_eq!(BLACK_QUEEN.min_step(7, true), -7);
    assert_eq!(BLACK_QUEEN.max_step(7, true), 0);

    assert_eq!(BLACK_PAWN.min_step(2, false), 1);
    assert_eq!(BLACK_PAWN.max_step(2, false), 1);
    assert_eq!(BLACK_PAWN.min_step(6, true), 2);
    assert_eq!(BLACK_PAWN.max_step(6, true), 1);
    assert_eq!(BLACK_PAWN.min_step(7, false), 1);
    assert_eq!(BLACK_PAWN.max_step(7, false), 0);

    assert_eq!(WHITE_PAWN.min_step(5, false), -1);
    assert_eq!(WHITE_PAWN.max_step(5, false), -1);
    assert_eq!(WHITE_PAWN.min_step(1, true), -1);
    assert_eq!(WHITE_PAWN.max_step(1, true), -2);
    assert_eq!(WHITE_PAWN.min_step(0, false), 0);
    assert_eq!(WHITE_PAWN.max_step(0, false), -1);
}

#[test]
fn each_content_has_its_symbol() {
    assert_eq!(Field::Empty.to_string(), "-");
    assert_eq!(WHITE_PAWN.to_string(), "w");
    assert_eq!(WHITE_QUEEN.to_string(), "W");
    assert_eq!(BLACK_PAWN.to_string(), "b");
    assert_eq!(BLACK_QUEEN.to_string(), "B");
}
