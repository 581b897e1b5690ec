use slide_graph::consistency::SpecificationError;
use slide_graph::game::{GameSpecification, GoalSpecification, PieceSpecification};

fn piece(size: (usize, usize), position: (usize, usize)) -> PieceSpecification {
    PieceSpecification { size, position, moves: (true, true) }
}

fn puzzle(dimensions: (usize, usize), pieces: Vec<PieceSpecification>) -> GameSpecification {
    GameSpecification { dimensions, pieces, goal: GoalSpecification::Position((0, 0)) }
}

#[test]
fn consistent_puzzle_passes() {
    let game = puzzle((4, 5), vec![piece((2, 2), (1, 0)), piece((1, 2), (0, 0)), piece((4, 1), (0, 4))]);
    assert_eq!(game.validate(), Ok(()));
}

#[test]
fn puzzle_that_fills_the_board_passes() {
    let game = puzzle((2, 2), vec![piece((2, 1), (0, 0)), piece((1, 1), (0, 1)), piece((1, 1), (1, 1))]);
    assert_eq!(game.validate(), Ok(()));
}

#[test]
fn piece_past_the_right_edge_is_out_of_bounds() {
    let game = puzzle((4, 5), vec![piece((2, 2), (3, 0))]);
    assert_eq!(game.validate(), Err(SpecificationError::OutOfBoundsPlacement));
}

#[test]
fn piece_past_the_bottom_edge_is_out_of_bounds() {
    let game = puzzle((4, 5), vec![piece((1, 1), (0, 0)), piece((1, 2), (0, 4))]);
    assert_eq!(game.validate(), Err(SpecificationError::OutOfBoundsPlacement));
}

#[test]
fn piece_larger_than_the_board_is_out_of_bounds() {
    let game = puzzle((2, 2), vec![piece((3, 1), (0, 0))]);
    assert_eq!(game.validate(), Err(SpecificationError::OutOfBoundsPlacement));
}

#[test]
fn position_near_the_limit_of_the_word_is_out_of_bounds() {
    let game = puzzle((2, 2), vec![piece((2, 2), (usize::MAX, usize::MAX))]);
    assert_eq!(game.validate(), Err(SpecificationError::OutOfBoundsPlacement));
}

#[test]
fn overlapping_pieces_violate_the_area_invariant() {
    let game = puzzle((4, 5), vec![piece((2, 2), (1, 0)), piece((1, 2), (2, 1))]);
    assert_eq!(game.validate(), Err(SpecificationError::InvariantViolation));
}

#[test]
fn pieces_on_the_same_cells_violate_the_area_invariant() {
    let game = puzzle((1, 1), vec![piece((1, 1), (0, 0)), piece((1, 1), (0, 0))]);
    assert_eq!(game.validate(), Err(SpecificationError::InvariantViolation));
}

#[test]
fn many_overlapping_pieces_violate_the_area_invariant() {
    let mut pieces = Vec::new();
    for _ in 0..40 {
        pieces.push(piece((3, 3), (0, 0)));
    }
    assert_eq!(puzzle((3, 3), pieces).validate(), Err(SpecificationError::InvariantViolation));
}

#[test]
fn out_of_bounds_is_reported_before_overlap() {
    let game = puzzle((3, 3), vec![piece((2, 2), (0, 0)), piece((2, 2), (1, 1)), piece((1, 1), (3, 0))]);
    assert_eq!(game.validate(), Err(SpecificationError::OutOfBoundsPlacement));
}

#[test]
fn board_with_too_many_cells_is_too_large() {
    let game = puzzle((usize::MAX, 2), vec![]);
    assert_eq!(game.validate(), Err(SpecificationError::BoardTooLarge));
}

#[test]
fn empty_pieces_never_overlap() {
    let game = puzzle((2, 2), vec![piece((0, 2), (1, 0)), piece((2, 0), (0, 1)), piece((2, 2), (0, 0))]);
    assert_eq!(game.validate(), Ok(()));
}
