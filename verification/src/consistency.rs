//! Whether the description of a puzzle makes sense, and what is wrong with
//! it if it does not.

use crate::area::{
    lemma_area_invariant, lemma_area_of_first_grows, lemma_area_within_board, lemma_rect_size,
};
use crate::board::{rect, GameBoard};
use crate::game::GameSpecification;
use vstd::prelude::*;

verus! {

/// What can be wrong with the description of a puzzle.
#[derive(Clone, Copy, Debug, PartialEq, Eq, Structural)]
pub enum SpecificationError {
    /// The board has more cells than the machine's word can count.
    BoardTooLarge,
    /// A piece, at its initial position, reaches past the edge of the board.
    OutOfBoundsPlacement,
    /// The pieces, at their initial positions, take fewer cells than the sum
    /// of their areas: two of them lie on the same cell.
    InvariantViolation,
}

impl GameSpecification {
    /// Tells whether the puzzle can be searched, and what is wrong with it
    /// if it cannot. The pieces are placed on a board at their initial
    /// positions, which fails for a piece that reaches past an edge; then
    /// the cells that are taken are counted, and the description is
    /// consistent when that count is the sum of the areas of the pieces.
    pub fn validate(&self) -> (outcome: Result<(), SpecificationError>)
        ensures
            outcome is Ok <==> self.is_consistent(),
            outcome == Err::<(), SpecificationError>(SpecificationError::BoardTooLarge)
                <==> self.dimensions.0 * self.dimensions.1 > usize::MAX,
            outcome == Err::<(), SpecificationError>(SpecificationError::OutOfBoundsPlacement)
                <==> self.dimensions.0 * self.dimensions.1 <= usize::MAX && !self.in_bounds(
                self.initial(),
            ),
            outcome == Err::<(), SpecificationError>(SpecificationError::InvariantViolation)
                <==> self.dimensions.0 * self.dimensions.1 <= usize::MAX && self.in_bounds(
                self.initial(),
            ) && !self.apart_first(self.initial(), self.pieces@.len() as int),
    {
        let cells = match self.dimensions.0.checked_mul(self.dimensions.1) {
            Some(cells) => cells,
            None => {
                return Err(SpecificationError::BoardTooLarge);
            },
        };
        let ghost start = self.initial();
        let ghost n = self.pieces@.len();
        let mut k: usize = 0;
        while k < self.pieces.len()
            invariant
                k <= self.pieces@.len(),
                cells == self.dimensions.0 * self.dimensions.1,
                start == self.initial(),
                forall|i: int|
                    0 <= i < k ==> #[trigger] self.pieces@[i].fits(
                        self.pieces@[i].position,
                        self.dimensions,
                    ),
            decreases self.pieces@.len() - k,
        {
            let piece = &self.pieces[k];
            if !piece.fits_on(piece.position, self.dimensions) {
                assert(!self.pieces@[k as int].fits(start[k as int], self.dimensions));
                return Err(SpecificationError::OutOfBoundsPlacement);
            }
            k += 1;
        }
        let configuration = self.as_configuration();
        let mut board = GameBoard::new(self.dimensions);
        assert(self.in_bounds(start)) by {
            assert forall|i: int| 0 <= i < start.len() implies #[trigger] self.pieces@[i].fits(
                start[i],
                self.dimensions,
            ) by {
                assert(self.pieces@[i].fits(self.pieces@[i].position, self.dimensions));
            }
        }
        board.fill(self, &configuration);
        let taken = board.count_taken();
        proof {
            lemma_area_invariant(*self, start);
            board.lemma_cells_on_board();
            lemma_rect_size((0, 0), self.dimensions);
            vstd::set_lib::lemma_len_subset(board@, rect((0, 0), self.dimensions));
            assert(self.admits(start) <==> self.apart_first(start, n as int));
        }
        let mut total: usize = 0;
        let mut k: usize = 0;
        while k < self.pieces.len()
            invariant
                k <= self.pieces@.len(),
                n == self.pieces@.len(),
                cells == self.dimensions.0 * self.dimensions.1,
                start == self.initial(),
                self.in_bounds(start),
                self.admits(start) <==> self.apart_first(start, n as int),
                total == self.area_of_first(k as nat),
                total <= cells,
                taken <= cells,
                taken == self.covered(start).len(),
                self.apart_first(start, n as int) <==> taken == self.total_area(),
            decreases self.pieces@.len() - k,
        {
            let piece = &self.pieces[k];
            proof {
                assert(self.pieces@[k as int].fits(start[k as int], self.dimensions));
                lemma_area_within_board(
                    piece.size.0 as int,
                    piece.size.1 as int,
                    self.dimensions.0 as int,
                    self.dimensions.1 as int,
                );
            }
            let area = piece.size.0 * piece.size.1;
            if area > cells - total {
                proof {
                    lemma_area_of_first_grows(*self, (k + 1) as nat, n);
                    assert(self.area_of_first((k + 1) as nat) == total + area);
                }
                return Err(SpecificationError::InvariantViolation);
            }
            total += area;
            k += 1;
        }
        if taken == total {
            Ok(())
        } else {
            Err(SpecificationError::InvariantViolation)
        }
    }
}

} // verus!
