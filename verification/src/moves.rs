//! The move generator: the neighbours of a configuration, found with the
//! help of the occupancy board.

use crate::board::GameBoard;
use crate::game::{direction_at, views, Direction, GameConfiguration, GameSpecification};
use vstd::prelude::*;

verus! {

/// The number that a slide of piece `i` in `direction` has.
pub open spec fn number_of(i: int, direction: Direction) -> int {
    4 * i + match direction {
        Direction::Left => 0int,
        Direction::Right => 1int,
        Direction::Up => 2int,
        Direction::Down => 3int,
    }
}

/// What the legal ones among the first `n` slides lead to: each entry is
/// reached by one legal slide, and each legal slide among them is there.
pub proof fn lemma_slides_among(game: GameSpecification, c: Seq<(usize, usize)>, n: nat)
    ensures
        forall|j: int|
            0 <= j < game.slides_among(c, n).len() ==> game.linked(
                c,
                #[trigger] game.slides_among(c, n)[j],
            ),
        forall|k: int|
            0 <= k < n && #[trigger] game.legal_at(c, k) ==> game.slides_among(c, n).contains(
                game.slid_at(c, k),
            ),
    decreases n,
{
    if n > 0 {
        let last = n - 1;
        let before = game.slides_among(c, last as nat);
        let all = game.slides_among(c, n);
        lemma_slides_among(game, c, last as nat);
        assert forall|j: int| 0 <= j < all.len() implies game.linked(c, #[trigger] all[j]) by {
            if j < before.len() {
                assert(all[j] == before[j]);
            } else {
                assert(game.can_slide(c, last / 4, direction_at(last % 4)) && all[j] == game.slid(
                    c,
                    last / 4,
                    direction_at(last % 4),
                ));
            }
        }
        assert forall|k: int| 0 <= k < n && #[trigger] game.legal_at(c, k) implies all.contains(
            game.slid_at(c, k),
        ) by {
            if k < last {
                let j = choose|j: int|
                    0 <= j < before.len() && before[j] == game.slid_at(c, k);
                assert(all[j] == game.slid_at(c, k));
            } else {
                assert(all[all.len() - 1] == game.slid_at(c, k));
            }
        }
    }
}

/// The neighbours of a configuration are exactly the configurations to
/// which one legal slide of one piece leads from it.
pub proof fn lemma_neighbors_are_the_slides(
    game: GameSpecification,
    c: Seq<(usize, usize)>,
    d: Seq<(usize, usize)>,
)
    ensures
        game.neighbors_of(c).contains(d) <==> game.linked(c, d),
{
    let n = 4 * game.pieces@.len();
    lemma_slides_among(game, c, n);
    if game.linked(c, d) {
        let (i, direction) = choose|i: int, direction: Direction| #[trigger]
            game.can_slide(c, i, direction) && d == game.slid(c, i, direction);
        let k = number_of(i, direction);
        assert(k / 4 == i && direction_at(k % 4) == direction);
        assert(game.legal_at(c, k));
    }
    if game.neighbors_of(c).contains(d) {
        let j = choose|j: int| 0 <= j < game.neighbors_of(c).len() && game.neighbors_of(c)[j] == d;
        assert(game.linked(c, game.slides_among(c, n)[j]));
    }
}

impl GameSpecification {
    /// Adds to `found` the configuration to which piece `i` slides in
    /// `direction` from `configuration`, if that slide is legal. The board
    /// has to show `configuration`.
    fn try_slide(
        &self,
        board: &GameBoard,
        configuration: &GameConfiguration,
        i: usize,
        direction: Direction,
        found: &mut Vec<GameConfiguration>,
    )
        requires
            board.wf(),
            board.spec_dimensions() == self.dimensions,
            board@ == self.covered(configuration@),
            self.in_bounds(configuration@),
            i < self.pieces@.len(),
        ensures
            views(final(found)@) == (if self.can_slide(configuration@, i as int, direction) {
                views(old(found)@).push(self.slid(configuration@, i as int, direction))
            } else {
                views(old(found)@)
            }),
    {
        let ghost c = configuration@;
        let position = configuration.positions[i];
        assert(self.pieces@[i as int].fits(c[i as int], self.dimensions));
        let allowed = board.allows(&self.pieces[i], position, direction);
        proof {
            assert forall|x: int, y: int| board@.contains((x, y)) <==> self.occupied(c, x, y) by {}
            assert(allowed == self.can_slide(c, i as int, direction));
        }
        if allowed {
            let mut candidate = configuration.clone();
            candidate.positions[i] = direction.apply(position);
            assert(candidate@ == self.slid(c, i as int, direction));
            found.push(candidate);
            assert(views(found@) =~= views(old(found)@).push(candidate@));
        }
    }

    /// The neighbours of `configuration`. The board is rebuilt to show
    /// `configuration`; then, for each piece in turn, a slide by one cell to
    /// the left, to the right, up and down is tried. A slide is legal if the
    /// piece may move along that axis, stays on the board, and enters only
    /// cells that no piece lies on. Each legal slide gives one neighbour:
    /// the configuration with that piece shifted and all others in place.
    pub fn neighbors(&self, board: &mut GameBoard, configuration: &GameConfiguration) -> (found:
        Vec<GameConfiguration>)
        requires
            old(board).wf(),
            old(board).spec_dimensions() == self.dimensions,
            self.in_bounds(configuration@),
        ensures
            final(board).wf(),
            final(board).spec_dimensions() == self.dimensions,
            final(board)@ == self.covered(configuration@),
            views(found@) == self.neighbors_of(configuration@),
            forall|d: Seq<(usize, usize)>|
                views(found@).contains(d) <==> self.linked(configuration@, d),
    {
        board.fill(self, configuration);
        let ghost c = configuration@;
        let mut found: Vec<GameConfiguration> = Vec::new();
        let mut i: usize = 0;
        assert(views(found@) =~= self.slides_among(c, 0));
        while i < self.pieces.len()
            invariant
                board.wf(),
                board.spec_dimensions() == self.dimensions,
                board@ == self.covered(c),
                c == configuration@,
                self.in_bounds(c),
                i <= self.pieces@.len(),
                views(found@) == self.slides_among(c, (4 * i) as nat),
            decreases self.pieces@.len() - i,
        {
            let ghost n = 4 * i;
            self.try_slide(board, configuration, i, Direction::Left, &mut found);
            assert(views(found@) == self.slides_among(c, (n + 1) as nat)) by {
                assert(n / 4 == i as int && n % 4 == 0);
            }
            self.try_slide(board, configuration, i, Direction::Right, &mut found);
            assert(views(found@) == self.slides_among(c, (n + 2) as nat)) by {
                assert((n + 1) / 4 == i as int && (n + 1) % 4 == 1);
            }
            self.try_slide(board, configuration, i, Direction::Up, &mut found);
            assert(views(found@) == self.slides_among(c, (n + 3) as nat)) by {
                assert((n + 2) / 4 == i as int && (n + 2) % 4 == 2);
            }
            self.try_slide(board, configuration, i, Direction::Down, &mut found);
            assert(views(found@) == self.slides_among(c, (n + 4) as nat)) by {
                assert((n + 3) / 4 == i as int && (n + 3) % 4 == 3);
            }
            i += 1;
        }
        assert forall|d: Seq<(usize, usize)>|
            views(found@).contains(d) <==> self.linked(c, d) by {
            lemma_neighbors_are_the_slides(*self, c, d);
        }
        found
    }
}

} // verus!
