//! The description of a puzzle, the configurations of its pieces, and the
//! rules by which one piece slides.

use crate::bidirectional_list::Indexable;
use vstd::prelude::*;
use vstd::std_specs::cmp::PartialEqSpecImpl;

verus! {

/// What the puzzle asks for. The enumeration of configurations does not
/// look at it.
#[derive(Debug)]
pub enum GoalSpecification {
    /// A cell, as `(x, y)`, that is to be reached.
    Position((usize, usize)),
}

/// One piece: a rectangle of cells that keeps its size and its orientation.
#[derive(Debug)]
pub struct PieceSpecification {
    /// Width and height, in cells.
    pub size: (usize, usize),
    /// Where the top-left corner stands at the start, as `(x, y)`.
    pub position: (usize, usize),
    /// Whether the piece may slide horizontally, and whether vertically.
    pub moves: (bool, bool),
}

/// A puzzle: the board and the pieces on it, in a fixed order.
#[derive(Debug)]
pub struct GameSpecification {
    /// Width and height of the board, in cells.
    pub dimensions: (usize, usize),
    /// The pieces. A configuration lists their positions in this order.
    pub pieces: Vec<PieceSpecification>,
    /// The goal of the puzzle.
    pub goal: GoalSpecification,
}

/// The positions of all pieces, in the order of the puzzle's piece list.
#[derive(Debug, Hash)]
pub struct GameConfiguration {
    /// The top-left corner of each piece, as `(x, y)`.
    pub positions: Vec<(usize, usize)>,
}

/// The four ways in which a piece can slide by one cell.
#[derive(Clone, Copy, Debug, PartialEq, Eq, Structural)]
pub enum Direction {
    /// Towards smaller `x`.
    Left,
    /// Towards greater `x`.
    Right,
    /// Towards smaller `y`.
    Up,
    /// Towards greater `y`.
    Down,
}

impl Direction {
    /// The direction that undoes a slide in this one.
    pub open spec fn opposite(self) -> Direction {
        match self {
            Direction::Left => Direction::Right,
            Direction::Right => Direction::Left,
            Direction::Up => Direction::Down,
            Direction::Down => Direction::Up,
        }
    }

    /// Whether the slide runs along the `x` axis.
    pub open spec fn is_horizontal(self) -> bool {
        self == Direction::Left || self == Direction::Right
    }

    /// Whether `position` has a neighbour in this direction that the
    /// machine's numbers can express.
    pub open spec fn applies_to(self, position: (usize, usize)) -> bool {
        match self {
            Direction::Left => position.0 > 0,
            Direction::Right => position.0 < usize::MAX,
            Direction::Up => position.1 > 0,
            Direction::Down => position.1 < usize::MAX,
        }
    }

    /// The position one cell away from `position` in this direction.
    pub open spec fn applied(self, position: (usize, usize)) -> (usize, usize) {
        match self {
            Direction::Left => ((position.0 - 1) as usize, position.1),
            Direction::Right => ((position.0 + 1) as usize, position.1),
            Direction::Up => (position.0, (position.1 - 1) as usize),
            Direction::Down => (position.0, (position.1 + 1) as usize),
        }
    }

    /// The position one cell away from `position` in this direction.
    pub fn apply(self, position: (usize, usize)) -> (moved: (usize, usize))
        requires
            self.applies_to(position),
        ensures
            moved == self.applied(position),
    {
        match self {
            Direction::Left => (position.0 - 1, position.1),
            Direction::Right => (position.0 + 1, position.1),
            Direction::Up => (position.0, position.1 - 1),
            Direction::Down => (position.0, position.1 + 1),
        }
    }
}

/// The order in which the directions are tried for each piece.
pub open spec fn direction_at(k: int) -> Direction {
    if k == 0 {
        Direction::Left
    } else if k == 1 {
        Direction::Right
    } else if k == 2 {
        Direction::Up
    } else {
        Direction::Down
    }
}

impl PieceSpecification {
    /// Whether the piece, with its corner at `position`, lies on cell `(x, y)`.
    pub open spec fn covers(&self, position: (usize, usize), x: int, y: int) -> bool {
        &&& position.0 <= x < position.0 + self.size.0
        &&& position.1 <= y < position.1 + self.size.1
    }

    /// Whether the piece, with its corner at `position`, stays on a board of
    /// the given width and height.
    pub open spec fn fits(&self, position: (usize, usize), dimensions: (usize, usize)) -> bool {
        &&& position.0 + self.size.0 <= dimensions.0
        &&& position.1 + self.size.1 <= dimensions.1
    }

    /// Whether the piece, with its corner at `position`, stays on a board of
    /// the given width and height.
    pub fn fits_on(&self, position: (usize, usize), dimensions: (usize, usize)) -> (fits: bool)
        ensures
            fits == self.fits(position, dimensions),
    {
        self.size.0 <= dimensions.0 && position.0 <= dimensions.0 - self.size.0 && self.size.1
            <= dimensions.1 && position.1 <= dimensions.1 - self.size.1
    }

    /// The number of cells of the piece.
    pub open spec fn area(&self) -> nat {
        (self.size.0 * self.size.1) as nat
    }

    /// Whether the piece is allowed to slide in `direction` at all.
    pub open spec fn may_slide(&self, direction: Direction) -> bool {
        if direction.is_horizontal() {
            self.moves.0
        } else {
            self.moves.1
        }
    }

    /// Whether a slide in `direction` keeps the piece on the board.
    pub open spec fn has_room(
        &self,
        position: (usize, usize),
        direction: Direction,
        dimensions: (usize, usize),
    ) -> bool {
        match direction {
            Direction::Left => position.0 > 0,
            Direction::Right => position.0 + self.size.0 < dimensions.0,
            Direction::Up => position.1 > 0,
            Direction::Down => position.1 + self.size.1 < dimensions.1,
        }
    }

    /// Whether `(x, y)` is one of the cells that the piece enters when it
    /// slides from `position` in `direction`: a strip one cell wide along
    /// the leading edge.
    pub open spec fn enters(
        &self,
        position: (usize, usize),
        direction: Direction,
        x: int,
        y: int,
    ) -> bool {
        match direction {
            Direction::Left => x == position.0 - 1 && position.1 <= y < position.1 + self.size.1,
            Direction::Right => x == position.0 + self.size.0 && position.1 <= y < position.1
                + self.size.1,
            Direction::Up => y == position.1 - 1 && position.0 <= x < position.0 + self.size.0,
            Direction::Down => y == position.1 + self.size.1 && position.0 <= x < position.0
                + self.size.0,
        }
    }
}

impl GameSpecification {
    /// The positions that the pieces are given at the start.
    pub open spec fn initial(&self) -> Seq<(usize, usize)> {
        Seq::new(self.pieces@.len(), |i: int| self.pieces@[i].position)
    }

    /// Whether some piece lies on cell `(x, y)` when the pieces stand at `c`.
    pub open spec fn occupied(&self, c: Seq<(usize, usize)>, x: int, y: int) -> bool {
        exists|i: int| 0 <= i < self.pieces@.len() && #[trigger] self.pieces@[i].covers(c[i], x, y)
    }

    /// The cells on which some piece lies when the pieces stand at `c`.
    pub open spec fn covered(&self, c: Seq<(usize, usize)>) -> Set<(int, int)> {
        Set::new(|cell: (int, int)| self.occupied(c, cell.0, cell.1))
    }

    /// The cells on which one of the first `k` pieces lies when the pieces
    /// stand at `c`.
    pub open spec fn covered_by_first(&self, c: Seq<(usize, usize)>, k: int) -> Set<(int, int)> {
        Set::new(
            |cell: (int, int)|
                exists|i: int|
                    0 <= i < k && #[trigger] self.pieces@[i].covers(c[i], cell.0, cell.1),
        )
    }

    /// Whether no two of the first `k` pieces lie on the same cell when the
    /// pieces stand at `c`.
    pub open spec fn apart_first(&self, c: Seq<(usize, usize)>, k: int) -> bool {
        forall|i: int, j: int, x: int, y: int|
            0 <= i < j < k ==> !(#[trigger] self.pieces@[i].covers(c[i], x, y)
                && #[trigger] self.pieces@[j].covers(c[j], x, y))
    }

    /// The number of cells of the first `k` pieces together.
    pub open spec fn area_of_first(&self, k: nat) -> nat
        decreases k,
    {
        if k == 0 {
            0
        } else {
            self.area_of_first((k - 1) as nat) + self.pieces@[k - 1].area()
        }
    }

    /// The number of cells of all pieces together.
    pub open spec fn total_area(&self) -> nat {
        self.area_of_first(self.pieces@.len())
    }

    /// Whether `c` has a position for every piece and keeps every piece on
    /// the board.
    pub open spec fn in_bounds(&self, c: Seq<(usize, usize)>) -> bool {
        &&& c.len() == self.pieces@.len()
        &&& forall|i: int|
            0 <= i < c.len() ==> #[trigger] self.pieces@[i].fits(c[i], self.dimensions)
    }

    /// Whether `c` places every piece on the board with no two pieces on
    /// the same cell.
    pub open spec fn admits(&self, c: Seq<(usize, usize)>) -> bool {
        &&& self.in_bounds(c)
        &&& self.apart_first(c, c.len() as int)
    }

    /// Whether the puzzle can be searched: the cells of the board can be
    /// counted in the machine's word, and the initial configuration keeps
    /// every piece on the board and no two pieces on the same cell.
    pub open spec fn is_consistent(&self) -> bool {
        &&& self.dimensions.0 * self.dimensions.1 <= usize::MAX
        &&& self.admits(self.initial())
    }

    /// Whether piece `i` can slide in `direction` when the pieces stand at
    /// `c`: the piece is allowed to move along that axis, it stays on the
    /// board, and no piece lies on a cell that it enters.
    pub open spec fn can_slide(&self, c: Seq<(usize, usize)>, i: int, direction: Direction) -> bool {
        &&& 0 <= i < self.pieces@.len()
        &&& self.pieces@[i].may_slide(direction)
        &&& self.pieces@[i].has_room(c[i], direction, self.dimensions)
        &&& forall|x: int, y: int| #[trigger]
            self.pieces@[i].enters(c[i], direction, x, y) ==> !self.occupied(c, x, y)
    }

    /// The configuration after piece `i` has slid in `direction` from `c`.
    pub open spec fn slid(&self, c: Seq<(usize, usize)>, i: int, direction: Direction) -> Seq<
        (usize, usize),
    > {
        c.update(i, direction.applied(c[i]))
    }

    /// Whether the slide with the number `k` is legal when the pieces stand
    /// at `c`. The slides are numbered piece by piece, four to a piece, in
    /// the order left, right, up, down.
    pub open spec fn legal_at(&self, c: Seq<(usize, usize)>, k: int) -> bool {
        self.can_slide(c, k / 4, direction_at(k % 4))
    }

    /// The configuration to which the slide with the number `k` leads from `c`.
    pub open spec fn slid_at(&self, c: Seq<(usize, usize)>, k: int) -> Seq<(usize, usize)> {
        self.slid(c, k / 4, direction_at(k % 4))
    }

    /// The configurations to which the legal ones among the first `n`
    /// slides lead from `c`, in the order of the slides.
    pub open spec fn slides_among(&self, c: Seq<(usize, usize)>, n: nat) -> Seq<
        Seq<(usize, usize)>,
    >
        decreases n,
    {
        if n == 0 {
            Seq::empty()
        } else {
            let before = self.slides_among(c, (n - 1) as nat);
            if self.legal_at(c, n - 1) {
                before.push(self.slid_at(c, n - 1))
            } else {
                before
            }
        }
    }

    /// The neighbours of `c`: the configurations to which one legal slide
    /// leads from it, piece by piece and, for each piece, in the order left,
    /// right, up, down.
    pub open spec fn neighbors_of(&self, c: Seq<(usize, usize)>) -> Seq<Seq<(usize, usize)>> {
        self.slides_among(c, 4 * self.pieces@.len())
    }

    /// Whether one slide of one piece leads from `c` to `d`.
    pub open spec fn linked(&self, c: Seq<(usize, usize)>, d: Seq<(usize, usize)>) -> bool {
        exists|i: int, direction: Direction| #[trigger]
            self.can_slide(c, i, direction) && d == self.slid(c, i, direction)
    }

    /// The configuration in which every piece stands where the puzzle
    /// first puts it.
    pub fn as_configuration(&self) -> (configuration: GameConfiguration)
        ensures
            configuration@ == self.initial(),
    {
        let mut positions: Vec<(usize, usize)> = Vec::new();
        let mut i: usize = 0;
        while i < self.pieces.len()
            invariant
                i <= self.pieces@.len(),
                positions@.len() == i,
                forall|k: int| 0 <= k < i ==> positions@[k] == self.pieces@[k].position,
            decreases self.pieces@.len() - i,
        {
            positions.push(self.pieces[i].position);
            i += 1;
        }
        assert(positions@ =~= self.initial());
        GameConfiguration { positions }
    }
}

/// The views of a list of configurations.
pub open spec fn views(list: Seq<GameConfiguration>) -> Seq<Seq<(usize, usize)>> {
    list.map_values(|configuration: GameConfiguration| configuration@)
}

impl View for GameConfiguration {
    type V = Seq<(usize, usize)>;

    open spec fn view(&self) -> Seq<(usize, usize)> {
        self.positions@
    }
}

impl Clone for GameConfiguration {
    /// A configuration with the same positions.
    fn clone(&self) -> (copy: Self)
        ensures
            copy@ == self@,
    {
        let mut positions: Vec<(usize, usize)> = Vec::new();
        let mut i: usize = 0;
        while i < self.positions.len()
            invariant
                i <= self.positions@.len(),
                positions@ == self.positions@.take(i as int),
            decreases self.positions@.len() - i,
        {
            positions.push(self.positions[i]);
            i += 1;
            assert(positions@ =~= self.positions@.take(i as int));
        }
        assert(self.positions@.take(i as int) =~= self.positions@);
        GameConfiguration { positions }
    }
}

impl PartialEq for GameConfiguration {
    /// Two configurations are equal when every piece has the same position
    /// in both.
    fn eq(&self, other: &Self) -> (equal: bool) {
        self.same(other)
    }
}

impl Eq for GameConfiguration {

}

impl PartialEqSpecImpl for GameConfiguration {
    open spec fn obeys_eq_spec() -> bool {
        true
    }

    open spec fn eq_spec(&self, other: &Self) -> bool {
        self@ == other@
    }
}

/// The digest of a configuration without pieces.
pub const DIGEST_SEED: u64 = 0xcbf2_9ce4_8422_2325;

/// The factor by which the digest is multiplied in every round.
pub const DIGEST_FACTOR: u64 = 0x0000_0100_0000_01b3;

/// One round of the digest: takes the coordinate `x` into the digest `h`.
pub open spec fn spec_mix(h: u64, x: usize) -> u64 {
    (h ^ (x as u64)).wrapping_mul(DIGEST_FACTOR)
}

/// The digest of the first `n` positions of `c`.
pub open spec fn digest_of(c: Seq<(usize, usize)>, n: nat) -> u64
    decreases n,
{
    if n == 0 {
        DIGEST_SEED
    } else {
        let i = (n - 1) as nat;
        spec_mix(spec_mix(digest_of(c, i), c[i as int].0), c[i as int].1)
    }
}

/// One round of the digest: takes the coordinate `x` into the digest `h`.
fn mix(h: u64, x: usize) -> (r: u64)
    ensures
        r == spec_mix(h, x),
{
    (h ^ (x as u64)).wrapping_mul(DIGEST_FACTOR)
}

impl Indexable for GameConfiguration {
    open spec fn spec_digest(v: Seq<(usize, usize)>) -> u64 {
        digest_of(v, v.len())
    }

    fn digest(&self) -> (h: u64) {
        let mut h: u64 = DIGEST_SEED;
        let mut i: usize = 0;
        while i < self.positions.len()
            invariant
                i <= self.positions@.len(),
                h == digest_of(self.positions@, i as nat),
            decreases self.positions@.len() - i,
        {
            let position = self.positions[i];
            h = mix(mix(h, position.0), position.1);
            i += 1;
        }
        h
    }

    fn same(&self, other: &Self) -> (r: bool) {
        if self.positions.len() != other.positions.len() {
            return false;
        }
        let mut i: usize = 0;
        while i < self.positions.len()
            invariant
                i <= self.positions@.len(),
                self.positions@.len() == other.positions@.len(),
                forall|k: int| 0 <= k < i ==> self.positions@[k] == other.positions@[k],
            decreases self.positions@.len() - i,
        {
            let a = self.positions[i];
            let b = other.positions[i];
            if a.0 != b.0 || a.1 != b.1 {
                return false;
            }
            i += 1;
        }
        assert(self.positions@ =~= other.positions@);
        true
    }
}

} // verus!
