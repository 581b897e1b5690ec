//! The occupancy board: which cells of the grid are taken by some piece.

use crate::game::{Direction, GameConfiguration, GameSpecification, PieceSpecification};
use vstd::prelude::*;

verus! {

/// The cells of the rectangle with its top-left corner at `position` and
/// the given width and height.
pub open spec fn rect(position: (usize, usize), size: (usize, usize)) -> Set<(int, int)> {
    Set::new(
        |cell: (int, int)|
            position.0 <= cell.0 < position.0 + size.0 && position.1 <= cell.1 < position.1
                + size.1,
    )
}

/// The place of cell `(x, y)` in a row-by-row listing of a grid of the
/// given width.
pub open spec fn cell_index(x: int, y: int, width: int) -> int {
    x + y * width
}

/// A cell of the grid has its place within the listing of all cells.
pub proof fn lemma_cell_index_in_range(x: int, y: int, width: int, height: int)
    requires
        0 <= x < width,
        0 <= y < height,
    ensures
        0 <= y * width <= cell_index(x, y, width) < width * height,
{
    assert(0 <= y * width) by (nonlinear_arith)
        requires
            0 <= y,
            0 <= width,
    ;
    assert((y + 1) * width <= height * width) by (nonlinear_arith)
        requires
            y + 1 <= height,
            0 <= width,
    ;
    assert((y + 1) * width == y * width + width) by (nonlinear_arith);
    assert(height * width == width * height) by (nonlinear_arith);
}

/// Two cells of the grid with the same place in the listing are the same.
pub proof fn lemma_cell_index_injective(x1: int, y1: int, x2: int, y2: int, width: int)
    requires
        0 <= x1 < width,
        0 <= x2 < width,
        cell_index(x1, y1, width) == cell_index(x2, y2, width),
    ensures
        x1 == x2,
        y1 == y2,
{
    if y1 < y2 {
        assert((y1 + 1) * width <= y2 * width) by (nonlinear_arith)
            requires
                y1 + 1 <= y2,
                0 <= width,
        ;
        assert((y1 + 1) * width == y1 * width + width) by (nonlinear_arith);
    } else if y2 < y1 {
        assert((y2 + 1) * width <= y1 * width) by (nonlinear_arith)
            requires
                y2 + 1 <= y1,
                0 <= width,
        ;
        assert((y2 + 1) * width == y2 * width + width) by (nonlinear_arith);
    }
}

/// Every place in the listing of a grid belongs to one cell of the grid.
pub proof fn lemma_cell_of_index(i: int, width: int, height: int)
    requires
        0 <= width,
        0 <= i < width * height,
    ensures
        0 < width,
        0 <= i % width < width,
        0 <= i / width < height,
        cell_index(i % width, i / width, width) == i,
{
    assert(width != 0) by (nonlinear_arith)
        requires
            0 <= i < width * height,
    ;
    vstd::arithmetic::div_mod::lemma_fundamental_div_mod(i, width);
    vstd::arithmetic::div_mod::lemma_mod_bound(i, width);
    vstd::arithmetic::div_mod::lemma_div_pos_is_pos(i, width);
    vstd::arithmetic::div_mod::lemma_multiply_divide_lt(i, width, height);
    assert(width * (i / width) == (i / width) * width) by (nonlinear_arith);
}

/// Appends the character `c` to `text`. This is `String::push` of the
/// standard library; that the text afterwards is the old text followed by
/// `c` is taken from its documentation, not proved.
#[verifier::external_body]
fn push_char(text: &mut String, c: char)
    ensures
        final(text)@ == old(text)@.push(c),
{
    text.push(c);
}

/// The mark that stands for a cell in a picture of the board.
pub open spec fn mark(taken: bool) -> char {
    if taken {
        'X'
    } else {
        '.'
    }
}

/// A grid of cells, each either taken or free. It is scratch space: it is
/// cleared and filled anew for every configuration that is looked at.
pub struct GameBoard {
    bitmap: Vec<bool>,
    width: usize,
    height: usize,
}

impl View for GameBoard {
    type V = Set<(int, int)>;

    /// The cells that are taken, each as `(x, y)`.
    closed spec fn view(&self) -> Set<(int, int)> {
        Set::new(|cell: (int, int)| self.taken(cell.0, cell.1))
    }
}

impl GameBoard {
    /// Whether `(x, y)` is a cell of the board that is taken.
    spec fn taken(&self, x: int, y: int) -> bool {
        &&& 0 <= x < self.width
        &&& 0 <= y < self.height
        &&& self.bitmap@[cell_index(x, y, self.width as int)]
    }

    /// The board holds one entry for each of its cells.
    pub closed spec fn wf(&self) -> bool {
        self.bitmap@.len() == self.width * self.height
    }

    /// Width and height of the board, in cells.
    pub closed spec fn spec_dimensions(&self) -> (usize, usize) {
        (self.width, self.height)
    }

    /// Only cells of the board are ever taken.
    pub proof fn lemma_cells_on_board(&self)
        ensures
            self@.subset_of(rect((0, 0), self.spec_dimensions())),
    {
    }

    /// Width and height of the board, in cells.
    #[verifier::when_used_as_spec(spec_dimensions)]
    pub fn dimensions(&self) -> (dimensions: (usize, usize))
        ensures
            dimensions == self.spec_dimensions(),
    {
        (self.width, self.height)
    }

    /// Marks as taken every cell on which `piece` lies when its corner is at
    /// `position`. The piece has to lie on the board.
    pub fn place(&mut self, piece: &PieceSpecification, position: (usize, usize))
        requires
            old(self).wf(),
            piece.fits(position, old(self).spec_dimensions()),
        ensures
            final(self).wf(),
            final(self).spec_dimensions() == old(self).spec_dimensions(),
            final(self)@ == old(self)@.union(rect(position, piece.size)),
    {
        let ghost before = *self;
        let mut dx: usize = 0;
        while dx < piece.size.0
            invariant
                self.wf(),
                self.width == before.width,
                self.height == before.height,
                before.wf(),
                piece.fits(position, (self.width, self.height)),
                dx <= piece.size.0,
                forall|x: int, y: int|
                    self.taken(x, y) <==> before.taken(x, y) || (position.0 <= x < position.0 + dx
                        && position.1 <= y < position.1 + piece.size.1),
            decreases piece.size.0 - dx,
        {
            let x = dx + position.0;
            let ghost column = *self;
            let mut dy: usize = 0;
            while dy < piece.size.1
                invariant
                    self.wf(),
                    self.width == before.width,
                    self.height == before.height,
                    column.wf(),
                    column.width == before.width,
                    column.height == before.height,
                    piece.fits(position, (self.width, self.height)),
                    dx < piece.size.0,
                    x == dx + position.0,
                    dy <= piece.size.1,
                    forall|x2: int, y2: int|
                        self.taken(x2, y2) <==> column.taken(x2, y2) || (x2 == x && position.1
                            <= y2 < position.1 + dy),
                decreases piece.size.1 - dy,
            {
                let y = dy + position.1;
                proof {
                    lemma_cell_index_in_range(
                        x as int,
                        y as int,
                        self.width as int,
                        self.height as int,
                    );
                    assert(self.bitmap.len() <= usize::MAX);
                }
                let ghost row = *self;
                let at = x + y * self.width;
                self.bitmap[at] = true;
                proof {
                    assert forall|x2: int, y2: int|
                        self.taken(x2, y2) <==> row.taken(x2, y2) || (x2 == x && y2 == y) by {
                        assert(self.bitmap@ == row.bitmap@.update(at as int, true));
                        if 0 <= x2 < self.width && 0 <= y2 < self.height {
                            lemma_cell_index_in_range(
                                x2,
                                y2,
                                self.width as int,
                                self.height as int,
                            );
                            if cell_index(x2, y2, self.width as int) == at {
                                lemma_cell_index_injective(
                                    x2,
                                    y2,
                                    x as int,
                                    y as int,
                                    self.width as int,
                                );
                            }
                        }
                    }
                }
                dy += 1;
            }
            dx += 1;
        }
        assert(self@ =~= before@.union(rect(position, piece.size)));
    }

    /// Whether no cell of the rectangle with its corner at `position` and
    /// the given width and height is taken. The rectangle has to lie on the
    /// board, in both directions.
    pub fn is_rect_clear(&self, position: (usize, usize), size: (usize, usize)) -> (clear: bool)
        requires
            self.wf(),
            position.0 + size.0 <= self.spec_dimensions().0,
            position.1 + size.1 <= self.spec_dimensions().1,
        ensures
            clear == rect(position, size).disjoint(self@),
    {
        let mut dx: usize = 0;
        while dx < size.0
            invariant
                self.wf(),
                position.0 + size.0 <= self.width,
                position.1 + size.1 <= self.height,
                dx <= size.0,
                forall|x: int, y: int|
                    position.0 <= x < position.0 + dx && position.1 <= y < position.1 + size.1
                        ==> !self.taken(x, y),
            decreases size.0 - dx,
        {
            let x = dx + position.0;
            let mut dy: usize = 0;
            while dy < size.1
                invariant
                    self.wf(),
                    position.0 + size.0 <= self.width,
                    position.1 + size.1 <= self.height,
                    dx < size.0,
                    x == dx + position.0,
                    dy <= size.1,
                    forall|y: int| position.1 <= y < position.1 + dy ==> !self.taken(x as int, y),
                decreases size.1 - dy,
            {
                let y = dy + position.1;
                proof {
                    lemma_cell_index_in_range(
                        x as int,
                        y as int,
                        self.width as int,
                        self.height as int,
                    );
                    assert(self.bitmap.len() <= usize::MAX);
                }
                if self.bitmap[x + y * self.width] {
                    assert(self.taken(x as int, y as int));
                    assert(rect(position, size).contains((x as int, y as int)));
                    assert(self@.contains((x as int, y as int)));
                    return false;
                }
                dy += 1;
            }
            dx += 1;
        }
        assert(rect(position, size).disjoint(self@)) by {
            assert forall|cell: (int, int)|
                !(rect(position, size).contains(cell) && self@.contains(cell)) by {
                if rect(position, size).contains(cell) {
                    assert(!self.taken(cell.0, cell.1));
                }
            }
        }
        true
    }

    /// The cells that are taken among those whose place in the listing of
    /// all cells is below `n`.
    spec fn taken_below(&self, n: int) -> Set<(int, int)> {
        Set::new(
            |cell: (int, int)|
                self.taken(cell.0, cell.1) && cell_index(cell.0, cell.1, self.width as int) < n,
        )
    }

    /// The first `n` marks of row `y` in a picture of the board.
    pub open spec fn row_picture(&self, y: int, n: int) -> Seq<char> {
        Seq::new(n as nat, |x: int| mark(self@.contains((x, y))))
    }

    /// The first `n` rows in a picture of the board: for each row the marks
    /// of its cells from left to right, `X` for a cell that is taken and
    /// `.` for one that is free, and then a line feed.
    pub open spec fn picture(&self, n: int) -> Seq<char>
        decreases n,
    {
        if n <= 0 {
            Seq::empty()
        } else {
            self.picture(n - 1) + self.row_picture(n - 1, self.spec_dimensions().0 as int).push(
                '\n',
            )
        }
    }

    /// A picture of the board as text, one line for each row.
    pub fn render(&self) -> (text: String)
        requires
            self.wf(),
        ensures
            text@ == self.picture(self.spec_dimensions().1 as int),
    {
        let mut text = String::new();
        let mut y: usize = 0;
        while y < self.height
            invariant
                self.wf(),
                y <= self.height,
                text@ == self.picture(y as int),
            decreases self.height - y,
        {
            let ghost above = text@;
            let mut x: usize = 0;
            while x < self.width
                invariant
                    self.wf(),
                    y < self.height,
                    x <= self.width,
                    text@ == above + self.row_picture(y as int, x as int),
                decreases self.width - x,
            {
                proof {
                    lemma_cell_index_in_range(
                        x as int,
                        y as int,
                        self.width as int,
                        self.height as int,
                    );
                    assert(self.bitmap.len() <= usize::MAX);
                }
                let taken = self.bitmap[x + y * self.width];
                assert(taken == self@.contains((x as int, y as int)));
                if taken {
                    push_char(&mut text, 'X');
                } else {
                    push_char(&mut text, '.');
                }
                assert(text@ =~= above + self.row_picture(y as int, x + 1));
                x += 1;
            }
            push_char(&mut text, '\n');
            assert(text@ =~= above + self.row_picture(y as int, self.width as int).push('\n'));
            y += 1;
        }
        text
    }

    /// The number of cells that are taken.
    pub fn count_taken(&self) -> (count: usize)
        requires
            self.wf(),
        ensures
            self@.finite(),
            count == self@.len(),
    {
        let mut count: usize = 0;
        let mut i: usize = 0;
        assert(self.taken_below(0) =~= Set::<(int, int)>::empty()) by {
            assert forall|cell: (int, int)| !self.taken_below(0).contains(cell) by {
                if self.taken(cell.0, cell.1) {
                    lemma_cell_index_in_range(
                        cell.0,
                        cell.1,
                        self.width as int,
                        self.height as int,
                    );
                }
            }
        }
        while i < self.bitmap.len()
            invariant
                self.wf(),
                i <= self.bitmap@.len(),
                self.taken_below(i as int).finite(),
                count == self.taken_below(i as int).len(),
                count <= i,
            decreases self.bitmap@.len() - i,
        {
            proof {
                let w = self.width as int;
                lemma_cell_of_index(i as int, w, self.height as int);
                let here = (i as int % w, i as int / w);
                let below = self.taken_below(i as int);
                let next = self.taken_below(i + 1);
                assert forall|cell: (int, int)|
                    next.contains(cell) <==> below.contains(cell) || (cell == here
                        && self.bitmap@[i as int]) by {
                    if self.taken(cell.0, cell.1) && cell_index(cell.0, cell.1, w) == i {
                        lemma_cell_index_injective(cell.0, cell.1, here.0, here.1, w);
                    }
                }
                if self.bitmap@[i as int] {
                    assert(next =~= below.insert(here));
                    assert(!below.contains(here));
                } else {
                    assert(next =~= below);
                }
            }
            if self.bitmap[i] {
                count += 1;
            }
            i += 1;
        }
        assert(self@ =~= self.taken_below(i as int)) by {
            assert forall|cell: (int, int)| self@.contains(cell) implies self.taken_below(
                i as int,
            ).contains(cell) by {
                lemma_cell_index_in_range(cell.0, cell.1, self.width as int, self.height as int);
            }
        }
        count
    }

    /// Frees every cell and then places every piece of `game` where
    /// `configuration` has it. Every piece has to lie on the board.
    pub fn fill(&mut self, game: &GameSpecification, configuration: &GameConfiguration)
        requires
            old(self).wf(),
            old(self).spec_dimensions() == game.dimensions,
            game.in_bounds(configuration@),
        ensures
            final(self).wf(),
            final(self).spec_dimensions() == old(self).spec_dimensions(),
            final(self)@ == game.covered(configuration@),
    {
        self.clear();
        let ghost c = configuration@;
        let mut k: usize = 0;
        assert(self@ =~= game.covered_by_first(c, 0));
        while k < game.pieces.len()
            invariant
                self.wf(),
                self.spec_dimensions() == game.dimensions,
                c == configuration@,
                c.len() == game.pieces@.len(),
                forall|i: int|
                    0 <= i < c.len() ==> #[trigger] game.pieces@[i].fits(c[i], game.dimensions),
                k <= game.pieces@.len(),
                self@ == game.covered_by_first(c, k as int),
            decreases game.pieces@.len() - k,
        {
            let ghost before = self@;
            assert(game.pieces@[k as int].fits(c[k as int], game.dimensions));
            self.place(&game.pieces[k], configuration.positions[k]);
            proof {
                let piece = game.pieces@[k as int];
                assert forall|cell: (int, int)|
                    self@.contains(cell) <==> game.covered_by_first(c, k + 1).contains(cell) by {
                    if before.contains(cell) {
                        let i = choose|i: int|
                            0 <= i < k && #[trigger] game.pieces@[i].covers(c[i], cell.0, cell.1);
                        assert(game.pieces@[i].covers(c[i], cell.0, cell.1));
                    }
                    if rect(c[k as int], piece.size).contains(cell) {
                        assert(game.pieces@[k as int].covers(c[k as int], cell.0, cell.1));
                    }
                    if game.covered_by_first(c, k + 1).contains(cell) {
                        let i = choose|i: int|
                            0 <= i < k + 1 && #[trigger] game.pieces@[i].covers(
                                c[i],
                                cell.0,
                                cell.1,
                            );
                        if i < k {
                            assert(game.covered_by_first(c, k as int).contains(cell));
                        }
                    }
                }
                assert(self@ =~= game.covered_by_first(c, k + 1));
            }
            k += 1;
        }
        assert(self@ =~= game.covered(c));
    }

    /// Whether `piece`, with its corner at `position` on this board, can
    /// slide by one cell in `direction`: it is allowed to move along that
    /// axis, it stays on the board, and every cell that it enters is free.
    pub fn allows(
        &self,
        piece: &PieceSpecification,
        position: (usize, usize),
        direction: Direction,
    ) -> (allowed: bool)
        requires
            self.wf(),
            piece.fits(position, self.spec_dimensions()),
        ensures
            allowed == {
                &&& piece.may_slide(direction)
                &&& piece.has_room(position, direction, self.spec_dimensions())
                &&& forall|x: int, y: int| #[trigger]
                    piece.enters(position, direction, x, y) ==> !self@.contains((x, y))
            },
    {
        let (strip, size) = match direction {
            Direction::Left => {
                if !piece.moves.0 || position.0 == 0 {
                    return false;
                }
                ((position.0 - 1, position.1), (1, piece.size.1))
            },
            Direction::Right => {
                if !piece.moves.0 || position.0 + piece.size.0 >= self.width {
                    return false;
                }
                ((position.0 + piece.size.0, position.1), (1, piece.size.1))
            },
            Direction::Up => {
                if !piece.moves.1 || position.1 == 0 {
                    return false;
                }
                ((position.0, position.1 - 1), (piece.size.0, 1))
            },
            Direction::Down => {
                if !piece.moves.1 || position.1 + piece.size.1 >= self.height {
                    return false;
                }
                ((position.0, position.1 + piece.size.1), (piece.size.0, 1))
            },
        };
        let clear = self.is_rect_clear(strip, size);
        proof {
            assert forall|x: int, y: int|
                piece.enters(position, direction, x, y) <==> rect(strip, size).contains(
                    (x, y),
                ) by {}
            if clear {
                assert forall|x: int, y: int| #[trigger]
                    piece.enters(position, direction, x, y) implies !self@.contains((x, y)) by {
                    assert(rect(strip, size).contains((x, y)));
                }
            } else {
                let cell = choose|cell: (int, int)|
                    rect(strip, size).contains(cell) && self@.contains(cell);
                assert(piece.enters(position, direction, cell.0, cell.1));
                assert(self@.contains((cell.0, cell.1)));
            }
        }
        clear
    }

    /// Frees every cell.
    pub fn clear(&mut self)
        requires
            old(self).wf(),
        ensures
            final(self).wf(),
            final(self).spec_dimensions() == old(self).spec_dimensions(),
            final(self)@ == Set::<(int, int)>::empty(),
    {
        let mut i: usize = 0;
        while i < self.bitmap.len()
            invariant
                self.bitmap@.len() == old(self).bitmap@.len(),
                self.width == old(self).width,
                self.height == old(self).height,
                i <= self.bitmap@.len(),
                forall|k: int| 0 <= k < i ==> !self.bitmap@[k],
            decreases self.bitmap@.len() - i,
        {
            self.bitmap[i] = false;
            i += 1;
        }
        assert forall|cell: (int, int)| !self@.contains(cell) by {
            if 0 <= cell.0 < self.width && 0 <= cell.1 < self.height {
                lemma_cell_index_in_range(cell.0, cell.1, self.width as int, self.height as int);
            }
        }
        assert(self@ =~= Set::<(int, int)>::empty());
    }

    /// A board of the given width and height on which every cell is free.
    /// The number of its cells has to fit the machine's word.
    pub fn new(dimensions: (usize, usize)) -> (board: Self)
        requires
            dimensions.0 * dimensions.1 <= usize::MAX,
        ensures
            board.wf(),
            board.spec_dimensions() == dimensions,
            board@ == Set::<(int, int)>::empty(),
    {
        let board = GameBoard {
            bitmap: vec![false; dimensions.0 * dimensions.1],
            width: dimensions.0,
            height: dimensions.1,
        };
        assert forall|cell: (int, int)| !board@.contains(cell) by {
            if 0 <= cell.0 < board.width && 0 <= cell.1 < board.height {
                lemma_cell_index_in_range(cell.0, cell.1, board.width as int, board.height as int);
            }
        }
        assert(board@ =~= Set::<(int, int)>::empty());
        board
    }
}

} // verus!
