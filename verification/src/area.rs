//! Counting cells: how many cells a rectangle has, and how many the pieces
//! of a puzzle take together.

use crate::board::rect;
use crate::game::GameSpecification;
use vstd::prelude::*;
use vstd::set_lib::{lemma_len_subset, lemma_set_disjoint_lens, lemma_set_intersect_union_lens};

verus! {

/// The cells `(x, y)` with `x0 <= x < x0 + w` and `y0 <= y < y0 + h`.
pub open spec fn block(x0: int, y0: int, w: int, h: int) -> Set<(int, int)> {
    Set::new(|cell: (int, int)| x0 <= cell.0 < x0 + w && y0 <= cell.1 < y0 + h)
}

/// A column of `h` cells has `h` cells.
pub proof fn lemma_column_size(x0: int, y0: int, h: nat)
    ensures
        block(x0, y0, 1, h as int).finite(),
        block(x0, y0, 1, h as int).len() == h,
    decreases h,
{
    if h == 0 {
        assert(block(x0, y0, 1, 0) =~= Set::<(int, int)>::empty());
    } else {
        lemma_column_size(x0, y0, (h - 1) as nat);
        let shorter = block(x0, y0, 1, h - 1);
        assert(block(x0, y0, 1, h as int) =~= shorter.insert((x0, y0 + h - 1)));
        assert(!shorter.contains((x0, y0 + h - 1)));
    }
}

/// A block of `w` by `h` cells has `w * h` cells.
pub proof fn lemma_block_size(x0: int, y0: int, w: nat, h: nat)
    ensures
        block(x0, y0, w as int, h as int).finite(),
        block(x0, y0, w as int, h as int).len() == w * h,
    decreases w,
{
    if w == 0 {
        assert(block(x0, y0, 0, h as int) =~= Set::<(int, int)>::empty());
        assert(0 * h == 0) by (nonlinear_arith);
    } else {
        lemma_block_size(x0, y0, (w - 1) as nat, h);
        lemma_column_size(x0 + w - 1, y0, h);
        let narrower = block(x0, y0, w - 1, h as int);
        let column = block(x0 + w - 1, y0, 1, h as int);
        assert(block(x0, y0, w as int, h as int) =~= narrower + column);
        assert(narrower.disjoint(column));
        lemma_set_disjoint_lens(narrower, column);
        assert((w - 1) * h + h == w * h) by (nonlinear_arith);
    }
}

/// A rectangle of cells has as many cells as its width times its height.
pub proof fn lemma_rect_size(position: (usize, usize), size: (usize, usize))
    ensures
        rect(position, size).finite(),
        rect(position, size).len() == size.0 * size.1,
{
    lemma_block_size(position.0 as int, position.1 as int, size.0 as nat, size.1 as nat);
    assert(rect(position, size) =~= block(
        position.0 as int,
        position.1 as int,
        size.0 as int,
        size.1 as int,
    ));
}

/// The more pieces are counted, the greater the sum of their areas.
pub proof fn lemma_area_of_first_grows(game: GameSpecification, j: nat, k: nat)
    requires
        j <= k,
    ensures
        game.area_of_first(j) <= game.area_of_first(k),
    decreases k,
{
    if j < k {
        lemma_area_of_first_grows(game, j, (k - 1) as nat);
    }
}

/// A piece that lies on the board has no more cells than the board.
pub proof fn lemma_area_within_board(w: int, h: int, width: int, height: int)
    requires
        0 <= w <= width,
        0 <= h <= height,
    ensures
        0 <= w * h <= width * height,
{
    assert(0 <= w * h) by (nonlinear_arith)
        requires
            0 <= w,
            0 <= h,
    ;
    assert(w * h <= width * h) by (nonlinear_arith)
        requires
            w <= width,
            0 <= h,
    ;
    assert(width * h <= width * height) by (nonlinear_arith)
        requires
            h <= height,
            0 <= width,
    ;
}

/// The first `k` pieces never take more cells than they have between
/// them, and they take exactly that many if and only if no two of them lie
/// on the same cell.
pub proof fn lemma_area_of_first(game: GameSpecification, c: Seq<(usize, usize)>, k: nat)
    requires
        k <= game.pieces@.len(),
        c.len() == game.pieces@.len(),
    ensures
        game.covered_by_first(c, k as int).finite(),
        game.covered_by_first(c, k as int).len() <= game.area_of_first(k),
        game.apart_first(c, k as int) <==> game.covered_by_first(c, k as int).len()
            == game.area_of_first(k),
    decreases k,
{
    if k == 0 {
        assert(game.covered_by_first(c, 0) =~= Set::<(int, int)>::empty());
    } else {
        let rest = (k - 1) as nat;
        lemma_area_of_first(game, c, rest);
        let piece = game.pieces@[k - 1];
        let before = game.covered_by_first(c, rest as int);
        let last = rect(c[k - 1], piece.size);
        let all = game.covered_by_first(c, k as int);
        lemma_rect_size(c[k - 1], piece.size);
        assert(all =~= before + last) by {
            assert forall|cell: (int, int)| all.contains(cell) <==> (before + last).contains(
                cell,
            ) by {
                if all.contains(cell) {
                    let i = choose|i: int|
                        0 <= i < k && #[trigger] game.pieces@[i].covers(c[i], cell.0, cell.1);
                    if i < rest {
                        assert(before.contains(cell));
                    }
                }
                if before.contains(cell) {
                    let i = choose|i: int|
                        0 <= i < rest && #[trigger] game.pieces@[i].covers(c[i], cell.0, cell.1);
                    assert(game.pieces@[i].covers(c[i], cell.0, cell.1));
                }
                if last.contains(cell) {
                    assert(game.pieces@[k - 1].covers(c[k - 1], cell.0, cell.1));
                }
            }
        }
        lemma_set_intersect_union_lens(before, last);
        let shared = before.intersect(last);
        if game.apart_first(c, k as int) {
            assert(game.apart_first(c, rest as int));
            assert(shared =~= Set::<(int, int)>::empty()) by {
                assert forall|cell: (int, int)| !shared.contains(cell) by {
                    if shared.contains(cell) {
                        let i = choose|i: int|
                            0 <= i < rest && #[trigger] game.pieces@[i].covers(
                                c[i],
                                cell.0,
                                cell.1,
                            );
                        assert(game.pieces@[i].covers(c[i], cell.0, cell.1) && game.pieces@[k
                            - 1].covers(c[k - 1], cell.0, cell.1));
                    }
                }
            }
        } else {
            if game.apart_first(c, rest as int) {
                let (i, j, x, y) = choose|i: int, j: int, x: int, y: int|
                    0 <= i < j < k && #[trigger] game.pieces@[i].covers(c[i], x, y)
                        && #[trigger] game.pieces@[j].covers(c[j], x, y);
                assert(j == k - 1);
                let cell = (x, y);
                assert(0 <= i < rest && game.pieces@[i].covers(c[i], cell.0, cell.1));
                assert(before.contains(cell));
                assert(last.contains((x, y)));
                assert(shared.contains((x, y)));
                lemma_len_subset(shared, last);
                assert(shared.len() > 0) by {
                    if shared.len() == 0 {
                        assert(shared =~= Set::<(int, int)>::empty());
                    }
                }
            }
        }
    }
}

/// The area invariant. The pieces never take more cells than they have
/// between them, and they take exactly the sum of their areas if and only
/// if no two of them lie on the same cell.
pub proof fn lemma_area_invariant(game: GameSpecification, c: Seq<(usize, usize)>)
    requires
        c.len() == game.pieces@.len(),
    ensures
        game.covered(c).finite(),
        game.covered(c).len() <= game.total_area(),
        game.apart_first(c, game.pieces@.len() as int) <==> game.covered(c).len()
            == game.total_area(),
{
    lemma_area_of_first(game, c, game.pieces@.len());
    assert(game.covered(c) =~= game.covered_by_first(c, game.pieces@.len() as int));
}

/// In a configuration that the puzzle admits, the pieces take exactly as
/// many cells as the sum of their areas.
pub proof fn lemma_admitted_fills_area(game: GameSpecification, c: Seq<(usize, usize)>)
    requires
        game.admits(c),
    ensures
        game.covered(c).finite(),
        game.covered(c).len() == game.total_area(),
{
    lemma_area_invariant(game, c);
}

} // verus!
