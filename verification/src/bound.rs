//! Why a search ends: a puzzle has only so many configurations, and a
//! sound state holds none twice.

use crate::game::GameSpecification;
use crate::traversal::GraphState;
use vstd::prelude::*;

verus! {

/// The number of corners that a piece could have on or just off the board.
pub open spec fn corners(game: GameSpecification) -> nat {
    ((game.dimensions.0 + 1) * (game.dimensions.1 + 1)) as nat
}

/// The number of ways to give each of `k` pieces a corner.
pub open spec fn placements(game: GameSpecification, k: nat) -> nat
    decreases k,
{
    if k == 0 {
        1
    } else {
        placements(game, (k - 1) as nat) * corners(game)
    }
}

/// A bound on the number of configurations that `game` admits.
pub open spec fn capacity(game: GameSpecification) -> nat {
    placements(game, game.pieces@.len())
}

/// The number that stands for a corner.
pub open spec fn corner_code(game: GameSpecification, position: (usize, usize)) -> int {
    position.0 + (game.dimensions.0 + 1) * position.1
}

/// The number that stands for the first `k` positions of `c`.
pub open spec fn code(game: GameSpecification, c: Seq<(usize, usize)>, k: nat) -> int
    decreases k,
{
    if k == 0 {
        0
    } else {
        code(game, c, (k - 1) as nat) * corners(game) + corner_code(game, c[k - 1])
    }
}

/// Whether the first `k` positions of `c` are corners on the board.
pub open spec fn on_board(game: GameSpecification, c: Seq<(usize, usize)>, k: nat) -> bool {
    &&& k <= c.len()
    &&& forall|i: int|
        0 <= i < k ==> (#[trigger] c[i]).0 <= game.dimensions.0 && c[i].1 <= game.dimensions.1
}

/// If `a * base + r == b * base + s` with both remainders below the base,
/// then the quotients and the remainders agree.
pub proof fn lemma_digits_unique(a: int, r: int, b: int, s: int, base: int)
    requires
        0 <= r < base,
        0 <= s < base,
        a * base + r == b * base + s,
    ensures
        a == b,
        r == s,
{
    if a < b {
        assert((a + 1) * base <= b * base) by (nonlinear_arith)
            requires
                a + 1 <= b,
                0 <= base,
        ;
        assert((a + 1) * base == a * base + base) by (nonlinear_arith);
    } else if b < a {
        assert((b + 1) * base <= a * base) by (nonlinear_arith)
            requires
                b + 1 <= a,
                0 <= base,
        ;
        assert((b + 1) * base == b * base + base) by (nonlinear_arith);
    }
}

/// The number of a corner on the board is below the number of corners.
pub proof fn lemma_corner_code_bound(game: GameSpecification, position: (usize, usize))
    requires
        position.0 <= game.dimensions.0,
        position.1 <= game.dimensions.1,
    ensures
        0 <= corner_code(game, position) < corners(game),
{
    let w = game.dimensions.0 + 1;
    let h = game.dimensions.1 + 1;
    let y = position.1 as int;
    assert(0 <= w * y) by (nonlinear_arith)
        requires
            0 <= w,
            0 <= y,
    ;
    assert(w * (y + 1) <= w * h) by (nonlinear_arith)
        requires
            0 <= w,
            y + 1 <= h,
    ;
    assert(w * (y + 1) == w * y + w) by (nonlinear_arith);
}

/// The number of `k` corners on the board is below the number of ways to
/// choose them.
pub proof fn lemma_code_bound(game: GameSpecification, c: Seq<(usize, usize)>, k: nat)
    requires
        on_board(game, c, k),
    ensures
        0 <= code(game, c, k) < placements(game, k),
    decreases k,
{
    if k > 0 {
        let rest = (k - 1) as nat;
        lemma_code_bound(game, c, rest);
        lemma_corner_code_bound(game, c[k - 1]);
        let a = code(game, c, rest);
        let p = placements(game, rest) as int;
        let b = corners(game) as int;
        assert(0 <= a * b) by (nonlinear_arith)
            requires
                0 <= a,
                0 <= b,
        ;
        assert((a + 1) * b <= p * b) by (nonlinear_arith)
            requires
                a + 1 <= p,
                0 <= b,
        ;
        assert((a + 1) * b == a * b + b) by (nonlinear_arith);
    }
}

/// Different placements have different numbers.
pub proof fn lemma_code_injective(
    game: GameSpecification,
    c: Seq<(usize, usize)>,
    d: Seq<(usize, usize)>,
    k: nat,
)
    requires
        on_board(game, c, k),
        on_board(game, d, k),
        code(game, c, k) == code(game, d, k),
    ensures
        forall|i: int| 0 <= i < k ==> c[i] == d[i],
    decreases k,
{
    if k > 0 {
        let rest = (k - 1) as nat;
        lemma_corner_code_bound(game, c[k - 1]);
        lemma_corner_code_bound(game, d[k - 1]);
        lemma_digits_unique(
            code(game, c, rest),
            corner_code(game, c[k - 1]),
            code(game, d, rest),
            corner_code(game, d[k - 1]),
            corners(game) as int,
        );
        lemma_code_injective(game, c, d, rest);
        let w = game.dimensions.0 + 1;
        assert(c[k - 1].1 * w + c[k - 1].0 == d[k - 1].1 * w + d[k - 1].0) by (nonlinear_arith)
            requires
                c[k - 1].0 + w * c[k - 1].1 == d[k - 1].0 + w * d[k - 1].1,
        ;
        lemma_digits_unique(
            c[k - 1].1 as int,
            c[k - 1].0 as int,
            d[k - 1].1 as int,
            d[k - 1].0 as int,
            w,
        );
    }
}

/// A sequence of different numbers, each at least 0 and below `limit`,
/// has at most `limit` entries.
pub proof fn lemma_distinct_below(s: Seq<int>, limit: int)
    requires
        0 <= limit,
        s.no_duplicates(),
        forall|i: int| 0 <= i < s.len() ==> 0 <= #[trigger] s[i] < limit,
    ensures
        s.len() <= limit,
{
    if s.len() > 0 {
        assert(0 <= s[0] < limit);
        s.unique_seq_to_set();
        vstd::set_lib::lemma_int_range(0, limit);
        assert(s.to_set().subset_of(vstd::set_lib::set_int_range(0, limit))) by {
            assert forall|v: int| s.to_set().contains(v) implies vstd::set_lib::set_int_range(
                0,
                limit,
            ).contains(v) by {
                let i = choose|i: int| 0 <= i < s.len() && s[i] == v;
                assert(0 <= s[i] < limit);
            }
        }
        vstd::set_lib::lemma_len_subset(s.to_set(), vstd::set_lib::set_int_range(0, limit));
    }
}

/// A sound state holds no more nodes than the puzzle has room for
/// configurations.
pub proof fn lemma_nodes_bounded(g: GraphState, game: GameSpecification)
    requires
        g.sound(game),
    ensures
        g.nodes.len() <= capacity(game),
{
    let n = game.pieces@.len();
    let codes = Seq::new(g.nodes.len(), |a: int| code(game, g.nodes[a], n));
    assert forall|a: int| 0 <= a < g.nodes.len() implies on_board(game, #[trigger] g.nodes[a], n) by {
        let c = g.nodes[a];
        assert(game.admits(c));
        assert forall|i: int| 0 <= i < n implies (#[trigger] c[i]).0 <= game.dimensions.0
            && c[i].1 <= game.dimensions.1 by {
            assert(game.pieces@[i].fits(c[i], game.dimensions));
        }
    }
    assert forall|a: int| 0 <= a < codes.len() implies 0 <= #[trigger] codes[a] < capacity(
        game,
    ) by {
        assert(on_board(game, g.nodes[a], n));
        lemma_code_bound(game, g.nodes[a], n);
    }
    assert(codes.no_duplicates()) by {
        assert forall|a: int, b: int|
            0 <= a < codes.len() && 0 <= b < codes.len() && a != b implies codes[a]
            != codes[b] by {
            if codes[a] == codes[b] {
                assert(on_board(game, g.nodes[a], n));
                assert(on_board(game, g.nodes[b], n));
                assert(game.admits(g.nodes[a]) && game.admits(g.nodes[b]));
                lemma_code_injective(game, g.nodes[a], g.nodes[b], n);
                assert(g.nodes[a] =~= g.nodes[b]);
            }
        }
    }
    lemma_distinct_below(codes, capacity(game) as int);
}

/// In a sound state no more ids are queued than there are nodes.
pub proof fn lemma_queue_bounded(g: GraphState, game: GameSpecification)
    requires
        g.sound(game),
    ensures
        g.queue.len() <= g.nodes.len(),
{
    let ids = Seq::new(g.queue.len(), |k: int| g.queue[k] as int);
    assert forall|k: int| 0 <= k < ids.len() implies 0 <= #[trigger] ids[k] < g.nodes.len() by {
        assert(g.queue[k] < g.nodes.len());
    }
    lemma_distinct_below(ids, g.nodes.len() as int);
}

} // verus!
