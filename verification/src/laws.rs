//! What holds of every puzzle: facts about slides and about the search,
//! each proved from the definitions.

use crate::area::lemma_admitted_fills_area;
use crate::bidirectional_list::{last_position, lemma_last_position, lemma_last_position_is};
use crate::game::{Direction, GameSpecification};
use crate::traversal::{edge_between, is_path, reaches, step_at, GraphState};
use vstd::prelude::*;

verus! {

/// A legal slide moves the piece: the configuration it leads to differs
/// from the one it started from, in that piece's position alone.
pub proof fn lemma_slide_moves(
    game: GameSpecification,
    c: Seq<(usize, usize)>,
    i: int,
    direction: Direction,
)
    requires
        game.admits(c),
        game.can_slide(c, i, direction),
    ensures
        game.slid(c, i, direction).len() == c.len(),
        game.slid(c, i, direction)[i] != c[i],
        forall|j: int| 0 <= j < c.len() && j != i ==> game.slid(c, i, direction)[j] == c[j],
{
    assert(game.pieces@[i].fits(c[i], game.dimensions));
}

/// A legal slide keeps every piece on the board and no two pieces on the
/// same cell.
pub proof fn lemma_slide_admitted(
    game: GameSpecification,
    c: Seq<(usize, usize)>,
    i: int,
    direction: Direction,
)
    requires
        game.admits(c),
        game.can_slide(c, i, direction),
    ensures
        game.admits(game.slid(c, i, direction)),
{
    let d = game.slid(c, i, direction);
    let piece = game.pieces@[i];
    assert(piece.fits(c[i], game.dimensions));
    assert forall|j: int| 0 <= j < d.len() implies #[trigger] game.pieces@[j].fits(
        d[j],
        game.dimensions,
    ) by {
        assert(game.pieces@[j].fits(c[j], game.dimensions));
    }
    assert forall|j: int, k: int, x: int, y: int| 0 <= j < k < d.len() implies !(
    #[trigger] game.pieces@[j].covers(d[j], x, y) && #[trigger] game.pieces@[k].covers(
        d[k],
        x,
        y,
    )) by {
        if game.pieces@[j].covers(d[j], x, y) && game.pieces@[k].covers(d[k], x, y) {
            if j != i && k != i {
                assert(game.pieces@[j].covers(c[j], x, y) && game.pieces@[k].covers(c[k], x, y));
            } else {
                let other = if j == i {
                    k
                } else {
                    j
                };
                assert(game.pieces@[other].covers(c[other], x, y));
                assert(game.occupied(c, x, y));
                if piece.enters(c[i], direction, x, y) {
                } else {
                    assert(piece.covers(c[i], x, y));
                    if j == i {
                        assert(game.pieces@[j].covers(c[j], x, y) && game.pieces@[k].covers(
                            c[k],
                            x,
                            y,
                        ));
                    } else {
                        assert(game.pieces@[j].covers(c[j], x, y) && game.pieces@[k].covers(
                            c[k],
                            x,
                            y,
                        ));
                    }
                }
            }
        }
    }
}

/// Every slide can be undone: after a legal slide of a piece, the same
/// piece can slide back in the opposite direction, and that leads to the
/// configuration from which the first slide started.
pub proof fn lemma_slide_reversible(
    game: GameSpecification,
    c: Seq<(usize, usize)>,
    i: int,
    direction: Direction,
)
    requires
        game.admits(c),
        game.can_slide(c, i, direction),
    ensures
        game.can_slide(game.slid(c, i, direction), i, direction.opposite()),
        game.slid(game.slid(c, i, direction), i, direction.opposite()) == c,
{
    let d = game.slid(c, i, direction);
    let back = direction.opposite();
    let piece = game.pieces@[i];
    assert(piece.fits(c[i], game.dimensions));
    assert(game.slid(d, i, back) =~= c);
    assert forall|x: int, y: int| #[trigger] piece.enters(d[i], back, x, y) implies !game.occupied(
        d,
        x,
        y,
    ) by {
        if game.occupied(d, x, y) {
            let j = choose|j: int|
                0 <= j < game.pieces@.len() && #[trigger] game.pieces@[j].covers(d[j], x, y);
            assert(j != i);
            assert(game.pieces@[j].covers(c[j], x, y));
            assert(game.occupied(c, x, y));
            if piece.covers(c[i], x, y) {
                if i < j {
                    assert(game.pieces@[i].covers(c[i], x, y) && game.pieces@[j].covers(
                        c[j],
                        x,
                        y,
                    ));
                } else {
                    assert(game.pieces@[j].covers(c[j], x, y) && game.pieces@[i].covers(
                        c[i],
                        x,
                        y,
                    ));
                }
            } else {
                assert(piece.enters(c[i], direction, x, y));
            }
        }
    }
}

/// Interning is idempotent. A value that was just pushed is found again
/// under the id that the push gave it, so looking it up before inserting it
/// a second time yields that id and adds nothing. A value that is found is
/// found under the same id however often it is looked up, and pushing only
/// what is not found never makes two ids for one value.
pub proof fn lemma_interning_idempotent<V>(s: Seq<V>, v: V)
    ensures
        last_position(s.push(v), v) == Some(s.len() as int),
        last_position(s, v) is None ==> !s.contains(v),
        s.no_duplicates() && last_position(s, v) is None ==> s.push(v).no_duplicates(),
        s.no_duplicates() ==> forall|i: int|
            0 <= i < s.len() && s[i] == v ==> last_position(s, v) == Some(i),
{
    lemma_last_position_is(s.push(v), v, s.len() as int);
    lemma_last_position(s, v);
    if s.no_duplicates() {
        assert forall|i: int| 0 <= i < s.len() && s[i] == v implies last_position(s, v) == Some(
            i,
        ) by {
            lemma_last_position_is(s, v, i);
        }
    }
}

/// Every recorded edge is one slide that can be undone: some piece slides
/// in some direction from the configuration of one end to that of the
/// other, and the same piece slides back in the opposite direction.
pub proof fn lemma_edges_symmetric(g: GraphState, game: GameSpecification, a: usize, b: usize)
    requires
        g.sound(game),
        g.edges.contains((a, b)),
    ensures
        exists|i: int, direction: Direction|
            {
                &&& #[trigger] game.can_slide(g.nodes[a as int], i, direction)
                &&& game.slid(g.nodes[a as int], i, direction) == g.nodes[b as int]
                &&& game.can_slide(g.nodes[b as int], i, direction.opposite())
                &&& game.slid(g.nodes[b as int], i, direction.opposite()) == g.nodes[a as int]
            },
{
    let c = g.nodes[a as int];
    let d = g.nodes[b as int];
    assert(game.linked(c, d));
    let (i, direction) = choose|i: int, direction: Direction| #[trigger]
        game.can_slide(c, i, direction) && d == game.slid(c, i, direction);
    assert(game.admits(c));
    lemma_slide_reversible(game, c, i, direction);
}

/// No edge joins a node to itself, and every edge has the smaller id first.
pub proof fn lemma_no_self_loops(g: GraphState, game: GameSpecification, a: usize, b: usize)
    requires
        g.sound(game),
        g.edges.contains((a, b)),
    ensures
        a < b,
        g.nodes[a as int] != g.nodes[b as int],
{
}

/// Once nothing is queued, further steps change nothing.
pub proof fn lemma_run_settles(g: GraphState, game: GameSpecification, n: nat, m: nat)
    requires
        n <= m,
        g.run(game, n).queue.len() == 0,
    ensures
        g.run(game, m) == g.run(game, n),
    decreases m,
{
    if m > n {
        lemma_run_settles(g, game, n, (m - 1) as nat);
    }
}

/// The search is deterministic: whatever number of steps it takes to empty
/// the queue, two runs from the same state end in the same state, with the
/// same nodes under the same ids and the same edges.
pub proof fn lemma_deterministic(
    g: GraphState,
    game: GameSpecification,
    n: nat,
    m: nat,
)
    requires
        g.run(game, n).queue.len() == 0,
        g.run(game, m).queue.len() == 0,
    ensures
        g.run(game, n) == g.run(game, m),
{
    if n <= m {
        lemma_run_settles(g, game, n, m);
    } else {
        lemma_run_settles(g, game, m, n);
    }
}

/// When the search is over, every configuration along a path of legal
/// slides from the initial configuration is a node.
pub proof fn lemma_path_found(
    g: GraphState,
    game: GameSpecification,
    path: Seq<Seq<(usize, usize)>>,
    k: int,
)
    requires
        g.sound(game),
        g.complete(game),
        is_path(game, path),
        0 <= k < path.len(),
    ensures
        g.nodes.contains(path[k]),
    decreases k,
{
    if k == 0 {
        assert(g.nodes[0] == path[0]);
    } else {
        lemma_path_found(g, game, path, k - 1);
        let a = choose|a: int| 0 <= a < g.nodes.len() && g.nodes[a] == path[k - 1];
        assert(step_at(game, path, k - 1));
        let (i, direction) = choose|i: int, direction: Direction| #[trigger]
            game.can_slide(path[k - 1], i, direction) && path[k] == game.slid(
                path[k - 1],
                i,
                direction,
            );
        assert(g.closed(game, a));
        assert(g.records(a, game.slid(g.nodes[a], i, direction)));
    }
}

/// When the search is over, the nodes are exactly the configurations that
/// legal slides lead to from the initial one.
pub proof fn lemma_nodes_are_the_reachable(
    g: GraphState,
    game: GameSpecification,
    c: Seq<(usize, usize)>,
)
    requires
        g.sound(game),
        g.complete(game),
    ensures
        g.nodes.contains(c) <==> reaches(game, c),
{
    if reaches(game, c) {
        let path = choose|path: Seq<Seq<(usize, usize)>>| #[trigger]
            is_path(game, path) && path.last() == c;
        lemma_path_found(g, game, path, path.len() - 1);
    }
    if g.nodes.contains(c) {
        let a = choose|a: int| 0 <= a < g.nodes.len() && g.nodes[a] == c;
        assert(reaches(game, g.nodes[a]));
    }
}

/// The configurations that legal slides lead to from the initial one.
pub open spec fn reachable_set(game: GameSpecification) -> Set<Seq<(usize, usize)>> {
    Set::new(|c: Seq<(usize, usize)>| reaches(game, c))
}

/// When the search is over, there are as many nodes as there are
/// configurations that legal slides lead to from the initial one, and
/// those are finitely many.
pub proof fn lemma_node_count(g: GraphState, game: GameSpecification)
    requires
        g.sound(game),
        g.complete(game),
    ensures
        reachable_set(game).finite(),
        g.nodes.len() == reachable_set(game).len(),
{
    assert(g.nodes.to_set() =~= reachable_set(game)) by {
        assert forall|c: Seq<(usize, usize)>|
            g.nodes.to_set().contains(c) <==> reachable_set(game).contains(c) by {
            lemma_nodes_are_the_reachable(g, game, c);
        }
    }
    vstd::seq_lib::seq_to_set_is_finite(g.nodes);
    g.nodes.unique_seq_to_set();
}

/// Every node takes as many cells as the pieces have between them: no
/// configuration that a search finds has two pieces on the same cell.
pub proof fn lemma_nodes_fill_area(g: GraphState, game: GameSpecification, a: int)
    requires
        g.sound(game),
        0 <= a < g.nodes.len(),
    ensures
        game.admits(g.nodes[a]),
        game.covered(g.nodes[a]).finite(),
        game.covered(g.nodes[a]).len() == game.total_area(),
{
    lemma_admitted_fills_area(game, g.nodes[a]);
}

/// When the search is over, the edges are exactly the moves: two nodes are
/// joined by an edge if and only if one slide leads from one to the other.
pub proof fn lemma_edges_are_the_moves(g: GraphState, game: GameSpecification, a: usize, b: usize)
    requires
        g.sound(game),
        g.complete(game),
        a < g.nodes.len(),
        b < g.nodes.len(),
    ensures
        g.edges.contains(edge_between(a, b)) <==> game.linked(
            g.nodes[a as int],
            g.nodes[b as int],
        ),
{
    let c = g.nodes[a as int];
    let d = g.nodes[b as int];
    if game.linked(c, d) {
        let (i, direction) = choose|i: int, direction: Direction| #[trigger]
            game.can_slide(c, i, direction) && d == game.slid(c, i, direction);
        assert(g.closed(game, a as int));
        assert(g.records(a as int, game.slid(c, i, direction)));
        let b2 = choose|b2: int|
            0 <= b2 < g.nodes.len() && #[trigger] g.nodes[b2] == d && g.edges.contains(
                edge_between(a, b2 as usize),
            );
        assert(b2 == b);
    }
    if g.edges.contains(edge_between(a, b)) {
        let e = edge_between(a, b);
        assert(g.edges.contains((e.0, e.1)));
    }
}

} // verus!
