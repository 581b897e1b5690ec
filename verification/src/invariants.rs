//! Why a search never goes wrong: what is true of its state stays true
//! through every visit.

use crate::bidirectional_list::{last_position, lemma_last_position};
use crate::game::{Direction, GameSpecification};
use crate::laws::{lemma_slide_admitted, lemma_slide_moves, lemma_slide_reversible};
use crate::moves::lemma_neighbors_are_the_slides;
use crate::traversal::{edge_between, is_path, reaches, step_at, GraphState};
use vstd::prelude::*;

verus! {

/// The state in which a search starts is sound, and its one node is
/// queued.
pub proof fn lemma_start(game: GameSpecification)
    requires
        game.admits(game.initial()),
    ensures
        GraphState::start(game).sound(game),
        GraphState::start(game).accounted(game),
{
    let g = GraphState::start(game);
    let path = seq![game.initial()];
    assert(is_path(game, path) && path.last() == game.initial());
    assert(g.queue[0] == 0);
}

/// What one slide leads to from a configuration that can be reached can
/// be reached too.
pub proof fn lemma_reaches_next(
    game: GameSpecification,
    c: Seq<(usize, usize)>,
    i: int,
    direction: Direction,
)
    requires
        reaches(game, c),
        game.can_slide(c, i, direction),
    ensures
        reaches(game, game.slid(c, i, direction)),
{
    let path = choose|path: Seq<Seq<(usize, usize)>>| #[trigger]
        is_path(game, path) && path.last() == c;
    let d = game.slid(c, i, direction);
    let longer = path.push(d);
    assert forall|k: int| 0 <= k < longer.len() - 1 implies #[trigger] step_at(
        game,
        longer,
        k,
    ) by {
        if k < path.len() - 1 {
            assert(step_at(game, path, k));
        } else {
            assert(game.can_slide(c, i, direction) && d == game.slid(c, i, direction));
            assert(game.linked(longer[k], longer[k + 1]));
        }
    }
    assert(is_path(game, longer) && longer.last() == d);
}

/// One slide leads from either end of a legal slide to the other.
pub proof fn lemma_linked_both_ways(
    game: GameSpecification,
    c: Seq<(usize, usize)>,
    i: int,
    direction: Direction,
)
    requires
        game.admits(c),
        game.can_slide(c, i, direction),
    ensures
        game.linked(c, game.slid(c, i, direction)),
        game.linked(game.slid(c, i, direction), c),
{
    let d = game.slid(c, i, direction);
    lemma_slide_reversible(game, c, i, direction);
    assert(game.can_slide(c, i, direction) && d == game.slid(c, i, direction));
    assert(game.can_slide(d, i, direction.opposite()) && c == game.slid(
        d,
        i,
        direction.opposite(),
    ));
}

/// Meeting a neighbour of a node keeps a sound state sound, carries on from
/// it, and leaves the neighbour and the move to it recorded.
pub proof fn lemma_enqueued(
    g: GraphState,
    game: GameSpecification,
    from: usize,
    d: Seq<(usize, usize)>,
)
    requires
        g.sound(game),
        from < g.nodes.len(),
        game.linked(g.nodes[from as int], d),
        g.enqueued(d, from).nodes.len() <= usize::MAX,
    ensures
        g.enqueued(d, from).sound(game),
        g.enqueued(d, from).extends(g),
        g.enqueued(d, from).records(from as int, d),
{
    let c = g.nodes[from as int];
    let (i, direction) = choose|i: int, direction: Direction| #[trigger]
        game.can_slide(c, i, direction) && d == game.slid(c, i, direction);
    let h = g.enqueued(d, from);
    assert(game.admits(c));
    assert(reaches(game, c));
    lemma_last_position(g.nodes, d);
    lemma_slide_moves(game, c, i, direction);
    lemma_slide_admitted(game, c, i, direction);
    lemma_reaches_next(game, c, i, direction);
    lemma_linked_both_ways(game, c, i, direction);
    assert(d != c);
    let b: int = match last_position(g.nodes, d) {
        Some(b) => b,
        None => g.nodes.len() as int,
    };
    assert(h.nodes[b] == d);
    assert(b != from);
    assert(h.edges == g.edges.insert(edge_between(b as usize, from)));
    assert(h.edges.contains(edge_between(from, b as usize)));
    assert forall|a: int| 0 <= a < h.nodes.len() implies game.admits(#[trigger] h.nodes[a]) by {
        if a < g.nodes.len() {
            assert(game.admits(g.nodes[a]));
        }
    }
    assert forall|a: int| 0 <= a < h.nodes.len() implies reaches(game, #[trigger] h.nodes[a]) by {
        if a < g.nodes.len() {
            assert(reaches(game, g.nodes[a]));
        }
    }
    assert(h.nodes.no_duplicates()) by {
        assert forall|a1: int, a2: int|
            0 <= a1 < h.nodes.len() && 0 <= a2 < h.nodes.len() && a1 != a2 implies h.nodes[a1]
            != h.nodes[a2] by {
            if a1 < g.nodes.len() && a2 < g.nodes.len() {
            } else if a1 < g.nodes.len() {
                assert(g.nodes[a1] != d);
            } else if a2 < g.nodes.len() {
                assert(g.nodes[a2] != d);
            }
        }
    }
    assert(h.queue.no_duplicates()) by {
        assert forall|k1: int, k2: int|
            0 <= k1 < h.queue.len() && 0 <= k2 < h.queue.len() && k1 != k2 implies h.queue[k1]
            != h.queue[k2] by {
            if k1 < g.queue.len() && k2 < g.queue.len() {
            } else if k1 < g.queue.len() {
                assert(g.queue[k1] < g.nodes.len());
            } else if k2 < g.queue.len() {
                assert(g.queue[k2] < g.nodes.len());
            }
        }
    }
    assert forall|k: int| 0 <= k < h.queue.len() implies (#[trigger] h.queue[k])
        < h.nodes.len() by {
        if k < g.queue.len() {
            assert(g.queue[k] < g.nodes.len());
        }
    }
    assert forall|a1: usize, a2: usize| #[trigger] h.edges.contains((a1, a2)) implies {
        &&& a1 < a2 < h.nodes.len()
        &&& game.linked(h.nodes[a1 as int], h.nodes[a2 as int])
        &&& game.linked(h.nodes[a2 as int], h.nodes[a1 as int])
    } by {
        if g.edges.contains((a1, a2)) {
        } else {
            assert((a1, a2) == edge_between(b as usize, from));
        }
    }
}

/// Carrying on is transitive.
pub proof fn lemma_extends_transitive(g1: GraphState, g2: GraphState, g3: GraphState)
    requires
        g2.extends(g1),
        g3.extends(g2),
    ensures
        g3.extends(g1),
{
    assert forall|k: int| g1.queue.len() <= k < g3.queue.len() implies g3.queue[k]
        == g1.nodes.len() + (k - g1.queue.len()) by {
        if k < g2.queue.len() {
            assert(g3.queue[k] == g2.queue[k]);
        }
    }
}

/// What is recorded stays recorded in every state that carries on.
pub proof fn lemma_records_kept(g: GraphState, h: GraphState, a: int, c: Seq<(usize, usize)>)
    requires
        h.extends(g),
        g.records(a, c),
    ensures
        h.records(a, c),
{
    let b = choose|b: int|
        0 <= b < g.nodes.len() && #[trigger] g.nodes[b] == c && g.edges.contains(
            edge_between(a as usize, b as usize),
        );
    assert(h.nodes[b] == c);
}

/// A node that is closed stays closed in every state that carries on.
pub proof fn lemma_closed_kept(g: GraphState, h: GraphState, game: GameSpecification, a: int)
    requires
        h.extends(g),
        0 <= a < g.nodes.len(),
        g.closed(game, a),
    ensures
        h.closed(game, a),
{
    assert forall|i: int, direction: Direction| #[trigger]
        game.can_slide(h.nodes[a], i, direction) implies h.records(
        a,
        game.slid(h.nodes[a], i, direction),
    ) by {
        lemma_records_kept(g, h, a, game.slid(g.nodes[a], i, direction));
    }
}

/// Meeting neighbours only ever adds nodes.
pub proof fn lemma_enqueued_all_grows(g: GraphState, found: Seq<Seq<(usize, usize)>>, from: usize)
    ensures
        g.nodes.len() <= g.enqueued_all(found, from).nodes.len(),
        found.len() > 0 ==> g.enqueued_all(found.drop_last(), from).nodes.len() <= g.enqueued_all(
            found,
            from,
        ).nodes.len(),
    decreases found.len(),
{
    if found.len() > 0 {
        lemma_enqueued_all_grows(g, found.drop_last(), from);
    }
}

/// Meeting several neighbours of a node keeps a sound state sound, carries
/// on from it, and leaves each of them recorded.
pub proof fn lemma_enqueued_all(
    g: GraphState,
    game: GameSpecification,
    from: usize,
    found: Seq<Seq<(usize, usize)>>,
)
    requires
        g.sound(game),
        from < g.nodes.len(),
        forall|j: int| 0 <= j < found.len() ==> game.linked(g.nodes[from as int], #[trigger] found[j]),
        g.enqueued_all(found, from).nodes.len() <= usize::MAX,
    ensures
        g.enqueued_all(found, from).sound(game),
        g.enqueued_all(found, from).extends(g),
        forall|j: int|
            0 <= j < found.len() ==> g.enqueued_all(found, from).records(
                from as int,
                #[trigger] found[j],
            ),
    decreases found.len(),
{
    let h = g.enqueued_all(found, from);
    if found.len() > 0 {
        let rest = found.drop_last();
        let before = g.enqueued_all(rest, from);
        lemma_enqueued_all_grows(g, found, from);
        assert forall|j: int| 0 <= j < rest.len() implies game.linked(
            g.nodes[from as int],
            #[trigger] rest[j],
        ) by {
            assert(rest[j] == found[j]);
        }
        lemma_enqueued_all(g, game, from, rest);
        assert(before.nodes[from as int] == g.nodes[from as int]);
        assert(game.linked(g.nodes[from as int], found[found.len() - 1]));
        lemma_enqueued(before, game, from, found.last());
        lemma_extends_transitive(g, before, h);
        assert forall|j: int| 0 <= j < found.len() implies h.records(
            from as int,
            #[trigger] found[j],
        ) by {
            if j < rest.len() {
                assert(before.records(from as int, rest[j]));
                lemma_records_kept(before, h, from as int, found[j]);
            }
        }
    }
}

/// A visit keeps a sound state sound, carries on from it, and closes the
/// node that was visited.
pub proof fn lemma_visited(g: GraphState, game: GameSpecification, idx: usize)
    requires
        g.sound(game),
        idx < g.nodes.len(),
        g.visited(game, idx).nodes.len() <= usize::MAX,
    ensures
        g.visited(game, idx).sound(game),
        g.visited(game, idx).extends(g),
        g.visited(game, idx).closed(game, idx as int),
{
    let c = g.nodes[idx as int];
    let found = game.neighbors_of(c);
    let h = g.visited(game, idx);
    assert forall|j: int| 0 <= j < found.len() implies game.linked(c, #[trigger] found[j]) by {
        lemma_neighbors_are_the_slides(game, c, found[j]);
    }
    lemma_enqueued_all(g, game, idx, found);
    assert forall|i: int, direction: Direction| #[trigger]
        game.can_slide(h.nodes[idx as int], i, direction) implies h.records(
        idx as int,
        game.slid(h.nodes[idx as int], i, direction),
    ) by {
        let d = game.slid(c, i, direction);
        assert(game.can_slide(c, i, direction) && d == game.slid(c, i, direction));
        lemma_neighbors_are_the_slides(game, c, d);
        let j = choose|j: int| 0 <= j < found.len() && found[j] == d;
        assert(h.records(idx as int, found[j]));
    }
}

/// If every node but the one that is visited was queued or closed, then
/// after the visit every node is queued or closed.
pub proof fn lemma_visited_accounted(g: GraphState, game: GameSpecification, idx: usize)
    requires
        g.sound(game),
        idx < g.nodes.len(),
        g.visited(game, idx).nodes.len() <= usize::MAX,
        forall|a: int|
            0 <= a < g.nodes.len() && a != idx ==> g.queue.contains(a as usize)
                || #[trigger] g.closed(game, a),
    ensures
        g.visited(game, idx).accounted(game),
{
    let h = g.visited(game, idx);
    lemma_visited(g, game, idx);
    assert forall|a: int| 0 <= a < h.nodes.len() implies h.queue.contains(a as usize)
        || #[trigger] h.closed(game, a) by {
        if a == idx {
        } else if a < g.nodes.len() {
            if g.queue.contains(a as usize) {
                let k = choose|k: int| 0 <= k < g.queue.len() && g.queue[k] == a as usize;
                assert(h.queue[k] == a as usize);
            } else {
                assert(g.closed(game, a));
                lemma_closed_kept(g, h, game, a);
            }
        } else {
            let k = g.queue.len() + (a - g.nodes.len());
            assert(h.queue[k] == a as usize);
        }
    }
}

/// One step of the search keeps the state sound and every node queued or
/// closed. If anything was queued, the step takes one entry off the queue
/// and adds one for each node that it adds.
pub proof fn lemma_stepped(g: GraphState, game: GameSpecification)
    requires
        g.sound(game),
        g.accounted(game),
        g.stepped(game).nodes.len() <= usize::MAX,
    ensures
        g.stepped(game).sound(game),
        g.stepped(game).accounted(game),
        g.stepped(game).extends(g.popped()) || g.queue.len() == 0,
{
    if g.queue.len() > 0 {
        let idx = g.queue.last();
        let p = g.popped();
        assert(g.queue[g.queue.len() - 1] < g.nodes.len());
        assert(p.sound(game)) by {
            assert forall|k: int| 0 <= k < p.queue.len() implies (#[trigger] p.queue[k])
                < p.nodes.len() by {
                assert(g.queue[k] < g.nodes.len());
            }
        }
        assert forall|a: int| 0 <= a < p.nodes.len() && a != idx implies p.queue.contains(
            a as usize,
        ) || #[trigger] p.closed(game, a) by {
            if g.closed(game, a) {
                assert(p.closed(game, a)) by {
                    assert forall|i: int, direction: Direction| #[trigger]
                        game.can_slide(p.nodes[a], i, direction) implies p.records(
                        a,
                        game.slid(p.nodes[a], i, direction),
                    ) by {
                        let c = game.slid(g.nodes[a], i, direction);
                        assert(g.records(a, c));
                        let b = choose|b: int|
                            0 <= b < g.nodes.len() && #[trigger] g.nodes[b] == c
                                && g.edges.contains(edge_between(a as usize, b as usize));
                        assert(p.nodes[b] == c);
                    }
                }
            } else {
                assert(g.queue.contains(a as usize));
                let k = choose|k: int| 0 <= k < g.queue.len() && g.queue[k] == a as usize;
                assert(p.queue[k] == a as usize);
            }
        }
        lemma_visited(p, game, idx);
        lemma_visited_accounted(p, game, idx);
    }
}

} // verus!
