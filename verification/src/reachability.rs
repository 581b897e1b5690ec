//! The search without the graph: only the configurations that were seen are
//! kept, for when nothing but their number matters.

use crate::bidirectional_list::BidirectionalList;
use crate::board::GameBoard;
use crate::bound::{capacity, lemma_nodes_bounded};
use crate::game::{views, GameConfiguration, GameSpecification};
use crate::invariants::{lemma_start, lemma_stepped};
use crate::laws::{lemma_node_count, reachable_set};
use crate::traversal::GraphState;
use vstd::prelude::*;

verus! {

/// The number of configurations that legal slides lead to from the initial
/// configuration of `specification`, that one included. The search is the
/// one that builds the graph, visiting the configuration that was found
/// last first, but it records no moves.
pub fn count_reachable(specification: &GameSpecification) -> (count: usize)
    requires
        specification.is_consistent(),
    ensures
        reachable_set(*specification).finite(),
        count == reachable_set(*specification).len(),
{
    let ghost game = *specification;
    let mut board = GameBoard::new(specification.dimensions);
    let mut seen: BidirectionalList<GameConfiguration> = BidirectionalList::default();
    let first = seen.push(specification.as_configuration());
    let mut queue: Vec<usize> = vec![first];
    let ghost mut g = GraphState::start(game);
    proof {
        assert(seen@ =~= g.nodes);
        assert(queue@ =~= g.queue);
        lemma_start(game);
    }
    loop
        invariant
            game == *specification,
            seen.wf(),
            board.wf(),
            board.spec_dimensions() == game.dimensions,
            g.sound(game),
            g.accounted(game),
            seen@ == g.nodes,
            queue@ == g.queue,
        ensures
            g.queue.len() == 0,
        decreases 2 * (capacity(game) - g.nodes.len()) + g.queue.len(),
    {
        proof {
            lemma_nodes_bounded(g, game);
        }
        let next = queue.pop();
        if next.is_none() {
            break ;
        }
        let idx = next.unwrap();
        let ghost p = g.popped();
        assert(g.queue[g.queue.len() - 1] < g.nodes.len());
        assert(game.admits(g.nodes[idx as int]));
        let configuration = seen.get(idx).unwrap().clone();
        let found = specification.neighbors(&mut board, &configuration);
        let ghost all = views(found@);
        assert(p == p.enqueued_all(all.take(0), idx));
        for candidate in candidates: found
            invariant
                seen.wf(),
                all.len() == candidates.seq().len(),
                forall|j: int| 0 <= j < all.len() ==> all[j] == (#[trigger] candidates.seq()[j])@,
                seen@ == p.enqueued_all(all.take(candidates.index() as int), idx).nodes,
                queue@ == p.enqueued_all(all.take(candidates.index() as int), idx).queue,
        {
            let ghost j = candidates.index() as int;
            assert(all.take(j + 1).drop_last() =~= all.take(j));
            assert(all.take(j + 1).last() == candidate@);
            if seen.get_index(&candidate).is_none() {
                let id = seen.push(candidate);
                queue.push(id);
            }
        }
        proof {
            assert(all.take(all.len() as int) =~= all);
            seen.lemma_len_bounded();
            lemma_stepped(g, game);
            g = g.stepped(game);
            lemma_nodes_bounded(g, game);
        }
    }
    proof {
        assert forall|a: int| 0 <= a < g.nodes.len() implies #[trigger] g.closed(game, a) by {
            assert(!g.queue.contains(a as usize));
        }
        lemma_node_count(g, game);
    }
    seen.len()
}

} // verus!
