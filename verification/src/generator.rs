//! The search itself: a work list of nodes to visit, the nodes found and
//! the moves between them.

use crate::bidirectional_list::BidirectionalList;
use crate::board::GameBoard;
use crate::bound::{capacity, lemma_nodes_bounded, lemma_queue_bounded};
use crate::game::{views, GameConfiguration, GameSpecification};
use crate::invariants::{lemma_start, lemma_stepped, lemma_visited, lemma_visited_accounted};
use crate::laws::{lemma_edges_are_the_moves, lemma_nodes_are_the_reachable};
use crate::traversal::{edge_between, reaches, GraphState};
use std::collections::BTreeSet;
use vstd::prelude::*;

verus! {

/// Records the move between the nodes `a` and `b`.
fn record_edge(edges: &mut BTreeSet<(usize, usize)>, a: usize, b: usize)
    ensures
        final(edges)@ == old(edges)@.insert(edge_between(a, b)),
{
    if a <= b {
        edges.insert((a, b));
    } else {
        edges.insert((b, a));
    }
}

/// Enumerates the configurations that a puzzle can reach and the moves
/// between them.
pub struct GraphGenerator {
    /// The configurations found so far; the id of each is its position.
    nodes: BidirectionalList<GameConfiguration>,
    /// The moves found so far, each as a pair of ids, the smaller first.
    edges: BTreeSet<(usize, usize)>,
    /// The ids still to be visited. It is a stack: the id that was pushed
    /// last is visited next.
    queue: Vec<usize>,
    /// Scratch space for the configuration that is being visited.
    board: GameBoard,
    /// The puzzle.
    specification: GameSpecification,
}

impl View for GraphGenerator {
    type V = GraphState;

    /// The nodes, the moves and the work list as they stand.
    closed spec fn view(&self) -> GraphState {
        GraphState { nodes: self.nodes@, edges: self.edges@, queue: self.queue@ }
    }
}

impl GraphGenerator {
    /// The puzzle whose configurations are enumerated.
    pub closed spec fn game(&self) -> GameSpecification {
        self.specification
    }

    /// The parts are in working order and the board has the puzzle's size.
    spec fn operable(&self) -> bool {
        &&& self.nodes.wf()
        &&& self.board.wf()
        &&& self.board.spec_dimensions() == self.specification.dimensions
    }

    /// The generator is in working order, and what it holds is true of its
    /// puzzle: its state is sound, and every node is queued or closed.
    pub closed spec fn wf(&self) -> bool {
        &&& self.operable()
        &&& self@.sound(self.specification)
        &&& self@.accounted(self.specification)
    }

    /// What a generator in working order holds is true of its puzzle.
    pub proof fn lemma_sound(&self)
        requires
            self.wf(),
        ensures
            self@.sound(self.game()),
            self@.accounted(self.game()),
            self.nodes().wf(),
    {
    }

    /// The configurations found so far, each under its id.
    #[verifier::when_used_as_spec(spec_nodes)]
    pub fn nodes(&self) -> (nodes: &BidirectionalList<GameConfiguration>)
        ensures
            nodes == self.spec_nodes(),
            nodes@ == self@.nodes,
    {
        &self.nodes
    }

    /// The configurations found so far, each under its id.
    pub closed spec fn spec_nodes(&self) -> &BidirectionalList<GameConfiguration> {
        &self.nodes
    }

    /// The moves found so far, each as a pair of ids, the smaller first.
    pub fn edges(&self) -> (edges: &BTreeSet<(usize, usize)>)
        ensures
            edges@ == self@.edges,
    {
        &self.edges
    }

    /// The puzzle whose configurations are enumerated.
    pub fn specification(&self) -> (specification: &GameSpecification)
        ensures
            *specification == self.game(),
    {
        &self.specification
    }

    /// The number of nodes that are queued for a visit.
    pub fn queue_len(&self) -> (n: usize)
        ensures
            n == self@.queue.len(),
    {
        self.queue.len()
    }

    /// The number of nodes that are not queued: those that were visited.
    pub fn visited_count(&self) -> (n: usize)
        requires
            self.wf(),
        ensures
            n == self@.nodes.len() - self@.queue.len(),
    {
        proof {
            lemma_queue_bounded(self@, self.specification);
        }
        self.nodes.len() - self.queue.len()
    }

    /// A generator for `specification` that knows the initial configuration
    /// as node 0 and has it queued. The description has to be consistent:
    /// the number of cells of the board fits the machine's word, and the
    /// initial configuration keeps every piece on the board and no two
    /// pieces on the same cell.
    pub fn new(specification: GameSpecification) -> (generator: Self)
        requires
            specification.is_consistent(),
        ensures
            generator.wf(),
            generator.game() == specification,
            generator@ == GraphState::start(specification),
            generator@.sound(specification),
    {
        let board = GameBoard::new(specification.dimensions);
        let mut nodes = BidirectionalList::default();
        let idx = nodes.push(specification.as_configuration());
        let queue = vec![idx];
        let generator = GraphGenerator {
            specification,
            nodes,
            edges: BTreeSet::new(),
            queue,
            board,
        };
        proof {
            let g = generator@;
            let game = generator.specification;
            assert(g.nodes =~= seq![game.initial()]);
            assert(g.queue =~= seq![0usize]);
            assert(g == GraphState::start(game));
            lemma_start(game);
        }
        generator
    }

    /// Visits the node `idx`: finds the neighbours of its configuration and
    /// enqueues each of them.
    fn explore(&mut self, idx: usize)
        requires
            old(self).operable(),
            idx < old(self)@.nodes.len(),
            old(self).specification.in_bounds(old(self)@.nodes[idx as int]),
        ensures
            final(self).operable(),
            final(self).specification == old(self).specification,
            final(self)@ == old(self)@.visited(old(self).specification, idx),
    {
        let configuration = self.nodes.get(idx).unwrap().clone();
        let ghost game = self.specification;
        let ghost start = self@;
        let found = self.specification.neighbors(&mut self.board, &configuration);
        let ghost all = views(found@);
        assert(self@ == start.enqueued_all(all.take(0), idx));
        for candidate in candidates: found
            invariant
                self.operable(),
                self.specification == game,
                all.len() == candidates.seq().len(),
                forall|j: int| 0 <= j < all.len() ==> all[j] == (#[trigger] candidates.seq()[j])@,
                self@ == start.enqueued_all(all.take(candidates.index() as int), idx),
        {
            let ghost j = candidates.index() as int;
            assert(all.take(j + 1).drop_last() =~= all.take(j));
            assert(all.take(j + 1).last() == candidate@);
            Self::enqueue_configuration(
                &mut self.nodes,
                &mut self.queue,
                &mut self.edges,
                candidate,
                idx,
            );
        }
        assert(all.take(all.len() as int) =~= all);
    }

    /// Visits the node `idx`: rebuilds the board for its configuration and
    /// tries every slide of every piece, in the order of the pieces and, for
    /// each piece, left, right, up, down. Each configuration that a legal
    /// slide leads to is enqueued. The queue is not looked at: `idx` stays in
    /// it if it was there.
    pub fn visit_node(&mut self, idx: usize)
        requires
            old(self).wf(),
            idx < old(self)@.nodes.len(),
        ensures
            final(self).wf(),
            final(self).game() == old(self).game(),
            final(self)@ == old(self)@.visited(old(self).game(), idx),
            final(self)@.sound(old(self).game()),
            final(self)@.extends(old(self)@),
            final(self)@.closed(old(self).game(), idx as int),
    {
        assert(self.specification.admits(self@.nodes[idx as int]));
        self.explore(idx);
        proof {
            self.nodes.lemma_len_bounded();
            lemma_visited(old(self)@, self.specification, idx);
            lemma_visited_accounted(old(self)@, self.specification, idx);
        }
    }

    /// Takes the id that was queued last off the queue and visits it.
    /// Returns that id, or `None` if nothing was queued.
    pub fn step(&mut self) -> (visited: Option<usize>)
        requires
            old(self).wf(),
        ensures
            final(self).wf(),
            final(self).game() == old(self).game(),
            final(self)@ == old(self)@.stepped(old(self).game()),
            final(self)@.sound(old(self).game()),
            match visited {
                Some(idx) => old(self)@.queue.len() > 0 && idx == old(self)@.queue.last()
                    && final(self)@.extends(old(self)@.popped()),
                None => old(self)@.queue.len() == 0,
            },
    {
        match self.queue.pop() {
            None => None,
            Some(idx) => {
                assert(self@ == old(self)@.popped());
                assert(old(self)@.queue[old(self)@.queue.len() - 1] < self@.nodes.len());
                assert(self.specification.admits(self@.nodes[idx as int]));
                self.explore(idx);
                proof {
                    self.nodes.lemma_len_bounded();
                    lemma_stepped(old(self)@, self.specification);
                }
                Some(idx)
            },
        }
    }

    /// Runs the search to its end: visits the node that was queued last,
    /// again and again, until nothing is queued, and returns the nodes and
    /// the edges. The nodes are then exactly the configurations that legal
    /// slides lead to from the initial one, each once, and two nodes are
    /// joined by an edge exactly if one legal slide leads from one to the
    /// other.
    pub fn generate(&mut self) -> (found: (
        &BidirectionalList<GameConfiguration>,
        &BTreeSet<(usize, usize)>,
    ))
        requires
            old(self).wf(),
        ensures
            final(self).wf(),
            final(self).game() == old(self).game(),
            exists|steps: nat| final(self)@ == old(self)@.run(old(self).game(), steps),
            final(self)@.sound(old(self).game()),
            final(self)@.complete(old(self).game()),
            final(self)@.keeps(old(self)@),
            forall|c: Seq<(usize, usize)>|
                final(self)@.nodes.contains(c) <==> reaches(old(self).game(), c),
            forall|a: usize, b: usize|
                a < final(self)@.nodes.len() && b < final(self)@.nodes.len() ==> (
                #[trigger] final(self)@.edges.contains(edge_between(a, b)) <==> old(
                    self,
                ).game().linked(final(self)@.nodes[a as int], final(self)@.nodes[b as int])),
            found.0@ == final(self)@.nodes,
            found.0.wf(),
            found.1@ == final(self)@.edges,
    {
        let ghost game = self.specification;
        let ghost mut steps: nat = 0;
        loop
            invariant
                self.wf(),
                self.specification == game,
                game == old(self).specification,
                self@ == old(self)@.run(game, steps),
                self@.keeps(old(self)@),
            ensures
                self@.queue.len() == 0,
            decreases 2 * (capacity(game) - self@.nodes.len()) + self@.queue.len(),
        {
            let ghost before = self@;
            proof {
                lemma_nodes_bounded(before, game);
            }
            let visited = self.step();
            if visited.is_none() {
                break ;
            }
            proof {
                lemma_nodes_bounded(self@, game);
                steps = steps + 1;
            }
        }
        assert forall|a: int| 0 <= a < self@.nodes.len() implies #[trigger] self@.closed(
            game,
            a,
        ) by {
            assert(!self@.queue.contains(a as usize));
        }
        assert forall|c: Seq<(usize, usize)>| self@.nodes.contains(c) <==> reaches(game, c) by {
            lemma_nodes_are_the_reachable(self@, game, c);
        }
        assert forall|a: usize, b: usize|
            a < self@.nodes.len() && b < self@.nodes.len() implies (#[trigger] self@.edges.contains(
            edge_between(a, b),
        ) <==> game.linked(self@.nodes[a as int], self@.nodes[b as int])) by {
            lemma_edges_are_the_moves(self@, game, a, b);
        }
        (&self.nodes, &self.edges)
    }

    /// Takes note that `configuration` is a neighbour of the node
    /// `neighbor`. A configuration that `nodes` does not hold yet is pushed
    /// and its id is queued; one that it holds keeps its id. Either way the
    /// move between the two nodes is recorded in `edges`.
    pub fn enqueue_configuration(
        nodes: &mut BidirectionalList<GameConfiguration>,
        queue: &mut Vec<usize>,
        edges: &mut BTreeSet<(usize, usize)>,
        configuration: GameConfiguration,
        neighbor: usize,
    )
        requires
            old(nodes).wf(),
        ensures
            final(nodes).wf(),
            (GraphState { nodes: final(nodes)@, edges: final(edges)@, queue: final(queue)@ }) == (
            GraphState { nodes: old(nodes)@, edges: old(edges)@, queue: old(queue)@ }).enqueued(
                configuration@,
                neighbor,
            ),
    {
        let idx = match nodes.get_index(&configuration) {
            Some(idx) => idx,
            None => {
                let idx = nodes.push(configuration);
                queue.push(idx);
                idx
            },
        };
        record_edge(edges, idx, neighbor);
    }
}

} // verus!
