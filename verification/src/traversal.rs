//! The traversal as mathematics: the state of a search for all
//! configurations, and what one visit does to it.

use crate::bidirectional_list::last_position;
use crate::game::{Direction, GameSpecification};
use vstd::prelude::*;

verus! {

/// The pair under which a move between the nodes `a` and `b` is recorded:
/// the smaller id first.
pub open spec fn edge_between(a: usize, b: usize) -> (usize, usize) {
    if a <= b {
        (a, b)
    } else {
        (b, a)
    }
}

/// Whether one legal slide leads from the configuration at place `k` of
/// `path` to the one after it.
pub open spec fn step_at(game: GameSpecification, path: Seq<Seq<(usize, usize)>>, k: int) -> bool {
    game.linked(path[k], path[k + 1])
}

/// Whether `path` starts at the initial configuration of `game` and goes
/// on by one legal slide at a time.
pub open spec fn is_path(game: GameSpecification, path: Seq<Seq<(usize, usize)>>) -> bool {
    &&& path.len() > 0
    &&& path[0] == game.initial()
    &&& forall|k: int| 0 <= k < path.len() - 1 ==> #[trigger] step_at(game, path, k)
}

/// Whether legal slides lead from the initial configuration of `game` to `c`.
pub open spec fn reaches(game: GameSpecification, c: Seq<(usize, usize)>) -> bool {
    exists|path: Seq<Seq<(usize, usize)>>| #[trigger] is_path(game, path) && path.last() == c
}

/// What a search knows at some moment.
pub struct GraphState {
    /// The configurations found so far; the id of each is its position.
    pub nodes: Seq<Seq<(usize, usize)>>,
    /// The moves found so far, each as a pair of ids, the smaller first.
    pub edges: Set<(usize, usize)>,
    /// The ids that are still to be visited; the last is visited next.
    pub queue: Seq<usize>,
}

impl GraphState {
    /// The state after the configuration `c` was met as a neighbour of the
    /// node `from`: if `c` is new it becomes the next node and is queued,
    /// and in either case the move between the two is recorded.
    pub open spec fn enqueued(self, c: Seq<(usize, usize)>, from: usize) -> GraphState {
        match last_position(self.nodes, c) {
            Some(i) => GraphState {
                nodes: self.nodes,
                edges: self.edges.insert(edge_between(i as usize, from)),
                queue: self.queue,
            },
            None => GraphState {
                nodes: self.nodes.push(c),
                edges: self.edges.insert(edge_between(self.nodes.len() as usize, from)),
                queue: self.queue.push(self.nodes.len() as usize),
            },
        }
    }

    /// The state after the configurations of `found` were met, one after
    /// the other, as neighbours of the node `from`.
    pub open spec fn enqueued_all(self, found: Seq<Seq<(usize, usize)>>, from: usize) -> GraphState
        decreases found.len(),
    {
        if found.len() == 0 {
            self
        } else {
            self.enqueued_all(found.drop_last(), from).enqueued(found.last(), from)
        }
    }

    /// The state after the node `idx` was visited: each of its neighbours
    /// was met, in their order.
    pub open spec fn visited(self, game: GameSpecification, idx: usize) -> GraphState {
        self.enqueued_all(game.neighbors_of(self.nodes[idx as int]), idx)
    }

    /// The state with the id that was queued last taken off the queue.
    pub open spec fn popped(self) -> GraphState {
        GraphState { nodes: self.nodes, edges: self.edges, queue: self.queue.drop_last() }
    }

    /// The state after one step of the search: the id that was queued last
    /// leaves the queue and is visited. With nothing queued, nothing changes.
    pub open spec fn stepped(self, game: GameSpecification) -> GraphState {
        if self.queue.len() == 0 {
            self
        } else {
            self.popped().visited(game, self.queue.last())
        }
    }

    /// The state after `steps` steps of the search.
    pub open spec fn run(self, game: GameSpecification, steps: nat) -> GraphState
        decreases steps,
    {
        if steps == 0 {
            self
        } else {
            self.run(game, (steps - 1) as nat).stepped(game)
        }
    }

    /// Whether `c` is a node and the move between it and the node `a` is
    /// recorded.
    pub open spec fn records(self, a: int, c: Seq<(usize, usize)>) -> bool {
        exists|b: int|
            0 <= b < self.nodes.len() && #[trigger] self.nodes[b] == c && self.edges.contains(
                edge_between(a as usize, b as usize),
            )
    }

    /// Whether everything about the node `a` is known: each configuration
    /// that one slide leads to from it is a node, and the move is recorded.
    pub open spec fn closed(self, game: GameSpecification, a: int) -> bool {
        forall|i: int, direction: Direction| #[trigger]
            game.can_slide(self.nodes[a], i, direction) ==> self.records(
                a,
                game.slid(self.nodes[a], i, direction),
            )
    }

    /// Whether what the state holds is true of `game`. Node 0 is the initial
    /// configuration. Every node is a configuration that the puzzle admits
    /// and that slides lead to from the initial one, and no two nodes are the
    /// same configuration. The queue holds ids of nodes, none twice. There
    /// are finitely many edges; each joins two different nodes, the smaller
    /// id first, and one slide leads from either to the other.
    pub open spec fn sound(self, game: GameSpecification) -> bool {
        &&& 0 < self.nodes.len() <= usize::MAX
        &&& self.nodes[0] == game.initial()
        &&& forall|a: int| 0 <= a < self.nodes.len() ==> game.admits(#[trigger] self.nodes[a])
        &&& forall|a: int| 0 <= a < self.nodes.len() ==> reaches(game, #[trigger] self.nodes[a])
        &&& self.nodes.no_duplicates()
        &&& forall|k: int|
            0 <= k < self.queue.len() ==> (#[trigger] self.queue[k]) < self.nodes.len()
        &&& self.queue.no_duplicates()
        &&& self.edges.finite()
        &&& forall|a: usize, b: usize| #[trigger]
            self.edges.contains((a, b)) ==> {
                &&& a < b < self.nodes.len()
                &&& game.linked(self.nodes[a as int], self.nodes[b as int])
                &&& game.linked(self.nodes[b as int], self.nodes[a as int])
            }
    }

    /// Whether every node is either still queued or closed.
    pub open spec fn accounted(self, game: GameSpecification) -> bool {
        forall|a: int|
            0 <= a < self.nodes.len() ==> self.queue.contains(a as usize) || #[trigger] self.closed(
                game,
                a,
            )
    }

    /// Whether the search is over and has found everything: nothing is
    /// queued and every node is closed.
    pub open spec fn complete(self, game: GameSpecification) -> bool {
        &&& self.queue.len() == 0
        &&& forall|a: int| 0 <= a < self.nodes.len() ==> #[trigger] self.closed(game, a)
    }

    /// Whether this state has kept what `earlier` knew: every node of
    /// `earlier` is a node under the same id, and every edge is an edge.
    pub open spec fn keeps(self, earlier: GraphState) -> bool {
        &&& earlier.nodes.len() <= self.nodes.len()
        &&& forall|a: int| 0 <= a < earlier.nodes.len() ==> self.nodes[a] == earlier.nodes[a]
        &&& earlier.edges.subset_of(self.edges)
    }

    /// Whether this state carries on from `earlier`: it has the same nodes
    /// under the same ids, the same queue entries and the same edges, and
    /// what it has more are new nodes, each queued once, and new edges.
    pub open spec fn extends(self, earlier: GraphState) -> bool {
        &&& earlier.nodes.len() <= self.nodes.len()
        &&& forall|a: int| 0 <= a < earlier.nodes.len() ==> self.nodes[a] == earlier.nodes[a]
        &&& earlier.queue.len() <= self.queue.len()
        &&& forall|k: int| 0 <= k < earlier.queue.len() ==> self.queue[k] == earlier.queue[k]
        &&& self.queue.len() - earlier.queue.len() == self.nodes.len() - earlier.nodes.len()
        &&& forall|k: int|
            earlier.queue.len() <= k < self.queue.len() ==> self.queue[k] == earlier.nodes.len()
                + (k - earlier.queue.len())
        &&& earlier.edges.subset_of(self.edges)
    }

    /// The state in which a search for the configurations of `game` starts:
    /// the initial configuration is node 0, and it is queued.
    pub open spec fn start(game: GameSpecification) -> GraphState {
        GraphState { nodes: seq![game.initial()], edges: Set::empty(), queue: seq![0usize] }
    }
}

} // verus!
