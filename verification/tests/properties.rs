use slide_graph::board::GameBoard;
use slide_graph::game::{GameSpecification, GoalSpecification, PieceSpecification};
use slide_graph::generator::GraphGenerator;
use slide_graph::reachability::count_reachable;
use std::collections::{BTreeSet, HashSet};

type Positions = Vec<(usize, usize)>;

fn piece(size: (usize, usize), position: (usize, usize), moves: (bool, bool)) -> PieceSpecification {
    PieceSpecification { size, position, moves }
}

fn crowded() -> GameSpecification {
    GameSpecification {
        dimensions: (4, 3),
        pieces: vec![
            piece((2, 1), (0, 0), (true, true)),
            piece((1, 2), (3, 0), (false, true)),
            piece((1, 1), (1, 1), (true, true)),
            piece((1, 1), (0, 2), (true, false)),
        ],
        goal: GoalSpecification::Position((3, 2)),
    }
}

fn cells(game: &GameSpecification, positions: &Positions, skip: usize) -> HashSet<(usize, usize)> {
    let mut taken = HashSet::new();
    for (i, p) in game.pieces.iter().enumerate() {
        if i == skip {
            continue;
        }
        for x in 0..p.size.0 {
            for y in 0..p.size.1 {
                taken.insert((positions[i].0 + x, positions[i].1 + y));
            }
        }
    }
    taken
}

fn slides(game: &GameSpecification, positions: &Positions) -> Vec<Positions> {
    let mut found = Vec::new();
    for (i, p) in game.pieces.iter().enumerate() {
        let others = cells(game, positions, i);
        let (x, y) = (positions[i].0 as i64, positions[i].1 as i64);
        for (dx, dy) in [(-1i64, 0i64), (1, 0), (0, -1), (0, 1)] {
            if (dx != 0 && !p.moves.0) || (dy != 0 && !p.moves.1) {
                continue;
            }
            let (nx, ny) = (x + dx, y + dy);
            if nx < 0
                || ny < 0
                || nx + p.size.0 as i64 > game.dimensions.0 as i64
                || ny + p.size.1 as i64 > game.dimensions.1 as i64
            {
                continue;
            }
            let mut free = true;
            for cx in 0..p.size.0 {
                for cy in 0..p.size.1 {
                    if others.contains(&(nx as usize + cx, ny as usize + cy)) {
                        free = false;
                    }
                }
            }
            if free {
                let mut next = positions.clone();
                next[i] = (nx as usize, ny as usize);
                found.push(next);
            }
        }
    }
    found
}

fn reachable(game: &GameSpecification) -> HashSet<Positions> {
    let start: Positions = game.pieces.iter().map(|p| p.position).collect();
    let mut seen = HashSet::new();
    let mut frontier = vec![start.clone()];
    seen.insert(start);
    while let Some(current) = frontier.pop() {
        for next in slides(game, &current) {
            if seen.insert(next.clone()) {
                frontier.push(next);
            }
        }
    }
    seen
}

fn run(game: GameSpecification) -> (Vec<Positions>, BTreeSet<(usize, usize)>) {
    let mut generator = GraphGenerator::new(game);
    let (nodes, edges) = generator.generate();
    let mut configurations = Vec::new();
    for id in 0..nodes.len() {
        configurations.push(nodes.get(id).unwrap().positions.clone());
    }
    (configurations, edges.clone())
}

#[test]
fn two_runs_give_the_same_graph() {
    let (nodes1, edges1) = run(crowded());
    let (nodes2, edges2) = run(crowded());
    assert_eq!(nodes1, nodes2);
    assert_eq!(edges1, edges2);
    assert!(nodes1.len() > 10);
}

#[test]
fn nodes_are_the_reachable_configurations() {
    let game = crowded();
    let expected = reachable(&game);
    let (nodes, _) = run(game);
    let found: HashSet<Positions> = nodes.iter().cloned().collect();
    assert_eq!(found.len(), nodes.len());
    assert_eq!(found, expected);
}

#[test]
fn count_reachable_agrees_with_the_graph() {
    let expected = reachable(&crowded()).len();
    let (nodes, _) = run(crowded());
    assert_eq!(count_reachable(&crowded()), expected);
    assert_eq!(count_reachable(&crowded()), nodes.len());
}

#[test]
fn edges_are_the_single_slides() {
    let game = crowded();
    let (nodes, edges) = run(crowded());
    let mut expected = BTreeSet::new();
    for (a, from) in nodes.iter().enumerate() {
        for to in slides(&game, from) {
            let b = nodes.iter().position(|c| *c == to).unwrap();
            expected.insert((a.min(b), a.max(b)));
        }
    }
    assert_eq!(edges, expected);
}

#[test]
fn every_edge_is_a_slide_that_can_be_undone() {
    let game = crowded();
    let (nodes, edges) = run(crowded());
    assert!(!edges.is_empty());
    for &(a, b) in &edges {
        let moved: Vec<usize> = (0..nodes[a].len()).filter(|&i| nodes[a][i] != nodes[b][i]).collect();
        assert_eq!(moved.len(), 1);
        let (from, to) = (nodes[a][moved[0]], nodes[b][moved[0]]);
        let distance = from.0.abs_diff(to.0) + from.1.abs_diff(to.1);
        assert_eq!(distance, 1);
        assert!(slides(&game, &nodes[a]).contains(&nodes[b]));
        assert!(slides(&game, &nodes[b]).contains(&nodes[a]));
    }
}

#[test]
fn no_edge_joins_a_node_to_itself() {
    let (nodes, edges) = run(crowded());
    for &(a, b) in &edges {
        assert!(a < b);
        assert!(b < nodes.len());
    }
}

#[test]
fn every_node_takes_the_sum_of_the_areas() {
    let game = crowded();
    let mut generator = GraphGenerator::new(crowded());
    let (nodes, _) = generator.generate();
    let mut board = GameBoard::new(game.dimensions);
    for id in 0..nodes.len() {
        board.fill(&game, nodes.get(id).unwrap());
        assert_eq!(board.count_taken(), 6);
    }
}

#[test]
fn generate_leaves_nothing_queued() {
    let mut generator = GraphGenerator::new(crowded());
    generator.generate();
    assert_eq!(generator.queue_len(), 0);
    assert_eq!(generator.visited_count(), generator.nodes().len());
    assert_eq!(generator.step(), None);
    let nodes = generator.nodes().len();
    let edges = generator.edges().len();
    generator.generate();
    assert_eq!(generator.nodes().len(), nodes);
    assert_eq!(generator.edges().len(), edges);
}

#[test]
fn generate_carries_on_from_single_steps() {
    let mut stepped = GraphGenerator::new(crowded());
    for _ in 0..5 {
        stepped.step();
    }
    let (nodes1, edges1) = stepped.generate();
    let mut whole = GraphGenerator::new(crowded());
    let (nodes2, edges2) = whole.generate();
    assert_eq!(nodes1.len(), nodes2.len());
    for id in 0..nodes1.len() {
        assert_eq!(nodes1.get(id), nodes2.get(id));
    }
    assert_eq!(edges1, edges2);
}

#[test]
fn node_zero_is_the_initial_configuration() {
    let game = crowded();
    let generator = GraphGenerator::new(crowded());
    assert_eq!(generator.nodes().len(), 1);
    assert_eq!(generator.nodes().get(0), Some(&game.as_configuration()));
    assert_eq!(generator.queue_len(), 1);
    assert_eq!(generator.edges().len(), 0);
    assert_eq!(generator.specification().dimensions, (4, 3));
}
