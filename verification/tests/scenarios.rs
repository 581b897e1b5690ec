use slide_graph::bidirectional_list::BidirectionalList;
use slide_graph::board::GameBoard;
use slide_graph::game::{GameConfiguration, GameSpecification, GoalSpecification, PieceSpecification};
use slide_graph::generator::GraphGenerator;
use std::collections::BTreeSet;

fn piece(size: (usize, usize), position: (usize, usize), moves: (bool, bool)) -> PieceSpecification {
    PieceSpecification { size, position, moves }
}

fn puzzle(dimensions: (usize, usize), pieces: Vec<PieceSpecification>) -> GameSpecification {
    GameSpecification { dimensions, pieces, goal: GoalSpecification::Position((0, 0)) }
}

fn solve(game: GameSpecification) -> (Vec<Vec<(usize, usize)>>, Vec<(usize, usize)>) {
    assert_eq!(game.validate(), Ok(()));
    let mut generator = GraphGenerator::new(game);
    let (nodes, edges) = generator.generate();
    let mut configurations = Vec::new();
    for id in 0..nodes.len() {
        configurations.push(nodes.get(id).unwrap().positions.clone());
    }
    (configurations, edges.iter().copied().collect())
}

#[test]
fn single_fixed_piece_has_one_configuration() {
    let (nodes, edges) = solve(puzzle((1, 1), vec![piece((1, 1), (0, 0), (false, false))]));
    assert_eq!(nodes, vec![vec![(0, 0)]]);
    assert_eq!(edges, vec![]);
}

#[test]
fn single_piece_walks_along_a_row() {
    let (nodes, edges) = solve(puzzle((3, 1), vec![piece((1, 1), (0, 0), (true, false))]));
    assert_eq!(nodes, vec![vec![(0, 0)], vec![(1, 0)], vec![(2, 0)]]);
    assert_eq!(edges, vec![(0, 1), (1, 2)]);
}

#[test]
fn two_pieces_on_a_full_row_cannot_move() {
    let (nodes, edges) = solve(
        puzzle(
            (2, 1),
            vec![piece((1, 1), (0, 0), (true, false)), piece((1, 1), (1, 0), (true, false))],
        ),
    );
    assert_eq!(nodes, vec![vec![(0, 0), (1, 0)]]);
    assert_eq!(edges, vec![]);
}

#[test]
fn two_pieces_cannot_pass_each_other() {
    let (nodes, edges) = solve(
        puzzle(
            (3, 1),
            vec![piece((1, 1), (0, 0), (true, false)), piece((1, 1), (1, 0), (true, false))],
        ),
    );
    assert_eq!(nodes, vec![vec![(0, 0), (1, 0)], vec![(0, 0), (2, 0)], vec![(1, 0), (2, 0)]]);
    assert_eq!(edges, vec![(0, 1), (1, 2)]);
    for node in &nodes {
        assert!(node[0].0 < node[1].0);
    }
}

#[test]
fn vertical_piece_ignores_free_columns() {
    let (nodes, edges) = solve(puzzle((3, 3), vec![piece((1, 2), (1, 0), (false, true))]));
    assert_eq!(nodes, vec![vec![(1, 0)], vec![(1, 1)]]);
    assert_eq!(edges, vec![(0, 1)]);
}

#[test]
fn ids_follow_the_order_of_a_stack() {
    let (nodes, edges) = solve(puzzle((2, 2), vec![piece((1, 1), (0, 0), (true, true))]));
    assert_eq!(nodes, vec![vec![(0, 0)], vec![(1, 0)], vec![(0, 1)], vec![(1, 1)]]);
    assert_eq!(edges, vec![(0, 1), (0, 2), (1, 3), (2, 3)]);
}

#[test]
fn the_last_queued_node_is_visited_first() {
    let game = puzzle((3, 3), vec![piece((1, 1), (1, 1), (true, true))]);
    let mut generator = GraphGenerator::new(game);
    assert_eq!(generator.queue_len(), 1);
    assert_eq!(generator.step(), Some(0));
    assert_eq!(generator.nodes().len(), 5);
    assert_eq!(generator.nodes().get(1).unwrap().positions, vec![(0, 1)]);
    assert_eq!(generator.nodes().get(2).unwrap().positions, vec![(2, 1)]);
    assert_eq!(generator.nodes().get(3).unwrap().positions, vec![(1, 0)]);
    assert_eq!(generator.nodes().get(4).unwrap().positions, vec![(1, 2)]);
    assert_eq!(generator.queue_len(), 4);
    assert_eq!(generator.visited_count(), 1);
    assert_eq!(generator.step(), Some(4));
    assert_eq!(generator.nodes().get(5).unwrap().positions, vec![(0, 2)]);
    assert_eq!(generator.nodes().get(6).unwrap().positions, vec![(2, 2)]);
    assert_eq!(generator.step(), Some(6));
    assert_eq!(generator.step(), Some(5));
    assert_eq!(generator.step(), Some(3));
    let edges: Vec<(usize, usize)> = generator.edges().iter().copied().collect();
    assert!(edges.contains(&(0, 4)));
    assert!(edges.contains(&(4, 5)));
    assert!(edges.contains(&(2, 6)));
}

#[test]
fn visit_node_enqueues_the_neighbours() {
    let game = puzzle(
        (3, 2),
        vec![piece((1, 1), (0, 0), (true, true)), piece((2, 1), (1, 1), (true, false))],
    );
    let mut generator = GraphGenerator::new(game);
    generator.visit_node(0);
    assert_eq!(generator.nodes().len(), 4);
    assert_eq!(generator.nodes().get(1).unwrap().positions, vec![(1, 0), (1, 1)]);
    assert_eq!(generator.nodes().get(2).unwrap().positions, vec![(0, 1), (1, 1)]);
    assert_eq!(generator.nodes().get(3).unwrap().positions, vec![(0, 0), (0, 1)]);
    let edges: Vec<(usize, usize)> = generator.edges().iter().copied().collect();
    assert_eq!(edges, vec![(0, 1), (0, 2), (0, 3)]);
    assert_eq!(generator.queue_len(), 4);
    generator.visit_node(0);
    assert_eq!(generator.nodes().len(), 4);
    assert_eq!(generator.edges().len(), 3);
    assert_eq!(generator.queue_len(), 4);
}

#[test]
fn enqueue_configuration_interns_and_records() {
    let mut nodes = BidirectionalList::default();
    let mut queue = Vec::new();
    let mut edges = BTreeSet::new();
    nodes.push(GameConfiguration { positions: vec![(0, 0)] });
    nodes.push(GameConfiguration { positions: vec![(1, 0)] });
    GraphGenerator::enqueue_configuration(
        &mut nodes,
        &mut queue,
        &mut edges,
        GameConfiguration { positions: vec![(2, 0)] },
        1,
    );
    assert_eq!(nodes.len(), 3);
    assert_eq!(queue, vec![2]);
    assert_eq!(edges.iter().copied().collect::<Vec<_>>(), vec![(1, 2)]);
    GraphGenerator::enqueue_configuration(
        &mut nodes,
        &mut queue,
        &mut edges,
        GameConfiguration { positions: vec![(0, 0)] },
        1,
    );
    assert_eq!(nodes.len(), 3);
    assert_eq!(queue, vec![2]);
    assert_eq!(edges.iter().copied().collect::<Vec<_>>(), vec![(0, 1), (1, 2)]);
    GraphGenerator::enqueue_configuration(
        &mut nodes,
        &mut queue,
        &mut edges,
        GameConfiguration { positions: vec![(2, 0)] },
        1,
    );
    assert_eq!(nodes.len(), 3);
    assert_eq!(queue, vec![2]);
    assert_eq!(edges.len(), 2);
}

#[test]
fn as_configuration_lists_the_initial_positions() {
    let game = puzzle(
        (4, 5),
        vec![
            piece((2, 2), (1, 0), (true, true)),
            piece((1, 2), (0, 0), (true, true)),
            piece((1, 1), (3, 4), (true, true)),
        ],
    );
    assert_eq!(game.as_configuration().positions, vec![(1, 0), (0, 0), (3, 4)]);
    assert_eq!(puzzle((1, 1), vec![]).as_configuration().positions, vec![]);
}

#[test]
fn puzzle_without_pieces_has_one_configuration() {
    let (nodes, edges) = solve(puzzle((2, 2), vec![]));
    assert_eq!(nodes, vec![vec![]]);
    assert_eq!(edges, vec![]);
}

fn sample_puzzle() -> GameSpecification {
    let free = (true, true);
    puzzle(
        (4, 5),
        vec![
            piece((2, 2), (1, 0), free),
            piece((1, 2), (0, 0), free),
            piece((1, 2), (3, 0), free),
            piece((1, 2), (0, 2), free),
            piece((1, 2), (3, 2), free),
            piece((2, 1), (1, 2), free),
            piece((1, 1), (1, 3), free),
            piece((1, 1), (2, 3), free),
            piece((1, 1), (0, 4), free),
            piece((1, 1), (3, 4), free),
        ],
    )
}

#[test]
fn sample_puzzle_takes_eighteen_cells() {
    let game = sample_puzzle();
    assert_eq!(game.validate(), Ok(()));
    let mut board = GameBoard::new(game.dimensions);
    board.fill(&game, &game.as_configuration());
    assert_eq!(board.count_taken(), 18);
    assert_eq!(board.render(), "XXXX\nXXXX\nXXXX\nXXXX\nX..X\n");
}

#[test]
fn sample_puzzle_first_visit() {
    let mut generator = GraphGenerator::new(sample_puzzle());
    assert_eq!(generator.step(), Some(0));
    assert_eq!(generator.nodes().len(), 5);
    let start = sample_puzzle().as_configuration().positions;
    let moved = |piece: usize, to: (usize, usize)| {
        let mut positions = start.clone();
        positions[piece] = to;
        positions
    };
    assert_eq!(generator.nodes().get(1).unwrap().positions, moved(6, (1, 4)));
    assert_eq!(generator.nodes().get(2).unwrap().positions, moved(7, (2, 4)));
    assert_eq!(generator.nodes().get(3).unwrap().positions, moved(8, (1, 4)));
    assert_eq!(generator.nodes().get(4).unwrap().positions, moved(9, (2, 4)));
    let edges: Vec<(usize, usize)> = generator.edges().iter().copied().collect();
    assert_eq!(edges, vec![(0, 1), (0, 2), (0, 3), (0, 4)]);
    assert_eq!(generator.queue_len(), 4);
    assert_eq!(generator.visited_count(), 1);
}

#[test]
fn sample_puzzle_keeps_its_area_while_it_is_searched() {
    let game = sample_puzzle();
    let mut generator = GraphGenerator::new(sample_puzzle());
    for _ in 0..2000 {
        assert!(generator.step().is_some());
    }
    let mut board = GameBoard::new(game.dimensions);
    for id in 0..generator.nodes().len() {
        board.fill(&game, generator.nodes().get(id).unwrap());
        assert_eq!(board.count_taken(), 18);
    }
    assert_eq!(generator.visited_count() + generator.queue_len(), generator.nodes().len());
    assert_eq!(generator.visited_count(), 2000);
}
