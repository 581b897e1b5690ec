use slide_graph::board::GameBoard;
use slide_graph::game::{GameConfiguration, GameSpecification, GoalSpecification, PieceSpecification};
use slide_graph::reachability::count_reachable;

fn piece(size: (usize, usize), position: (usize, usize), moves: (bool, bool)) -> PieceSpecification {
    PieceSpecification { size, position, moves }
}

fn puzzle(dimensions: (usize, usize), pieces: Vec<PieceSpecification>) -> GameSpecification {
    GameSpecification { dimensions, pieces, goal: GoalSpecification::Position((0, 0)) }
}

fn neighbors_at(game: &GameSpecification, positions: &[(usize, usize)]) -> Vec<Vec<(usize, usize)>> {
    let mut board = GameBoard::new(game.dimensions);
    let found = game.neighbors(&mut board, &GameConfiguration { positions: positions.to_vec() });
    found.into_iter().map(|configuration| configuration.positions).collect()
}

#[test]
fn neighbors_come_in_the_order_left_right_up_down() {
    let game = puzzle((3, 3), vec![piece((1, 1), (1, 1), (true, true))]);
    assert_eq!(
        neighbors_at(&game, &[(1, 1)]),
        vec![vec![(0, 1)], vec![(2, 1)], vec![(1, 0)], vec![(1, 2)]]
    );
}

#[test]
fn neighbors_come_piece_by_piece() {
    let game = puzzle(
        (4, 2),
        vec![piece((1, 1), (3, 1), (true, true)), piece((1, 1), (0, 0), (true, true))],
    );
    assert_eq!(
        neighbors_at(&game, &[(3, 1), (0, 0)]),
        vec![
            vec![(2, 1), (0, 0)],
            vec![(3, 0), (0, 0)],
            vec![(3, 1), (1, 0)],
            vec![(3, 1), (0, 1)],
        ]
    );
}

#[test]
fn neighbors_move_one_piece_by_one_cell() {
    let game = puzzle(
        (5, 5),
        vec![piece((2, 2), (0, 0), (true, true)), piece((1, 3), (3, 1), (true, true))],
    );
    let from = vec![(1, 1), (3, 1)];
    let found = neighbors_at(&game, &from);
    assert_eq!(
        found,
        vec![
            vec![(0, 1), (3, 1)],
            vec![(1, 0), (3, 1)],
            vec![(1, 2), (3, 1)],
            vec![(1, 1), (4, 1)],
            vec![(1, 1), (3, 0)],
            vec![(1, 1), (3, 2)],
        ]
    );
}

#[test]
fn neighbors_use_the_given_configuration() {
    let game = puzzle(
        (3, 1),
        vec![piece((1, 1), (0, 0), (true, false)), piece((1, 1), (1, 0), (true, false))],
    );
    assert_eq!(neighbors_at(&game, &[(0, 0), (1, 0)]), vec![vec![(0, 0), (2, 0)]]);
    assert_eq!(neighbors_at(&game, &[(0, 0), (2, 0)]), vec![vec![(1, 0), (2, 0)], vec![(0, 0), (1, 0)]]);
    assert_eq!(neighbors_at(&game, &[(1, 0), (2, 0)]), vec![vec![(0, 0), (2, 0)]]);
}

#[test]
fn neighbors_leave_the_board_showing_the_configuration() {
    let game = puzzle(
        (3, 2),
        vec![piece((2, 1), (0, 0), (true, true)), piece((1, 1), (2, 1), (false, false))],
    );
    let mut board = GameBoard::new((3, 2));
    board.place(&piece((3, 2), (0, 0), (false, false)), (0, 0));
    let found = game.neighbors(&mut board, &GameConfiguration { positions: vec![(1, 0), (2, 1)] });
    assert_eq!(board.render(), ".XX\n..X\n");
    assert_eq!(found.len(), 1);
    assert_eq!(found[0].positions, vec![(0, 0), (2, 1)]);
}

#[test]
fn piece_that_may_not_move_has_no_neighbors() {
    let game = puzzle((3, 3), vec![piece((1, 1), (1, 1), (false, false))]);
    assert_eq!(neighbors_at(&game, &[(1, 1)]), Vec::<Vec<(usize, usize)>>::new());
}

#[test]
fn a_strip_that_is_partly_taken_blocks_the_slide() {
    let game = puzzle(
        (3, 3),
        vec![piece((1, 3), (0, 0), (true, false)), piece((1, 1), (1, 2), (false, false))],
    );
    assert_eq!(neighbors_at(&game, &[(0, 0), (1, 2)]), Vec::<Vec<(usize, usize)>>::new());
    assert_eq!(neighbors_at(&game, &[(0, 0), (2, 2)]), vec![vec![(1, 0), (2, 2)]]);
}

#[test]
fn count_reachable_on_small_puzzles() {
    assert_eq!(count_reachable(&puzzle((1, 1), vec![piece((1, 1), (0, 0), (false, false))])), 1);
    assert_eq!(count_reachable(&puzzle((3, 1), vec![piece((1, 1), (0, 0), (true, false))])), 3);
    assert_eq!(
        count_reachable(&puzzle(
            (2, 1),
            vec![piece((1, 1), (0, 0), (true, false)), piece((1, 1), (1, 0), (true, false))],
        )),
        1
    );
    assert_eq!(
        count_reachable(&puzzle(
            (3, 1),
            vec![piece((1, 1), (0, 0), (true, false)), piece((1, 1), (1, 0), (true, false))],
        )),
        3
    );
    assert_eq!(count_reachable(&puzzle((4, 5), vec![piece((2, 2), (1, 0), (true, true))])), 12);
    assert_eq!(count_reachable(&puzzle((2, 2), vec![])), 1);
}

#[test]
fn count_reachable_of_two_free_pieces() {
    let game = puzzle(
        (3, 3),
        vec![piece((1, 1), (0, 0), (true, true)), piece((1, 1), (2, 2), (true, true))],
    );
    assert_eq!(count_reachable(&game), 72);
}
