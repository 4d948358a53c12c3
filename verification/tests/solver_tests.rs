use escape_puzzle::game::Game;
use escape_puzzle::solver::solve;

#[test]
fn can_solve_easy_game() {
    let game = Game::array_to_game(
        vec![
            vec![0, 0, 0, 0, 0, 0],
            vec![0, 0, 0, 0, 2, 0],
            vec![0, 0, 1, 1, 2, 3],
            vec![0, 0, 0, 0, 2, 3],
            vec![0, 0, 0, 0, 0, 3],
            vec![0, 0, 0, 0, 0, 0],
        ],
        true,
        Vec::new(),
        Vec::new(),
    )
    .unwrap();

    let solved_game = solve(&game).unwrap();

    assert_eq!(
        solved_game.board.matrix,
        vec![
            vec![0, 0, 0, 0, 0, 0],
            vec![0, 0, 0, 0, 0, 0],
            vec![0, 0, 1, 1, 0, 0],
            vec![0, 0, 0, 0, 2, 3],
            vec![0, 0, 0, 0, 2, 3],
            vec![0, 0, 0, 0, 2, 3],
        ]
    );
}

#[test]
fn can_not_solve_game_with_reversed_piece() {
    let game = Game::array_to_game(
        vec![
            vec![0, 0, 0, 0, 0, 0],
            vec![0, 0, 0, 0, 0, 0],
            vec![1, 1, 0, 0, 0, 2],
            vec![0, 0, 0, 0, 0, 2],
            vec![0, 0, 0, 0, 0, 0],
            vec![0, 0, 0, 0, 0, 0],
        ],
        true,
        Vec::new(),
        vec![2],
    )
    .unwrap();

    assert_eq!(solve(&game).is_none(), true);
}

#[test]
fn can_solve_game_with_reversed_piece() {
    let game = Game::array_to_game(
        vec![
            vec![0, 0, 0, 0, 0, 0],
            vec![0, 0, 0, 0, 0, 0],
            vec![1, 1, 0, 0, 2, 2],
            vec![0, 0, 0, 0, 0, 0],
            vec![0, 0, 0, 0, 0, 0],
            vec![0, 0, 0, 0, 0, 0],
        ],
        true,
        Vec::new(),
        vec![2],
    )
    .unwrap();

    let solved_game = solve(&game).unwrap();

    assert_eq!(
        solved_game.board.matrix,
        vec![
            vec![0, 0, 0, 0, 0, 0],
            vec![0, 0, 0, 0, 0, 0],
            vec![1, 1, 0, 0, 0, 0],
            vec![0, 0, 0, 0, 2, 2],
            vec![0, 0, 0, 0, 0, 0],
            vec![0, 0, 0, 0, 0, 0],
        ]
    );
}

#[test]
fn can_not_solve_game_with_disabled_piece() {
    let game = Game::array_to_game(
        vec![
            vec![0, 0, 0, 0, 0, 0],
            vec![0, 0, 0, 0, 0, 0],
            vec![1, 1, 0, 0, 0, 2],
            vec![0, 0, 0, 0, 0, 2],
            vec![0, 0, 0, 0, 0, 0],
            vec![0, 0, 0, 0, 0, 0],
        ],
        true,
        vec![2],
        Vec::new(),
    )
    .unwrap();

    assert_eq!(solve(&game).is_none(), true);
}

#[test]
fn can_solve_game_with_disabled_piece() {
    let game = Game::array_to_game(
        vec![
            vec![0, 0, 0, 0, 4, 0],
            vec![0, 0, 0, 0, 4, 0],
            vec![1, 1, 0, 0, 0, 2],
            vec![0, 3, 3, 3, 0, 2],
            vec![0, 0, 0, 0, 0, 0],
            vec![0, 0, 0, 0, 0, 0],
        ],
        true,
        vec![3, 4],
        Vec::new(),
    )
    .unwrap();

    let solved_game = solve(&game).unwrap();

    assert_eq!(
        solved_game.board.matrix,
        vec![
            vec![0, 0, 0, 0, 4, 0],
            vec![0, 0, 0, 0, 4, 0],
            vec![1, 1, 0, 0, 0, 0],
            vec![0, 3, 3, 3, 0, 2],
            vec![0, 0, 0, 0, 0, 2],
            vec![0, 0, 0, 0, 0, 0],
        ]
    );
}

#[test]
fn can_medium_game() {
    let game = Game::array_to_game(
        vec![
            vec![2, 0, 0, 4, 0, 5],
            vec![2, 3, 3, 4, 0, 5],
            vec![2, 0, 1, 1, 10, 0],
            vec![6, 6, 6, 0, 10, 11],
            vec![0, 0, 8, 0, 10, 11],
            vec![7, 7, 8, 9, 9, 0],
        ],
        true,
        Vec::new(),
        Vec::new(),
    )
    .unwrap();

    let solved_game = solve(&game).unwrap();

    assert_eq!(
        solved_game.board.matrix,
        vec![
            vec![0, 0, 8, 4, 0, 5],
            vec![3, 3, 8, 4, 0, 5],
            vec![2, 1, 1, 0, 0, 0],
            vec![2, 6, 6, 6, 10, 0],
            vec![2, 0, 0, 0, 10, 11],
            vec![7, 7, 9, 9, 10, 11],
        ]
    );
}

#[test]
fn can_solve_tricky_game() {
    let game = Game::array_to_game(
        vec![
            vec![2, 3, 3, 0, 5, 6],
            vec![2, 0, 4, 0, 5, 6],
            vec![0, 0, 4, 1, 1, 7],
            vec![11, 11, 10, 9, 0, 7],
            vec![0, 0, 10, 9, 8, 8],
            vec![12, 12, 12, 9, 0, 0],
        ],
        true,
        Vec::new(),
        Vec::new(),
    )
    .unwrap();

    let solved_game = solve(&game).unwrap();

    assert_eq!(
        solved_game.board.matrix,
        vec![
            vec![2, 0, 4, 3, 3, 6],
            vec![2, 0, 4, 0, 0, 6],
            vec![1, 1, 0, 0, 0, 0],
            vec![11, 11, 10, 9, 5, 7],
            vec![8, 8, 10, 9, 5, 7],
            vec![12, 12, 12, 9, 0, 0],
        ]
    );
}
