use escape_puzzle::game::{Game, Piece, Point};

#[test]
fn array_to_game() {
    let prisoner = Piece::new(Point { x: 2, y: 2 }, Point { x: 3, y: 2 });
    let exit = true;
    let mut game = Game::new(6, 6, prisoner, exit);
    game.add(Piece::new(Point { x: 0, y: 0 }, Point { x: 0, y: 2 }), false, false);
    game.add(Piece::new(Point { x: 1, y: 1 }, Point { x: 2, y: 1 }), false, false);
    game.add(Piece::new(Point { x: 3, y: 0 }, Point { x: 3, y: 1 }), false, false);
    game.add(Piece::new(Point { x: 5, y: 0 }, Point { x: 5, y: 1 }), false, false);
    game.add(Piece::new(Point { x: 0, y: 3 }, Point { x: 2, y: 3 }), false, false);
    game.add(Piece::new(Point { x: 0, y: 5 }, Point { x: 1, y: 5 }), false, false);
    game.add(Piece::new(Point { x: 2, y: 4 }, Point { x: 2, y: 5 }), false, false);
    game.add(Piece::new(Point { x: 3, y: 5 }, Point { x: 4, y: 5 }), false, false);
    game.add(Piece::new(Point { x: 4, y: 2 }, Point { x: 4, y: 4 }), false, false);
    game.add(Piece::new(Point { x: 5, y: 3 }, Point { x: 5, y: 4 }), false, false);
    game.add(Piece::new(Point { x: 4, y: 0 }, Point { x: 4, y: 0 }), false, false);

    let converted_game = Game::array_to_game(
        vec![
            vec![2, 0, 0, 4, 12, 5],
            vec![2, 3, 3, 4, 0, 5],
            vec![2, 0, 1, 1, 10, 0],
            vec![6, 6, 6, 0, 10, 11],
            vec![0, 0, 8, 0, 10, 11],
            vec![7, 7, 8, 9, 9, 0],
        ],
        true,
        Vec::new(),
        Vec::new(),
    )
    .unwrap();

    assert_eq!(game.board.matrix, converted_game.board.matrix);
}

#[test]
fn string_to_game() {
    let converted_game = Game::string_to_game(
        "[[2, 0, 0, 4, 12, 5],
            [2, 3, 3, 4, 0, 5],
            [2, 0, 1, 1, 10, 0],
            [6, 6, 6, 0, 10, 11],
            [0, 0, 8, 0, 10, 11],
            [7, 7, 8, 9, 9, 0]]",
        true,
    )
    .unwrap();

    assert_eq!(
        converted_game.board.matrix,
        [
            [2, 0, 0, 4, 12, 5],
            [2, 3, 3, 4, 0, 5],
            [2, 0, 1, 1, 10, 0],
            [6, 6, 6, 0, 10, 11],
            [0, 0, 8, 0, 10, 11],
            [7, 7, 8, 9, 9, 0]
        ]
    );
}

#[test]
fn can_move_right() {
    let mut game = Game::array_to_game(
        vec![
            vec![0, 0, 0, 0, 0, 0],
            vec![0, 0, 0, 0, 0, 0],
            vec![1, 1, 0, 0, 0, 0],
            vec![0, 0, 0, 0, 0, 0],
            vec![0, 0, 0, 0, 0, 0],
            vec![0, 0, 0, 0, 0, 0],
        ],
        true,
        Vec::new(),
        Vec::new(),
    )
    .unwrap();
    assert_eq!(game.move_piece(0, true, 4), true);
    assert_eq!(
        game.board.matrix,
        vec![
            vec![0, 0, 0, 0, 0, 0],
            vec![0, 0, 0, 0, 0, 0],
            vec![0, 0, 0, 0, 1, 1],
            vec![0, 0, 0, 0, 0, 0],
            vec![0, 0, 0, 0, 0, 0],
            vec![0, 0, 0, 0, 0, 0],
        ]
    );

    let mut game = Game::array_to_game(
        vec![
            vec![0, 0, 0, 0, 0, 0],
            vec![0, 0, 0, 0, 0, 0],
            vec![0, 0, 0, 1, 1, 0],
            vec![0, 0, 0, 0, 0, 0],
            vec![0, 0, 0, 0, 0, 0],
            vec![0, 0, 0, 0, 0, 0],
        ],
        true,
        Vec::new(),
        Vec::new(),
    )
    .unwrap();
    assert_eq!(game.move_piece(0, true, 1), true);
    assert_eq!(
        game.board.matrix,
        vec![
            vec![0, 0, 0, 0, 0, 0],
            vec![0, 0, 0, 0, 0, 0],
            vec![0, 0, 0, 0, 1, 1],
            vec![0, 0, 0, 0, 0, 0],
            vec![0, 0, 0, 0, 0, 0],
            vec![0, 0, 0, 0, 0, 0],
        ]
    );
}

#[test]
fn can_not_move_right() {
    let mut game = Game::array_to_game(
        vec![
            vec![0, 0, 0, 0, 0, 0],
            vec![0, 0, 0, 0, 0, 0],
            vec![0, 0, 1, 1, 2, 0],
            vec![0, 0, 0, 0, 2, 0],
            vec![0, 0, 0, 0, 0, 0],
            vec![0, 0, 0, 0, 0, 0],
        ],
        true,
        Vec::new(),
        Vec::new(),
    )
    .unwrap();
    assert_eq!(game.move_piece(0, true, 2), false);

    let mut game = Game::array_to_game(
        vec![
            vec![0, 0, 0, 0, 0, 0],
            vec![0, 0, 0, 0, 0, 0],
            vec![0, 0, 0, 1, 1, 0],
            vec![0, 0, 0, 0, 0, 0],
            vec![0, 0, 0, 0, 0, 0],
            vec![0, 0, 0, 0, 0, 0],
        ],
        true,
        Vec::new(),
        Vec::new(),
    )
    .unwrap();
    assert_eq!(game.move_piece(0, true, 2), false);

    let mut game = Game::array_to_game(
        vec![
            vec![0, 0, 0, 0, 0, 0],
            vec![0, 0, 0, 0, 0, 0],
            vec![0, 0, 0, 0, 1, 1],
            vec![0, 0, 0, 0, 0, 0],
            vec![0, 0, 0, 0, 0, 0],
            vec![0, 0, 0, 0, 0, 0],
        ],
        true,
        Vec::new(),
        Vec::new(),
    )
    .unwrap();
    assert_eq!(game.move_piece(0, true, 1), false);

    let mut game = Game::array_to_game(
        vec![
            vec![0, 0, 0, 0, 0, 0],
            vec![0, 0, 0, 0, 0, 0],
            vec![0, 0, 1, 1, 0, 2],
            vec![0, 0, 0, 0, 0, 2],
            vec![0, 0, 0, 0, 0, 0],
            vec![0, 0, 0, 0, 0, 0],
        ],
        true,
        Vec::new(),
        Vec::new(),
    )
    .unwrap();
    assert_eq!(game.move_piece(0, true, 2), false);
}

#[test]
fn can_move_left() {
    let mut game = Game::array_to_game(
        vec![
            vec![0, 0, 0, 0, 0, 0],
            vec![0, 0, 0, 0, 0, 0],
            vec![0, 0, 0, 0, 1, 1],
            vec![0, 0, 0, 0, 0, 0],
            vec![0, 0, 0, 0, 0, 0],
            vec![0, 0, 0, 0, 0, 0],
        ],
        true,
        Vec::new(),
        Vec::new(),
    )
    .unwrap();
    assert_eq!(game.move_piece(0, false, 4), true);
    assert_eq!(
        game.board.matrix,
        vec![
            vec![0, 0, 0, 0, 0, 0],
            vec![0, 0, 0, 0, 0, 0],
            vec![1, 1, 0, 0, 0, 0],
            vec![0, 0, 0, 0, 0, 0],
            vec![0, 0, 0, 0, 0, 0],
            vec![0, 0, 0, 0, 0, 0],
        ]
    );

    let mut game = Game::array_to_game(
        vec![
            vec![0, 0, 0, 0, 0, 0],
            vec![0, 0, 0, 0, 0, 0],
            vec![0, 1, 1, 0, 0, 0],
            vec![0, 0, 0, 0, 0, 0],
            vec![0, 0, 0, 0, 0, 0],
            vec![0, 0, 0, 0, 0, 0],
        ],
        true,
        Vec::new(),
        Vec::new(),
    )
    .unwrap();
    assert_eq!(game.move_piece(0, false, 1), true);
    assert_eq!(
        game.board.matrix,
        vec![
            vec![0, 0, 0, 0, 0, 0],
            vec![0, 0, 0, 0, 0, 0],
            vec![1, 1, 0, 0, 0, 0],
            vec![0, 0, 0, 0, 0, 0],
            vec![0, 0, 0, 0, 0, 0],
            vec![0, 0, 0, 0, 0, 0],
        ]
    );
}

#[test]
fn can_not_move_left() {
    let mut game = Game::array_to_game(
        vec![
            vec![0, 0, 0, 0, 0, 0],
            vec![0, 0, 0, 0, 0, 0],
            vec![0, 2, 1, 1, 0, 0],
            vec![0, 2, 0, 0, 0, 0],
            vec![0, 0, 0, 0, 0, 0],
            vec![0, 0, 0, 0, 0, 0],
        ],
        true,
        Vec::new(),
        Vec::new(),
    )
    .unwrap();
    assert_eq!(game.move_piece(0, false, 2), false);

    let mut game = Game::array_to_game(
        vec![
            vec![0, 0, 0, 0, 0, 0],
            vec![0, 0, 0, 0, 0, 0],
            vec![0, 1, 1, 0, 0, 0],
            vec![0, 0, 0, 0, 0, 0],
            vec![0, 0, 0, 0, 0, 0],
            vec![0, 0, 0, 0, 0, 0],
        ],
        true,
        Vec::new(),
        Vec::new(),
    )
    .unwrap();
    assert_eq!(game.move_piece(0, false, 2), false);

    let mut game = Game::array_to_game(
        vec![
            vec![0, 0, 0, 0, 0, 0],
            vec![0, 0, 0, 0, 0, 0],
            vec![1, 1, 0, 0, 0, 0],
            vec![0, 0, 0, 0, 0, 0],
            vec![0, 0, 0, 0, 0, 0],
            vec![0, 0, 0, 0, 0, 0],
        ],
        true,
        Vec::new(),
        Vec::new(),
    )
    .unwrap();
    assert_eq!(game.move_piece(0, false, 1), false);

    let mut game = Game::array_to_game(
        vec![
            vec![0, 0, 0, 0, 0, 0],
            vec![0, 0, 0, 0, 0, 0],
            vec![2, 0, 1, 1, 0, 0],
            vec![2, 0, 0, 0, 0, 0],
            vec![0, 0, 0, 0, 0, 0],
            vec![0, 0, 0, 0, 0, 0],
        ],
        true,
        Vec::new(),
        Vec::new(),
    )
    .unwrap();
    assert_eq!(game.move_piece(0, false, 2), false);
}

#[test]
fn can_move_down() {
    let mut game = Game::array_to_game(
        vec![
            vec![0, 0, 1, 0, 0, 0],
            vec![0, 0, 1, 0, 0, 0],
            vec![0, 0, 0, 0, 0, 0],
            vec![0, 0, 0, 0, 0, 0],
            vec![0, 0, 0, 0, 0, 0],
            vec![0, 0, 0, 0, 0, 0],
        ],
        true,
        Vec::new(),
        Vec::new(),
    )
    .unwrap();
    assert_eq!(game.move_piece(0, true, 4), true);
    assert_eq!(
        game.board.matrix,
        vec![
            vec![0, 0, 0, 0, 0, 0],
            vec![0, 0, 0, 0, 0, 0],
            vec![0, 0, 0, 0, 0, 0],
            vec![0, 0, 0, 0, 0, 0],
            vec![0, 0, 1, 0, 0, 0],
            vec![0, 0, 1, 0, 0, 0],
        ]
    );

    let mut game = Game::array_to_game(
        vec![
            vec![0, 0, 0, 0, 0, 0],
            vec![0, 0, 0, 0, 0, 0],
            vec![0, 0, 0, 0, 0, 0],
            vec![0, 0, 1, 0, 0, 0],
            vec![0, 0, 1, 0, 0, 0],
            vec![0, 0, 0, 0, 0, 0],
        ],
        true,
        Vec::new(),
        Vec::new(),
    )
    .unwrap();
    assert_eq!(game.move_piece(0, true, 1), true);
    assert_eq!(
        game.board.matrix,
        vec![
            vec![0, 0, 0, 0, 0, 0],
            vec![0, 0, 0, 0, 0, 0],
            vec![0, 0, 0, 0, 0, 0],
            vec![0, 0, 0, 0, 0, 0],
            vec![0, 0, 1, 0, 0, 0],
            vec![0, 0, 1, 0, 0, 0],
        ]
    );
}

#[test]
fn can_not_move_down() {
    let mut game = Game::array_to_game(
        vec![
            vec![0, 0, 0, 0, 0, 0],
            vec![0, 0, 0, 0, 0, 0],
            vec![0, 0, 1, 0, 0, 0],
            vec![0, 0, 1, 0, 0, 0],
            vec![0, 0, 2, 2, 0, 0],
            vec![0, 0, 0, 0, 0, 0],
        ],
        true,
        Vec::new(),
        Vec::new(),
    )
    .unwrap();
    assert_eq!(game.move_piece(0, true, 2), false);

    let mut game = Game::array_to_game(
        vec![
            vec![0, 0, 0, 0, 0, 0],
            vec![0, 0, 0, 0, 0, 0],
            vec![0, 0, 0, 0, 0, 0],
            vec![0, 0, 1, 0, 0, 0],
            vec![0, 0, 1, 0, 0, 0],
            vec![0, 0, 0, 0, 0, 0],
        ],
        true,
        Vec::new(),
        Vec::new(),
    )
    .unwrap();
    assert_eq!(game.move_piece(0, true, 2), false);

    let mut game = Game::array_to_game(
        vec![
            vec![0, 0, 0, 0, 0, 0],
            vec![0, 0, 0, 0, 0, 0],
            vec![0, 0, 0, 0, 0, 0],
            vec![0, 0, 0, 0, 0, 0],
            vec![0, 0, 1, 0, 0, 0],
            vec![0, 0, 1, 0, 0, 0],
        ],
        true,
        Vec::new(),
        Vec::new(),
    )
    .unwrap();
    assert_eq!(game.move_piece(0, true, 1), false);

    let mut game = Game::array_to_game(
        vec![
            vec![0, 0, 0, 0, 0, 0],
            vec![0, 0, 0, 0, 0, 0],
            vec![0, 0, 1, 0, 0, 0],
            vec![0, 0, 1, 0, 0, 0],
            vec![0, 0, 0, 0, 0, 0],
            vec![0, 0, 2, 2, 0, 0],
        ],
        true,
        Vec::new(),
        Vec::new(),
    )
    .unwrap();
    assert_eq!(game.move_piece(0, true, 2), false);
}

#[test]
fn can_move_up() {
    let mut game = Game::array_to_game(
        vec![
            vec![0, 0, 0, 0, 0, 0],
            vec![0, 0, 0, 0, 0, 0],
            vec![0, 0, 0, 0, 0, 0],
            vec![0, 0, 0, 0, 0, 0],
            vec![0, 0, 1, 0, 0, 0],
            vec![0, 0, 1, 0, 0, 0],
        ],
        true,
        Vec::new(),
        Vec::new(),
    )
    .unwrap();
    assert_eq!(game.move_piece(0, false, 4), true);
    assert_eq!(
        game.board.matrix,
        vec![
            vec![0, 0, 1, 0, 0, 0],
            vec![0, 0, 1, 0, 0, 0],
            vec![0, 0, 0, 0, 0, 0],
            vec![0, 0, 0, 0, 0, 0],
            vec![0, 0, 0, 0, 0, 0],
            vec![0, 0, 0, 0, 0, 0],
        ]
    );

    let mut game = Game::array_to_game(
        vec![
            vec![0, 0, 0, 0, 0, 0],
            vec![0, 0, 1, 0, 0, 0],
            vec![0, 0, 1, 0, 0, 0],
            vec![0, 0, 0, 0, 0, 0],
            vec![0, 0, 0, 0, 0, 0],
            vec![0, 0, 0, 0, 0, 0],
        ],
        true,
        Vec::new(),
        Vec::new(),
    )
    .unwrap();
    assert_eq!(game.move_piece(0, false, 1), true);
    assert_eq!(
        game.board.matrix,
        vec![
            vec![0, 0, 1, 0, 0, 0],
            vec![0, 0, 1, 0, 0, 0],
            vec![0, 0, 0, 0, 0, 0],
            vec![0, 0, 0, 0, 0, 0],
            vec![0, 0, 0, 0, 0, 0],
            vec![0, 0, 0, 0, 0, 0],
        ]
    );
}

#[test]
fn can_not_move_up() {
    let mut game = Game::array_to_game(
        vec![
            vec![0, 0, 0, 0, 0, 0],
            vec![0, 0, 2, 2, 0, 0],
            vec![0, 0, 1, 0, 0, 0],
            vec![0, 0, 1, 0, 0, 0],
            vec![0, 0, 0, 0, 0, 0],
            vec![0, 0, 0, 0, 0, 0],
        ],
        true,
        Vec::new(),
        Vec::new(),
    )
    .unwrap();
    assert_eq!(game.move_piece(0, false, 2), false);

    let mut game = Game::array_to_game(
        vec![
            vec![0, 0, 0, 0, 0, 0],
            vec![0, 0, 1, 0, 0, 0],
            vec![0, 0, 1, 0, 0, 0],
            vec![0, 0, 0, 0, 0, 0],
            vec![0, 0, 0, 0, 0, 0],
            vec![0, 0, 0, 0, 0, 0],
        ],
        true,
        Vec::new(),
        Vec::new(),
    )
    .unwrap();
    assert_eq!(game.move_piece(0, false, 2), false);

    let mut game = Game::array_to_game(
        vec![
            vec![0, 0, 1, 0, 0, 0],
            vec![0, 0, 1, 0, 0, 0],
            vec![0, 0, 0, 0, 0, 0],
            vec![0, 0, 0, 0, 0, 0],
            vec![0, 0, 0, 0, 0, 0],
            vec![0, 0, 0, 0, 0, 0],
        ],
        true,
        Vec::new(),
        Vec::new(),
    )
    .unwrap();
    assert_eq!(game.move_piece(0, false, 1), false);

    let mut game = Game::array_to_game(
        vec![
            vec![0, 0, 2, 2, 0, 0],
            vec![0, 0, 0, 0, 0, 0],
            vec![0, 0, 1, 0, 0, 0],
            vec![0, 0, 1, 0, 0, 0],
            vec![0, 0, 0, 0, 0, 0],
            vec![0, 0, 0, 0, 0, 0],
        ],
        true,
        Vec::new(),
        Vec::new(),
    )
    .unwrap();
    assert_eq!(game.move_piece(0, false, 2), false);
}

#[test]
fn can_exit_right() {
    let game = Game::array_to_game(
        vec![
            vec![0, 3, 0, 0, 0, 0],
            vec![0, 3, 0, 0, 0, 0],
            vec![4, 1, 1, 0, 0, 0],
            vec![0, 2, 0, 0, 0, 0],
            vec![0, 2, 0, 0, 0, 0],
            vec![0, 0, 0, 0, 0, 0],
        ],
        true,
        Vec::new(),
        Vec::new(),
    )
    .unwrap();
    assert_eq!(game.can_exit(), true);

    let game = Game::array_to_game(
        vec![
            vec![0, 3, 0, 0, 0, 0],
            vec![0, 3, 0, 0, 0, 0],
            vec![4, 0, 0, 0, 1, 1],
            vec![0, 2, 0, 0, 0, 0],
            vec![0, 2, 0, 0, 0, 0],
            vec![0, 0, 0, 0, 0, 0],
        ],
        true,
        Vec::new(),
        Vec::new(),
    )
    .unwrap();
    assert_eq!(game.can_exit(), true);
}

#[test]
fn can_exit_left() {
    let game = Game::array_to_game(
        vec![
            vec![0, 3, 0, 0, 0, 0],
            vec![0, 3, 0, 0, 0, 0],
            vec![0, 0, 0, 1, 1, 4],
            vec![0, 2, 0, 0, 0, 0],
            vec![0, 2, 0, 0, 0, 0],
            vec![0, 0, 0, 0, 0, 0],
        ],
        false,
        Vec::new(),
        Vec::new(),
    )
    .unwrap();
    assert_eq!(game.can_exit(), true);

    let game = Game::array_to_game(
        vec![
            vec![0, 3, 0, 0, 0, 0],
            vec![0, 3, 0, 0, 0, 0],
            vec![1, 1, 0, 0, 4, 4],
            vec![0, 2, 0, 0, 0, 0],
            vec![0, 2, 0, 0, 0, 0],
            vec![0, 0, 0, 0, 0, 0],
        ],
        false,
        Vec::new(),
        Vec::new(),
    )
    .unwrap();
    assert_eq!(game.can_exit(), true);
}

#[test]
fn can_exit_down() {
    let game = Game::array_to_game(
        vec![
            vec![0, 0, 0, 0, 0, 0],
            vec![0, 0, 2, 2, 0, 0],
            vec![0, 4, 1, 3, 0, 0],
            vec![0, 4, 1, 3, 0, 0],
            vec![6, 6, 0, 0, 0, 0],
            vec![0, 0, 0, 5, 5, 0],
        ],
        true,
        Vec::new(),
        Vec::new(),
    )
    .unwrap();
    assert_eq!(game.can_exit(), true);

    let game = Game::array_to_game(
        vec![
            vec![0, 0, 0, 0, 0, 0],
            vec![0, 0, 2, 2, 0, 0],
            vec![0, 4, 0, 3, 0, 0],
            vec![0, 4, 0, 3, 0, 0],
            vec![6, 6, 1, 0, 0, 0],
            vec![0, 0, 1, 5, 5, 0],
        ],
        true,
        Vec::new(),
        Vec::new(),
    )
    .unwrap();
    assert_eq!(game.can_exit(), true);
}

#[test]
fn can_exit_up() {
    let game = Game::array_to_game(
        vec![
            vec![0, 0, 0, 0, 0, 0],
            vec![0, 0, 0, 0, 0, 0],
            vec![0, 4, 1, 3, 0, 0],
            vec![0, 4, 1, 3, 0, 0],
            vec![6, 6, 2, 2, 0, 0],
            vec![0, 0, 0, 5, 5, 0],
        ],
        false,
        Vec::new(),
        Vec::new(),
    )
    .unwrap();
    assert_eq!(game.can_exit(), true);

    let game = Game::array_to_game(
        vec![
            vec![0, 0, 1, 0, 0, 0],
            vec![0, 0, 1, 0, 0, 0],
            vec![0, 4, 0, 3, 0, 0],
            vec![0, 4, 0, 3, 0, 0],
            vec![6, 6, 2, 2, 0, 0],
            vec![0, 0, 0, 5, 5, 0],
        ],
        false,
        Vec::new(),
        Vec::new(),
    )
    .unwrap();
    assert_eq!(game.can_exit(), true);
}

#[test]
fn can_not_exit_right() {
    let game = Game::array_to_game(
        vec![
            vec![0, 0, 0, 0, 0, 0],
            vec![0, 0, 0, 0, 0, 0],
            vec![0, 1, 1, 0, 0, 2],
            vec![0, 0, 0, 0, 0, 2],
            vec![0, 0, 0, 0, 0, 0],
            vec![0, 0, 0, 0, 0, 0],
        ],
        true,
        Vec::new(),
        Vec::new(),
    )
    .unwrap();
    assert_eq!(game.can_exit(), false);

    let game = Game::array_to_game(
        vec![
            vec![0, 0, 0, 0, 0, 0],
            vec![0, 0, 0, 0, 0, 0],
            vec![0, 0, 0, 1, 1, 2],
            vec![0, 0, 0, 0, 0, 2],
            vec![0, 0, 0, 0, 0, 0],
            vec![0, 0, 0, 0, 0, 0],
        ],
        true,
        Vec::new(),
        Vec::new(),
    )
    .unwrap();
    assert_eq!(game.can_exit(), false);
}

#[test]
fn can_not_exit_left() {
    let game = Game::array_to_game(
        vec![
            vec![0, 0, 0, 0, 0, 0],
            vec![0, 0, 0, 0, 0, 0],
            vec![2, 1, 1, 0, 0, 0],
            vec![2, 0, 0, 0, 0, 0],
            vec![0, 0, 0, 0, 0, 0],
            vec![0, 0, 0, 0, 0, 0],
        ],
        false,
        Vec::new(),
        Vec::new(),
    )
    .unwrap();
    assert_eq!(game.can_exit(), false);

    let game = Game::array_to_game(
        vec![
            vec![0, 0, 0, 0, 0, 0],
            vec![0, 0, 0, 0, 0, 0],
            vec![0, 2, 0, 1, 1, 0],
            vec![0, 2, 0, 0, 0, 0],
            vec![0, 0, 0, 0, 0, 0],
            vec![0, 0, 0, 0, 0, 0],
        ],
        false,
        Vec::new(),
        Vec::new(),
    )
    .unwrap();
    assert_eq!(game.can_exit(), false);
}

#[test]
fn can_not_exit_down() {
    let game = Game::array_to_game(
        vec![
            vec![0, 0, 0, 0, 0, 0],
            vec![0, 0, 0, 0, 0, 0],
            vec![0, 0, 1, 0, 0, 0],
            vec![0, 0, 1, 0, 0, 0],
            vec![0, 0, 0, 0, 0, 0],
            vec![0, 2, 2, 0, 0, 0],
        ],
        true,
        Vec::new(),
        Vec::new(),
    )
    .unwrap();
    assert_eq!(game.can_exit(), false);

    let game = Game::array_to_game(
        vec![
            vec![0, 0, 0, 0, 0, 0],
            vec![0, 0, 0, 0, 0, 0],
            vec![0, 0, 0, 0, 0, 0],
            vec![0, 0, 1, 0, 0, 0],
            vec![0, 0, 1, 0, 0, 0],
            vec![0, 2, 2, 0, 0, 0],
        ],
        true,
        Vec::new(),
        Vec::new(),
    )
    .unwrap();
    assert_eq!(game.can_exit(), false);
}

#[test]
fn can_not_exit_up() {
    let game = Game::array_to_game(
        vec![
            vec![0, 2, 2, 0, 0, 0],
            vec![0, 0, 0, 0, 0, 0],
            vec![0, 0, 1, 0, 0, 0],
            vec![0, 0, 1, 0, 0, 0],
            vec![0, 0, 0, 0, 0, 0],
            vec![0, 0, 0, 0, 0, 0],
        ],
        false,
        Vec::new(),
        Vec::new(),
    )
    .unwrap();
    assert_eq!(game.can_exit(), false);

    let game = Game::array_to_game(
        vec![
            vec![0, 0, 2, 2, 0, 0],
            vec![0, 0, 1, 0, 0, 0],
            vec![0, 0, 1, 0, 0, 0],
            vec![0, 0, 0, 0, 0, 0],
            vec![0, 0, 0, 0, 0, 0],
            vec![0, 0, 0, 0, 0, 0],
        ],
        false,
        Vec::new(),
        Vec::new(),
    )
    .unwrap();
    assert_eq!(game.can_exit(), false);
}
