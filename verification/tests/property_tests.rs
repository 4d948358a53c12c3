use escape_puzzle::decode::DecodeError;
use escape_puzzle::game::{Game, Piece, Point};
use escape_puzzle::generate::generate;
use escape_puzzle::solver::extra_solve;

fn easy_board() -> Vec<Vec<i8>> {
    vec![
        vec![0, 0, 0, 0, 0, 0],
        vec![0, 0, 0, 0, 2, 0],
        vec![0, 0, 1, 1, 2, 3],
        vec![0, 0, 0, 0, 2, 3],
        vec![0, 0, 0, 0, 0, 3],
        vec![0, 0, 0, 0, 0, 0],
    ]
}

#[test]
fn decode_round_trip_board_equals_grid() {
    let grid = easy_board();
    let game = Game::array_to_game(grid.clone(), true, Vec::new(), Vec::new()).unwrap();
    assert_eq!(game.board.matrix, grid);
}

#[test]
fn move_then_reverse_restores_board() {
    let grid = easy_board();
    let mut game = Game::array_to_game(grid.clone(), true, Vec::new(), Vec::new()).unwrap();
    assert_eq!(game.move_piece(0, false, 2), true);
    assert_eq!(game.move_piece(0, true, 2), true);
    assert_eq!(game.board.matrix, grid);
}

#[test]
fn disabled_piece_never_moves() {
    let grid = easy_board();
    let mut game = Game::array_to_game(grid.clone(), true, vec![2], Vec::new()).unwrap();
    for steps in 1..6 {
        assert_eq!(game.move_piece(1, true, steps), false);
        assert_eq!(game.move_piece(1, false, steps), false);
    }
    assert_eq!(game.board.matrix, grid);
}

#[test]
fn blocked_move_stays_blocked_for_longer_steps() {
    // the prisoner is blocked after one step to the right by piece 2
    let mut game = Game::array_to_game(
        vec![
            vec![0, 0, 0, 0, 0, 0],
            vec![0, 0, 0, 0, 2, 0],
            vec![0, 0, 1, 1, 2, 0],
            vec![0, 0, 0, 0, 2, 0],
            vec![0, 0, 0, 0, 0, 0],
            vec![0, 0, 0, 0, 0, 0],
        ],
        true,
        Vec::new(),
        Vec::new(),
    )
    .unwrap();
    for steps in 1..6 {
        assert_eq!(game.move_piece(0, true, steps), false);
    }
}

#[test]
fn decode_rejects_ragged_grid() {
    let r = Game::array_to_game(vec![vec![1, 1], vec![0]], true, Vec::new(), Vec::new());
    assert_eq!(r.unwrap_err(), DecodeError::NotRectangular);
    let r = Game::array_to_game(Vec::new(), true, Vec::new(), Vec::new());
    assert_eq!(r.unwrap_err(), DecodeError::NotRectangular);
}

#[test]
fn decode_rejects_oversized_grid() {
    let r = Game::array_to_game(vec![vec![0; 128], vec![0; 128]], true, Vec::new(), Vec::new());
    assert_eq!(r.unwrap_err(), DecodeError::TooLarge);
}

#[test]
fn decode_rejects_negative_label() {
    let r = Game::array_to_game(vec![vec![1, 1], vec![0, -3]], true, Vec::new(), Vec::new());
    assert_eq!(r.unwrap_err(), DecodeError::BadLabel);
}

#[test]
fn decode_rejects_label_gap() {
    let r = Game::array_to_game(vec![vec![1, 1], vec![3, 3]], true, Vec::new(), Vec::new());
    assert_eq!(r.unwrap_err(), DecodeError::BadLabel);
}

#[test]
fn decode_rejects_missing_prisoner() {
    let r = Game::array_to_game(vec![vec![0, 0], vec![0, 0]], true, Vec::new(), Vec::new());
    assert_eq!(r.unwrap_err(), DecodeError::NoPrisoner);
    let r = Game::array_to_game(vec![vec![0, 0], vec![2, 2]], true, Vec::new(), Vec::new());
    assert_eq!(r.unwrap_err(), DecodeError::NoPrisoner);
}

#[test]
fn decode_rejects_broken_segment() {
    let r = Game::array_to_game(vec![vec![1, 1], vec![1, 0]], true, Vec::new(), Vec::new());
    assert_eq!(r.unwrap_err(), DecodeError::BadSegment);
}

#[test]
fn string_to_game_rejects_unclosed_literal() {
    assert!(Game::string_to_game("[[1, 1]", true).is_err());
    assert!(Game::string_to_game("[[1, x]]", true).is_err());
}

#[test]
fn solution_path_runs_from_start_to_exit() {
    let grid = easy_board();
    let game = Game::array_to_game(grid.clone(), true, Vec::new(), Vec::new()).unwrap();
    let path = extra_solve(&game).unwrap();
    assert!(path.len() >= 2);
    assert_eq!(path[0].board.matrix, grid);
    assert!(path[path.len() - 1].can_exit());
    for k in 0..path.len() - 1 {
        // each transition moves exactly one piece
        assert_eq!(path[k].pieces.len(), path[k + 1].pieces.len());
        let mut moved = 0;
        for i in 0..path[k].pieces.len() {
            if path[k].pieces[i] != path[k + 1].pieces[i] {
                moved += 1;
            }
        }
        assert_eq!(moved, 1);
    }
}

#[test]
fn generator_path_ends_solved() {
    let prisoner = Piece::new(Point { x: 0, y: 2 }, Point { x: 1, y: 2 });
    let mut found = false;
    for _ in 0..500 {
        let initial = Game::new(4, 4, prisoner, true);
        if let Some(path) = generate(initial, 0, 0) {
            assert!(path.len() >= 1);
            assert_eq!(path[0].width, 4);
            assert_eq!(path[0].height, 4);
            assert_eq!(path[0].pieces[0], prisoner);
            assert!(path[path.len() - 1].can_exit());
            found = true;
            break;
        }
    }
    assert!(found);
}

#[test]
fn zero_bias_marks_nothing() {
    // the prisoner fills its whole row, so every generated instance is
    // immediately solvable and the sweep's result is always returned
    let prisoner = Piece::new(Point { x: 0, y: 1 }, Point { x: 1, y: 1 });
    for _ in 0..50 {
        let initial = Game::new(2, 2, prisoner, true);
        let path = generate(initial, 0, 0).unwrap();
        assert_eq!(path[0].disabled_pieces.len(), 0);
        assert_eq!(path[0].reversed_pieces.len(), 0);
    }
}

#[test]
fn full_bias_marks_every_piece() {
    let prisoner = Piece::new(Point { x: 0, y: 1 }, Point { x: 1, y: 1 });
    let mut found = false;
    for _ in 0..500 {
        let initial = Game::new(2, 2, prisoner, true);
        let path = generate(initial, 100, 0).unwrap();
        if path[0].pieces.len() >= 2 {
            for pos in 2..=path[0].pieces.len() {
                assert!(path[0].disabled_pieces.contains(&pos));
            }
            found = true;
            break;
        }
    }
    assert!(found);
}
