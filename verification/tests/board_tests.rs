use grid_game::board::Board;
use grid_game::coordinates::Coordinates;
use grid_game::error::Error;
use grid_game::game::Game;
use grid_game::player::Player;

#[test]
fn test_new_tic_tac_toe() {
    let game = Game::tic_tac_toe();
    let board = Board::new(&game);

    assert_eq!(board.len(), 0);
    assert_eq!(board.min_x, game.min_x);
    assert_eq!(board.max_x, game.max_x);
    assert_eq!(board.min_y, game.min_y);
    assert_eq!(board.max_y, game.max_y);
}

#[test]
fn test_new_gomoku() {
    let game = Game::gomoku();
    let board = Board::new(&game);

    assert_eq!(board.len(), 0);
    assert_eq!(board.min_x, game.min_x);
    assert_eq!(board.max_x, game.max_x);
    assert_eq!(board.min_y, game.min_y);
    assert_eq!(board.max_y, game.max_y);
}

#[test]
fn test_insert_smaller_min_x() {
    let game = Game::tic_tac_toe();
    let board = Board::new(&game);
    let coordinates = Coordinates {
        x: board.min_x - 1,
        y: 0,
    };
    let player = Player::X;
    let board = board.insert(&coordinates, &player);

    assert_eq!(board.is_err(), true);
}

#[test]
fn test_insert_smaller_min_y() {
    let game = Game::tic_tac_toe();
    let board = Board::new(&game);
    let coordinates = Coordinates {
        x: 0,
        y: board.min_y - 1,
    };
    let player = Player::X;
    let board = board.insert(&coordinates, &player);

    assert_eq!(board.is_err(), true);
}

#[test]
fn test_insert_bigger_max_x() {
    let game = Game::tic_tac_toe();
    let board = Board::new(&game);
    let coordinates = Coordinates {
        x: board.max_x + 1,
        y: 0,
    };
    let player = Player::X;
    let board = board.insert(&coordinates, &player);

    assert_eq!(board.is_err(), true);
}

#[test]
fn test_insert_bigger_max_y() {
    let game = Game::tic_tac_toe();
    let board = Board::new(&game);
    let coordinates = Coordinates {
        x: 0,
        y: board.max_y + 1,
    };
    let player = Player::X;
    let board = board.insert(&coordinates, &player);

    assert_eq!(board.is_err(), true);
}

#[test]
fn test_insert() {
    let game = Game::tic_tac_toe();
    let board = Board::new(&game);
    let coordinates = Coordinates { x: 0, y: 0 };
    let player = Player::X;
    let board = board.insert(&coordinates, &player);

    assert_eq!(board.unwrap().get(&coordinates), Some(player));
}

#[test]
fn test_insert_already_taken() {
    let game = Game::tic_tac_toe();
    let board = Board::new(&game);
    let coordinates = Coordinates { x: 0, y: 0 };
    let player = Player::X;
    let board = board
        .insert(&coordinates, &player)
        .and_then(|board| board.insert(&coordinates, &player));

    assert_eq!(board.is_err(), true);
}

#[test]
fn test_insert_out_of_bounds_error() {
    let game = Game::tic_tac_toe();
    let board = Board::new(&game);
    let result = board.insert(&Coordinates { x: 2, y: 0 }, &Player::X);

    assert_eq!(result.err(), Some(Error::OutOfBounds));
}

#[test]
fn test_insert_already_occupied_error() {
    let game = Game::tic_tac_toe();
    let board = Board::new(&game)
        .insert(&Coordinates { x: 0, y: 0 }, &Player::X)
        .unwrap();
    let result = board.insert(&Coordinates { x: 0, y: 0 }, &Player::O);

    assert_eq!(result.err(), Some(Error::AlreadyOccupied));
}

#[test]
fn test_insert_keeps_old_board() {
    let game = Game::tic_tac_toe();
    let board = Board::new(&game);
    let coordinates = Coordinates { x: 1, y: -1 };
    let new_board = board.insert(&coordinates, &Player::O).unwrap();

    assert_eq!(board.get(&coordinates), None);
    assert_eq!(board.len(), 0);
    assert_eq!(new_board.get(&coordinates), Some(Player::O));
    assert_eq!(new_board.len(), 1);
}

#[test]
fn test_is_draw_empty() {
    let game = Game::tic_tac_toe();
    let board = Board::new(&game);

    assert_eq!(board.is_draw(), false);
}

#[test]
fn test_is_draw_minus_1() {
    let game = Game::tic_tac_toe();
    let board = Board::new(&game)
        .insert(&Coordinates { x: -1, y: -1 }, &Player::X)
        .unwrap()
        .insert(&Coordinates { x: 0, y: -1 }, &Player::X)
        .unwrap()
        .insert(&Coordinates { x: 1, y: -1 }, &Player::X)
        .unwrap()
        .insert(&Coordinates { x: -1, y: 0 }, &Player::X)
        .unwrap()
        .insert(&Coordinates { x: 0, y: 0 }, &Player::X)
        .unwrap()
        .insert(&Coordinates { x: 1, y: 0 }, &Player::X)
        .unwrap()
        .insert(&Coordinates { x: -1, y: 1 }, &Player::X)
        .unwrap()
        .insert(&Coordinates { x: 0, y: 1 }, &Player::X)
        .unwrap();

    assert_eq!(board.is_draw(), false);
}

#[test]
fn test_is_draw_full() {
    let game = Game::tic_tac_toe();
    let board = Board::new(&game)
        .insert(&Coordinates { x: -1, y: -1 }, &Player::X)
        .unwrap()
        .insert(&Coordinates { x: 0, y: -1 }, &Player::X)
        .unwrap()
        .insert(&Coordinates { x: 1, y: -1 }, &Player::X)
        .unwrap()
        .insert(&Coordinates { x: -1, y: 0 }, &Player::X)
        .unwrap()
        .insert(&Coordinates { x: 0, y: 0 }, &Player::X)
        .unwrap()
        .insert(&Coordinates { x: 1, y: 0 }, &Player::X)
        .unwrap()
        .insert(&Coordinates { x: -1, y: 1 }, &Player::X)
        .unwrap()
        .insert(&Coordinates { x: 0, y: 1 }, &Player::X)
        .unwrap()
        .insert(&Coordinates { x: 1, y: 1 }, &Player::X)
        .unwrap();

    assert_eq!(board.is_draw(), true);
}

#[test]
fn test_affected_rows_tic_tac_toe_center() {
    let game = Game::tic_tac_toe();
    let board = Board::new(&game);
    let affected_rows = board.affected_rows(&Coordinates { x: 0, y: 0 });

    assert_eq!(affected_rows.len(), 4);
    assert!(affected_rows.contains(&vec![
        Coordinates { x: -1, y: 0 },
        Coordinates { x: 0, y: 0 },
        Coordinates { x: 1, y: 0 }
    ]));
    assert!(affected_rows.contains(&vec![
        Coordinates { x: 0, y: -1 },
        Coordinates { x: 0, y: 0 },
        Coordinates { x: 0, y: 1 }
    ]));
    assert!(affected_rows.contains(&vec![
        Coordinates { x: -1, y: -1 },
        Coordinates { x: 0, y: 0 },
        Coordinates { x: 1, y: 1 }
    ]));
    assert!(affected_rows.contains(&vec![
        Coordinates { x: -1, y: 1 },
        Coordinates { x: 0, y: 0 },
        Coordinates { x: 1, y: -1 }
    ]));
}

#[test]
fn test_affected_rows_tic_tac_toe_corner() {
    let game = Game::tic_tac_toe();
    let board = Board::new(&game);
    let affected_rows = board.affected_rows(&Coordinates { x: -1, y: -1 });

    assert_eq!(affected_rows.len(), 3);
    assert!(affected_rows.contains(&vec![
        Coordinates { x: -1, y: -1 },
        Coordinates { x: 0, y: -1 },
        Coordinates { x: 1, y: -1 }
    ]));
    assert!(affected_rows.contains(&vec![
        Coordinates { x: -1, y: -1 },
        Coordinates { x: -1, y: 0 },
        Coordinates { x: -1, y: 1 }
    ]));
    assert!(affected_rows.contains(&vec![
        Coordinates { x: -1, y: -1 },
        Coordinates { x: 0, y: 0 },
        Coordinates { x: 1, y: 1 }
    ]));
}

#[test]
fn test_affected_rows_tic_tac_toe_middle() {
    let game = Game::tic_tac_toe();
    let board = Board::new(&game);
    let affected_rows = board.affected_rows(&Coordinates { x: -1, y: 0 });

    assert_eq!(affected_rows.len(), 2);
    assert!(affected_rows.contains(&vec![
        Coordinates { x: -1, y: -1 },
        Coordinates { x: -1, y: 0 },
        Coordinates { x: -1, y: 1 }
    ]));
    assert!(affected_rows.contains(&vec![
        Coordinates { x: -1, y: 0 },
        Coordinates { x: 0, y: 0 },
        Coordinates { x: 1, y: 0 }
    ]));
}

#[test]
fn test_is_winning_move_missing() {
    let game = Game::tic_tac_toe();
    let board = Board::new(&game)
        .insert(&Coordinates { x: -1, y: -1 }, &Player::X)
        .unwrap()
        .insert(&Coordinates { x: 0, y: -1 }, &Player::X)
        .unwrap();

    assert_eq!(
        board.is_winning_move(&Coordinates { x: 1, y: -1 }, 3),
        false
    );
}

#[test]
fn test_is_winning_move_blocked() {
    let game = Game::tic_tac_toe();
    let board = Board::new(&game)
        .insert(&Coordinates { x: -1, y: -1 }, &Player::X)
        .unwrap()
        .insert(&Coordinates { x: 0, y: -1 }, &Player::X)
        .unwrap()
        .insert(&Coordinates { x: 1, y: -1 }, &Player::O)
        .unwrap();

    assert_eq!(
        board.is_winning_move(&Coordinates { x: 1, y: -1 }, 3),
        false
    );
}

#[test]
fn test_is_winning_move() {
    let game = Game::tic_tac_toe();
    let board = Board::new(&game)
        .insert(&Coordinates { x: -1, y: -1 }, &Player::X)
        .unwrap()
        .insert(&Coordinates { x: 0, y: -1 }, &Player::X)
        .unwrap()
        .insert(&Coordinates { x: 1, y: -1 }, &Player::X)
        .unwrap();

    assert_eq!(board.is_winning_move(&Coordinates { x: 1, y: -1 }, 3), true);
}

#[test]
fn test_is_winning_move_diagonal() {
    let game = Game::tic_tac_toe();
    let board = Board::new(&game)
        .insert(&Coordinates { x: -1, y: -1 }, &Player::O)
        .unwrap()
        .insert(&Coordinates { x: 0, y: 0 }, &Player::O)
        .unwrap()
        .insert(&Coordinates { x: 1, y: 1 }, &Player::O)
        .unwrap();

    assert_eq!(board.is_winning_move(&Coordinates { x: 0, y: 0 }, 3), true);
}

#[test]
fn test_is_winning_move_elsewhere_not_counted() {
    // X already holds a full left column; O's unrelated move must not claim it.
    let game = Game::tic_tac_toe();
    let board = Board::new(&game)
        .insert(&Coordinates { x: -1, y: -1 }, &Player::X)
        .unwrap()
        .insert(&Coordinates { x: -1, y: 0 }, &Player::X)
        .unwrap()
        .insert(&Coordinates { x: -1, y: 1 }, &Player::X)
        .unwrap()
        .insert(&Coordinates { x: 1, y: 0 }, &Player::O)
        .unwrap();

    assert_eq!(board.is_winning_move(&Coordinates { x: 1, y: 0 }, 3), false);
    assert_eq!(
        board.is_winning_move(&Coordinates { x: -1, y: 1 }, 3),
        true
    );
}
