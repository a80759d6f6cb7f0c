use grid_game::board::Board;
use grid_game::coordinates::Coordinates;
use grid_game::error::Error;
use grid_game::game::Game;
use grid_game::player::Player;
use grid_game::state::{abort_or_retry, next_turn, start_game, turn, State};

#[test]
fn test_start_game() {
    let game = Game::tic_tac_toe();
    match start_game(&game) {
        State::NextTurn(player, board) => {
            assert_eq!(player, Player::X);
            assert_eq!(board.len(), 0);
            assert_eq!(board.min_x, game.min_x);
            assert_eq!(board.max_x, game.max_x);
        }
        _ => panic!("a fresh game must be the first player's turn"),
    }
}

#[test]
fn test_turn_dispatch() {
    let game = Game::tic_tac_toe();
    assert!(matches!(
        turn(&game, &State::StartGame),
        Some(State::NextTurn(Player::X, _))
    ));
    assert!(matches!(
        turn(&game, &State::Won(Player::O)),
        Some(State::EndGame)
    ));
    assert!(matches!(turn(&game, &State::Draw), Some(State::EndGame)));
    assert!(matches!(turn(&game, &State::EndGame), Some(State::EndGame)));
    let waiting = State::NextTurn(Player::X, Board::new(&game));
    assert!(turn(&game, &waiting).is_none());
}

#[test]
fn test_next_turn_continues() {
    let game = Game::tic_tac_toe();
    let board = Board::new(&game);
    let result = next_turn(&game, &Player::X, &board, &Coordinates { x: 0, y: 0 });
    match result {
        Ok(State::NextTurn(player, new_board)) => {
            assert_eq!(player, Player::O);
            assert_eq!(new_board.get(&Coordinates { x: 0, y: 0 }), Some(Player::X));
        }
        _ => panic!("a quiet first move must hand the turn to the other player"),
    }
}

#[test]
fn test_next_turn_win() {
    let game = Game::tic_tac_toe();
    let board = Board::new(&game)
        .insert(&Coordinates { x: -1, y: -1 }, &Player::X)
        .unwrap()
        .insert(&Coordinates { x: 0, y: -1 }, &Player::X)
        .unwrap();
    let result = next_turn(&game, &Player::X, &board, &Coordinates { x: 1, y: -1 });
    assert!(matches!(result, Ok(State::Won(Player::X))));
}

#[test]
fn test_next_turn_draw() {
    // Fill all cells but the center without a win; the last move by O at the
    // center fills the board without completing any line.
    let game = Game::tic_tac_toe();
    let board = Board::new(&game)
        .insert(&Coordinates { x: -1, y: -1 }, &Player::X)
        .unwrap()
        .insert(&Coordinates { x: 0, y: -1 }, &Player::X)
        .unwrap()
        .insert(&Coordinates { x: 1, y: -1 }, &Player::O)
        .unwrap()
        .insert(&Coordinates { x: -1, y: 0 }, &Player::O)
        .unwrap()
        .insert(&Coordinates { x: 1, y: 0 }, &Player::X)
        .unwrap()
        .insert(&Coordinates { x: -1, y: 1 }, &Player::X)
        .unwrap()
        .insert(&Coordinates { x: 0, y: 1 }, &Player::O)
        .unwrap()
        .insert(&Coordinates { x: 1, y: 1 }, &Player::X)
        .unwrap();
    let result = next_turn(&game, &Player::O, &board, &Coordinates { x: 0, y: 0 });
    assert!(matches!(result, Ok(State::Draw)));
}

#[test]
fn test_next_turn_errors() {
    let game = Game::tic_tac_toe();
    let board = Board::new(&game)
        .insert(&Coordinates { x: 0, y: 0 }, &Player::X)
        .unwrap();
    assert!(matches!(
        next_turn(&game, &Player::O, &board, &Coordinates { x: 2, y: 0 }),
        Err(Error::OutOfBounds)
    ));
    assert!(matches!(
        next_turn(&game, &Player::O, &board, &Coordinates { x: 0, y: 0 }),
        Err(Error::AlreadyOccupied)
    ));
}

#[test]
fn test_abort_or_retry() {
    let game = Game::tic_tac_toe();
    let board = Board::new(&game)
        .insert(&Coordinates { x: 0, y: 0 }, &Player::X)
        .unwrap();
    match abort_or_retry(&Player::O, &board, true) {
        State::NextTurn(player, same_board) => {
            assert_eq!(player, Player::O);
            assert_eq!(same_board.get(&Coordinates { x: 0, y: 0 }), Some(Player::X));
            assert_eq!(same_board.len(), 1);
        }
        _ => panic!("retrying must stay at the same player's turn"),
    }
    assert!(matches!(
        abort_or_retry(&Player::O, &board, false),
        State::EndGame
    ));
}
