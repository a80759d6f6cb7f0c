use vstd::prelude::*;

use crate::board::Board;
use crate::coordinates::Coordinates;
use crate::error::Error;
use crate::game::Game;
use crate::player::Player;

verus! {

/// The game lifecycle. Transitions are pure functions of the current state;
/// the driving loop holds the current value and stops at `EndGame`.
pub enum State {
    /// The initial pseudo-state; carries no data.
    StartGame,
    /// It is the player's move on the board.
    NextTurn(Player, Board),
    /// The player has just completed a winning line.
    Won(Player),
    /// The board filled up with no winner.
    Draw,
    /// Terminal; the driving loop stops here.
    EndGame,
}

/// The state a successful move at `c` leads to: a win for the mover when the
/// move completed a run of `goal`, else a draw when the board is full, else
/// the other player's turn on the new board.
pub open spec fn state_after_move(board: Board, player: Player, c: (int, int), goal: int) -> State {
    if board.winning_move_spec(c, goal) {
        State::Won(player)
    } else if board.is_draw_spec() {
        State::Draw
    } else {
        State::NextTurn(player.next_spec(), board)
    }
}

/// The state a fresh game starts in: the constant first player to move on an
/// empty board with the configuration's bounds.
pub fn start_game(game: &Game) -> (r: State)
    requires
        game.wf(),
    ensures
        r matches State::NextTurn(p, b) && p == Player::X && b.wf() && b@ == Map::<
            (int, int),
            Player,
        >::empty() && b.min_x == game.min_x && b.max_x == game.max_x && b.min_y == game.min_y
            && b.max_y == game.max_y,
{
    State::NextTurn(Player::first(), Board::new(game))
}

/// One move: `player` plays at `coordinates` on `board`. An illegal move
/// returns the error unchanged, and the driver decides whether to retry or
/// abandon (see `abort_or_retry`); a legal move returns the successor state.
pub fn next_turn(game: &Game, player: &Player, board: &Board, coordinates: &Coordinates) -> (r:
    Result<State, Error>)
    requires
        game.wf(),
        board.wf(),
    ensures
        !board.on_board_spec(coordinates@) ==> r == Err::<State, Error>(Error::OutOfBounds),
        board.on_board_spec(coordinates@) && board@.contains_key(coordinates@) ==> r == Err::<
            State,
            Error,
        >(Error::AlreadyOccupied),
        board.on_board_spec(coordinates@) && !board@.contains_key(coordinates@) ==> (r matches Ok(st)
            && exists|nb: Board|
            #![auto]
            nb.wf() && nb.same_bounds(*board) && nb@ == board@.insert(coordinates@, *player) && st
                == state_after_move(nb, *player, coordinates@, game.goal as int)),
{
    match board.insert(coordinates, player) {
        Err(e) => Err(e),
        Ok(nb) => {
            if nb.is_winning_move(coordinates, game.goal) {
                proof {
                    assert(state_after_move(nb, *player, coordinates@, game.goal as int)
                        == State::Won(*player));
                }
                Ok(State::Won(*player))
            } else if nb.is_draw() {
                proof {
                    assert(state_after_move(nb, *player, coordinates@, game.goal as int)
                        == State::Draw);
                }
                Ok(State::Draw)
            } else {
                proof {
                    assert(state_after_move(nb, *player, coordinates@, game.goal as int)
                        == State::NextTurn(player.next_spec(), nb));
                }
                Ok(State::NextTurn(player.next(), nb))
            }
        },
    }
}

/// The driver's decision after a failed move: retrying stays at the same
/// player's turn on the same board, abandoning ends the game.
pub fn abort_or_retry(player: &Player, board: &Board, retry: bool) -> (r: State)
    ensures
        retry ==> (r matches State::NextTurn(p, b) && p == *player && b@ == board@ && b.same_bounds(
            *board,
        ) && (board.wf() ==> b.wf())),
        !retry ==> r == State::EndGame,
{
    if retry {
        State::NextTurn(*player, board.clone())
    } else {
        State::EndGame
    }
}

/// The transition out of a state that needs no external input: `Some` of the
/// next state, or `None` when it is a player's turn and the driver must
/// supply a move through `next_turn` first.
pub fn turn(game: &Game, state: &State) -> (r: Option<State>)
    requires
        game.wf(),
    ensures
        state matches State::StartGame ==> (r matches Some(st) && st matches State::NextTurn(p, b)
            && p == Player::X && b.wf() && b@ == Map::<(int, int), Player>::empty() && b.min_x
            == game.min_x && b.max_x == game.max_x && b.min_y == game.min_y && b.max_y
            == game.max_y),
        state matches State::NextTurn(_, _) ==> r == None::<State>,
        state matches State::Won(_) ==> r == Some(State::EndGame),
        state matches State::Draw ==> r == Some(State::EndGame),
        state matches State::EndGame ==> r == Some(State::EndGame),
{
    match state {
        State::StartGame => Some(start_game(game)),
        State::NextTurn(_, _) => None,
        State::Won(_) => Some(State::EndGame),
        State::Draw => Some(State::EndGame),
        State::EndGame => Some(State::EndGame),
    }
}

} // verus!
