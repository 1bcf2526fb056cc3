//! The game wrapper: history, cursor navigation, and the engine bridge.

use octi::ai::eval::EvalData;
use octi::ai::matrix::Matrix;
use octi::ai::priority::PriorityEvalData;
use octi::ai::AiError;
use octi::board::state::Board;
use octi::board::{Arrow, Boardable, BoardEventProcessor, OctiMove, Position, Team};
use octi::game::{Action, Game, GameError};

fn grid(fill: i64) -> Matrix<i64> {
    Matrix::new(vec![fill; 42], 6, 7)
}

fn eval_data() -> EvalData {
    EvalData::new(
        1,
        vec![0; 8],
        vec![0; 8],
        grid(1),
        grid(1),
        grid(2),
        grid(2),
        grid(3),
        grid(3),
    )
    .unwrap()
}

fn priority_data() -> PriorityEvalData {
    PriorityEvalData::new(10, 100, 1000, 1).unwrap()
}

fn arrow(x: i32, y: i32, dir: usize) -> OctiMove {
    OctiMove::Arrow(Position(x, y), Arrow::new(dir).unwrap())
}

#[test]
fn game_records_moves_and_navigates() {
    let mut game = Game::default();
    assert_eq!(game.cursor(), 0);
    assert_eq!(game.history().len(), 0);
    game.make_move(arrow(1, 5, 2)).unwrap();
    game.make_move(arrow(1, 1, 6)).unwrap();
    assert_eq!(game.cursor(), 2);
    assert_eq!(game.history().len(), 2);
    assert_eq!(game.state().get_arr_count(&Team::Red), Some(11));
    assert_eq!(game.state().get_arr_count(&Team::Green), Some(11));
    game.move_cursor_backwords(1);
    assert_eq!(game.cursor(), 1);
    assert_eq!(game.state().get_arr_count(&Team::Green), Some(12));
    // a move with the cursor behind the head is rejected
    assert_eq!(
        game.make_move(arrow(2, 1, 6)),
        Err(GameError::CursorNotAtHead)
    );
    game.move_cursor_forward(1);
    assert_eq!(game.cursor(), 2);
    assert_eq!(game.state().get_arr_count(&Team::Green), Some(11));
    game.cursor_start();
    assert_eq!(game.cursor(), 0);
    assert_eq!(game.state().get_arr_count(&Team::Red), Some(12));
    game.cursor_end();
    assert_eq!(game.cursor(), 2);
    game.set_cursor(1);
    assert_eq!(game.cursor(), 1);
    // stepping past the end stops at the end
    game.move_cursor_forward(99);
    assert_eq!(game.cursor(), 2);
    game.move_cursor_backwords(99);
    assert_eq!(game.cursor(), 0);
}

#[test]
fn overwrite_drops_later_history() {
    let mut game = Game::default();
    game.make_move(arrow(1, 5, 2)).unwrap();
    game.make_move(arrow(1, 1, 6)).unwrap();
    game.move_cursor_backwords(1);
    game.overwrite_history();
    assert_eq!(game.history().len(), 1);
    assert_eq!(game.cursor(), 1);
    // the head is free again
    game.make_move(arrow(2, 1, 6)).unwrap();
    assert_eq!(game.history().len(), 2);
}

#[test]
fn illegal_move_reported_and_game_unchanged() {
    let mut game = Game::default();
    let result = game.make_move(arrow(0, 0, 2));
    assert!(matches!(result, Err(GameError::Move(_))));
    assert_eq!(game.history().len(), 0);
    assert_eq!(game.state().turn(), Team::Red);
}

#[test]
fn engine_plays_a_move_through_the_game() {
    let mut game = Game::default();
    assert_eq!(
        game.ai(0, &eval_data(), &priority_data()),
        Err(GameError::Ai(AiError::ZeroDepth))
    );
    assert_eq!(game.history().len(), 0);
    game.ai(1, &eval_data(), &priority_data()).unwrap();
    assert_eq!(game.history().len(), 1);
    assert_eq!(game.state().turn(), Team::Green);
}

#[test]
fn actions_drive_the_game() {
    let mut game = Game::default();
    let data = eval_data();
    let prio = priority_data();
    game.process_action(Action::OctiMove(arrow(1, 5, 2)), &data, &prio).unwrap();
    game.process_action(Action::Backward(1), &data, &prio).unwrap();
    assert_eq!(game.cursor(), 0);
    game.process_action(Action::End, &data, &prio).unwrap();
    assert_eq!(game.cursor(), 1);
    game.process_action(Action::Start, &data, &prio).unwrap();
    assert_eq!(game.cursor(), 0);
    game.process_action(Action::Overwrite, &data, &prio).unwrap();
    assert_eq!(game.history().len(), 0);
    game.process_action(Action::AI(1), &data, &prio).unwrap();
    assert_eq!(game.history().len(), 1);
    game.process_action(Action::Forward(5), &data, &prio).unwrap();
    assert_eq!(game.cursor(), 1);
}

#[test]
fn start_board_is_kept() {
    let mut game = Game::new(Board::default());
    game.make_move(arrow(1, 5, 2)).unwrap();
    assert_eq!(game.start().get_arr_count(&Team::Red), Some(12));
    assert_eq!(game.state().get_arr_count(&Team::Red), Some(11));
}

#[test]
fn error_messages_are_descriptive() {
    let mut game = Game::default();
    let err = game.make_move(arrow(0, 0, 2)).unwrap_err();
    assert_eq!(err.message(), "no piece at (0,0)");
    let err = game.make_move(arrow(1, 1, 2)).unwrap_err();
    assert_eq!(err.message(), "it is red's turn");
    assert_eq!(
        GameError::CursorNotAtHead.message(),
        "cannot make a move when the cursor is not on the head"
    );
    assert_eq!(
        GameError::Ai(AiError::ZeroDepth).message(),
        "the search depth cannot be zero"
    );
}

#[test]
fn engine_plays_several_plies() {
    let mut game = Game::default();
    let data = eval_data();
    let prio = priority_data();
    for _ in 0..4 {
        game.ai(1, &data, &prio).unwrap();
    }
    assert_eq!(game.history().len(), 4);
    assert_eq!(game.cursor(), 4);
    // replaying the recorded history reproduces the same board
    let mut replayed = Game::new(Board::default());
    for mv in game.history().clone() {
        replayed.make_move(mv).unwrap();
    }
    assert_eq!(
        replayed.state().get_arr_count(&Team::Red),
        game.state().get_arr_count(&Team::Red)
    );
    assert_eq!(replayed.state().turn(), game.state().turn());
}
