//! Search-subsystem behavior: the flat board snapshot, move generation,
//! evaluation, prioritization, and the fixed-depth search.

use octi::ai::board::Board as SearchBoard;
use octi::ai::eval::{board_eval, EvalData, Value};
use octi::ai::matrix::Matrix;
use octi::ai::moveiter::{
    new_arrow_octi_move_iterator, new_move_octi_move_iterator, new_octi_move_iterator,
};
use octi::ai::priority::{get_contexts_sorted, PriorityEvalData};
use octi::ai::{is_starting_position, minimax, winner, AiError, BoardScore};
use octi::board::state::Board;
use octi::board::{
    Arrow, BoardBounds, BoardEventProcessor, Boardable, Octi, OctiMove, Position, Team,
};

fn standard_bounds() -> BoardBounds {
    BoardBounds(Position(0, 0), Position(5, 6))
}

fn grid(fill: i64) -> Matrix<i64> {
    Matrix::new(vec![fill; 42], 6, 7)
}

fn eval_data(octi_value: i64, red_pos: i64, green_pos: i64) -> EvalData {
    EvalData::new(
        octi_value,
        vec![0; 8],
        vec![0; 8],
        grid(red_pos),
        grid(green_pos),
        grid(0),
        grid(0),
        grid(0),
        grid(0),
    )
    .unwrap()
}

fn priority_data() -> PriorityEvalData {
    PriorityEvalData::new(10, 100, 1000, 1).unwrap()
}

/// Red to move with an empty arrow budget and a single active arrow: the
/// eastward step of the piece at (0,6) is the only legal move.
fn one_move_board() -> Board {
    let red = Octi { id: 0, team: Team::Red, pos: Position(0, 6), arrs: 0b0000_0001 };
    let green = Octi { id: 1, team: Team::Green, pos: Position(5, 0), arrs: 0 };
    Board {
        turn: Team::Red,
        bounds: standard_bounds(),
        octis: vec![red, green],
        pos_indexer: vec![(Position(0, 6), 0), (Position(5, 0), 1)],
        red_arrows: 0,
        green_arrows: 23,
        next_id: 2,
    }
}

/// A board on which a chain can see-saw through the same cells forever:
/// the mover holds east and west arrows with an enemy on each side.
fn see_saw_board() -> Board {
    let red = Octi { id: 0, team: Team::Red, pos: Position(2, 3), arrs: 0b0001_0001 };
    let g1 = Octi { id: 1, team: Team::Green, pos: Position(3, 3), arrs: 0 };
    let g2 = Octi { id: 2, team: Team::Green, pos: Position(1, 3), arrs: 0 };
    Board {
        turn: Team::Red,
        bounds: standard_bounds(),
        octis: vec![red, g1, g2],
        pos_indexer: vec![
            (Position(2, 3), 0),
            (Position(3, 3), 1),
            (Position(1, 3), 2),
        ],
        red_arrows: 10,
        green_arrows: 12,
        next_id: 3,
    }
}

#[test]
fn snapshot_matches_rules_board() {
    let board = Board::default();
    let snapshot = SearchBoard::new(&board);
    assert_eq!(snapshot.turn(), Team::Red);
    assert_eq!(snapshot.get_arr_count(&Team::Red), Some(12));
    assert_eq!(snapshot.get_arr_count(&Team::Green), Some(12));
    assert_eq!(snapshot.octis().len(), 8);
    for x in 1..5 {
        assert_eq!(
            snapshot.get_octi_by_pos(&Position(x, 5)).unwrap().team(),
            Team::Red
        );
        assert_eq!(
            snapshot.get_octi_by_pos(&Position(x, 1)).unwrap().team(),
            Team::Green
        );
    }
    assert!(snapshot.get_octi_by_pos(&Position(0, 0)).is_none());
    assert!(snapshot.get_octi_by_pos(&Position(6, 0)).is_none());
    assert_eq!(snapshot.get_octi_by_id(&0).unwrap().pos(), Position(1, 5));
    assert!(snapshot.get_octi_by_id(&99).is_none());
    assert_eq!(SearchBoard::index_to_pos(7), Position(1, 1));
    assert_eq!(SearchBoard::pos_to_index(&Position(1, 1)), 7);
}

#[test]
fn snapshot_applies_same_events_deterministically() {
    // Applying the same derived events to two independent copies of the
    // same board yields boards that compare equal.
    let board = Board::default();
    let snapshot = SearchBoard::new(&board);
    let mv = OctiMove::Arrow(Position(2, 5), Arrow::new(1).unwrap());
    let events = snapshot.move_events(&mv).unwrap();
    let mut first = snapshot.clone();
    let mut second = snapshot.clone();
    first.process_events(events.as_slice());
    second.process_events(events.as_slice());
    assert!(first == second);
    assert!(!(first == snapshot));
    // and the rules board reaches the same abstract state
    let mut rules = board.clone();
    rules.process_events(events.as_slice());
    assert!(SearchBoard::new(&rules) == first);
}

#[test]
fn starting_board_has_only_arrow_moves() {
    let board = Board::default();
    let snapshot = SearchBoard::new(&board);
    let mut arrow_it = new_arrow_octi_move_iterator(&snapshot);
    let mut count = 0;
    while let Some(m) = arrow_it.next() {
        assert!(matches!(m, OctiMove::Arrow(_, _)));
        assert!(snapshot.is_move_valid(&m));
        count += 1;
    }
    // four pieces to move, eight directions each, budget available
    assert_eq!(count, 32);
    let mut move_it = new_move_octi_move_iterator(&snapshot);
    assert!(move_it.next().is_none());
    let mut all_it = new_octi_move_iterator(&snapshot);
    let mut total = 0;
    while let Some(m) = all_it.next() {
        assert!(snapshot.is_move_valid(&m));
        total += 1;
    }
    assert_eq!(total, 32);
}

#[test]
fn see_saw_generation_terminates() {
    // Chains could in principle see-saw through the same cells forever;
    // the repetition guard bounds the candidates and generation ends.
    let board = see_saw_board();
    let snapshot = SearchBoard::new(&board);
    let mut it = new_octi_move_iterator(&snapshot);
    let mut yielded = 0u64;
    while let Some(m) = it.next() {
        assert!(snapshot.is_move_valid(&m));
        yielded += 1;
        assert!(yielded < 100_000);
    }
    assert!(yielded > 0);
}

#[test]
fn winner_detection() {
    let board = Board::default();
    let snapshot = SearchBoard::new(&board);
    assert_eq!(winner(&snapshot), None);
    // a Red piece on Green's home cells wins for Red
    let red_home_run = Octi { id: 0, team: Team::Red, pos: Position(2, 1), arrs: 0 };
    let green = Octi { id: 1, team: Team::Green, pos: Position(5, 6), arrs: 0 };
    let terminal = Board {
        turn: Team::Green,
        bounds: standard_bounds(),
        octis: vec![red_home_run, green],
        pos_indexer: vec![(Position(2, 1), 0), (Position(5, 6), 1)],
        red_arrows: 12,
        green_arrows: 12,
        next_id: 2,
    };
    assert_eq!(winner(&SearchBoard::new(&terminal)), Some(Team::Red));
    // a side with no pieces left loses
    let lone = Octi { id: 0, team: Team::Green, pos: Position(3, 3), arrs: 0 };
    let eliminated = Board {
        turn: Team::Red,
        bounds: standard_bounds(),
        octis: vec![lone],
        pos_indexer: vec![(Position(3, 3), 0)],
        red_arrows: 12,
        green_arrows: 12,
        next_id: 1,
    };
    assert_eq!(winner(&SearchBoard::new(&eliminated)), Some(Team::Green));
    assert!(is_starting_position(Position(2, 5), Team::Red));
    assert!(!is_starting_position(Position(0, 5), Team::Red));
    assert!(is_starting_position(Position(4, 1), Team::Green));
}

#[test]
fn value_ordering() {
    // A Red win-sentinel compares strictly above every non-terminal score
    // and above a Green win; equal sentinels for one team compare equal.
    assert!(Value::Win(Team::Red) > Value::Score(i64::MAX));
    assert!(Value::Win(Team::Red) > Value::Win(Team::Green));
    assert!(Value::Win(Team::Green) < Value::Score(i64::MIN));
    assert!(Value::Win(Team::Green) < Value::Score(0));
    assert!(Value::Score(3) > Value::Score(-5));
    assert!(Value::Win(Team::Red) == Value::Win(Team::Red));
    assert!(!(Value::Win(Team::Red) > Value::Win(Team::Red)));
    assert!(Value::Win(Team::Green) == Value::Win(Team::Green));
    let a = BoardScore(Value::Score(4), 2);
    let b = BoardScore(Value::Score(4), 7);
    assert_eq!(a.value(), Value::Score(4));
    assert_eq!(a.depth(), 2);
    // scores order by value alone; depth only feeds the tie-break
    assert!(!(a > b) && !(a < b));
}

#[test]
fn evaluation_of_positions() {
    // Terminal boards score as their winner's sentinel.
    let lone = Octi { id: 0, team: Team::Green, pos: Position(3, 3), arrs: 0 };
    let eliminated = Board {
        turn: Team::Red,
        bounds: standard_bounds(),
        octis: vec![lone],
        pos_indexer: vec![(Position(3, 3), 0)],
        red_arrows: 12,
        green_arrows: 12,
        next_id: 1,
    };
    let data = eval_data(0, 0, 0);
    assert_eq!(
        board_eval(&SearchBoard::new(&eliminated), &data),
        Value::Win(Team::Green)
    );
    // On the starting board (no movement possible) the score is exactly
    // the per-piece and positional sums: four pieces each.
    let board = Board::default();
    let snapshot = SearchBoard::new(&board);
    assert_eq!(board_eval(&snapshot, &eval_data(0, 0, 0)), Value::Score(0));
    assert_eq!(board_eval(&snapshot, &eval_data(0, 1, 2)), Value::Score(-4));
    assert_eq!(board_eval(&snapshot, &eval_data(3, 0, 0)), Value::Score(0));
    let data = EvalData::new(
        0,
        vec![5, 0, 0, 0, 0, 0, 0, 0],
        vec![0; 8],
        grid(0),
        grid(0),
        grid(0),
        grid(0),
        grid(0),
        grid(0),
    )
    .unwrap();
    // one active Red east arrow adds its arrow value to Red's total
    let mut with_arrow = Board::default();
    with_arrow
        .make_move(&OctiMove::Arrow(Position(1, 5), Arrow::new(0).unwrap()))
        .unwrap();
    with_arrow.set_turn(Team::Red);
    assert_eq!(
        board_eval(&SearchBoard::new(&with_arrow), &data),
        Value::Score(5)
    );
    // a malformed weight table is rejected at construction
    assert!(EvalData::new(
        0,
        vec![0; 7],
        vec![0; 8],
        grid(0),
        grid(0),
        grid(0),
        grid(0),
        grid(0),
        grid(0)
    )
    .is_err());
}

#[test]
fn matrix_indexing() {
    let mut arr = vec![0i64; 42];
    arr[6 * 2 + 3] = 77;
    let m = Matrix::new(arr, 6, 7);
    assert_eq!(m.width(), 6);
    assert_eq!(m.height(), 7);
    assert_eq!(m.arr().len(), 42);
    assert_eq!(m.iter().len(), 42);
    assert_eq!(m.get(&Position(3, 2)), Some(&77));
    assert_eq!(m.get(&Position(0, 0)), Some(&0));
    assert_eq!(m.get(&Position(-1, 0)), None);
    assert_eq!(m.get(&Position(0, 7)), None);
}

#[test]
fn contexts_sorted_by_descending_priority() {
    let board = see_saw_board();
    let snapshot = SearchBoard::new(&board);
    let mut it = new_octi_move_iterator(&snapshot);
    let mut moves = Vec::new();
    while let Some(m) = it.next() {
        moves.push(m);
    }
    let n = moves.len();
    let contexts = get_contexts_sorted(&snapshot, moves, &priority_data());
    assert_eq!(contexts.len(), n);
    for pair in contexts.windows(2) {
        assert!(pair[0].priority >= pair[1].priority);
    }
    // capturing movement moves outrank arrow placements under these weights
    let first = contexts.into_iter().next().unwrap();
    let first_board = first.board().clone();
    assert!(matches!(first.octi_move(), OctiMove::Move(_, _)));
    assert!(first_board.octis().len() < 3);
}

#[test]
fn minimax_depth_zero_rejected() {
    let board = Board::default();
    let snapshot = SearchBoard::new(&board);
    let result = minimax(&snapshot, 0, &eval_data(0, 0, 0), &priority_data());
    assert!(matches!(result, Err(AiError::ZeroDepth)));
}

#[test]
fn minimax_fails_without_candidate_moves() {
    // Red holds no arrows on its one piece and has no budget left: no
    // arrow placement and no movement is legal, so the search fails.
    let red = Octi { id: 0, team: Team::Red, pos: Position(0, 6), arrs: 0 };
    let green = Octi { id: 1, team: Team::Green, pos: Position(5, 0), arrs: 0 };
    let board = Board {
        turn: Team::Red,
        bounds: standard_bounds(),
        octis: vec![red, green],
        pos_indexer: vec![(Position(0, 6), 0), (Position(5, 0), 1)],
        red_arrows: 0,
        green_arrows: 24,
        next_id: 2,
    };
    let snapshot = SearchBoard::new(&board);
    let result = minimax(&snapshot, 3, &eval_data(1, 0, 0), &priority_data());
    assert!(matches!(result, Err(AiError::NoMoves)));
}

#[test]
fn minimax_fails_on_a_finished_game() {
    // A Red piece already stands on Green's home cells: the game is over,
    // so the search reports no moves even though placements would parse.
    let red = Octi { id: 0, team: Team::Red, pos: Position(2, 1), arrs: 0 };
    let green = Octi { id: 1, team: Team::Green, pos: Position(5, 6), arrs: 0 };
    let board = Board {
        turn: Team::Green,
        bounds: standard_bounds(),
        octis: vec![red, green],
        pos_indexer: vec![(Position(2, 1), 0), (Position(5, 6), 1)],
        red_arrows: 12,
        green_arrows: 12,
        next_id: 2,
    };
    let snapshot = SearchBoard::new(&board);
    let result = minimax(&snapshot, 2, &eval_data(1, 0, 0), &priority_data());
    assert!(matches!(result, Err(AiError::NoMoves)));
}

#[test]
fn minimax_single_move_returns_it_with_its_score() {
    // With exactly one legal move, a depth-one search returns that move,
    // scored by the evaluator on the position it produces.
    let board = one_move_board();
    let snapshot = SearchBoard::new(&board);
    let data = eval_data(1, 2, 3);
    let result = minimax(&snapshot, 1, &data, &priority_data()).unwrap();
    let expected_move = OctiMove::Move(Position(0, 6), vec![Arrow::new(0).unwrap()]);
    let score = result.score();
    assert_eq!(result.octi_move(), Some(expected_move.clone()));
    let mut next = snapshot.clone();
    next.make_move(&expected_move).unwrap();
    assert_eq!(score.value(), board_eval(&next, &data));
    assert_eq!(score.depth(), 1);
}

#[test]
fn minimax_picks_the_immediate_win() {
    // Red can step onto Green's home cells at depth one.
    let red = Octi { id: 0, team: Team::Red, pos: Position(2, 2), arrs: 0b0000_0100 };
    let green = Octi { id: 1, team: Team::Green, pos: Position(5, 6), arrs: 0 };
    let board = Board {
        turn: Team::Red,
        bounds: standard_bounds(),
        octis: vec![red, green],
        pos_indexer: vec![(Position(2, 2), 0), (Position(5, 6), 1)],
        red_arrows: 11,
        green_arrows: 12,
        next_id: 2,
    };
    let snapshot = SearchBoard::new(&board);
    let result = minimax(&snapshot, 2, &eval_data(1, 0, 0), &priority_data()).unwrap();
    assert_eq!(result.score().value(), Value::Win(Team::Red));
    assert_eq!(
        result.octi_move(),
        Some(OctiMove::Move(
            Position(2, 2),
            vec![Arrow::new(2).unwrap()]
        ))
    );
}

#[test]
fn one_ply_mobility_bonuses_are_exact() {
    // One Red jump and one Green step: the score is Red's jump-table entry
    // at its landing cell minus Green's simple-table entry at its own.
    let red = Octi { id: 0, team: Team::Red, pos: Position(2, 4), arrs: 0b0000_0100 };
    let green = Octi { id: 1, team: Team::Green, pos: Position(2, 3), arrs: 0b0000_0001 };
    // a second Green piece keeps the jump from eliminating Green outright
    let bystander = Octi { id: 2, team: Team::Green, pos: Position(5, 0), arrs: 0 };
    let board = Board {
        turn: Team::Red,
        bounds: standard_bounds(),
        octis: vec![red, green, bystander],
        pos_indexer: vec![
            (Position(2, 4), 0),
            (Position(2, 3), 1),
            (Position(5, 0), 2),
        ],
        red_arrows: 11,
        green_arrows: 11,
        next_id: 3,
    };
    let data = EvalData::new(
        0,
        vec![0; 8],
        vec![0; 8],
        grid(0),
        grid(0),
        grid(0),
        grid(3),
        grid(7),
        grid(0),
    )
    .unwrap();
    let snapshot = SearchBoard::new(&board);
    assert_eq!(board_eval(&snapshot, &data), Value::Score(7 - 3));
}

#[test]
fn evaluation_short_circuits_on_an_immediate_win() {
    // The Red jump lands on Green's home cells, so the one-ply scan for the
    // side to move ends in Red's win sentinel.
    let red = Octi { id: 0, team: Team::Red, pos: Position(2, 3), arrs: 0b0000_0100 };
    let green = Octi { id: 1, team: Team::Green, pos: Position(2, 2), arrs: 0 };
    let board = Board {
        turn: Team::Red,
        bounds: standard_bounds(),
        octis: vec![red, green],
        pos_indexer: vec![(Position(2, 3), 0), (Position(2, 2), 1)],
        red_arrows: 11,
        green_arrows: 12,
        next_id: 2,
    };
    let snapshot = SearchBoard::new(&board);
    assert_eq!(
        board_eval(&snapshot, &eval_data(1, 1, 1)),
        Value::Win(Team::Red)
    );
}

#[test]
fn horizontal_flip_mirrors_cells_and_arrows() {
    let red = Octi { id: 0, team: Team::Red, pos: Position(1, 2), arrs: 0b0000_0001 };
    let green = Octi { id: 1, team: Team::Green, pos: Position(0, 5), arrs: 0b0010_0000 };
    let board = Board {
        turn: Team::Green,
        bounds: standard_bounds(),
        octis: vec![red, green],
        pos_indexer: vec![(Position(1, 2), 0), (Position(0, 5), 1)],
        red_arrows: 11,
        green_arrows: 11,
        next_id: 2,
    };
    let snapshot = SearchBoard::new(&board);
    let flipped = snapshot.horizontal_flip();
    assert_eq!(flipped.turn(), Team::Green);
    assert_eq!(flipped.get_arr_count(&Team::Red), Some(11));
    // the east arrow at (1,2) becomes a west arrow at (4,2)
    let moved = flipped.get_octi_by_pos(&Position(4, 2)).unwrap();
    assert_eq!(moved.id(), 0);
    assert!(moved.has_arr(&Arrow::new(4).unwrap()));
    assert!(!moved.has_arr(&Arrow::new(0).unwrap()));
    // the south-west arrow at (0,5) becomes a south-east arrow at (5,5)
    let other = flipped.get_octi_by_pos(&Position(5, 5)).unwrap();
    assert_eq!(other.id(), 1);
    assert!(other.has_arr(&Arrow::new(7).unwrap()));
    assert!(!other.has_arr(&Arrow::new(5).unwrap()));
    assert!(flipped.get_octi_by_pos(&Position(1, 2)).is_none());
    // flipping twice restores the board
    assert!(flipped.horizontal_flip() == snapshot);
}
