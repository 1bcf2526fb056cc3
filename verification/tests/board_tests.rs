//! Rules-board behavior: move validation, event derivation, application,
//! and the budget and index invariants.

use octi::board::state::Board;
use octi::board::{
    Arrow, ArrowStatus, BoardBounds, BoardEvent, BoardEventProcessor, Boardable, MoveError, Octi,
    OctiMove, Position, Team,
};

fn standard_bounds() -> BoardBounds {
    BoardBounds(Position(0, 0), Position(5, 6))
}

/// A hand-built legal position: a Red piece at (2,3) holding arrow 2 (one
/// active arrow), a Green piece at (2,2) holding arrow 0.
fn capture_board() -> Board {
    let red = Octi { id: 0, team: Team::Red, pos: Position(2, 3), arrs: 0b0000_0100 };
    let green = Octi { id: 1, team: Team::Green, pos: Position(2, 2), arrs: 0b0000_0001 };
    Board {
        turn: Team::Red,
        bounds: standard_bounds(),
        octis: vec![red, green],
        pos_indexer: vec![(Position(2, 3), 0), (Position(2, 2), 1)],
        red_arrows: 11,
        green_arrows: 11,
        next_id: 2,
    }
}

fn total_active_arrows(board: &Board) -> u32 {
    let mut total = 0;
    for octi in board.octis.iter() {
        total += octi.arr_count();
    }
    total
}

#[test]
fn starting_board_shape() {
    let board = Board::default();
    assert_eq!(board.turn(), Team::Red);
    assert_eq!(board.get_arr_count(&Team::Red), Some(12));
    assert_eq!(board.get_arr_count(&Team::Green), Some(12));
    assert_eq!(board.octis.len(), 8);
    for x in 1..5 {
        let red = board.get_octi_by_pos(&Position(x, 5)).unwrap();
        assert_eq!(red.team(), Team::Red);
        assert_eq!(red.arr_count(), 0);
        let green = board.get_octi_by_pos(&Position(x, 1)).unwrap();
        assert_eq!(green.team(), Team::Green);
        assert_eq!(green.arr_count(), 0);
    }
    assert!(board.get_octi_by_pos(&Position(0, 0)).is_none());
    assert!(board.in_bounds(&Position(5, 6)));
    assert!(!board.in_bounds(&Position(6, 0)));
}

#[test]
fn arrow_placement_on_starting_board() {
    // On the standard starting board, placing arrow 2 on the piece at (1,5)
    // yields exactly one NewArrow event; applying it drops Red's budget from
    // 12 to 11 and marks arrow 2 active.
    let mut board = Board::default();
    let mv = OctiMove::Arrow(Position(1, 5), Arrow::new(2).unwrap());
    let events = board.move_events(&mv).unwrap();
    assert_eq!(events.len(), 1);
    assert_eq!(
        events[0],
        BoardEvent::NewArrow(Position(1, 5), Arrow::new(2).unwrap())
    );
    assert!(board.is_move_valid(&mv));
    assert_eq!(board.get_arr_count(&Team::Red), Some(12));
    board.make_move(&mv).unwrap();
    assert_eq!(board.get_arr_count(&Team::Red), Some(11));
    let octi = board.get_octi_by_pos(&Position(1, 5)).unwrap();
    assert!(octi.has_arr(&Arrow::new(2).unwrap()));
    assert_eq!(octi.arr_count(), 1);
    assert_eq!(board.turn(), Team::Green);
}

#[test]
fn repeated_arrow_placement_rejected() {
    // The same placement a second time fails with an already-active error
    // and leaves the board unchanged.
    let mut board = Board::default();
    let mv = OctiMove::Arrow(Position(1, 5), Arrow::new(2).unwrap());
    board.make_move(&mv).unwrap();
    // give the turn back to Red so only the arrow state can reject it
    board.set_turn(Team::Red);
    let budget_before = board.get_arr_count(&Team::Red);
    let result = board.make_move(&mv);
    assert_eq!(
        result,
        Err(MoveError::ArrowAlreadyActive(
            Position(1, 5),
            Arrow::new(2).unwrap()
        ))
    );
    assert_eq!(board.get_arr_count(&Team::Red), budget_before);
    assert_eq!(board.turn(), Team::Red);
    assert_eq!(
        board.get_octi_by_pos(&Position(1, 5)).unwrap().arr_count(),
        1
    );
}

#[test]
fn movement_without_arrow_rejected() {
    // A movement along arrow 1 before that arrow is active fails with a
    // does-not-hold-this-arrow error.
    let mut board = Board::default();
    let mv = OctiMove::Move(Position(1, 5), vec![Arrow::new(1).unwrap()]);
    let result = board.make_move(&mv);
    assert_eq!(
        result,
        Err(MoveError::ArrowNotOnOcti(
            Position(1, 5),
            Arrow::new(1).unwrap()
        ))
    );
    assert_eq!(board.turn(), Team::Red);
}

#[test]
fn capture_jump_events_and_budget_transfer() {
    // A piece with an active arrow facing an adjacent enemy with an empty
    // cell beyond jumps it: the events are [OctiEaten(mid),
    // NewOctiPosition(from, to), Div], and applying them transfers the eaten
    // piece's active-arrow count to the other team's budget.
    let mut board = capture_board();
    let mv = OctiMove::Move(Position(2, 3), vec![Arrow::new(2).unwrap()]);
    let events = board.move_events(&mv).unwrap();
    assert_eq!(events.len(), 3);
    assert_eq!(events[0], BoardEvent::OctiEaten(Position(2, 2)));
    assert_eq!(
        events[1],
        BoardEvent::NewOctiPosition(Position(2, 3), Position(2, 1))
    );
    assert_eq!(events[2], BoardEvent::Div);
    board.make_move(&mv).unwrap();
    assert!(board.get_octi_by_pos(&Position(2, 2)).is_none());
    assert!(board.get_octi_by_pos(&Position(2, 3)).is_none());
    let moved = board.get_octi_by_pos(&Position(2, 1)).unwrap();
    assert_eq!(moved.id(), 0);
    assert_eq!(moved.team(), Team::Red);
    // the eaten Green piece held one active arrow, paid to Red's budget
    assert_eq!(board.get_arr_count(&Team::Red), Some(12));
    assert_eq!(board.get_arr_count(&Team::Green), Some(11));
    assert_eq!(board.octis.len(), 1);
}

#[test]
fn simple_step_into_empty_cell() {
    let mut board = capture_board();
    // arrow 2 faces the enemy; give the piece arrow 0 (east) for a step
    board.make_move(&OctiMove::Arrow(Position(2, 3), Arrow::new(0).unwrap())).unwrap();
    board.set_turn(Team::Red);
    let mv = OctiMove::Move(Position(2, 3), vec![Arrow::new(0).unwrap()]);
    let events = board.move_events(&mv).unwrap();
    assert_eq!(events.len(), 1);
    assert_eq!(
        events[0],
        BoardEvent::NewOctiPosition(Position(2, 3), Position(3, 3))
    );
    board.make_move(&mv).unwrap();
    assert_eq!(board.get_octi_by_pos(&Position(3, 3)).unwrap().id(), 0);
}

#[test]
fn step_off_board_rejected() {
    let mut board = capture_board();
    // arrow 6 points south (y + 1); walk the piece to the bottom edge first
    let south = Arrow::new(6).unwrap();
    board.make_move(&OctiMove::Arrow(Position(2, 3), south)).unwrap();
    board.set_turn(Team::Red);
    board.make_move(&OctiMove::Move(Position(2, 3), vec![south])).unwrap();
    board.set_turn(Team::Red);
    board.make_move(&OctiMove::Move(Position(2, 4), vec![south])).unwrap();
    board.set_turn(Team::Red);
    board.make_move(&OctiMove::Move(Position(2, 5), vec![south])).unwrap();
    board.set_turn(Team::Red);
    // the piece stands at (2,6); a southward step leaves the board, and
    // since there is no piece to jump either, derivation reports the jump
    // landing at (2,8) as out of bounds
    let result = board.move_events(&OctiMove::Move(Position(2, 6), vec![south]));
    assert_eq!(result, Err(MoveError::OutOfBounds(Position(2, 8))));
}

#[test]
fn budget_conservation_across_moves() {
    // Each team's remaining budget plus all active arrows on the board
    // total the two starting budgets, before and after moves.
    let mut board = Board::default();
    assert_eq!(
        board.red_arrows + board.green_arrows + total_active_arrows(&board),
        24
    );
    board.make_move(&OctiMove::Arrow(Position(1, 5), Arrow::new(2).unwrap())).unwrap();
    board.make_move(&OctiMove::Arrow(Position(1, 1), Arrow::new(6).unwrap())).unwrap();
    assert_eq!(
        board.red_arrows + board.green_arrows + total_active_arrows(&board),
        24
    );
    let mut jump_board = capture_board();
    assert_eq!(
        jump_board.red_arrows + jump_board.green_arrows + total_active_arrows(&jump_board),
        24
    );
    jump_board.make_move(&OctiMove::Move(Position(2, 3), vec![Arrow::new(2).unwrap()])).unwrap();
    assert_eq!(
        jump_board.red_arrows + jump_board.green_arrows + total_active_arrows(&jump_board),
        24
    );
}

#[test]
fn position_index_is_inverse_of_positions() {
    // The position index pairs each piece's position with its identity,
    // and nothing else, before and after moves.
    let mut board = Board::default();
    board.make_move(&OctiMove::Arrow(Position(2, 5), Arrow::new(2).unwrap())).unwrap();
    board.set_turn(Team::Red);
    board.make_move(&OctiMove::Move(Position(2, 5), vec![Arrow::new(2).unwrap()])).unwrap();
    assert_eq!(board.pos_indexer.len(), board.octis.len());
    for (k, entry) in board.pos_indexer.iter().enumerate() {
        assert_eq!(entry.0, board.octis[k].pos());
        assert_eq!(entry.1, board.octis[k].id());
        let found = board.get_octi_by_pos(&entry.0).unwrap();
        assert_eq!(found.id(), entry.1);
    }
    for octi in board.octis.iter() {
        assert!(board
            .pos_indexer
            .iter()
            .any(|e| e.0 == octi.pos() && e.1 == octi.id()));
    }
}

#[test]
fn wrong_turn_and_missing_piece_rejected() {
    let board = Board::default();
    let green_arrow = OctiMove::Arrow(Position(1, 1), Arrow::new(2).unwrap());
    assert_eq!(
        board.move_events(&green_arrow),
        Err(MoveError::WrongTurn(Team::Red, Team::Green))
    );
    let nowhere = OctiMove::Arrow(Position(3, 3), Arrow::new(2).unwrap());
    assert_eq!(
        board.move_events(&nowhere),
        Err(MoveError::NoOcti(Position(3, 3)))
    );
    let bad_arrow = OctiMove::Arrow(Position(1, 5), Arrow(9));
    assert_eq!(
        board.move_events(&bad_arrow),
        Err(MoveError::ArrowNotOnOcti(Position(1, 5), Arrow(9)))
    );
}

#[test]
fn chain_may_return_to_vacated_start() {
    // A two-hop chain can land back on the square the mover vacated.
    let red = Octi { id: 0, team: Team::Red, pos: Position(2, 3), arrs: 0b0001_0001 };
    let g1 = Octi { id: 1, team: Team::Green, pos: Position(3, 3), arrs: 0 };
    let g2 = Octi { id: 2, team: Team::Green, pos: Position(1, 3), arrs: 0 };
    let mut board = Board {
        turn: Team::Red,
        bounds: standard_bounds(),
        octis: vec![red, g1, g2],
        pos_indexer: vec![
            (Position(2, 3), 0),
            (Position(3, 3), 1),
            (Position(1, 3), 2),
        ],
        red_arrows: 10,
        green_arrows: 12,
        next_id: 3,
    };
    // east jump over (3,3), then a west jump back over the same midpoint:
    // the landing cell is the vacated start, and the piece is not eaten twice
    let east = Arrow::new(0).unwrap();
    let west = Arrow::new(4).unwrap();
    let mv = OctiMove::Move(Position(2, 3), vec![east, west]);
    let events = board.move_events(&mv).unwrap();
    assert_eq!(events.len(), 5);
    assert_eq!(events[0], BoardEvent::OctiEaten(Position(3, 3)));
    assert_eq!(
        events[1],
        BoardEvent::NewOctiPosition(Position(2, 3), Position(4, 3))
    );
    assert_eq!(events[2], BoardEvent::Div);
    assert_eq!(
        events[3],
        BoardEvent::NewOctiPosition(Position(4, 3), Position(2, 3))
    );
    assert_eq!(events[4], BoardEvent::Div);
    board.make_move(&mv).unwrap();
    assert_eq!(board.get_octi_by_pos(&Position(2, 3)).unwrap().id(), 0);
    assert!(board.get_octi_by_pos(&Position(3, 3)).is_none());
    // only the jumped-over piece on the first hop was captured
    assert_eq!(board.octis.len(), 2);
}

#[test]
fn octi_accessors() {
    let statuses = [
        ArrowStatus::Active,
        ArrowStatus::Inactive,
        ArrowStatus::Inactive,
        ArrowStatus::Active,
        ArrowStatus::Inactive,
        ArrowStatus::Inactive,
        ArrowStatus::Inactive,
        ArrowStatus::Inactive,
    ];
    let octi = Octi::new(7, Team::Green, Position(4, 2), statuses);
    assert_eq!(octi.id(), 7);
    assert_eq!(octi.team(), Team::Green);
    assert_eq!(octi.pos(), Position(4, 2));
    assert_eq!(octi.arr_count(), 2);
    assert!(octi.has_arr(&Arrow::new(0).unwrap()));
    assert!(octi.has_arr(&Arrow::new(3).unwrap()));
    assert!(!octi.has_arr(&Arrow::new(1).unwrap()));
    let listed = octi.arr_iter();
    assert_eq!(listed.len(), 8);
    assert_eq!(listed[0], ArrowStatus::Active);
    assert_eq!(listed[1], ArrowStatus::Inactive);
    assert_eq!(listed[3], ArrowStatus::Active);
    let mut octi = octi;
    octi.add_arr(Arrow::new(5).unwrap());
    assert_eq!(octi.arr_count(), 3);
    octi.set_pos(Position(0, 0));
    assert_eq!(octi.pos(), Position(0, 0));
}

#[test]
fn geometry_accessors() {
    assert!(Arrow::new(8).is_err());
    assert_eq!(Arrow::new(3).unwrap().value(), 3);
    assert_eq!(Arrow::new(0).unwrap().direction(), Position(1, 0));
    assert_eq!(Arrow::new(5).unwrap().direction(), Position(-1, 1));
    let p = Position::new(2, -7);
    assert_eq!(p.x(), 2);
    assert_eq!(p.y(), -7);
    assert_eq!(p.abs(), Position(2, 7));
    assert_eq!(p.add(Position(1, 1)), Position(3, -6));
    assert_eq!(p.sub(Position(1, 1)), Position(1, -8));
    assert_eq!(p.mul(3), Position(6, -21));
    let b = BoardBounds::new(Position(0, 0), Position(5, 6));
    assert_eq!(b.lu(), Position(0, 0));
    assert_eq!(b.rd(), Position(5, 6));
    assert_eq!(b.width(), 6);
    assert_eq!(b.height(), 7);
    assert!(b.in_bounds(&Position(0, 6)));
    assert!(!b.in_bounds(&Position(-1, 3)));
    let board = Board::default();
    assert_eq!(board.bounds().lu(), Position(0, 0));
    assert_eq!(board.bounds().rd(), Position(5, 6));
}
