//! The drawn-board measurements and the arrow glyph choices.

use octi::board::state::Board;
use octi::board::{Octi, Position, Team};
use octi::ui::board::BoardUI;
use octi::ui::symbols;

#[test]
fn drawn_board_size() {
    let board = Board::default();
    let ui = BoardUI::new(&board);
    assert_eq!(ui.height(), 7 * 6 + 1);
    assert_eq!(ui.width(), 6 * 11 + 1);
}

#[test]
fn arrow_glyphs_follow_activation() {
    let active = Octi { id: 0, team: Team::Red, pos: Position(0, 0), arrs: 0b1111_1111 };
    let inactive = Octi { id: 1, team: Team::Green, pos: Position(1, 0), arrs: 0 };
    assert_eq!(symbols::arrow_symbol(&active, 0), symbols::HORIZONTAL_ARROW);
    assert_eq!(symbols::arrow_symbol(&active, 4), symbols::HORIZONTAL_ARROW);
    assert_eq!(symbols::arrow_symbol(&active, 1), symbols::RIGHT_SLANTED_ARROW);
    assert_eq!(symbols::arrow_symbol(&active, 2), symbols::VERTICAL_LINE_ARROW);
    assert_eq!(symbols::arrow_symbol(&active, 7), symbols::LEFT_SLANTED_ARROW);
    assert_eq!(symbols::arrow_symbol(&inactive, 0), symbols::NO_HORIZONTAL_ARROW);
    assert_eq!(symbols::arrow_symbol(&inactive, 5), symbols::NO_RIGHT_SLANTED_ARROW);
    assert_eq!(symbols::arrow_symbol(&inactive, 6), symbols::NO_VERTICAL_LINE_ARROW);
    assert_eq!(symbols::arrow_symbol(&inactive, 3), symbols::NO_LEFT_SLANTED_ARROW);
}
