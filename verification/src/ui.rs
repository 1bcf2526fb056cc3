//! The parts of the terminal presentation that are pure logic: the size of
//! the drawn board and the glyph chosen for each arrow slot.

pub mod board;
pub mod symbols;
