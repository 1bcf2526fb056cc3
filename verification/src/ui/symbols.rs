//! The glyphs of the terminal board drawing, and the choice of glyph for
//! each arrow slot of a piece.

use vstd::prelude::*;

use crate::board::{has_arr_spec, Arrow, Octi};

verus! {

pub const HORIZONTAL_LINE: &'static str = "─";

pub const VERTICAL_LINE: &'static str = "│";

pub const RIGHT_UP_EDGE: &'static str = "└";

pub const RIGHT_DOWN_EDGE: &'static str = "┌";

pub const LEFT_UP_EDGE: &'static str = "┘";

pub const LEFT_DOWN_EDGE: &'static str = "┐";

pub const RIGHT_BORDER: &'static str = "┤";

pub const LEFT_BORDER: &'static str = "├";

pub const UP_BORDER: &'static str = "┬";

pub const DOWN_BORDER: &'static str = "┴";

pub const INTERSECTION: &'static str = "┼";

pub const OCTI_TOP: &'static str = "╱▔▔╲";

pub const OCTI_BOTTOM: &'static str = "╲▁▁╱";

pub const OCTI_RIGHT_SIDE: &'static str = "▕";

pub const OCTI_LEFT_SIDE: &'static str = "▏";

pub const RED_OCTI_ARROW: &'static str = "╱╲";

pub const GREEN_OCTI_ARROW: &'static str = "╲╱";

pub const HORIZONTAL_ARROW: &'static str = "──";

pub const VERTICAL_LINE_ARROW: &'static str = "▕▏";

pub const RIGHT_SLANTED_ARROW: &'static str = "╱";

pub const LEFT_SLANTED_ARROW: &'static str = "╲";

pub const NO_HORIZONTAL_ARROW: &'static str = "  ";

pub const NO_VERTICAL_LINE_ARROW: &'static str = "  ";

pub const NO_RIGHT_SLANTED_ARROW: &'static str = " ";

pub const NO_LEFT_SLANTED_ARROW: &'static str = " ";

/// The glyph drawn in the arrow slot of a piece: each axis has its own
/// glyph when the arrow is active, and blanks of the same width when not.
pub fn arrow_symbol(octi: &Octi, arr: usize) -> (r: &'static str)
    requires
        arr < 8,
    ensures
        has_arr_spec(*octi, Arrow(arr)) ==> r@ == (if arr % 4 == 0 {
            HORIZONTAL_ARROW@
        } else if arr % 4 == 1 {
            RIGHT_SLANTED_ARROW@
        } else if arr % 4 == 2 {
            VERTICAL_LINE_ARROW@
        } else {
            LEFT_SLANTED_ARROW@
        }),
        !has_arr_spec(*octi, Arrow(arr)) ==> r@ == (if arr % 4 == 0 {
            NO_HORIZONTAL_ARROW@
        } else if arr % 4 == 1 {
            NO_RIGHT_SLANTED_ARROW@
        } else if arr % 4 == 2 {
            NO_VERTICAL_LINE_ARROW@
        } else {
            NO_LEFT_SLANTED_ARROW@
        }),
{
    if octi.has_arr(&Arrow(arr)) {
        match arr % 4 {
            0 => HORIZONTAL_ARROW,
            1 => RIGHT_SLANTED_ARROW,
            2 => VERTICAL_LINE_ARROW,
            _ => LEFT_SLANTED_ARROW,
        }
    } else {
        match arr % 4 {
            0 => NO_HORIZONTAL_ARROW,
            1 => NO_RIGHT_SLANTED_ARROW,
            2 => NO_VERTICAL_LINE_ARROW,
            _ => NO_LEFT_SLANTED_ARROW,
        }
    }
}

} // verus!
