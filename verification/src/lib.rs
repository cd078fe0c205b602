//! The rules of a falling-blocks game: the seven pieces and their turns,
//! the playing field with collision, settling and line clearing, the
//! actions that move the falling piece, the bag of pieces to deal, and the
//! decisions of keyboard handling and drawing.

use vstd::prelude::*;

pub mod piece;
pub mod board;
pub mod game;
pub mod bag;
pub mod input;
pub mod display;

verus! {

} // verus!
