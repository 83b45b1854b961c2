//! An interactive matrix-multiplication console, split into a verified core:
//! two editable text buffers driven by keystroke events, a parser that turns
//! a buffer into a rectangular matrix of signed 64-bit integers, and a
//! multiplication engine that computes the product either in one pass or as
//! independently computed row ranges reassembled in order.

pub mod buffer;
pub mod cell;
pub mod editor;
pub mod matrix;
pub mod parse;
pub mod multiply;

use vstd::prelude::*;

verus! {

}
