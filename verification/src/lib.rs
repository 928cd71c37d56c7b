//! A display pipeline for an 8x8 LED dot matrix: frames are 64-bit bitmaps sent
//! as lines of `'0'`/`'1'` text, checked and decoded by the receiver, and shown
//! row by row through two chained 74HC595 shift registers.
use vstd::prelude::*;

pub mod display_controller;
pub mod drivers;
pub mod protocol;
pub mod sender;
pub mod text;

verus! {

/// The logic level of a digital line.
#[derive(Debug, Clone, Copy, PartialEq, Eq, Structural)]
pub enum Level {
    Low,
    High,
}

} // verus!
