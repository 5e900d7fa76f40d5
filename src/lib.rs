//! A three-bit register machine and a search for register values that make
//! a program print itself.
//!
//! `machine` holds the interpreter: instruction decoding, one-instruction
//! execution and whole-program runs with a step budget. `synth` searches for
//! an initial value of register A that makes a program reproduce its own
//! words. `puzzle` reads the textual puzzle input and renders results.
//!
//! Beside the machine stand smaller puzzle solvers over the same kind of
//! textual input, sharing the line and number readers of `text`: `lists`
//! (distance and similarity of two sorted lists), `reports` (monotone level
//! reports), `stones` (stones that split or grow on each blink) and `claw`
//! (claw machines solved by Cramer's rule).

pub mod machine;
pub mod synth;
pub mod puzzle;
pub mod text;
pub mod reports;
pub mod lists;
pub mod stones;
pub mod claw;
