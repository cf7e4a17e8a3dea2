//! Reverse Polish Notation calculator: splits a formula into tokens and runs
//! them on an operand stack of signed 32-bit integers.
use vstd::prelude::*;

pub mod calc;
pub mod laws;
pub mod lexer;

pub use calc::{RpnCalculator, RpnError, Trace};

verus! {

} // verus!
