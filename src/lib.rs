//! Structural core of a small state-vector quantum simulator: qubit index
//! arithmetic, classical-function oracles as basis permutations, symbolic gate
//! expressions, and the tokenizer and planner of a tiny circuit language.
use vstd::prelude::*;

pub mod complex;
pub mod vector;
pub mod matrix;
pub mod qubits;
pub mod oracle;
pub mod lexer;
pub mod gates;
pub mod emulator;

verus! {

} // verus!
