//! Optimizing compiler and interpreter for the eight-command tape-machine language.
use vstd::prelude::*;

/// Maps source text to tokens.
pub mod lexer;

/// Folds tokens into optimized instructions.
pub mod compile;

/// Runs compiled instructions one step at a time.
pub mod interpreter;

/// What the loop rewrites do to the cells around the pointer.
pub mod rewrite;

verus! {

/// Initial number of cells of a fresh tape; the tape grows when the pointer passes its end.
pub const INITIAL_MEMORY_CAPACITY: usize = 32;

/// Number of cells added past the pointer when the tape grows.
pub const MEMORY_RESIZE_AMOUNT: usize = 16;

} // verus!
