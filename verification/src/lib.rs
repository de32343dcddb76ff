//! Verified solvers for seven puzzles on lists, texts and grids.
//!
//! Every function of the library carries a contract that Verus proves, and
//! no function panics on an input that its contract admits.  The puzzles
//! are independent of each other; they share only the byte-level text
//! handling of [`text`]:
//!
//! - [`lists`]: two columns of numbers, their distance and similarity;
//! - [`reactor`]: rows of levels and the rule for safe rows;
//! - [`memory`]: multiplications in corrupted memory, with switches;
//! - [`wordsearch`]: a word in a grid of letters, and crosses of a word;
//! - [`pages`]: page ordering rules and the updates of a manual;
//! - [`patrol`]: a guard patrolling a grid, and the obstructions that
//!   would send it round in a loop;
//! - [`calibration`]: equations with the operators left out.
//!
//! Texts are read as bytes.  Where a solver sums up numbers, a `checked_`
//! variant tells whether the sum fits, and the plain variant asks for it.

pub mod calibration;
pub mod lists;
pub mod memory;
pub mod pages;
pub mod patrol;
pub mod reactor;
pub mod text;
pub mod wordsearch;
