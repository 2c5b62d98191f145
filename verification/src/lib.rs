//! Five-card poker hand ranking and heads-up equity evaluation.
//!
//! A hand is packed into a canonical 64-bit key, a score table maps every
//! five-card key to a dense strength rank (0 is the strongest), and the
//! evaluator tallies wins and losses of a pair of hole cards over board
//! completions and opponent holdings.

pub mod card;
pub mod census;
pub mod combos;
pub mod hand;
pub mod text;
pub mod table;
pub mod category;
pub mod strength;
pub mod counts;
pub mod eval;
