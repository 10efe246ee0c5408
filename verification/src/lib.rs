//! Exhaustive search for countdown formulas: postfix expressions over the
//! digits 9..1, taken in that order, that evaluate to a chosen integer.
//!
//! A formula is a set of operator positions among its seventeen tokens
//! ([`positions`]) together with an arrangement of eight operators
//! ([`dispositions`], numbered through [`radix`]). [`formula`] evaluates it
//! on a stack with exact arithmetic ([`operator`]) and writes it in postfix
//! notation, [`postfix_to_infix`] turns that into infix notation, and
//! [`algorithm`] runs over all candidates, in one piece or in parts
//! ([`partition`]); [`solutions`] says what such a search finds. [`report`]
//! puts the texts of the solutions in the order in which they are shown.

pub mod algorithm;
pub mod dictionary;
pub mod dispositions;
pub mod formula;
pub mod integer_pack;
pub mod operator;
pub mod partition;
pub mod positions;
pub mod postfix_to_infix;
pub mod radix;
pub mod report;
pub mod solutions;
pub mod text;
pub mod unpack;
mod vectors;
