//! Encoding of phone numbers as sequences of dictionary words and single
//! digits.
//!
//! A dictionary maps digit keys to the words that spell them on a fixed
//! keypad. For a number, the search enumerates every way to cut its digits
//! into dictionary words and lone digits, a filter decides which of them are
//! written, and the formatter appends each accepted one, as a line of bytes,
//! to an output buffer.

pub mod keypad;
pub mod segment;
pub mod dictionary;
pub mod filter;
pub mod format;
pub mod search;
pub mod shape;
