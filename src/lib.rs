//! Matching core of a peer-to-peer lending order book: exact rationals,
//! validated closed intervals, a sorted bounded order book and range-overlap
//! matching.

pub mod error;
pub mod numeral;
pub mod rational;
pub mod interval;
pub mod order;
pub mod matching;
