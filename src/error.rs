use vstd::prelude::*;

verus! {

/// Every failure the library reports.
#[derive(Clone, Copy, Debug, PartialEq, Eq, Structural)]
pub enum Error {
    InvalidDenominator,
    InvalidInteger,
    InvalidIntegerPart,
    InvalidFractionalPart,
    InvalidMinInteger,
    InvalidMaxInteger,
    Overflow,
    RangeInverted,
    OrderIdTooLong,
    AssetTooLong,
    BookFull,
    DuplicateOrderId,
}

impl Error {
    /// A short human-readable description of the failure.
    pub fn message(&self) -> &'static str {
        match self {
            Error::InvalidDenominator => "Denominator cannot be zero",
            Error::InvalidInteger => "Invalid integer",
            Error::InvalidIntegerPart => "Invalid integer part",
            Error::InvalidFractionalPart => "Invalid fractional part",
            Error::InvalidMinInteger => "invalid min integer",
            Error::InvalidMaxInteger => "invalid max integer",
            Error::Overflow => "arithmetic overflow",
            Error::RangeInverted => "min must be <= max",
            Error::OrderIdTooLong => "order_id too long",
            Error::AssetTooLong => "asset too long",
            Error::BookFull => "order book full",
            Error::DuplicateOrderId => "order_id already in book",
        }
    }
}

} // verus!
