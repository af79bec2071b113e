//! Error values returned by the matching engine.

use vstd::prelude::*;

verus! {

/// Every failure the engine can report to a caller.
///
/// Validation errors (`InvalidPrice`, `InvalidQuantity`) come from the value
/// constructors; `OrderNotFound`, carrying the unknown id, from cancelling
/// it; `InsufficientQuantity` from quantity arithmetic that would underflow.
/// `InvariantViolation` is reserved for states the verified core proves
/// unreachable, and `SerializationError` / `DeserializationError` for the
/// snapshot codec.
#[derive(Debug, Clone, PartialEq)]
pub enum MatchingEngineError {
    InvalidPrice(&'static str),
    InvalidQuantity(&'static str),
    OrderNotFound(u128),
    InsufficientQuantity { requested: u64, available: u64 },
    InvalidOrderSide,
    EmptyOrderBook,
    SerializationError(&'static str),
    DeserializationError(&'static str),
    InvariantViolation(&'static str),
}

} // verus!
