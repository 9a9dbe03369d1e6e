use vstd::prelude::*;

verus! {

/// What a computation of the engine reports instead of a value.
#[derive(Clone, Copy, Debug, PartialEq, Eq, Structural)]
pub enum EngineError {
    /// A result does not fit the fixed-width type that the caller asked for.
    ArithmeticOverflow,
    /// An exact division in the closed form of a prime power's divisor sum left
    /// a remainder.
    InternalInvariantViolation,
    /// A table of primes that is not strictly ascending, or holds an entry
    /// below 2.
    MalformedPrimeTable,
}

} // verus!
