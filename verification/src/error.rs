//! The ways in which an operation on braids can fail.

use vstd::prelude::*;

verus! {

/// Why an operation on a braid or a permutation was refused.
#[derive(Debug, Clone, Copy, PartialEq, Eq, Structural)]
pub enum BraidError {
    /// Two braids on different numbers of strands were combined.
    MismatchedStrands,
    /// A generator index is zero or not below the strand count, or a slice
    /// that should be a permutation of `1..=n` is not one.
    InvalidGenerator,
    /// An operation defined on positive words met an inverse generator.
    NonPositiveWord,
    /// An internal invariant of the normal form computation was broken.
    /// The computation is proved never to report this.
    InvariantViolation,
    /// The left-weighting used up the moves that it is allowed. The moves
    /// are proved to suffice, so the computation never reports this.
    WeightingDivergence,
    /// The operating system's random source could not be read.
    RandomSource,
}

} // verus!
