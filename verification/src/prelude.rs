//! The names that most users of the library need.

pub use crate::braid::garside::{left_slide_delta_form, GarsideForm};
pub use crate::braid::segments::break_into_permutations;
pub use crate::braid::{BrGen, Braid};
pub use crate::error::BraidError;
pub use crate::permutation::{compose, from_slice_slow, Permutation, VecPermutation};
