//! Braid words on a fixed number of strands and their Garside left normal form.

pub mod braid;
pub mod error;
pub mod ordered_set;
pub mod permutation;
pub mod prelude;
pub mod rng;
pub mod strands;
