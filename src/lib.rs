//! Exact discrete probability distributions over integer outcomes, such as
//! dice and dice pools.
//!
//! Chances are exact rationals, so every composition is computed without
//! rounding. Arithmetic that would not fit in the machine integers makes the
//! fallible operations return `None`.
use vstd::prelude::*;

pub mod chance;
pub mod probability;
pub mod compress;
pub mod die;
pub mod compose;
pub mod stats;
pub mod drop;
pub mod exploding;
pub mod laws;

pub use crate::chance::Chance;
pub use crate::compress::compress_additive;
pub use crate::die::{values_to_probabilities, Die};
pub use crate::drop::{drop_by_condition, prep, DropType};
pub use crate::exploding::{exploding_helper, ExplodingCondition};
pub use crate::probability::Probability;
pub use crate::stats::{calc_mean, calc_variance, Fraction};
