//! Exact-arithmetic observation counting.
//!
//! A [`CountingRatio`] records a set of counted observations as a raw
//! numerator/denominator pair of unsigned integers: how many trials were
//! seen, and how many of them satisfied a condition.  Unlike conventional
//! rational-number types, the pair is never reduced to lowest terms — the
//! counts are preserved exactly as recorded, so `1/2` and `2/4` stay
//! observably distinct even though they describe the same proportion.
//!
//! A [`BayesianCounter`] builds on the ratio type: it tallies joint
//! (example, label) observations and answers marginal and conditional
//! probability queries, all expressed as `CountingRatio` values computed
//! with integer arithmetic only.

pub mod bayes;
pub mod ratio;
pub mod render;

pub use bayes::BayesianCounter;
pub use ratio::CountingRatio;
