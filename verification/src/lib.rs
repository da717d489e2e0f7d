//! Exact, composition-dependent expected values for blackjack decisions,
//! together with a shoe-backed hand simulator driven by those values.
//!
//! Probabilities and expected values are kept as exact integer-scaled
//! rationals (a signed numerator over a positive scale), never as floats,
//! so every distribution sums to exactly its scale and repeated queries
//! return identical results.

pub mod cards;
pub mod deck;
pub mod dealer;
pub mod ev;
pub mod sim;
