//! Odds of the dice-based attack rule of War: one round of combat, an attack fought to its end,
//! repeated trials of an attack, and tables of win rates by troop counts.
//!
//! Rates are fixed-point integers in parts per `RATE_SCALE`; sums of troop counts are exact.

pub mod dice;
pub mod territory;
pub mod estimate;
pub mod table;
