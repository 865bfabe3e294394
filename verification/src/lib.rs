//! A Monte Carlo trial engine for Texas hold'em equity estimation.
//!
//! [`holdem::MonteCarloGame`] owns a fixed set of two-card hands, an optional
//! partial board, and the pool of cards that are left. Each trial completes
//! the board from the pool, ranks every hand and names the winner.

pub mod cards;
pub mod holdem;
