//! The trial engine for Texas hold'em.

pub mod error;
pub mod model;
pub mod monte_carlo_game;
pub mod setup;
pub mod trial;

pub use self::error::GameError;
pub use self::model::GameView;
pub use self::monte_carlo_game::MonteCarloGame;
