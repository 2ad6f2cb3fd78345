//! The game engine: board, tile bag, dictionary, move validation, scoring and
//! the turn-by-turn game state machine.
pub mod constants;
pub mod board;
pub mod text;
pub mod dictionary;
pub mod bag;
pub mod validation;
pub mod scoring;
pub mod rack;
pub mod game;
pub mod fits;

pub use board::Placement;
pub use dictionary::Dictionary;
pub use game::GameEngine;
