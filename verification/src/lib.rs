//! Words With Fam: the rules engine of a Words With Friends game for a family,
//! the views the UI is shown, and the game logic behind its HTTP API.
pub mod api;
pub mod engine;
pub mod helpers;
pub mod store;
pub mod view;
