//! Move-generation and scoring engine for a Scrabble-like word-placement game.
//!
//! The crate models the board, the rack, placement building, word extraction
//! and scoring, and the exhaustive candidate search, each with a verified
//! contract. Network transport, configuration and token handling are outside
//! collaborators: they hand the engine plain snapshot values and take plain
//! play values back.

pub mod board;
pub mod config_models;
pub mod dictionary;
pub mod rack;
pub mod search;
pub mod selection;
pub mod serializers;
pub mod text;
pub mod tiles;
pub mod utilities;
