//! A turn and deck engine for a deck-building card game: card piles with
//! reshuffle-on-exhaustion, a shared supply, a recursive effect interpreter
//! and the turn loop that ties them together.

pub mod card_pile;
pub mod cards;
pub mod deck;
pub mod effects;
pub mod game;
pub mod logs;
pub mod play_area;
pub mod player_counters;
pub mod players;
pub mod shuffler;
pub mod supply;
pub mod turnstate;
