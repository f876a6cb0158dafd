//! A circular card-passing game: each player draws from their own deck, keeps
//! or swaps the card, and discards into the next player's deck, until one of
//! them holds four cards of a single rank.
//!
//! Decks live in an arena owned by the game session; players refer to them by
//! index. Every deck operation goes through `&mut`, so each deck is mutated by
//! one turn at a time.

pub mod card;
pub mod deck;
pub mod player;
pub mod game;
