//! Poker hand evaluation and equity estimation.
//!
//! The crate classifies five-card hands, searches seven cards for the best
//! five-card hand, resolves the winners of a showdown and tallies the
//! outcome of repeated random run-outs of an unfinished board.
//!
//! - [`card`]: ranks, suits, cards, and their reading from text.
//! - [`poker_hand`]: the hand categories, their total order, and the
//!   classification of five cards.
//! - [`hand_meaning`]: what each category says of the cards of a hand.
//! - [`poker_utils`]: the combinations of five cards out of seven, the best
//!   hand, the deck, and the winners of a showdown.
//! - [`simulation`]: the tally of repeated run-outs.

pub mod card;
pub mod hand_meaning;
pub mod poker_hand;
pub mod poker_utils;
pub mod simulation;
