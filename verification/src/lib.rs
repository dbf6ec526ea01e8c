//! Monte Carlo estimation of blackjack decision values.
//!
//! Cards come from an infinite deck, hands are played out under fixed house
//! rules (dealer stands on all 17s, double after split, no hole card, late
//! surrender, one split), and every payoff is counted in half bets so that all
//! arithmetic stays exact.

pub mod deck;
pub mod engine;
pub mod stats;
pub mod scheduler;
