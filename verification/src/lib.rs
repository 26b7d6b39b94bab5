//! A blackjack advisory library: it estimates, by repeated randomized
//! trials, the win/loss/tie distribution and the expected value of each
//! candidate player action (stand, hit, split-then-hit) for a given game
//! state.
//!
//! The library keeps every quantity exact: a deck is a vector of counts
//! per rank, and a finished simulation is reported as win/loss/tie
//! counters over a trial count, so that the three probabilities sum to
//! one by construction.  Turning those counters into floating-point
//! probabilities and a monetary expected value is left to the caller.

pub mod card;
pub mod deck;
pub mod engine;
pub mod game;
pub mod hand;

pub use card::Card;
pub use deck::Deck;
pub use engine::{ActionOutcomes, GameError, InputField, NumberKind, ProbabilityValueOutcomes, UserDataState};
pub use game::{BlackJackAction, GameOutcome};
