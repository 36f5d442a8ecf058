//! The solitaire game "10-20-30": a double-ended pile of cards, the rule that
//! collects three cards summing to ten, twenty or thirty, and the engine that
//! plays one whole game.

pub mod engine;
pub mod resolver;
pub mod stack;
pub mod stats;

pub use engine::{deal, game, pile_turn, play, play_out, settle, simulate_one_game, Finished};
pub use resolver::turn;
pub use stack::{CardStack, EmptyStackError};
pub use stats::Tally;
