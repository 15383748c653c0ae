//! Dice notation and rolling: sets of dice, modifiers that reroll, explode or
//! keep dice, and the totals of the resulting rolls.

pub mod condition;
pub mod dice;
pub mod error;
pub mod laws;
pub mod modifier;
mod order;
pub mod roll;
mod rng;
pub mod text;

pub use condition::Condition;
pub use dice::{Builder, Dice};
pub use error::Error;
pub use modifier::Modifier;
pub use roll::{DieRoll, RollView, Rolled};
