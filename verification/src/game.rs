//! The game in one place: the board, the dice, the statistics and the
//! simulation, as most callers want them.

pub use crate::board::ShutTheBox;
pub use crate::dice::Dice;
pub use crate::simulation::simulate_game;
pub use crate::statistics::{SaveError, Statistics};
