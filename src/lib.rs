//! Dice notation: parse a token such as `2d6`, roll it with a caller's
//! source of numbers, and total and show the outcome.
pub mod notation;
pub mod roll_cmd;
pub mod roll_result;

pub use roll_cmd::RollCmd;
pub use roll_result::RollResult;
