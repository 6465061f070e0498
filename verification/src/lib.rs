//! A personal scheduling engine: it ranks the tasks of each time segment, hands out the
//! segment's time to them, and lists what every task was offered.
//!
//! `rank` puts tasks in order, `pack` gives them time, `compose` does both for every segment
//! and merges the outcome. `command`, `record` and `text` hold what lies between the engine
//! and the command line, the store and the terminal.

pub mod command;
pub mod compose;
pub mod error;
pub mod model;
pub mod pack;
pub mod parse;
pub mod rank;
pub mod record;
pub mod stable;
pub mod text;
