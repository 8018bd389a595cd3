use vstd::prelude::*;

pub mod decode;
pub mod event;
pub mod game;
pub mod laws;
pub mod parser;
pub mod tally;
pub mod text;

pub use event::{Action, GameEvent};
pub use game::{Game, extract_player_name};
pub use parser::LogParser;
pub use tally::Tally;

verus! {

} // verus!
