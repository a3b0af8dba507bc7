//! Mixed-doubles tournament scheduling: a greedy generator of games in which
//! no two players partner or face each other twice, and a packer that splits
//! the games into rounds of concurrent courts with byes.

pub mod game;
pub mod registry;
pub mod generator;
pub mod packer;

pub use game::{Game, Round, ScheduleError, Team};
pub use generator::{generate, generate_seeded};
pub use packer::pack;
pub use registry::{get_shared, remove_empty, remove_players, Registry};



