//! Server-side engine of a shared, incrementally grown dungeon: the room
//! model, the map and its growth rule, the item economy, the round life-cycle
//! and the registry of running games.

pub mod utils;
pub mod room;
pub mod gamestate;
mod random;
pub mod economy;
pub mod server_state;
pub mod http;
