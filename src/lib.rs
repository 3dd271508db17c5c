//! Rules engine for a tile-placement castle-building game.
//!
//! Rooms carry a typed connector on each of their four edges; a castle is a
//! grid of placed rooms plus an outstanding damage counter. The engine decides
//! which placements, moves, swaps and discards are legal, applies them, and
//! computes links, power and treasure.
pub mod actions;
pub mod castle;
pub mod discards;
pub mod enumerate;
pub mod error;
pub mod laws;
pub mod links;
pub mod order;
pub mod room;

pub use actions::Action;
pub use castle::{Castle, PlacedRoom, Pos, Rot};
pub use error::{CastleError, RoomError};
pub use room::connection::Connection;
pub use room::simple_room::SimpleRoom;
pub use room::Room;
