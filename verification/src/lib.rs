//! Procedural dungeon layout generation and room lifecycle control.
//!
//! The crate builds a connected set of room coordinates on a fixed grid by
//! randomized expansion from a start room, picks a boss room among the leaf
//! rooms, assembles the result into a dense grid of room records, and drives
//! each room's Closed -> Active -> Finished lifecycle in response to player
//! transitions and enemy-death signals, opening doors when a room finishes.

pub mod map_generation;
pub mod random;
pub mod room;
pub mod room_generation;
