//! Turn-based simulation core of a grid-world roguelike: the dungeon map with
//! its occupancy index, field-of-view computation, combat resolution, the
//! monster decision policy, and the run-state machine that sequences a turn.

pub mod actor;
pub mod combat;
pub mod data_read;
pub mod fov;
pub mod map;
pub mod messagelog;
pub mod monster;
pub mod state;
pub mod world;
pub mod worldgen;
