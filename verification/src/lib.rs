//! Simulation core of a turn-based, tile-based dungeon crawler: level generation,
//! combat, monster behaviour and the turn state machine.

pub mod rng;
pub mod text;
pub mod game_object;
pub mod schema;
pub mod config;
pub mod game_object_registry;
pub mod tile;
pub mod tile_registry;
pub mod grid;
pub mod dungeon;
pub mod spanning;
pub mod entity;
pub mod consumable;
pub mod chest;
pub mod message;
pub mod combat;
pub mod map_generator;
pub mod ai;
pub mod game_state;
pub mod api;
