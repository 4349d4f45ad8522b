//! Authoritative simulation core of a two-team arena match: the board,
//! the entities that live on it, and the per-tick pipeline that advances
//! them and produces a compact view of the world for each player.

pub mod animation;
pub mod board;
pub mod cell;
pub mod entities;
pub mod errors;
pub mod game;
pub mod minion_manager;
pub mod monster_manager;
pub mod packet;
pub mod projectile;
