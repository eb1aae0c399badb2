//! Deterministic simulation core of a two-dimensional arena combat game.
//!
//! Characters of two teams move in a bounded arena, fire projectiles at one
//! another and at obstacles, and leave explosions behind when they are
//! destroyed. Everything is computed on an integer grid, one fixed timestep
//! at a time, so that equal inputs give equal matches.
//!
//! A [`session::Session`] is driven from outside by three calls: `start`,
//! `tick` and `reset`. Each tick follows the intents it is given, moves what
//! can move, resolves collisions, ages all timers and carries out what the
//! collisions caused, in this order.

pub mod collision;
pub mod entity;
pub mod geometry;
pub mod guarantees;
pub mod lifecycle;
pub mod movement;
pub mod registry;
pub mod rules;
pub mod session;
