//! Turn-resolution and movement-planning core for a grid-based tactical game.
//!
//! The crate has two coupled subsystems: a command queue / round scheduler
//! that sequences timed, interruptible actions (moves, turn passing, round
//! ending), and a movement planner that computes cost-limited reachable
//! cells and least-cost paths over a blocked/walkable grid.

pub mod pos;
pub mod token;
pub mod grid;
pub mod reach;
pub mod planner;
pub mod round;
pub mod systems;
pub mod assets;
