//! Planning and bookkeeping for batches of ARGoS swarm-robotics experiments:
//! the experiment grid and its random order, perfect-maze arenas, and the
//! reading of the simulator's `BUZZ:` output lines.

pub mod arena;
pub mod config;
pub mod maze;
pub mod monitor;
pub mod plan;
mod random;
pub mod text;
