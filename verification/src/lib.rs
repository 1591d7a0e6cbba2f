//! A factory placement puzzle: a board with deposits and obstacles, products
//! made from the deposits' resources, and a number of turns. The crate
//! holds the board and the rules for placing buildings on it, the round by
//! round run of a scene, and the search for buildings that score.
//!
//! - `geometry`, `templates`, `building`, `board`, `scene`: positions,
//!   footprints, buildings and the scene they make up.
//! - `placement`, `validate`: placing and removing buildings; checking a
//!   scene.
//! - `flow`, `conservation`, `balance`, `bounds`: running a scene, and
//!   what holds of every run.
//! - `dto`: tasks and solutions.
//! - `grid`, `region`, `partition`, `cluster`, `distance`, `stats`: the
//!   regions of a board, distances on it, and where factories can stand.
//! - `tree`, `path_stats`, `connect`, `search`, `tour`, `schedule`,
//!   `combine`: the search for connections, what it makes of a scene, and
//!   the composition of what it finds.
//! - `theorems`: what follows for every scene.

pub mod balance;
pub mod board;
pub mod bounds;
pub mod building;
pub mod cluster;
pub mod combine;
pub mod connect;
pub mod conservation;
pub mod distance;
pub mod dto;
pub mod error;
pub mod flow;
pub mod geometry;
pub mod grid;
pub mod partition;
pub mod path_stats;
pub mod placement;
pub mod region;
pub mod resources;
pub mod scene;
pub mod schedule;
pub mod search;
pub mod solver_error;
pub mod stats;
pub mod templates;
pub mod theorems;
pub mod tour;
pub mod tree;
pub mod validate;
