//! Drives an agent through a grid maze that it only partially sees: each
//! turn reveals a small window of cells, and the agent must reach a goal
//! room and return to its origin within a round budget.
//!
//! The occupancy map merges the observation windows into tri-state
//! knowledge that only ever tightens; the path planner runs an informed
//! best-first search over the known cells and answers with a proven-valid
//! route or a proven `None`; the exploration planner walks toward unseen
//! territory with depth-bounded backtracking that never revisits a proven
//! dead end. A replay source can feed recorded mazes through the same
//! per-turn line protocol that live input uses.

pub mod a_star_algo;
pub mod board;
pub mod direction;
pub mod exploration;
pub mod game_sample;
pub mod range_helper;
pub mod vect2_t;
