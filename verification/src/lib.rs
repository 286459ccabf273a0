//! Core engine of a falling-block arithmetic puzzle.
//!
//! Numbered, colored blocks descend a bounded grid. A block locks in place
//! when it lands; same-colored blocks connected to the newly locked block
//! receive an arithmetic update; blocks whose number reaches a multiple of
//! ten are cleared and scored; blocks left floating above a cleared cell
//! fall to close the gap; the round ends when a new block cannot spawn.
//!
//! This crate holds the grid state machine and cascade-resolution engine:
//! the occupancy map, the falling-piece controller, the same-color
//! flood-fill resolver, the arithmetic/clear pipeline, the gravity
//! compactor, and the spawn gate. Rendering, audio and input devices are
//! external collaborators that talk to the engine through plain values.

pub mod arith;
pub mod block;
pub mod board;
pub mod coords;
pub mod game;
pub mod gravity;
pub mod piece;
pub mod pipeline;
pub mod propagate;
pub mod rng;
