//! A plate solver for a telescope, and the log of what it sees.
//!
//! The solver tells where a camera points, by the stars in its image. The search for
//! a match is that of the tetra3 crate; this crate prepares it, drives it from one
//! field of view to the next, and turns what it finds into what the callers want to
//! know (`database`, `request`, `seeds`, `settings`, `solve`, `catalog`, `pose`, `plate`, `solver`).
//! The log says which frames and which slews are worth a line, and what the line
//! holds (`observation_log`, `json`, `clock`).
//!
//! Floating-point numbers are held by their bits, and reckoned with exactly as
//! IEEE 754 asks (`number`, `rounding`, `arithmetic`, `single`, `duration`).

pub mod angle;
pub mod arithmetic;
pub mod attitude;
pub mod benchmark;
pub mod catalog;
pub mod clock;
pub mod database;
pub mod duration;
pub mod error;
pub mod geometry;
pub mod json;
pub mod number;
pub mod observation_log;
pub mod order;
pub mod plate;
pub mod pose;
pub mod request;
pub mod rounding;
pub mod seeds;
pub mod settings;
pub mod single;
pub mod solve;
pub mod solver;
pub mod text;
