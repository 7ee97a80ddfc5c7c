//! A fixed-timestep particle engine on fixed-point coordinates: Verlet
//! integration, a uniform-grid broad phase, iterative overlap relaxation and
//! wall bounces, with every arithmetic step saturating instead of wrapping.
//!
//! Lengths, forces and hues are 32-bit integers that count hundred
//! thousandths of a world unit or of a degree; time is counted in
//! nanoseconds. Quotients round toward zero and square roots round down.
//!
//! The balls live in four sequences of equal length: positions and hues in
//! the snapshot that the engine publishes, previous positions and
//! accumulated forces in the engine itself. Every function of the engine
//! says what it makes of these as a whole, in terms of the `World` they
//! form; what holds of the engine over many steps is proved from that in
//! the modules `shape`, `clearance`, `separation`, `pairs`, `settle`,
//! `motion` and `course`.
pub mod clearance;
pub mod constants;
pub mod contact;
pub mod course;
pub mod fixed;
pub mod grid;
pub mod motion;
pub mod pairs;
pub mod physics;
pub mod relax;
pub mod separation;
pub mod settle;
pub mod shape;
pub mod vector;
pub mod wall;
pub mod world;
