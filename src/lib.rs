//! A population of point-like molecules diffusing by random walk inside a
//! sphere, colliding and reacting, with the population of each species
//! recorded over time.
//!
//! Lengths, radii and speeds are fixed-point integers in thousandths of a
//! length unit (`vector::SCALE`); the domain has a radius of 500 units and the
//! broad phase uses cubic cells of 10 units. Probabilities are parts of
//! `probability::PROB_ONE`.
//!
//! - `vector`, `element`, `molecule`, `moved_molecule`, `collided_molecule`:
//!   the geometry and the motion step.
//! - `reaction_registry`: collision keys, outcomes and the random trial.
//! - `simulation`: bucketing, greedy pairing within a bucket, the timestep and
//!   the run loop.
//! - `value_board`: population counts and their comma-separated rendering.
//! - `parser`, `brenda`, `declarations`: the reaction description language.
//! - `environment`: species, reactions and molecules built from declarations.
//! - `random`, `tables`: the random generator and hash tables used.
pub mod brenda;
pub mod collided_molecule;
pub mod declarations;
pub mod element;
pub mod environment;
pub mod molecule;
pub mod moved_molecule;
pub mod parser;
pub mod probability;
pub mod random;
pub mod reaction_registry;
pub mod simulation;
pub mod tables;
pub mod value_board;
pub mod vector;
