//! A neuroevolution engine: networks are encoded in bit-packed genes,
//! expressed into pruned recurrent computation graphs, and evolved through
//! fitness-proportionate asexual reproduction with point mutation.
//!
//! Scalar quantities (gene strengths, neuron states, fitness) are carried as
//! fixed-point integers with [`math::SCALE`] steps to the unit.

pub mod brains;
pub mod config;
pub mod genes;
pub mod math;
pub mod node;
pub mod organism;
mod rng;
pub mod text;
pub mod world;

pub use config::Config;
pub use node::{Node, NodeType};
pub use organism::Organism;
pub use world::{Creature, Environs, World};
