//! Core of a NEAT engine: genomes that encode evolvable network topologies,
//! their alignment and compatibility distance, the phenotype network built
//! from a genome, and clustering of genomes into species.
//!
//! Real-valued quantities (weights, coefficients, distances, fitness) are held
//! in fixed point: an integer counts millionths of a unit (see `SCALE`).
mod align;
mod error;
mod gene;
mod genome;
mod network;
mod node;
mod population;
mod random;
mod settings;
mod species;

pub use align::get_difference_values;
pub use error::NeatError;
pub use gene::{Gene, SCALE};
pub use genome::{mutate_weight, Genome, MAX_TRIES_MUTATIONS};
pub use network::Network;
pub use node::{LinkFrom, LinkTo, Node, NodeType};
pub use population::NEAT;
pub use settings::Settings;
pub use species::Species;
