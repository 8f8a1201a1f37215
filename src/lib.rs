//! Neuroevolution of augmenting topologies: genomes whose structure and
//! parameters evolve together, kept acyclic by construction.
pub mod activation;
pub mod aggregations;
pub mod alignment;
pub mod configuration;
pub mod crossover;
pub mod genome;
pub mod mutation;
pub mod network;
pub mod node;
pub mod random;
pub mod reproduction;
pub mod speciation;
pub mod tictactoe;
