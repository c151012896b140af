//! A NEAT-style neuroevolution core: genomes (sparse node/edge graphs) are
//! compiled into phenotypes (adjacency lists with a topological evaluation
//! order), evaluated by forward passes, grouped into species by a
//! compatibility distance, and persisted through a small binary codec.
//!
//! Scalar network quantities (edge weights, node values, fitness scores) are
//! carried as IEEE 754 binary32 bit patterns in `u32` fields; the arithmetic
//! on them is performed by a software float implementation behind a few
//! trusted wrappers, so that everything around the arithmetic is verified.
use vstd::prelude::*;

pub mod codec;
pub mod config;
pub mod float_bits;
pub mod neuralnetwork;
pub mod phenotype;
pub mod solver;
pub mod species;

pub use neuralnetwork::NeuralNetwork;
pub use solver::Solver;

verus! {

/// The errors the core reports. No operation retries or partially applies:
/// every failure is surfaced as one of these.
#[derive(Debug, Clone, Copy, PartialEq, Eq, Structural)]
pub enum NeatError {
    /// An edge references a node id that the genome does not contain.
    InvalidGenome,
    /// `compute` was called with an input vector of the wrong length.
    InputArityMismatch,
    /// Persisted bytes do not describe a well-formed value.
    DecodeError,
}

} // verus!
