//! A trainer for reversible switching networks: layered Boolean circuits
//! built from three-wire switch/invert blocks whose connectivity is a
//! permutation.  A network evaluates forward (input to output) and backward
//! (desired output to required input, the exact algebraic inverse), scores
//! itself against example sets with an exact rational error, and searches the
//! discrete space of permutations and invert bits with blind and informed
//! local mutations.

pub mod layer;
pub mod network;
pub mod ratio;
pub mod rng;
pub mod training;
pub mod wires;
