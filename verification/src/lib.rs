//! A quantum-circuit transpiler core: Pauli strings and exponentials, a greedy
//! synthesizer that rewrites a list of Pauli exponentials into rotations of a
//! fixed even gate size, a Clifford tableau with its decomposition back into
//! rotations, and a hypergraph connectivity model with Steiner-tree routing.

use vstd::prelude::*;

pub mod bits;
pub mod misc;
pub mod pauli;
pub mod pauli_string;
pub mod pauli_exp;
pub mod clifford_tableau;
pub mod decompose;
pub mod hypergraph;
pub mod connectivity;
pub mod synthesize;
pub mod exp_format;
pub mod measure;

verus! {

} // verus!
