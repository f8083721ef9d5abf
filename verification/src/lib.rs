//! Simulation of quantum circuits.
//!
//! A circuit can be simulated with all of its amplitudes ([`statevector_shots`]), with a matrix
//! product state ([`mps_shots`]) or, where it is a Clifford circuit, with a tableau of
//! stabilizers ([`stabilizer_shots`]).

use vstd::prelude::*;

pub mod bits;
pub mod circuit;
pub mod clifford_laws;
pub mod clock;
pub mod codecs;
pub mod complex;
pub mod config;
pub mod controlled_laws;
pub mod counts;
pub mod engine;
pub mod engine_laws;
pub mod exact_laws;
pub mod flow_laws;
pub mod fusion;
pub mod gate_error;
pub mod gate_laws;
pub mod gate_matrix;
pub mod gates;
pub mod guards;
pub mod instruction;
pub mod measure;
pub mod mps;
pub mod mps_counters;
pub mod mps_gates;
pub mod mps_kernel;
pub mod mps_laws;
pub mod mps_pair;
pub mod mps_routing;
pub mod mps_run;
pub mod mps_shots;
pub mod mps_state;
pub mod mps_svd;
pub mod mps_tensor;
pub mod pblock;
pub mod product_laws;
pub mod profiling;
pub mod random;
pub mod reduction_laws;
pub mod remote_laws;
pub mod run_laws;
pub mod sampling;
pub mod sampling_laws;
pub mod stabilizer;
pub mod stabilizer_laws;
pub mod stabilizer_shots;
pub mod statevector;
pub mod statevector_shots;
pub mod terminal;
pub mod text;
pub mod truncation;
pub mod unit_laws;
pub mod weight_laws;
pub mod wide_gate;

verus! {

} // verus!
