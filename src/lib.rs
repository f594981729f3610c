//! Lattice-based homomorphic encryption over the discretized torus `Z / 2^W Z`: LWE and GLWE
//! ciphertexts, linear combinations, key switching by gadget decomposition, programmable
//! bootstrapping by blind rotation, and GLWE multiplication by tensor product and
//! relinearization. Polynomial products are exact negacyclic products. Randomness (masks, errors,
//! key draws) is handed in by the caller, so every operation is a function of its arguments.
use vstd::prelude::*;

pub mod bootstrap;
pub mod decomposition;
pub mod encoding;
pub mod engine;
pub mod error;
pub mod fixture;
pub mod glwe;
pub mod keyswitch;
pub mod lwe;
pub mod multiplication;
pub mod polynomial;
pub mod torus;

verus! {

} // verus!
