//! Empirical search for Collatz counterexamples: an accelerated convergence
//! test, a residue sieve modulo a power of two, and a batch driver over
//! windows of consecutive integers.
use vstd::prelude::*;

pub mod arith;
pub mod batch;
pub mod bitset;
pub mod power;
pub mod sieve;
pub mod soundness;
pub mod stepper;
pub mod track;
