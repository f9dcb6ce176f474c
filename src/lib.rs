//! Index arithmetic and request validation for a density-matrix simulator of
//! noisy quantum circuits on `n` qubits.
//!
//! A basis state of `n` qubits is an integer below `2^n` whose most significant bit
//! belongs to wire 0. `basis` computes, with proofs, where the tensor embedding of a
//! one-qubit operator, the Kronecker product and the CNOT permutation take their
//! entries from, and how a sampled basis index decodes into one bit per wire.
//! `gate` resolves named unitaries with their aliases and checks a request's arity
//! and wires before any matrix is built.

pub mod basis;
pub mod gate;
