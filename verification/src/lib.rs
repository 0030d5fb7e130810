//! Constraint generation and trace population for an algebraic intermediate
//! representation over the Goldilocks field.
//!
//! A chip is built from registers, which name runs of columns, and
//! instructions, which state constraints over registers and write the cells
//! that make the constraints zero. A trace is a matrix of field elements with
//! a public and a global vector beside it. The library proves that the trace
//! it generates satisfies every constraint that its instructions state.
//!
//! - `field`, `polynomial`, `bigint`, `utils`: arithmetic.
//! - `register`, `builder`: columns and their allocation.
//! - `parser`, `gadget`: the surface that constraints are stated against.
//! - `bytes`, `mul_const`, `instruction`: the instructions.
//! - `trace`, `chip`, `partition`: the trace and its generation, row after
//!   row or in parts.
//! - `blake2b`: the hash function and the check of hash chains.

pub mod bigint;
pub mod blake2b;
pub mod builder;
pub mod bytes;
pub mod chip;
pub mod error;
pub mod field;
pub mod gadget;
pub mod instruction;
pub mod mul_const;
pub mod params;
pub mod parser;
pub mod partition;
pub mod polynomial;
pub mod register;
pub mod trace;
pub mod utils;
