//! A decode index for fixed-width instruction words.
//!
//! Instruction kinds are registered as masked bit patterns, the index is
//! frozen once, and raw words are then resolved to the payload of the
//! pattern that matches them.
//!
//! - [`pattern`]: what is registered.
//! - [`index`]: the index itself, with `register`, `freeze` and `lookup`.
//! - [`laws`]: what holds of every index.
//! - [`bits`]: the bit-level vocabulary of the contracts.
//! - [`text`]: patterns written as text, such as `8b1?_01`.
//! - [`csr`]: layout rules for the fields and addresses of control and
//!   status registers.

pub mod bits;
pub mod csr;
pub mod index;
pub mod laws;
mod node;
pub mod pattern;
pub mod text;
