//! An interpreter for a minimal eight-symbol tape language.
//!
//! Program text becomes a flat sequence of symbols ([`opcode`]), the flat
//! sequence becomes a tree of instructions if its brackets are balanced
//! ([`brackets`], [`instruction`]), and the tree is executed on a tape of
//! bytes, step by step ([`machine`]) or for a bounded number of steps over
//! input and output held in memory ([`evaluation`]).
//!
//! Reading and writing are left to the host: it asks a
//! [`machine::Machine`] whether the next step awaits input, hands it the
//! byte, and emits what a step reports as output.
pub mod brackets;
pub mod evaluation;
pub mod instruction;
pub mod machine;
pub mod opcode;
