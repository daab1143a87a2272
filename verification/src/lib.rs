//! Heuristic recovery of call and return opcodes from a raw binary whose
//! instruction encoding is unknown.
//!
//! Given an instruction width and a guess of the opcode field, the library
//! ranks the bit patterns that most plausibly mark a call and a return: it
//! counts masked instruction words, follows the operand of each call
//! hypothesis to its target and checks whether a return instruction stands
//! shortly before that target.

pub mod endiannes;
pub mod iter_instructions;
pub mod encode;
pub mod extract_instructions;
pub mod addressing_mode;
pub mod cli;
pub mod config;
pub mod edges;
pub mod candidates;
pub mod min_heap;
pub mod analysis;
