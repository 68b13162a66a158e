//! The assembly listing: an 8080 assembler for the emitted text, computing
//! the address and bytes of every line.

pub mod chars;
pub mod expr;
pub mod encode;
pub mod listing;
