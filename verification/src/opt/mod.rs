//! Optimisation passes over the IR.

pub mod arith;
pub mod ops;
pub mod subst;
pub mod basic;
pub mod local;
pub mod simplify;
pub mod fold;
pub mod memory;
pub mod narrow;
pub mod remap;
pub mod loops;
pub mod induction;
pub mod unroll;
pub mod inline;
pub mod equiv;
pub mod specialize;
pub mod pipeline;
