use vstd::prelude::*;

pub mod types;
pub mod ast;
pub mod ir;
pub mod maps;
pub mod opt;
pub mod text;
pub mod callgraph;
pub mod emit;
pub mod codegen;

verus! {
} // verus!
