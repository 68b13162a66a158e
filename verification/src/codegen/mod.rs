//! The parts of the code generator that stand on their own: the clean-up
//! of the generated assembly text, the last read of each vreg, and the
//! tables of branches and runtime helpers.

pub mod layout;
pub mod helpers;
pub mod data;
