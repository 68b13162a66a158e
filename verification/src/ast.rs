//! Source locations, operators and parameters of the C front end.

use vstd::prelude::*;

use crate::types::CType;

verus! {

/// Minimal source-location information attached to every syntax node.
#[derive(Debug, Clone, Copy, PartialEq, Eq, Hash, Structural)]
pub struct SourceLocation {
    /// 1-based line number in the source file.
    pub line: u32,
    /// 1-based column number (byte offset within the line).
    pub column: u32,
}

impl SourceLocation {
    pub fn new(line: u32, column: u32) -> (r: Self)
        ensures
            r == (SourceLocation { line, column }),
    {
        SourceLocation { line, column }
    }
}

/// Binary operators.
#[derive(Debug, Clone, Copy, PartialEq, Eq, Hash, Structural)]
pub enum BinOp {
    Add,
    Sub,
    Mul,
    Div,
    Mod,
    BitAnd,
    BitOr,
    BitXor,
    Shl,
    Shr,
    Eq,
    Ne,
    Lt,
    Gt,
    Le,
    Ge,
    LogAnd,
    LogOr,
}

/// Unary operators.
#[derive(Debug, Clone, Copy, PartialEq, Eq, Hash, Structural)]
pub enum UnaryOp {
    /// Arithmetic negation (`-x`).
    Negate,
    /// Bitwise complement (`~x`).
    BitNot,
    /// Logical not (`!x`).
    LogNot,
    /// Pre-increment (`++x`).
    PreInc,
    /// Pre-decrement (`--x`).
    PreDec,
    /// Post-increment (`x++`).
    PostInc,
    /// Post-decrement (`x--`).
    PostDec,
    /// Address-of (`&x`).
    AddrOf,
    /// Dereference (`*x`).
    Deref,
}

/// Assignment operators.
#[derive(Debug, Clone, Copy, PartialEq, Eq, Hash, Structural)]
pub enum AssignOp {
    Assign,
    AddAssign,
    SubAssign,
    MulAssign,
    DivAssign,
    ModAssign,
    BitAndAssign,
    BitOrAssign,
    BitXorAssign,
    ShlAssign,
    ShrAssign,
}

/// A function parameter: a name (absent in some prototypes) and a type.
#[derive(Debug, PartialEq)]
pub struct Param {
    pub name: Option<String>,
    pub ty: CType,
}

} // verus!
