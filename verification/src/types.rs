//! C types as seen by the intermediate representation.

use vstd::prelude::*;

verus! {

/// A C type.  Sizes follow the 8080 data model: `char` is one byte,
/// `int`, enums and pointers are two bytes, `long` and `float` four.
#[derive(Debug, PartialEq, Eq)]
pub enum CType {
    Void,
    Char { signed: bool },
    Int { signed: bool },
    Long { signed: bool },
    Float,
    Enum,
    Pointer(Box<CType>),
    /// Element type and element count (`None` for `T[]`).
    Array(Box<CType>, Option<usize>),
    /// A function type, by its return type.
    Function(Box<CType>),
}

impl Clone for CType {
    fn clone(&self) -> (r: Self)
        ensures
            r == *self,
        decreases self,
    {
        match self {
            CType::Void => CType::Void,
            CType::Char { signed } => CType::Char { signed: *signed },
            CType::Int { signed } => CType::Int { signed: *signed },
            CType::Long { signed } => CType::Long { signed: *signed },
            CType::Float => CType::Float,
            CType::Enum => CType::Enum,
            CType::Pointer(p) => CType::Pointer(Box::new((**p).clone())),
            CType::Array(e, n) => CType::Array(Box::new((**e).clone()), *n),
            CType::Function(r) => CType::Function(Box::new((**r).clone())),
        }
    }
}

impl CType {
    /// The size in bytes, when the type has one.
    pub open spec fn spec_size(self) -> Option<nat>
        decreases self,
    {
        match self {
            CType::Void => None,
            CType::Char { .. } => Some(1),
            CType::Int { .. } | CType::Enum | CType::Pointer(_) => Some(2),
            CType::Long { .. } | CType::Float => Some(4),
            CType::Array(e, n) => match (e.spec_size(), n) {
                (Some(s), Some(k)) => if s * k <= usize::MAX {
                    Some(s * (k as nat))
                } else {
                    None
                },
                _ => None,
            },
            CType::Function(_) => None,
        }
    }

    pub open spec fn spec_is_signed(self) -> bool {
        match self {
            CType::Char { signed } | CType::Int { signed } | CType::Long { signed } => signed,
            CType::Float | CType::Enum => true,
            _ => false,
        }
    }

    pub fn int_signed() -> (r: Self)
        ensures
            r == (CType::Int { signed: true }),
    {
        CType::Int { signed: true }
    }

    pub fn int_unsigned() -> (r: Self)
        ensures
            r == (CType::Int { signed: false }),
    {
        CType::Int { signed: false }
    }

    pub fn char_signed() -> (r: Self)
        ensures
            r == (CType::Char { signed: true }),
    {
        CType::Char { signed: true }
    }

    pub fn char_unsigned() -> (r: Self)
        ensures
            r == (CType::Char { signed: false }),
    {
        CType::Char { signed: false }
    }

    pub fn long_signed() -> (r: Self)
        ensures
            r == (CType::Long { signed: true }),
    {
        CType::Long { signed: true }
    }

    pub fn long_unsigned() -> (r: Self)
        ensures
            r == (CType::Long { signed: false }),
    {
        CType::Long { signed: false }
    }

    pub fn ptr(pointee: CType) -> (r: Self)
        ensures
            r == CType::Pointer(Box::new(pointee)),
    {
        CType::Pointer(Box::new(pointee))
    }

    pub fn array(elem: CType, len: usize) -> (r: Self)
        ensures
            r == CType::Array(Box::new(elem), Some(len)),
    {
        CType::Array(Box::new(elem), Some(len))
    }

    /// Whether values of this type are signed.
    pub fn is_signed(&self) -> (r: bool)
        ensures
            r == self.spec_is_signed(),
    {
        match self {
            CType::Char { signed } | CType::Int { signed } | CType::Long { signed } => *signed,
            CType::Float | CType::Enum => true,
            _ => false,
        }
    }

    /// The size in bytes; `None` for types without a size (including arrays
    /// whose size does not fit in `usize`).
    pub fn size_of(&self) -> (r: Option<usize>)
        ensures
            match self.spec_size() {
                Some(s) => r == Some(s as usize),
                None => r is None,
            },
        decreases self,
    {
        match self {
            CType::Void => None,
            CType::Char { .. } => Some(1),
            CType::Int { .. } | CType::Enum | CType::Pointer(_) => Some(2),
            CType::Long { .. } | CType::Float => Some(4),
            CType::Array(e, n) => match n {
                None => None,
                Some(k) => match e.size_of() {
                    None => None,
                    Some(s) => s.checked_mul(*k),
                },
            },
            CType::Function(_) => None,
        }
    }
}

} // verus!
