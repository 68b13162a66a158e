//! Three-address intermediate representation.
//!
//! Virtual registers are unlimited; every arithmetic operation carries a
//! [`Width`] so that the code generator knows whether to emit an 8-, 16- or
//! 32-bit instruction sequence for the Intel 8080.

use vstd::prelude::*;

use crate::types::CType;
use crate::text::{concat4, concat2, u64_decimal, decimal};

verus! {

/// Width of an IR operation, matching the 8080 data sizes.
#[derive(Debug, Clone, Copy, PartialEq, Eq, Hash, Structural)]
pub enum Width {
    /// 8-bit (`char`)
    W8,
    /// 16-bit (`int`, pointer)
    W16,
    /// 32-bit (`long`)
    W32,
}

/// Number of bytes of a width.
pub open spec fn width_bytes(w: Width) -> nat {
    match w {
        Width::W8 => 1,
        Width::W16 => 2,
        Width::W32 => 4,
    }
}

/// The scalar width of a C type, if it has one.
pub open spec fn width_of_ctype(ty: CType) -> Option<Width> {
    match ty {
        CType::Char { .. } => Some(Width::W8),
        CType::Int { .. } | CType::Pointer(_) | CType::Enum => Some(Width::W16),
        CType::Long { .. } | CType::Float => Some(Width::W32),
        _ => None,
    }
}

impl Width {
    /// Number of bytes for this width.
    pub fn bytes(self) -> (r: usize)
        ensures
            r == width_bytes(self),
    {
        match self {
            Width::W8 => 1,
            Width::W16 => 2,
            Width::W32 => 4,
        }
    }

    /// Derive the width from a C type; `None` for types with no scalar
    /// width (`void`, arrays, functions).
    pub fn from_ctype(ty: &CType) -> (r: Option<Width>)
        ensures
            r == width_of_ctype(*ty),
    {
        match ty {
            CType::Char { .. } => Some(Width::W8),
            CType::Int { .. } | CType::Pointer(_) | CType::Enum => Some(Width::W16),
            CType::Long { .. } | CType::Float => Some(Width::W32),
            _ => None,
        }
    }

    /// The textual name of the width (`w8`, `w16`, `w32`).
    pub fn name(self) -> (r: &'static str)
        ensures
            r@ == width_name(self),
    {
        proof {
            reveal_strlit("w8");
            reveal_strlit("w16");
            reveal_strlit("w32");
        }
        match self {
            Width::W8 => "w8",
            Width::W16 => "w16",
            Width::W32 => "w32",
        }
    }
}

pub open spec fn width_name(w: Width) -> Seq<char> {
    match w {
        Width::W8 => seq!['w', '8'],
        Width::W16 => seq!['w', '1', '6'],
        Width::W32 => seq!['w', '3', '2'],
    }
}

/// A virtual register identified by a unique index, with the width of the
/// value it holds.
#[derive(Debug, Clone, Copy, PartialEq, Eq, Hash, Structural)]
pub struct VReg {
    pub id: u32,
    pub width: Width,
}

impl VReg {
    pub fn new(id: u32, width: Width) -> (r: Self)
        ensures
            r == (VReg { id, width }),
    {
        VReg { id, width }
    }

    /// The textual form `t<id>.<width>`, e.g. `t42.w16`.
    pub fn to_string(&self) -> (r: String)
        ensures
            r@ == seq!['t'] + decimal(self.id as nat) + seq!['.'] + width_name(self.width),
    {
        proof {
            reveal_strlit("t");
            reveal_strlit(".");
        }
        let n = u64_decimal(self.id as u64);
        concat4("t", n.as_str(), ".", self.width.name())
    }
}

/// An IR label used as a branch target.
#[derive(Debug, Clone, Copy, PartialEq, Eq, Hash, Structural)]
pub struct Label(pub u32);

impl Label {
    pub fn new(id: u32) -> (r: Self)
        ensures
            r == Label(id),
    {
        Label(id)
    }

    /// The textual form `L<id>`, e.g. `L7`.
    pub fn to_string(&self) -> (r: String)
        ensures
            r@ == seq!['L'] + decimal(self.0 as nat),
    {
        proof {
            reveal_strlit("L");
        }
        let n = u64_decimal(self.0 as u64);
        concat2("L", n.as_str())
    }
}

/// A single IR operation (three-address code style).
#[derive(Debug, PartialEq)]
#[allow(inconsistent_fields)]
pub enum IrOp {
    /// Load an immediate constant into `dst`.
    LoadImm { dst: VReg, value: i64 },
    /// Load from a named global symbol.
    LoadGlobal { dst: VReg, addr_label: String },
    /// Store to a named global symbol.
    StoreGlobal { addr_label: String, src: VReg },
    /// Load from a stack-frame local at a byte offset from the frame pointer.
    LoadLocal { dst: VReg, offset: i32 },
    /// Store to a stack-frame local.
    StoreLocal { offset: i32, src: VReg },
    /// `dst = *ptr`.
    LoadPtr { dst: VReg, ptr: VReg },
    /// `*ptr = src`.
    StorePtr { ptr: VReg, src: VReg },
    Add { dst: VReg, lhs: VReg, rhs: VReg, width: Width },
    Sub { dst: VReg, lhs: VReg, rhs: VReg, width: Width },
    Mul { dst: VReg, lhs: VReg, rhs: VReg, width: Width, signed: bool },
    Div { dst: VReg, lhs: VReg, rhs: VReg, width: Width, signed: bool },
    Mod { dst: VReg, lhs: VReg, rhs: VReg, width: Width, signed: bool },
    And { dst: VReg, lhs: VReg, rhs: VReg, width: Width },
    Or { dst: VReg, lhs: VReg, rhs: VReg, width: Width },
    Xor { dst: VReg, lhs: VReg, rhs: VReg, width: Width },
    /// Logical shift left.
    Shl { dst: VReg, lhs: VReg, rhs: VReg, width: Width },
    /// Shift right; `arithmetic` for sign-extending shifts.
    Shr { dst: VReg, lhs: VReg, rhs: VReg, width: Width, arithmetic: bool },
    Eq { dst: VReg, lhs: VReg, rhs: VReg, width: Width },
    Ne { dst: VReg, lhs: VReg, rhs: VReg, width: Width },
    Lt { dst: VReg, lhs: VReg, rhs: VReg, width: Width, signed: bool },
    Le { dst: VReg, lhs: VReg, rhs: VReg, width: Width, signed: bool },
    Gt { dst: VReg, lhs: VReg, rhs: VReg, width: Width, signed: bool },
    Ge { dst: VReg, lhs: VReg, rhs: VReg, width: Width, signed: bool },
    /// Two's-complement negation.
    Neg { dst: VReg, src: VReg, width: Width },
    /// Bitwise complement.
    Not { dst: VReg, src: VReg, width: Width },
    /// Logical not (result is 0 or 1).
    LogicalNot { dst: VReg, src: VReg, width: Width },
    /// Register-to-register copy.
    Copy { dst: VReg, src: VReg },
    /// Type conversion.
    Cast { dst: VReg, src: VReg, to_type: CType },
    /// Unconditional jump.
    Jump { target: Label },
    /// Branch if `cond` is non-zero.
    JumpIfTrue { cond: VReg, target: Label },
    /// Branch if `cond` is zero.
    JumpIfFalse { cond: VReg, target: Label },
    /// Function call; `dst` is `None` for void calls.
    Call { func_name: String, args: Vec<VReg>, dst: Option<VReg> },
    /// Return, with an optional value.
    Return { value: Option<VReg> },
    /// Label definition (marks a branch target).
    Label { label: Label },
    /// Load the address of a named global into `dst`.
    AddrOfGlobal { dst: VReg, name: String },
    /// `dst = ptr + offset * element_size`.
    PtrAdd { dst: VReg, ptr: VReg, offset: VReg, element_size: u16 },
    /// Inline assembly, emitted verbatim.
    InlineAsm {
        code: String,
        inputs: Vec<(VReg, CType)>,
        return_type: Option<CType>,
        clobber_all: bool,
    },
}

/// Clone a list of typed inputs element by element.
fn clone_inputs(v: &Vec<(VReg, CType)>) -> (r: Vec<(VReg, CType)>)
    ensures
        r@ == v@,
{
    let mut out: Vec<(VReg, CType)> = Vec::new();
    let mut i: usize = 0;
    while i < v.len()
        invariant
            i <= v.len(),
            out@ == v@.subrange(0, i as int),
        decreases v.len() - i,
    {
        let (r, t) = &v[i];
        out.push((*r, t.clone()));
        i += 1;
    }
    out
}

/// Clone a list of vregs.
pub fn clone_vregs(v: &Vec<VReg>) -> (r: Vec<VReg>)
    ensures
        r@ == v@,
{
    let mut out: Vec<VReg> = Vec::new();
    let mut i: usize = 0;
    while i < v.len()
        invariant
            i <= v.len(),
            out@ == v@.subrange(0, i as int),
        decreases v.len() - i,
    {
        out.push(v[i]);
        i += 1;
    }
    out
}

/// Two operations are the same when they agree on every field, vectors
/// compared by their contents.
pub open spec fn same_op(a: IrOp, b: IrOp) -> bool {
    match a {
        IrOp::Call { func_name, args, dst } => b matches IrOp::Call { func_name: f2, args: a2, dst: d2 }
            && func_name == f2 && args@ == a2@ && dst == d2,
        IrOp::InlineAsm { code, inputs, return_type, clobber_all } => b matches IrOp::InlineAsm {
            code: c2,
            inputs: i2,
            return_type: r2,
            clobber_all: k2,
        } && code == c2 && inputs@ == i2@ && return_type == r2 && clobber_all == k2,
        _ => a == b,
    }
}

/// Two instructions are the same when their operations and lines agree.
pub open spec fn same_instr(a: IrInstr, b: IrInstr) -> bool {
    same_op(a.op, b.op) && a.line == b.line
}

/// Two instruction sequences are the same element by element.
pub open spec fn same_body(a: Seq<IrInstr>, b: Seq<IrInstr>) -> bool {
    a.len() == b.len() && forall|i: int| 0 <= i < a.len() ==> #[trigger] same_instr(a[i], b[i])
}

/// Every instruction is the same as itself.
pub proof fn lemma_same_instr_refl(a: IrInstr)
    ensures
        same_instr(a, a),
{
}

impl Clone for IrOp {
    fn clone(&self) -> (r: Self)
        ensures
            same_op(r, *self),
    {
        match self {
            IrOp::LoadImm { dst, value } => IrOp::LoadImm { dst: *dst, value: *value },
            IrOp::LoadGlobal { dst, addr_label } => IrOp::LoadGlobal {
                dst: *dst,
                addr_label: addr_label.clone(),
            },
            IrOp::StoreGlobal { addr_label, src } => IrOp::StoreGlobal {
                addr_label: addr_label.clone(),
                src: *src,
            },
            IrOp::LoadLocal { dst, offset } => IrOp::LoadLocal { dst: *dst, offset: *offset },
            IrOp::StoreLocal { offset, src } => IrOp::StoreLocal { offset: *offset, src: *src },
            IrOp::LoadPtr { dst, ptr } => IrOp::LoadPtr { dst: *dst, ptr: *ptr },
            IrOp::StorePtr { ptr, src } => IrOp::StorePtr { ptr: *ptr, src: *src },
            IrOp::Add { dst, lhs, rhs, width } => IrOp::Add {
                dst: *dst,
                lhs: *lhs,
                rhs: *rhs,
                width: *width,
            },
            IrOp::Sub { dst, lhs, rhs, width } => IrOp::Sub {
                dst: *dst,
                lhs: *lhs,
                rhs: *rhs,
                width: *width,
            },
            IrOp::Mul { dst, lhs, rhs, width, signed } => IrOp::Mul {
                dst: *dst,
                lhs: *lhs,
                rhs: *rhs,
                width: *width,
                signed: *signed,
            },
            IrOp::Div { dst, lhs, rhs, width, signed } => IrOp::Div {
                dst: *dst,
                lhs: *lhs,
                rhs: *rhs,
                width: *width,
                signed: *signed,
            },
            IrOp::Mod { dst, lhs, rhs, width, signed } => IrOp::Mod {
                dst: *dst,
                lhs: *lhs,
                rhs: *rhs,
                width: *width,
                signed: *signed,
            },
            IrOp::And { dst, lhs, rhs, width } => IrOp::And {
                dst: *dst,
                lhs: *lhs,
                rhs: *rhs,
                width: *width,
            },
            IrOp::Or { dst, lhs, rhs, width } => IrOp::Or {
                dst: *dst,
                lhs: *lhs,
                rhs: *rhs,
                width: *width,
            },
            IrOp::Xor { dst, lhs, rhs, width } => IrOp::Xor {
                dst: *dst,
                lhs: *lhs,
                rhs: *rhs,
                width: *width,
            },
            IrOp::Shl { dst, lhs, rhs, width } => IrOp::Shl {
                dst: *dst,
                lhs: *lhs,
                rhs: *rhs,
                width: *width,
            },
            IrOp::Shr { dst, lhs, rhs, width, arithmetic } => IrOp::Shr {
                dst: *dst,
                lhs: *lhs,
                rhs: *rhs,
                width: *width,
                arithmetic: *arithmetic,
            },
            IrOp::Eq { dst, lhs, rhs, width } => IrOp::Eq {
                dst: *dst,
                lhs: *lhs,
                rhs: *rhs,
                width: *width,
            },
            IrOp::Ne { dst, lhs, rhs, width } => IrOp::Ne {
                dst: *dst,
                lhs: *lhs,
                rhs: *rhs,
                width: *width,
            },
            IrOp::Lt { dst, lhs, rhs, width, signed } => IrOp::Lt {
                dst: *dst,
                lhs: *lhs,
                rhs: *rhs,
                width: *width,
                signed: *signed,
            },
            IrOp::Le { dst, lhs, rhs, width, signed } => IrOp::Le {
                dst: *dst,
                lhs: *lhs,
                rhs: *rhs,
                width: *width,
                signed: *signed,
            },
            IrOp::Gt { dst, lhs, rhs, width, signed } => IrOp::Gt {
                dst: *dst,
                lhs: *lhs,
                rhs: *rhs,
                width: *width,
                signed: *signed,
            },
            IrOp::Ge { dst, lhs, rhs, width, signed } => IrOp::Ge {
                dst: *dst,
                lhs: *lhs,
                rhs: *rhs,
                width: *width,
                signed: *signed,
            },
            IrOp::Neg { dst, src, width } => IrOp::Neg { dst: *dst, src: *src, width: *width },
            IrOp::Not { dst, src, width } => IrOp::Not { dst: *dst, src: *src, width: *width },
            IrOp::LogicalNot { dst, src, width } => IrOp::LogicalNot {
                dst: *dst,
                src: *src,
                width: *width,
            },
            IrOp::Copy { dst, src } => IrOp::Copy { dst: *dst, src: *src },
            IrOp::Cast { dst, src, to_type } => IrOp::Cast {
                dst: *dst,
                src: *src,
                to_type: to_type.clone(),
            },
            IrOp::Jump { target } => IrOp::Jump { target: *target },
            IrOp::JumpIfTrue { cond, target } => IrOp::JumpIfTrue { cond: *cond, target: *target },
            IrOp::JumpIfFalse { cond, target } => IrOp::JumpIfFalse {
                cond: *cond,
                target: *target,
            },
            IrOp::Call { func_name, args, dst } => IrOp::Call {
                func_name: func_name.clone(),
                args: clone_vregs(args),
                dst: *dst,
            },
            IrOp::Return { value } => IrOp::Return { value: *value },
            IrOp::Label { label } => IrOp::Label { label: *label },
            IrOp::AddrOfGlobal { dst, name } => IrOp::AddrOfGlobal { dst: *dst, name: name.clone() },
            IrOp::PtrAdd { dst, ptr, offset, element_size } => IrOp::PtrAdd {
                dst: *dst,
                ptr: *ptr,
                offset: *offset,
                element_size: *element_size,
            },
            IrOp::InlineAsm { code, inputs, return_type, clobber_all } => {
                let rt = match return_type {
                    Some(t) => Some(t.clone()),
                    None => None,
                };
                IrOp::InlineAsm {
                    code: code.clone(),
                    inputs: clone_inputs(inputs),
                    return_type: rt,
                    clobber_all: *clobber_all,
                }
            },
        }
    }
}

/// An IR instruction paired with its source line (0 if unknown).
#[derive(Debug, PartialEq)]
pub struct IrInstr {
    pub op: IrOp,
    pub line: u32,
}

impl Clone for IrInstr {
    fn clone(&self) -> (r: Self)
        ensures
            same_instr(r, *self),
    {
        IrInstr { op: self.op.clone(), line: self.line }
    }
}

impl IrInstr {
    pub fn new(op: IrOp, line: u32) -> (r: Self)
        ensures
            r == (IrInstr { op, line }),
    {
        IrInstr { op, line }
    }

    /// An instruction with no source location.
    pub fn bare(op: IrOp) -> (r: Self)
        ensures
            r == (IrInstr { op, line: 0 }),
    {
        IrInstr { op, line: 0 }
    }
}


/// Parameter descriptor of an [`IrFunction`].
#[derive(Debug, PartialEq)]
pub struct IrParam {
    pub name: String,
    pub ty: CType,
    pub vreg: VReg,
}

impl Clone for IrParam {
    fn clone(&self) -> (r: Self)
        ensures
            r == *self,
    {
        IrParam { name: self.name.clone(), ty: self.ty.clone(), vreg: self.vreg }
    }
}

/// A single function's IR.
#[derive(Debug, PartialEq)]
pub struct IrFunction {
    /// The function name (e.g. `"main"`).
    pub name: String,
    /// Formal parameters.
    pub params: Vec<IrParam>,
    /// Local variables: `(name, type, stack_offset)`.
    pub locals: Vec<(String, CType, i32)>,
    /// The linear instruction sequence of the body.
    pub body: Vec<IrInstr>,
    /// Loop header labels marked for full unrolling.
    pub unroll_loop_headers: Vec<Label>,
    /// Return type.
    pub return_type: CType,
    /// Locals live on the stack (`LoadLocal` / `StoreLocal`).
    pub is_stack_mode: bool,
    /// The function takes a variable number of arguments.
    pub is_variadic: bool,
    /// The whole body is a single `asm { }` block.
    pub is_asm_body: bool,
}

impl IrFunction {
    /// An empty function with the given name and return type.
    pub fn new(name: &str, return_type: CType) -> (r: Self)
        ensures
            r.name@ == name@,
            r.params@.len() == 0,
            r.locals@.len() == 0,
            r.body@.len() == 0,
            r.unroll_loop_headers@.len() == 0,
            r.return_type == return_type,
            !r.is_stack_mode,
            !r.is_variadic,
            !r.is_asm_body,
    {
        IrFunction {
            name: name.to_owned(),
            params: Vec::new(),
            locals: Vec::new(),
            body: Vec::new(),
            unroll_loop_headers: Vec::new(),
            return_type,
            is_stack_mode: false,
            is_variadic: false,
            is_asm_body: false,
        }
    }

    /// Append an instruction to the body.
    pub fn push(&mut self, instr: IrInstr)
        ensures
            final(self).body@ == old(self).body@.push(instr),
            final(self).name == old(self).name,
            final(self).params == old(self).params,
            final(self).locals == old(self).locals,
            final(self).unroll_loop_headers == old(self).unroll_loop_headers,
            final(self).return_type == old(self).return_type,
            final(self).is_stack_mode == old(self).is_stack_mode,
            final(self).is_variadic == old(self).is_variadic,
            final(self).is_asm_body == old(self).is_asm_body,
    {
        self.body.push(instr);
    }

    /// Append an operation with no source location.
    pub fn push_op(&mut self, op: IrOp)
        ensures
            final(self).body@ == old(self).body@.push(IrInstr { op, line: 0 }),
            final(self).name == old(self).name,
            final(self).params == old(self).params,
            final(self).locals == old(self).locals,
            final(self).unroll_loop_headers == old(self).unroll_loop_headers,
            final(self).return_type == old(self).return_type,
            final(self).is_stack_mode == old(self).is_stack_mode,
            final(self).is_variadic == old(self).is_variadic,
            final(self).is_asm_body == old(self).is_asm_body,
    {
        self.body.push(IrInstr::bare(op));
    }

    /// Total byte size of all sized locals (for stack frame allocation).
    pub fn locals_size(&self) -> (r: usize)
        requires
            locals_total(self.locals@) <= usize::MAX,
        ensures
            r == locals_total(self.locals@),
    {
        let mut total: usize = 0;
        let mut i: usize = 0;
        while i < self.locals.len()
            invariant
                i <= self.locals@.len(),
                locals_total(self.locals@) <= usize::MAX,
                total == locals_total(self.locals@.subrange(0, i as int)),
            decreases self.locals@.len() - i,
        {
            proof {
                lemma_locals_total_prefix(self.locals@, i as int);
                lemma_locals_total_prefix_le(self.locals@, i as int + 1);
            }
            match self.locals[i].1.size_of() {
                Some(sz) => {
                    total = total + sz;
                },
                None => {},
            }
            i += 1;
        }
        proof {
            assert(self.locals@.subrange(0, i as int) =~= self.locals@);
        }
        total
    }
}

/// Sum of the sizes of the sized entries of a locals table.
pub open spec fn locals_total(s: Seq<(String, CType, i32)>) -> nat
    decreases s.len(),
{
    if s.len() == 0 {
        0
    } else {
        locals_total(s.drop_last()) + match s.last().1.spec_size() {
            Some(n) => n,
            None => 0,
        }
    }
}

proof fn lemma_locals_total_prefix(s: Seq<(String, CType, i32)>, i: int)
    requires
        0 <= i < s.len(),
    ensures
        locals_total(s.subrange(0, i + 1)) == locals_total(s.subrange(0, i)) + match s[i].1.spec_size() {
            Some(n) => n,
            None => 0,
        },
{
    assert(s.subrange(0, i + 1).drop_last() =~= s.subrange(0, i));
}

proof fn lemma_locals_total_prefix_le(s: Seq<(String, CType, i32)>, i: int)
    requires
        0 <= i <= s.len(),
    ensures
        locals_total(s.subrange(0, i)) <= locals_total(s),
    decreases s.len() - i,
{
    if i < s.len() {
        lemma_locals_total_prefix_le(s, i + 1);
        lemma_locals_total_prefix(s, i);
    } else {
        assert(s.subrange(0, i) =~= s);
    }
}

/// Copy a list of parameters.
pub fn clone_params(v: &Vec<IrParam>) -> (r: Vec<IrParam>)
    ensures
        r@ == v@,
{
    let mut out: Vec<IrParam> = Vec::new();
    let mut i: usize = 0;
    while i < v.len()
        invariant
            i <= v@.len(),
            out@ == v@.subrange(0, i as int),
        decreases v@.len() - i,
    {
        out.push(v[i].clone());
        i += 1;
    }
    out
}

/// Copy a list of locals.
pub fn clone_locals(v: &Vec<(String, CType, i32)>) -> (r: Vec<(String, CType, i32)>)
    ensures
        r@.len() == v@.len(),
        forall|i: int| 0 <= i < v@.len() ==> (#[trigger] r@[i]).0@ == v@[i].0@ && r@[i].1 == v@[i].1 && r@[i].2 == v@[i].2,
{
    let mut out: Vec<(String, CType, i32)> = Vec::new();
    let mut i: usize = 0;
    while i < v.len()
        invariant
            i <= v@.len(),
            out@.len() == i,
            forall|k: int| 0 <= k < i ==> (#[trigger] out@[k]).0@ == v@[k].0@ && out@[k].1 == v@[k].1 && out@[k].2 == v@[k].2,
        decreases v@.len() - i,
    {
        let e = &v[i];
        out.push((e.0.clone(), e.1.clone(), e.2));
        i += 1;
    }
    out
}

/// Copy a list of labels.
pub fn clone_labels(v: &Vec<Label>) -> (r: Vec<Label>)
    ensures
        r@ == v@,
{
    let mut out: Vec<Label> = Vec::new();
    let mut i: usize = 0;
    while i < v.len()
        invariant
            i <= v@.len(),
            out@ == v@.subrange(0, i as int),
        decreases v@.len() - i,
    {
        out.push(v[i]);
        i += 1;
    }
    out
}

/// Copy a body.
pub fn clone_body(v: &Vec<IrInstr>) -> (r: Vec<IrInstr>)
    ensures
        same_body(r@, v@),
{
    let mut out: Vec<IrInstr> = Vec::new();
    let mut i: usize = 0;
    while i < v.len()
        invariant
            i <= v@.len(),
            out@.len() == i,
            forall|k: int| 0 <= k < i ==> #[trigger] same_instr(out@[k], v@[k]),
        decreases v@.len() - i,
    {
        out.push(v[i].clone());
        i += 1;
    }
    out
}

/// Two functions agree in every field, bodies compared instruction by
/// instruction.
pub open spec fn same_function(a: IrFunction, b: IrFunction) -> bool {
    &&& a.name@ == b.name@
    &&& a.params@ == b.params@
    &&& a.locals@.len() == b.locals@.len()
    &&& forall|i: int| 0 <= i < a.locals@.len() ==> (#[trigger] a.locals@[i]).0@ == b.locals@[i].0@
        && a.locals@[i].1 == b.locals@[i].1 && a.locals@[i].2 == b.locals@[i].2
    &&& same_body(a.body@, b.body@)
    &&& a.unroll_loop_headers@ == b.unroll_loop_headers@
    &&& a.return_type == b.return_type
    &&& a.is_stack_mode == b.is_stack_mode
    &&& a.is_variadic == b.is_variadic
    &&& a.is_asm_body == b.is_asm_body
}

impl Clone for IrFunction {
    fn clone(&self) -> (r: Self)
        ensures
            same_function(r, *self),
    {
        IrFunction {
            name: self.name.clone(),
            params: clone_params(&self.params),
            locals: clone_locals(&self.locals),
            body: clone_body(&self.body),
            unroll_loop_headers: clone_labels(&self.unroll_loop_headers),
            return_type: self.return_type.clone(),
            is_stack_mode: self.is_stack_mode,
            is_variadic: self.is_variadic,
            is_asm_body: self.is_asm_body,
        }
    }
}

/// Copy a list of bytes.
pub fn clone_bytes(v: &Vec<u8>) -> (r: Vec<u8>)
    ensures
        r@ == v@,
{
    let mut out: Vec<u8> = Vec::new();
    let mut i: usize = 0;
    while i < v.len()
        invariant
            i <= v@.len(),
            out@ == v@.subrange(0, i as int),
        decreases v@.len() - i,
    {
        out.push(v[i]);
        i += 1;
    }
    out
}

/// A global variable of the IR.
#[derive(Debug, PartialEq)]
pub struct GlobalVar {
    pub name: String,
    pub ty: CType,
    /// Initial bytes; `None` means zero-initialised (BSS).
    pub init: Option<Vec<u8>>,
}

impl Clone for GlobalVar {
    fn clone(&self) -> (r: Self)
        ensures
            r.name@ == self.name@,
            r.ty == self.ty,
            r.init matches Some(b) ==> self.init matches Some(c) && b@ == c@,
            r.init is None <==> self.init is None,
    {
        GlobalVar {
            name: self.name.clone(),
            ty: self.ty.clone(),
            init: match &self.init {
                Some(b) => Some(clone_bytes(b)),
                None => None,
            },
        }
    }
}

/// An interned string literal with its compiler-generated label.
#[derive(Debug, PartialEq)]
pub struct StringLiteral {
    /// The label emitted in the assembly (e.g. `_S0`).
    pub label: String,
    /// The bytes of the string, NUL terminator included.
    pub data: Vec<u8>,
}

/// The complete IR of one translation unit.
#[derive(Debug, PartialEq)]
pub struct IrProgram {
    pub globals: Vec<GlobalVar>,
    pub functions: Vec<IrFunction>,
    pub strings: Vec<StringLiteral>,
}

impl IrProgram {
    /// An empty program.
    pub fn new() -> (r: Self)
        ensures
            r.globals@.len() == 0,
            r.functions@.len() == 0,
            r.strings@.len() == 0,
    {
        IrProgram { globals: Vec::new(), functions: Vec::new(), strings: Vec::new() }
    }
}

impl Default for IrProgram {
    fn default() -> (r: Self)
        ensures
            r.globals@.len() == 0,
            r.functions@.len() == 0,
            r.strings@.len() == 0,
    {
        IrProgram::new()
    }
}

/// A monotonically increasing allocator of virtual-register ids.
#[derive(Debug, Clone, Copy)]
pub struct VRegAllocator {
    next_id: u32,
}

impl VRegAllocator {
    /// The id that the next allocation returns.
    pub closed spec fn next(&self) -> u32 {
        self.next_id
    }

    pub fn new() -> (r: Self)
        ensures
            r.next() == 0,
    {
        VRegAllocator { next_id: 0 }
    }

    /// Allocate a fresh virtual register of the given width.
    pub fn allocate(&mut self, width: Width) -> (r: VReg)
        requires
            old(self).next() < u32::MAX,
        ensures
            r == (VReg { id: old(self).next(), width }),
            final(self).next() == old(self).next() + 1,
    {
        let id = self.next_id;
        self.next_id = self.next_id + 1;
        VReg::new(id, width)
    }

    /// Allocate a fresh virtual register whose width comes from a C type.
    pub fn alloc_for_type(&mut self, ty: &CType) -> (r: VReg)
        requires
            old(self).next() < u32::MAX,
            width_of_ctype(*ty) is Some,
        ensures
            r == (VReg { id: old(self).next(), width: width_of_ctype(*ty)->0 }),
            final(self).next() == old(self).next() + 1,
    {
        let width = match Width::from_ctype(ty) {
            Some(w) => w,
            None => Width::W16,
        };
        self.allocate(width)
    }
}

impl Default for VRegAllocator {
    fn default() -> (r: Self)
        ensures
            r.next() == 0,
    {
        VRegAllocator::new()
    }
}

/// A monotonically increasing allocator of labels.
#[derive(Debug, Clone, Copy)]
pub struct LabelAllocator {
    next_id: u32,
}

impl LabelAllocator {
    /// The id that the next allocation returns.
    pub closed spec fn next(&self) -> u32 {
        self.next_id
    }

    pub fn new() -> (r: Self)
        ensures
            r.next() == 0,
    {
        LabelAllocator { next_id: 0 }
    }

    /// Allocate a fresh label.
    pub fn allocate(&mut self) -> (r: Label)
        requires
            old(self).next() < u32::MAX,
        ensures
            r == Label(old(self).next()),
            final(self).next() == old(self).next() + 1,
    {
        let id = self.next_id;
        self.next_id = self.next_id + 1;
        Label::new(id)
    }
}

impl Default for LabelAllocator {
    fn default() -> (r: Self)
        ensures
            r.next() == 0,
    {
        LabelAllocator::new()
    }
}

/// Concise constructors of common operations.
impl IrOp {
    pub fn load_imm(dst: VReg, value: i64) -> (r: Self)
        ensures
            r == (IrOp::LoadImm { dst, value }),
    {
        IrOp::LoadImm { dst, value }
    }

    pub fn load_global(dst: VReg, addr_label: &str) -> (r: Self)
        ensures
            r matches IrOp::LoadGlobal { dst: d, addr_label: l } && d == dst && l@ == addr_label@,
    {
        IrOp::LoadGlobal { dst, addr_label: addr_label.to_owned() }
    }

    pub fn store_global(addr_label: &str, src: VReg) -> (r: Self)
        ensures
            r matches IrOp::StoreGlobal { addr_label: l, src: s } && s == src && l@ == addr_label@,
    {
        IrOp::StoreGlobal { addr_label: addr_label.to_owned(), src }
    }

    pub fn load_local(dst: VReg, offset: i32) -> (r: Self)
        ensures
            r == (IrOp::LoadLocal { dst, offset }),
    {
        IrOp::LoadLocal { dst, offset }
    }

    pub fn store_local(offset: i32, src: VReg) -> (r: Self)
        ensures
            r == (IrOp::StoreLocal { offset, src }),
    {
        IrOp::StoreLocal { offset, src }
    }

    pub fn load_ptr(dst: VReg, ptr: VReg) -> (r: Self)
        ensures
            r == (IrOp::LoadPtr { dst, ptr }),
    {
        IrOp::LoadPtr { dst, ptr }
    }

    pub fn store_ptr(ptr: VReg, src: VReg) -> (r: Self)
        ensures
            r == (IrOp::StorePtr { ptr, src }),
    {
        IrOp::StorePtr { ptr, src }
    }

    pub fn add(dst: VReg, lhs: VReg, rhs: VReg, width: Width) -> (r: Self)
        ensures
            r == (IrOp::Add { dst, lhs, rhs, width }),
    {
        IrOp::Add { dst, lhs, rhs, width }
    }

    pub fn sub(dst: VReg, lhs: VReg, rhs: VReg, width: Width) -> (r: Self)
        ensures
            r == (IrOp::Sub { dst, lhs, rhs, width }),
    {
        IrOp::Sub { dst, lhs, rhs, width }
    }

    pub fn copy(dst: VReg, src: VReg) -> (r: Self)
        ensures
            r == (IrOp::Copy { dst, src }),
    {
        IrOp::Copy { dst, src }
    }

    pub fn cast(dst: VReg, src: VReg, to_type: CType) -> (r: Self)
        ensures
            r == (IrOp::Cast { dst, src, to_type }),
    {
        IrOp::Cast { dst, src, to_type }
    }

    pub fn jump(target: Label) -> (r: Self)
        ensures
            r == (IrOp::Jump { target }),
    {
        IrOp::Jump { target }
    }

    pub fn jump_if_true(cond: VReg, target: Label) -> (r: Self)
        ensures
            r == (IrOp::JumpIfTrue { cond, target }),
    {
        IrOp::JumpIfTrue { cond, target }
    }

    pub fn jump_if_false(cond: VReg, target: Label) -> (r: Self)
        ensures
            r == (IrOp::JumpIfFalse { cond, target }),
    {
        IrOp::JumpIfFalse { cond, target }
    }

    pub fn call(func_name: &str, args: Vec<VReg>, dst: Option<VReg>) -> (r: Self)
        ensures
            r matches IrOp::Call { func_name: f, args: a, dst: d } && f@ == func_name@ && a == args
                && d == dst,
    {
        IrOp::Call { func_name: func_name.to_owned(), args, dst }
    }

    pub fn ret(value: Option<VReg>) -> (r: Self)
        ensures
            r == (IrOp::Return { value }),
    {
        IrOp::Return { value }
    }

    pub fn label(label: Label) -> (r: Self)
        ensures
            r == (IrOp::Label { label }),
    {
        IrOp::Label { label }
    }

    pub fn addr_of_global(dst: VReg, name: &str) -> (r: Self)
        ensures
            r matches IrOp::AddrOfGlobal { dst: d, name: n } && d == dst && n@ == name@,
    {
        IrOp::AddrOfGlobal { dst, name: name.to_owned() }
    }

    pub fn ptr_add(dst: VReg, ptr: VReg, offset: VReg, element_size: u16) -> (r: Self)
        ensures
            r == (IrOp::PtrAdd { dst, ptr, offset, element_size }),
    {
        IrOp::PtrAdd { dst, ptr, offset, element_size }
    }
}

} // verus!
