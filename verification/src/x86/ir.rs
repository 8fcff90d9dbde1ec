use vstd::prelude::*;

use crate::id::L;
use crate::syntax::Type;
use crate::x86::instr::Reg;

verus! {

/// A variable or an immediate operand.
#[derive(Debug)]
pub enum IdOrImm {
    V(String),
    C(i32),
}

/// One virtual instruction of the register-allocated intermediate code.
#[derive(Debug)]
pub enum Exp {
    Nop,
    /// Load of an integer constant.
    SetImm(i32),
    SetL(L),
    Mov(String),
    Neg(String),
    Add(String, IdOrImm),
    Sub(String, IdOrImm),
    Ld(String, IdOrImm, i32),
    St(String, String, IdOrImm, i32),
    FMovD(String),
    FNegD(String),
    FAddD(String, String),
    FSubD(String, String),
    FMulD(String, String),
    FDivD(String, String),
    LdDF(String, IdOrImm, i32),
    StDF(String, String, IdOrImm, i32),
    Comment(String),
    IfEq(String, IdOrImm, Box<Asm>, Box<Asm>),
    IfLE(String, IdOrImm, Box<Asm>, Box<Asm>),
    IfGE(String, IdOrImm, Box<Asm>, Box<Asm>),
    IfFEq(String, String, Box<Asm>, Box<Asm>),
    IfFLE(String, String, Box<Asm>, Box<Asm>),
    /// Call of a closure: the closure, integer arguments, float arguments.
    CallCls(String, Vec<String>, Vec<String>),
    /// Direct call of a label: the label, integer arguments, float arguments.
    CallDir(L, Vec<String>, Vec<String>),
    /// Save of a register into the stack slot of a variable.
    Save(String, String),
    /// Restore of a variable from its stack slot.
    Restore(String),
}

/// A sequence of virtual instructions: each binds its result, the last one is the answer.
#[derive(Debug)]
pub enum Asm {
    Ans(Exp),
    Let(String, Type, Exp, Box<Asm>),
}

/// A function: its label, integer and float parameters, body and result type.
#[derive(Debug)]
pub struct Fundef {
    pub name: L,
    pub args: Vec<String>,
    pub fargs: Vec<String>,
    pub body: Asm,
    pub ret: Type,
}

/// A whole program: float constants (by their IEEE-754 bits), functions, and the main body.
#[derive(Debug)]
pub struct Prog(pub Vec<(L, u64)>, pub Vec<Fundef>, pub Asm);

/// The stack pointer of the generated code.
pub const REG_SP: Reg = Reg::Rbp;

/// The register that holds the closure being called: the last argument register.
pub const REG_CL: Reg = Reg::Rdi;

/// The registers that carry integer arguments; the first also carries results.
pub open spec fn spec_regs() -> Seq<Reg> {
    seq![Reg::Rax, Reg::Rbx, Reg::Rcx, Reg::Rdx, Reg::Rsi, Reg::Rdi]
}

/// The `i`-th register of [`spec_regs`].
pub fn regs(i: usize) -> (r: Reg)
    requires
        i < 6,
    ensures
        r == spec_regs()[i as int],
{
    match i {
        0 => Reg::Rax,
        1 => Reg::Rbx,
        2 => Reg::Rcx,
        3 => Reg::Rdx,
        4 => Reg::Rsi,
        _ => Reg::Rdi,
    }
}

/// Frame size rounded so that the stack pointer stays 8-byte aligned.
pub open spec fn spec_align(i: int) -> int {
    if i % 8 == 0 {
        i
    } else {
        i + 4
    }
}

/// Rounds a frame size in bytes so that it is a multiple of 8 when it is a multiple of 4.
pub fn align(i: i32) -> (r: i32)
    requires
        i % 8 == 0 || i <= i32::MAX - 4,
    ensures
        r == spec_align(i as int),
{
    if i % 8 == 0 {
        i
    } else {
        i + 4
    }
}

} // verus!
