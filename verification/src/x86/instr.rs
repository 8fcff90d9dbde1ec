use vstd::prelude::*;

use crate::x86::error::Error;

verus! {

/// The 64-bit general purpose registers of x86-64.
#[derive(Clone, Copy, Debug, PartialEq, Eq, Structural)]
pub enum Reg {
    Rax,
    Rbx,
    Rcx,
    Rdx,
    Rsi,
    Rdi,
    Rbp,
    Rsp,
    R8,
    R9,
    R10,
    R11,
    R12,
    R13,
    R14,
    R15,
}

/// The assembler name of a register, such as `%rax`.
pub open spec fn reg_name(r: Reg) -> Seq<char> {
    match r {
        Reg::Rax => "%rax"@,
        Reg::Rbx => "%rbx"@,
        Reg::Rcx => "%rcx"@,
        Reg::Rdx => "%rdx"@,
        Reg::Rsi => "%rsi"@,
        Reg::Rdi => "%rdi"@,
        Reg::Rbp => "%rbp"@,
        Reg::Rsp => "%rsp"@,
        Reg::R8 => "%r8"@,
        Reg::R9 => "%r9"@,
        Reg::R10 => "%r10"@,
        Reg::R11 => "%r11"@,
        Reg::R12 => "%r12"@,
        Reg::R13 => "%r13"@,
        Reg::R14 => "%r14"@,
        Reg::R15 => "%r15"@,
    }
}

/// The register that an assembler name denotes, if any.
pub open spec fn reg_of(name: Seq<char>) -> Option<Reg> {
    if name == "%rax"@ {
        Some(Reg::Rax)
    } else     if name == "%rbx"@ {
        Some(Reg::Rbx)
    } else     if name == "%rcx"@ {
        Some(Reg::Rcx)
    } else     if name == "%rdx"@ {
        Some(Reg::Rdx)
    } else     if name == "%rsi"@ {
        Some(Reg::Rsi)
    } else     if name == "%rdi"@ {
        Some(Reg::Rdi)
    } else     if name == "%rbp"@ {
        Some(Reg::Rbp)
    } else     if name == "%rsp"@ {
        Some(Reg::Rsp)
    } else     if name == "%r8"@ {
        Some(Reg::R8)
    } else     if name == "%r9"@ {
        Some(Reg::R9)
    } else     if name == "%r10"@ {
        Some(Reg::R10)
    } else     if name == "%r11"@ {
        Some(Reg::R11)
    } else     if name == "%r12"@ {
        Some(Reg::R12)
    } else     if name == "%r13"@ {
        Some(Reg::R13)
    } else     if name == "%r14"@ {
        Some(Reg::R14)
    } else     if name == "%r15"@ {
        Some(Reg::R15)
    } else {
        None
    }
}

impl Reg {
    /// The assembler name of this register.
    pub fn name(&self) -> (s: String)
        ensures
            s@ == reg_name(*self),
    {
        match self {
            Reg::Rax => String::from_str("%rax"),
            Reg::Rbx => String::from_str("%rbx"),
            Reg::Rcx => String::from_str("%rcx"),
            Reg::Rdx => String::from_str("%rdx"),
            Reg::Rsi => String::from_str("%rsi"),
            Reg::Rdi => String::from_str("%rdi"),
            Reg::Rbp => String::from_str("%rbp"),
            Reg::Rsp => String::from_str("%rsp"),
            Reg::R8 => String::from_str("%r8"),
            Reg::R9 => String::from_str("%r9"),
            Reg::R10 => String::from_str("%r10"),
            Reg::R11 => String::from_str("%r11"),
            Reg::R12 => String::from_str("%r12"),
            Reg::R13 => String::from_str("%r13"),
            Reg::R14 => String::from_str("%r14"),
            Reg::R15 => String::from_str("%r15"),
        }
    }

    /// Reads a register from its assembler name.
    pub fn from_name(name: &String) -> (r: Result<Reg, Error>)
        ensures
            match r {
                Ok(reg) => reg_of(name@) == Some(reg),
                Err(e) => reg_of(name@) is None && e@ == name@,
            },
    {
        if *name == String::from_str("%rax") {
            return Ok(Reg::Rax);
        }
        if *name == String::from_str("%rbx") {
            return Ok(Reg::Rbx);
        }
        if *name == String::from_str("%rcx") {
            return Ok(Reg::Rcx);
        }
        if *name == String::from_str("%rdx") {
            return Ok(Reg::Rdx);
        }
        if *name == String::from_str("%rsi") {
            return Ok(Reg::Rsi);
        }
        if *name == String::from_str("%rdi") {
            return Ok(Reg::Rdi);
        }
        if *name == String::from_str("%rbp") {
            return Ok(Reg::Rbp);
        }
        if *name == String::from_str("%rsp") {
            return Ok(Reg::Rsp);
        }
        if *name == String::from_str("%r8") {
            return Ok(Reg::R8);
        }
        if *name == String::from_str("%r9") {
            return Ok(Reg::R9);
        }
        if *name == String::from_str("%r10") {
            return Ok(Reg::R10);
        }
        if *name == String::from_str("%r11") {
            return Ok(Reg::R11);
        }
        if *name == String::from_str("%r12") {
            return Ok(Reg::R12);
        }
        if *name == String::from_str("%r13") {
            return Ok(Reg::R13);
        }
        if *name == String::from_str("%r14") {
            return Ok(Reg::R14);
        }
        if *name == String::from_str("%r15") {
            return Ok(Reg::R15);
        }
        Err(Error::UnknownRegister(name.clone()))
    }
}

/// The condition of a conditional jump.
#[derive(Clone, Copy, Debug, PartialEq, Eq, Structural)]
pub enum Cond {
    /// equal
    E,
    /// not equal
    NE,
    /// less or equal
    LE,
    /// greater
    G,
    /// greater or equal
    GE,
    /// less
    L,
    /// below or equal (unsigned, and for float comparisons)
    BE,
    /// above (unsigned, and for float comparisons)
    A,
}

/// One instruction of the generated x86-64 code.
#[derive(Clone, Debug, PartialEq, Eq)]
pub enum Instr {
    /// `movq $imm, %dst`
    MovIR(i32, Reg),
    /// `movq %src, %dst`
    MovRR(Reg, Reg),
    /// `addq $imm, %dst`
    AddIR(i32, Reg),
    /// `call label`
    Call(String),
    /// `label:`
    Label(String),
    /// `.globl label`
    Globl(String),
    /// `.balign n`
    BAlign(u32),
    /// `pushq %reg`
    PushQ(Reg),
    /// `popq %reg`
    PopQ(Reg),
    /// `ret`
    Ret,
    /// `movq src, dst` between named locations: registers or stack slots
    Mov(String, String),
    /// `movsd src, dst` between named locations: float registers or stack slots
    MovSD(String, String),
    /// `negq %dst`
    NegR(Reg),
    /// `addq %src, %dst`
    AddRR(Reg, Reg),
    /// `subq %src, %dst`
    SubRR(Reg, Reg),
    /// `subq $imm, %dst`
    SubIR(i32, Reg),
    /// `jmp label`
    Jmp(String),
    /// `# text`
    Comment(String),
    /// `.long n`
    Long(u32),
    /// `.text`
    Text,
    /// `movq %src, off(%base)`
    Store(Reg, i32, Reg),
    /// `movq off(%base), %dst`
    Load(i32, Reg, Reg),
    /// `cmpq %src, %dst`
    CmpRR(Reg, Reg),
    /// `cmpq $imm, %dst`
    CmpIR(i32, Reg),
    /// `comisd src, dst` on float registers
    ComiSD(String, String),
    /// `jcc label`
    Jcc(Cond, String),
    /// `addsd src, dst` on float registers or stack slots
    AddSD(String, String),
    /// `subsd src, dst`
    SubSD(String, String),
    /// `mulsd src, dst`
    MulSD(String, String),
    /// `divsd src, dst`
    DivSD(String, String),
    /// `xorpd mask, dst`, with the mask at a label
    XorPD(String, String),
    /// `movq $label, %dst`: the address of a label
    MovLR(String, Reg),
    /// `call *(%reg)`: a call of the code that a closure points to
    CallInd(Reg),
    /// `jmp *(%reg)`
    JmpInd(Reg),
}

/// An instruction with its names taken as character sequences.
pub enum InstrView {
    MovIR(i32, Reg),
    MovRR(Reg, Reg),
    AddIR(i32, Reg),
    Call(Seq<char>),
    Label(Seq<char>),
    Globl(Seq<char>),
    BAlign(u32),
    PushQ(Reg),
    PopQ(Reg),
    Ret,
    Mov(Seq<char>, Seq<char>),
    MovSD(Seq<char>, Seq<char>),
    NegR(Reg),
    AddRR(Reg, Reg),
    SubRR(Reg, Reg),
    SubIR(i32, Reg),
    Jmp(Seq<char>),
    Comment(Seq<char>),
    Long(u32),
    Text,
    Store(Reg, i32, Reg),
    Load(i32, Reg, Reg),
    CmpRR(Reg, Reg),
    CmpIR(i32, Reg),
    ComiSD(Seq<char>, Seq<char>),
    Jcc(Cond, Seq<char>),
    AddSD(Seq<char>, Seq<char>),
    SubSD(Seq<char>, Seq<char>),
    MulSD(Seq<char>, Seq<char>),
    DivSD(Seq<char>, Seq<char>),
    XorPD(Seq<char>, Seq<char>),
    MovLR(Seq<char>, Reg),
    CallInd(Reg),
    JmpInd(Reg),
}

impl View for Instr {
    type V = InstrView;

    open spec fn view(&self) -> InstrView {
        match self {
            Instr::MovIR(i, r) => InstrView::MovIR(*i, *r),
            Instr::MovRR(s, d) => InstrView::MovRR(*s, *d),
            Instr::AddIR(i, r) => InstrView::AddIR(*i, *r),
            Instr::Call(l) => InstrView::Call(l@),
            Instr::Label(l) => InstrView::Label(l@),
            Instr::Globl(l) => InstrView::Globl(l@),
            Instr::BAlign(n) => InstrView::BAlign(*n),
            Instr::PushQ(r) => InstrView::PushQ(*r),
            Instr::PopQ(r) => InstrView::PopQ(*r),
            Instr::Ret => InstrView::Ret,
            Instr::Mov(a, b) => InstrView::Mov(a@, b@),
            Instr::MovSD(a, b) => InstrView::MovSD(a@, b@),
            Instr::NegR(r) => InstrView::NegR(*r),
            Instr::AddRR(a, b) => InstrView::AddRR(*a, *b),
            Instr::SubRR(a, b) => InstrView::SubRR(*a, *b),
            Instr::SubIR(i, r) => InstrView::SubIR(*i, *r),
            Instr::Jmp(l) => InstrView::Jmp(l@),
            Instr::Comment(t) => InstrView::Comment(t@),
            Instr::Long(n) => InstrView::Long(*n),
            Instr::Text => InstrView::Text,
            Instr::Store(r, o, b) => InstrView::Store(*r, *o, *b),
            Instr::Load(o, b, r) => InstrView::Load(*o, *b, *r),
            Instr::CmpRR(a, b) => InstrView::CmpRR(*a, *b),
            Instr::CmpIR(i, r) => InstrView::CmpIR(*i, *r),
            Instr::ComiSD(a, b) => InstrView::ComiSD(a@, b@),
            Instr::Jcc(c, l) => InstrView::Jcc(*c, l@),
            Instr::AddSD(a, b) => InstrView::AddSD(a@, b@),
            Instr::SubSD(a, b) => InstrView::SubSD(a@, b@),
            Instr::MulSD(a, b) => InstrView::MulSD(a@, b@),
            Instr::DivSD(a, b) => InstrView::DivSD(a@, b@),
            Instr::XorPD(a, b) => InstrView::XorPD(a@, b@),
            Instr::MovLR(l, r) => InstrView::MovLR(l@, *r),
            Instr::CallInd(r) => InstrView::CallInd(*r),
            Instr::JmpInd(r) => InstrView::JmpInd(*r),
        }
    }
}

/// A sequence of instructions taken by their views.
pub open spec fn code_view(code: Seq<Instr>) -> Seq<InstrView> {
    code.map_values(|i: Instr| i@)
}

/// Naming a register and reading the name back gives the register.
pub proof fn lemma_reg_name_roundtrip(r: Reg)
    ensures
        reg_of(reg_name(r)) == Some(r),
{
    reveal_strlit("%rax");
    reveal_strlit("%rbx");
    reveal_strlit("%rcx");
    reveal_strlit("%rdx");
    reveal_strlit("%rsi");
    reveal_strlit("%rdi");
    reveal_strlit("%rbp");
    reveal_strlit("%rsp");
    reveal_strlit("%r8");
    reveal_strlit("%r9");
    reveal_strlit("%r10");
    reveal_strlit("%r11");
    reveal_strlit("%r12");
    reveal_strlit("%r13");
    reveal_strlit("%r14");
    reveal_strlit("%r15");
    match r {
        Reg::Rax => {
        },
        Reg::Rbx => {
            assert("%rbx"@[2] != "%rax"@[2]);
        },
        Reg::Rcx => {
            assert("%rcx"@[2] != "%rax"@[2]);
            assert("%rcx"@[2] != "%rbx"@[2]);
        },
        Reg::Rdx => {
            assert("%rdx"@[2] != "%rax"@[2]);
            assert("%rdx"@[2] != "%rbx"@[2]);
            assert("%rdx"@[2] != "%rcx"@[2]);
        },
        Reg::Rsi => {
            assert("%rsi"@[2] != "%rax"@[2]);
            assert("%rsi"@[2] != "%rbx"@[2]);
            assert("%rsi"@[2] != "%rcx"@[2]);
            assert("%rsi"@[2] != "%rdx"@[2]);
        },
        Reg::Rdi => {
            assert("%rdi"@[2] != "%rax"@[2]);
            assert("%rdi"@[2] != "%rbx"@[2]);
            assert("%rdi"@[2] != "%rcx"@[2]);
            assert("%rdi"@[3] != "%rdx"@[3]);
            assert("%rdi"@[2] != "%rsi"@[2]);
        },
        Reg::Rbp => {
            assert("%rbp"@[2] != "%rax"@[2]);
            assert("%rbp"@[3] != "%rbx"@[3]);
            assert("%rbp"@[2] != "%rcx"@[2]);
            assert("%rbp"@[2] != "%rdx"@[2]);
            assert("%rbp"@[2] != "%rsi"@[2]);
            assert("%rbp"@[2] != "%rdi"@[2]);
        },
        Reg::Rsp => {
            assert("%rsp"@[2] != "%rax"@[2]);
            assert("%rsp"@[2] != "%rbx"@[2]);
            assert("%rsp"@[2] != "%rcx"@[2]);
            assert("%rsp"@[2] != "%rdx"@[2]);
            assert("%rsp"@[3] != "%rsi"@[3]);
            assert("%rsp"@[2] != "%rdi"@[2]);
            assert("%rsp"@[2] != "%rbp"@[2]);
        },
        Reg::R8 => {
            assert("%r8"@.len() != "%rax"@.len());
            assert("%r8"@.len() != "%rbx"@.len());
            assert("%r8"@.len() != "%rcx"@.len());
            assert("%r8"@.len() != "%rdx"@.len());
            assert("%r8"@.len() != "%rsi"@.len());
            assert("%r8"@.len() != "%rdi"@.len());
            assert("%r8"@.len() != "%rbp"@.len());
            assert("%r8"@.len() != "%rsp"@.len());
        },
        Reg::R9 => {
            assert("%r9"@.len() != "%rax"@.len());
            assert("%r9"@.len() != "%rbx"@.len());
            assert("%r9"@.len() != "%rcx"@.len());
            assert("%r9"@.len() != "%rdx"@.len());
            assert("%r9"@.len() != "%rsi"@.len());
            assert("%r9"@.len() != "%rdi"@.len());
            assert("%r9"@.len() != "%rbp"@.len());
            assert("%r9"@.len() != "%rsp"@.len());
            assert("%r9"@[2] != "%r8"@[2]);
        },
        Reg::R10 => {
            assert("%r10"@[2] != "%rax"@[2]);
            assert("%r10"@[2] != "%rbx"@[2]);
            assert("%r10"@[2] != "%rcx"@[2]);
            assert("%r10"@[2] != "%rdx"@[2]);
            assert("%r10"@[2] != "%rsi"@[2]);
            assert("%r10"@[2] != "%rdi"@[2]);
            assert("%r10"@[2] != "%rbp"@[2]);
            assert("%r10"@[2] != "%rsp"@[2]);
            assert("%r10"@.len() != "%r8"@.len());
            assert("%r10"@.len() != "%r9"@.len());
        },
        Reg::R11 => {
            assert("%r11"@[2] != "%rax"@[2]);
            assert("%r11"@[2] != "%rbx"@[2]);
            assert("%r11"@[2] != "%rcx"@[2]);
            assert("%r11"@[2] != "%rdx"@[2]);
            assert("%r11"@[2] != "%rsi"@[2]);
            assert("%r11"@[2] != "%rdi"@[2]);
            assert("%r11"@[2] != "%rbp"@[2]);
            assert("%r11"@[2] != "%rsp"@[2]);
            assert("%r11"@.len() != "%r8"@.len());
            assert("%r11"@.len() != "%r9"@.len());
            assert("%r11"@[3] != "%r10"@[3]);
        },
        Reg::R12 => {
            assert("%r12"@[2] != "%rax"@[2]);
            assert("%r12"@[2] != "%rbx"@[2]);
            assert("%r12"@[2] != "%rcx"@[2]);
            assert("%r12"@[2] != "%rdx"@[2]);
            assert("%r12"@[2] != "%rsi"@[2]);
            assert("%r12"@[2] != "%rdi"@[2]);
            assert("%r12"@[2] != "%rbp"@[2]);
            assert("%r12"@[2] != "%rsp"@[2]);
            assert("%r12"@.len() != "%r8"@.len());
            assert("%r12"@.len() != "%r9"@.len());
            assert("%r12"@[3] != "%r10"@[3]);
            assert("%r12"@[3] != "%r11"@[3]);
        },
        Reg::R13 => {
            assert("%r13"@[2] != "%rax"@[2]);
            assert("%r13"@[2] != "%rbx"@[2]);
            assert("%r13"@[2] != "%rcx"@[2]);
            assert("%r13"@[2] != "%rdx"@[2]);
            assert("%r13"@[2] != "%rsi"@[2]);
            assert("%r13"@[2] != "%rdi"@[2]);
            assert("%r13"@[2] != "%rbp"@[2]);
            assert("%r13"@[2] != "%rsp"@[2]);
            assert("%r13"@.len() != "%r8"@.len());
            assert("%r13"@.len() != "%r9"@.len());
            assert("%r13"@[3] != "%r10"@[3]);
            assert("%r13"@[3] != "%r11"@[3]);
            assert("%r13"@[3] != "%r12"@[3]);
        },
        Reg::R14 => {
            assert("%r14"@[2] != "%rax"@[2]);
            assert("%r14"@[2] != "%rbx"@[2]);
            assert("%r14"@[2] != "%rcx"@[2]);
            assert("%r14"@[2] != "%rdx"@[2]);
            assert("%r14"@[2] != "%rsi"@[2]);
            assert("%r14"@[2] != "%rdi"@[2]);
            assert("%r14"@[2] != "%rbp"@[2]);
            assert("%r14"@[2] != "%rsp"@[2]);
            assert("%r14"@.len() != "%r8"@.len());
            assert("%r14"@.len() != "%r9"@.len());
            assert("%r14"@[3] != "%r10"@[3]);
            assert("%r14"@[3] != "%r11"@[3]);
            assert("%r14"@[3] != "%r12"@[3]);
            assert("%r14"@[3] != "%r13"@[3]);
        },
        Reg::R15 => {
            assert("%r15"@[2] != "%rax"@[2]);
            assert("%r15"@[2] != "%rbx"@[2]);
            assert("%r15"@[2] != "%rcx"@[2]);
            assert("%r15"@[2] != "%rdx"@[2]);
            assert("%r15"@[2] != "%rsi"@[2]);
            assert("%r15"@[2] != "%rdi"@[2]);
            assert("%r15"@[2] != "%rbp"@[2]);
            assert("%r15"@[2] != "%rsp"@[2]);
            assert("%r15"@.len() != "%r8"@.len());
            assert("%r15"@.len() != "%r9"@.len());
            assert("%r15"@[3] != "%r10"@[3]);
            assert("%r15"@[3] != "%r11"@[3]);
            assert("%r15"@[3] != "%r12"@[3]);
            assert("%r15"@[3] != "%r13"@[3]);
            assert("%r15"@[3] != "%r14"@[3]);
        },
    }
}

} // verus!
