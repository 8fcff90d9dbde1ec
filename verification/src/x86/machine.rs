use vstd::prelude::*;

use crate::x86::emit::decimal;
use crate::x86::instr::{reg_name, Cond, InstrView, Reg};
use crate::x86::moves::step;

verus! {

/// The float operations that instructions carry out on the values of two locations.
pub enum FloatOp {
    Add,
    Sub,
    Mul,
    Div,
    Xor,
}

/// The locations after `loc` is given the value `v`.
pub open spec fn assign(s: spec_fn(Seq<char>) -> int, loc: Seq<char>, v: int) -> spec_fn(
    Seq<char>,
) -> int {
    |r: Seq<char>|
        if r == loc {
            v
        } else {
            s(r)
        }
}

/// The memory operand `off(%base)`: `off` bytes past the address in the register `base`.
pub open spec fn mem_text(off: int, base: Reg) -> Seq<char> {
    decimal(off) + seq!['('] + reg_name(base) + seq![')']
}

/// The values of the locations (registers by their names, and memory operands by their
/// text) after the instruction `ins` runs from the values `s`, float operations being done
/// by `fop`. Only the instructions that move or combine values between named locations are
/// taken into account; the others leave the values as they are.
pub open spec fn exec_instr(
    s: spec_fn(Seq<char>) -> int,
    fop: spec_fn(FloatOp, int, int) -> int,
    ins: InstrView,
) -> spec_fn(Seq<char>) -> int {
    match ins {
        InstrView::MovIR(i, r) => assign(s, reg_name(r), i as int),
        InstrView::MovRR(a, b) => assign(s, reg_name(b), s(reg_name(a))),
        InstrView::AddIR(i, r) => assign(s, reg_name(r), s(reg_name(r)) + i),
        InstrView::SubIR(i, r) => assign(s, reg_name(r), s(reg_name(r)) - i),
        InstrView::AddRR(a, b) => assign(s, reg_name(b), s(reg_name(b)) + s(reg_name(a))),
        InstrView::SubRR(a, b) => assign(s, reg_name(b), s(reg_name(b)) - s(reg_name(a))),
        InstrView::NegR(r) => assign(s, reg_name(r), -s(reg_name(r))),
        InstrView::Store(r, off, base) => assign(s, mem_text(off as int, base), s(reg_name(r))),
        InstrView::Load(off, base, r) => assign(s, reg_name(r), s(mem_text(off as int, base))),
        InstrView::Mov(a, b) => step(s, (a, b)),
        InstrView::MovSD(a, b) => step(s, (a, b)),
        InstrView::AddSD(a, b) => assign(s, b, fop(FloatOp::Add, s(b), s(a))),
        InstrView::SubSD(a, b) => assign(s, b, fop(FloatOp::Sub, s(b), s(a))),
        InstrView::MulSD(a, b) => assign(s, b, fop(FloatOp::Mul, s(b), s(a))),
        InstrView::DivSD(a, b) => assign(s, b, fop(FloatOp::Div, s(b), s(a))),
        InstrView::XorPD(a, b) => assign(s, b, fop(FloatOp::Xor, s(b), s(a))),
        _ => s,
    }
}

/// The values of the locations after `code` runs, one instruction after the other from the
/// first, from the values `s`.
pub open spec fn exec_code(
    code: Seq<InstrView>,
    s: spec_fn(Seq<char>) -> int,
    fop: spec_fn(FloatOp, int, int) -> int,
) -> spec_fn(Seq<char>) -> int
    decreases code.len(),
{
    if code.len() == 0 {
        s
    } else {
        exec_code(code.drop_first(), exec_instr(s, fop, code[0]), fop)
    }
}

/// Running two pieces of code one after the other is running their concatenation.
pub proof fn lemma_exec_concat(
    a: Seq<InstrView>,
    b: Seq<InstrView>,
    s: spec_fn(Seq<char>) -> int,
    fop: spec_fn(FloatOp, int, int) -> int,
)
    ensures
        exec_code(a + b, s, fop) == exec_code(b, exec_code(a, s, fop), fop),
    decreases a.len(),
{
    if a.len() == 0 {
        assert(a + b =~= b);
    } else {
        assert((a + b).drop_first() =~= a.drop_first() + b);
        assert((a + b)[0] == a[0]);
        lemma_exec_concat(a.drop_first(), b, exec_instr(s, fop, a[0]), fop);
    }
}

/// A single instruction runs as itself.
pub proof fn lemma_exec_single(
    ins: InstrView,
    s: spec_fn(Seq<char>) -> int,
    fop: spec_fn(FloatOp, int, int) -> int,
)
    ensures
        exec_code(seq![ins], s, fop) == exec_instr(s, fop, ins),
{
    assert(seq![ins].drop_first() =~= Seq::<InstrView>::empty());
    assert(exec_code(Seq::<InstrView>::empty(), exec_instr(s, fop, ins), fop) == exec_instr(
        s,
        fop,
        ins,
    ));
}

/// Running code with one more instruction at its end runs that instruction last.
pub proof fn lemma_exec_push(
    code: Seq<InstrView>,
    ins: InstrView,
    s: spec_fn(Seq<char>) -> int,
    fop: spec_fn(FloatOp, int, int) -> int,
)
    ensures
        exec_code(code.push(ins), s, fop) == exec_instr(exec_code(code, s, fop), fop, ins),
{
    assert(code.push(ins) =~= code + seq![ins]);
    lemma_exec_concat(code, seq![ins], s, fop);
    lemma_exec_single(ins, exec_code(code, s, fop), fop);
}

/// Whether a conditional jump on `c` is taken after the value `a` was compared with `b`.
pub open spec fn cond_holds(c: Cond, a: int, b: int) -> bool {
    match c {
        Cond::E => a == b,
        Cond::NE => a != b,
        Cond::LE => a <= b,
        Cond::G => a > b,
        Cond::GE => a >= b,
        Cond::L => a < b,
        Cond::BE => a <= b,
        Cond::A => a > b,
    }
}

} // verus!
