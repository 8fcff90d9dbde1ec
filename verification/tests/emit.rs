use mincaml::id::{IdGen, L};
use mincaml::syntax::Type;
use mincaml::x86::emit::{f, fregs, g, g_exp, g_exp_args, h, pp_id_or_imm, Dest, StackState};
use mincaml::x86::error::Error;
use mincaml::x86::instr::{Cond, Instr, Reg};
use mincaml::x86::ir::{regs, Asm, Exp, Fundef, IdOrImm, Prog, REG_SP};

fn s(x: &str) -> String {
    x.to_string()
}

fn call(label: &str) -> Exp {
    Exp::CallDir(L(s(label)), vec![], vec![])
}

#[test]
fn operand_text() {
    assert_eq!(pp_id_or_imm(&IdOrImm::V(s("%rax"))), "%rax");
    assert_eq!(pp_id_or_imm(&IdOrImm::C(42)), "$42");
    assert_eq!(pp_id_or_imm(&IdOrImm::C(0)), "$0");
    assert_eq!(pp_id_or_imm(&IdOrImm::C(-7)), "$-7");
    assert_eq!(pp_id_or_imm(&IdOrImm::C(1234567890)), "$1234567890");
    assert_eq!(pp_id_or_imm(&IdOrImm::C(i32::MIN)), "$-2147483648");
    assert_eq!(pp_id_or_imm(&IdOrImm::C(i32::MAX)), "$2147483647");
}

#[test]
fn register_names_round_trip() {
    let all = [
        Reg::Rax, Reg::Rbx, Reg::Rcx, Reg::Rdx, Reg::Rsi, Reg::Rdi, Reg::Rbp, Reg::Rsp, Reg::R8,
        Reg::R9, Reg::R10, Reg::R11, Reg::R12, Reg::R13, Reg::R14, Reg::R15,
    ];
    for r in all.iter() {
        assert_eq!(Reg::from_name(&r.name()), Ok(*r));
    }
    assert_eq!(Reg::Rax.name(), "%rax");
    assert_eq!(Reg::R12.name(), "%r12");
    assert_eq!(Reg::from_name(&s("%eax")), Err(Error::UnknownRegister(s("%eax"))));
    assert_eq!(Reg::from_name(&s("rax")), Err(Error::UnknownRegister(s("rax"))));
}

#[test]
fn argument_registers() {
    assert_eq!(regs(0), Reg::Rax);
    assert_eq!(regs(5), Reg::Rdi);
    assert_eq!(REG_SP, Reg::Rbp);
}

#[test]
fn set_into_register() {
    let mut out = vec![];
    let mut ss = StackState::new();
    assert_eq!(g_exp(&mut out, &mut ss, Dest::NonTail(s("%rbx")), Exp::SetImm(5), &mut IdGen::new()), Ok(()));
    assert_eq!(out, vec![Instr::MovIR(5, Reg::Rbx)]);
}

#[test]
fn set_into_unknown_register_fails() {
    let mut out = vec![Instr::Ret];
    let mut ss = StackState::new();
    assert_eq!(
        g_exp(&mut out, &mut ss, Dest::NonTail(s("x.1")), Exp::SetImm(5), &mut IdGen::new()),
        Err(Error::UnknownRegister(s("x.1")))
    );
    assert_eq!(out, vec![Instr::Ret]);
}

#[test]
fn call_into_result_register() {
    let mut out = vec![];
    let mut ss = StackState::new();
    assert_eq!(g_exp(&mut out, &mut ss, Dest::NonTail(s("%rax")), call("min_caml_f"), &mut IdGen::new()), Ok(()));
    assert_eq!(out, vec![Instr::Call(s("min_caml_f"))]);
}

#[test]
fn call_into_other_register_moves_result() {
    let mut out = vec![];
    let mut ss = StackState::new();
    assert_eq!(g_exp(&mut out, &mut ss, Dest::NonTail(s("%rcx")), call("f"), &mut IdGen::new()), Ok(()));
    assert_eq!(out, vec![Instr::Call(s("f")), Instr::MovRR(Reg::Rax, Reg::Rcx)]);
}

#[test]
fn call_moves_stack_pointer_past_frame() {
    let mut out = vec![];
    let mut ss = StackState::new();
    ss.save("x");
    ss.save("y");
    assert_eq!(g_exp(&mut out, &mut ss, Dest::NonTail(s("%rdx")), call("f"), &mut IdGen::new()), Ok(()));
    assert_eq!(
        out,
        vec![
            Instr::AddIR(16, Reg::Rbp),
            Instr::Call(s("f")),
            Instr::AddIR(-16, Reg::Rbp),
            Instr::MovRR(Reg::Rax, Reg::Rdx),
        ]
    );
    assert_eq!(ss.stacksize(), 16);
}

#[test]
fn call_into_a_name_that_is_no_register_moves_nothing() {
    let mut out = vec![];
    let mut ss = StackState::new();
    assert_eq!(g_exp(&mut out, &mut ss, Dest::NonTail(s("v")), call("f"), &mut IdGen::new()), Ok(()));
    assert_eq!(out, vec![Instr::Call(s("f"))]);
}

#[test]
fn bindings_in_order() {
    let body = Asm::Let(
        s("%rbx"),
        Type::Int,
        Exp::SetImm(1),
        Box::new(Asm::Let(s("%rcx"), Type::Int, Exp::SetImm(2), Box::new(Asm::Ans(call("h"))))),
    );
    let mut out = vec![];
    let mut ss = StackState::new();
    assert_eq!(g(&mut out, &mut ss, Dest::NonTail(s("%rsi")), body, &mut IdGen::new()), Ok(()));
    assert_eq!(
        out,
        vec![
            Instr::MovIR(1, Reg::Rbx),
            Instr::MovIR(2, Reg::Rcx),
            Instr::Call(s("h")),
            Instr::MovRR(Reg::Rax, Reg::Rsi),
        ]
    );
}

#[test]
fn bindings_stop_at_first_failure() {
    let body = Asm::Let(
        s("%rbx"),
        Type::Int,
        Exp::SetImm(1),
        Box::new(Asm::Let(s("bad"), Type::Int, Exp::SetImm(2), Box::new(Asm::Ans(Exp::Nop)))),
    );
    let mut out = vec![];
    let mut ss = StackState::new();
    assert_eq!(
        g(&mut out, &mut ss, Dest::Tail, body, &mut IdGen::new()),
        Err(Error::UnknownRegister(s("bad")))
    );
    assert_eq!(out, vec![Instr::MovIR(1, Reg::Rbx)]);
}

#[test]
fn function_starts_with_its_label() {
    let fd = Fundef {
        name: L(s("min_caml_g")),
        args: vec![s("%rax")],
        fargs: vec![],
        body: Asm::Let(s("tmp"), Type::Int, Exp::SetImm(3), Box::new(Asm::Ans(Exp::Nop))),
        ret: Type::Unit,
    };
    let mut out = vec![];
    let mut ids = IdGen::new();
    assert_eq!(h(&mut out, fd, &mut ids), Err(Error::UnknownRegister(s("tmp"))));
    assert_eq!(out, vec![Instr::Label(s("min_caml_g"))]);
}

fn program_listing(main: Vec<Instr>) -> Vec<Instr> {
    let mut v = vec![
        Instr::Label(s(".data")),
        Instr::BAlign(8),
        Instr::Text,
        Instr::Globl(s("min_caml_start")),
        Instr::Label(s("min_caml_start")),
        Instr::Globl(s("_min_caml_start")),
        Instr::Label(s("_min_caml_start")),
    ];
    let saved = [Reg::Rax, Reg::Rbx, Reg::Rcx, Reg::Rdx, Reg::Rsi, Reg::Rdi, Reg::Rbp];
    for r in saved.iter() {
        v.push(Instr::PushQ(*r));
    }
    v.extend(main);
    for r in saved.iter().rev() {
        v.push(Instr::PopQ(*r));
    }
    v.push(Instr::Ret);
    v
}

#[test]
fn program_with_constant_main() {
    let prog = Prog(vec![], vec![], Asm::Ans(Exp::SetImm(42)));
    let mut ids = IdGen::new();
    assert_eq!(f(prog, &mut ids), Ok(program_listing(vec![Instr::MovIR(42, Reg::Rax)])));
}

#[test]
fn program_data_section_holds_float_words() {
    let data = vec![(L(s("l.1")), 1.5f64.to_bits()), (L(s("l.2")), 0x0123_4567_89ab_cdefu64)];
    let prog = Prog(data, vec![], Asm::Ans(Exp::Nop));
    let mut ids = IdGen::new();
    let v = f(prog, &mut ids).unwrap();
    assert_eq!(
        &v[..9],
        &[
            Instr::Label(s(".data")),
            Instr::BAlign(8),
            Instr::Label(s("l.1")),
            Instr::Long(0x3ff8_0000),
            Instr::Long(0),
            Instr::Label(s("l.2")),
            Instr::Long(0x0123_4567),
            Instr::Long(0x89ab_cdef),
            Instr::Text,
        ][..]
    );
}

#[test]
fn program_with_function() {
    let fd = Fundef {
        name: L(s("min_caml_g")),
        args: vec![],
        fargs: vec![],
        body: Asm::Ans(Exp::SetImm(1)),
        ret: Type::Int,
    };
    let prog = Prog(vec![], vec![fd], Asm::Ans(call("min_caml_g")));
    let mut ids = IdGen::new();
    let mut expected = program_listing(vec![Instr::Call(s("min_caml_g"))]);
    let tail = expected.split_off(3);
    expected.extend(vec![Instr::Label(s("min_caml_g")), Instr::MovIR(1, Reg::Rax), Instr::Ret]);
    expected.extend(tail);
    assert_eq!(f(prog, &mut ids), Ok(expected));
}

#[test]
fn program_with_call_in_main() {
    let body = Asm::Let(s("%rbx"), Type::Int, Exp::SetImm(7), Box::new(Asm::Ans(call("min_caml_print_int"))));
    let prog = Prog(vec![], vec![], body);
    let mut ids = IdGen::new();
    assert_eq!(
        f(prog, &mut ids),
        Ok(program_listing(vec![Instr::MovIR(7, Reg::Rbx), Instr::Call(s("min_caml_print_int"))]))
    );
}

#[test]
fn program_main_with_unknown_register_fails() {
    let prog = Prog(vec![], vec![], Asm::Let(s("x"), Type::Int, Exp::SetImm(1), Box::new(Asm::Ans(Exp::SetImm(2)))));
    let mut ids = IdGen::new();
    assert_eq!(f(prog, &mut ids), Err(Error::UnknownRegister(s("x"))));
}

#[test]
fn program_function_failure_stops_emission() {
    let fd = Fundef {
        name: L(s("min_caml_g")),
        args: vec![],
        fargs: vec![],
        body: Asm::Ans(Exp::Nop),
        ret: Type::Unit,
    };
    let bad = Fundef {
        name: L(s("min_caml_h")),
        args: vec![],
        fargs: vec![],
        body: Asm::Let(s("y"), Type::Int, Exp::SetImm(1), Box::new(Asm::Ans(Exp::Nop))),
        ret: Type::Int,
    };
    let _ = fd;
    let prog = Prog(vec![], vec![bad], Asm::Ans(Exp::SetImm(0)));
    let mut ids = IdGen::new();
    assert_eq!(f(prog, &mut ids), Err(Error::UnknownRegister(s("y"))));
}

#[test]
fn empty_instruction_into_register() {
    let mut out = vec![];
    let mut ss = StackState::new();
    assert_eq!(g_exp(&mut out, &mut ss, Dest::NonTail(s("%rax")), Exp::Nop, &mut IdGen::new()), Ok(()));
    assert_eq!(out, vec![]);
    assert_eq!(g_exp(&mut out, &mut ss, Dest::NonTail(s("%rax")), Exp::Comment(s("hi")), &mut IdGen::new()), Ok(()));
    assert_eq!(out, vec![Instr::Comment(s("hi"))]);
}

#[test]
fn moves_between_registers() {
    let mut out = vec![];
    let mut ss = StackState::new();
    assert_eq!(g_exp(&mut out, &mut ss, Dest::NonTail(s("%rbx")), Exp::Mov(s("%rcx")), &mut IdGen::new()), Ok(()));
    assert_eq!(g_exp(&mut out, &mut ss, Dest::NonTail(s("%rbx")), Exp::Mov(s("%rbx")), &mut IdGen::new()), Ok(()));
    assert_eq!(out, vec![Instr::MovRR(Reg::Rcx, Reg::Rbx)]);
    assert_eq!(
        g_exp(&mut out, &mut ss, Dest::NonTail(s("%rbx")), Exp::Mov(s("y")), &mut IdGen::new()),
        Err(Error::UnknownRegister(s("y")))
    );
}

#[test]
fn negation_and_arithmetic() {
    let mut out = vec![];
    let mut ss = StackState::new();
    assert_eq!(g_exp(&mut out, &mut ss, Dest::NonTail(s("%rbx")), Exp::Neg(s("%rcx")), &mut IdGen::new()), Ok(()));
    assert_eq!(out, vec![Instr::MovRR(Reg::Rcx, Reg::Rbx), Instr::NegR(Reg::Rbx)]);
    let mut out = vec![];
    let e = Exp::Add(s("%rcx"), IdOrImm::V(s("%rbx")));
    assert_eq!(g_exp(&mut out, &mut ss, Dest::NonTail(s("%rbx")), e, &mut IdGen::new()), Ok(()));
    assert_eq!(out, vec![Instr::AddRR(Reg::Rcx, Reg::Rbx)]);
    let mut out = vec![];
    let e = Exp::Sub(s("%rcx"), IdOrImm::V(s("%rbx")));
    assert_eq!(g_exp(&mut out, &mut ss, Dest::NonTail(s("%rbx")), e, &mut IdGen::new()), Ok(()));
    assert_eq!(out, vec![Instr::SubRR(Reg::Rcx, Reg::Rbx), Instr::NegR(Reg::Rbx)]);
    let mut out = vec![];
    let e = Exp::Sub(s("%rcx"), IdOrImm::C(5));
    assert_eq!(g_exp(&mut out, &mut ss, Dest::NonTail(s("%rbx")), e, &mut IdGen::new()), Ok(()));
    assert_eq!(out, vec![Instr::MovRR(Reg::Rcx, Reg::Rbx), Instr::SubIR(5, Reg::Rbx)]);
    let mut out = vec![];
    let e = Exp::Add(s("%rbx"), IdOrImm::V(s("%rdx")));
    assert_eq!(g_exp(&mut out, &mut ss, Dest::NonTail(s("%rbx")), e, &mut IdGen::new()), Ok(()));
    assert_eq!(out, vec![Instr::AddRR(Reg::Rdx, Reg::Rbx)]);
    let mut out = vec![];
    let e = Exp::Add(s("%rbx"), IdOrImm::V(s("z")));
    assert_eq!(
        g_exp(&mut out, &mut ss, Dest::NonTail(s("%rbx")), e, &mut IdGen::new()),
        Err(Error::UnknownRegister(s("z")))
    );
    assert_eq!(out, vec![]);
}

#[test]
fn tail_position_returns() {
    let mut out = vec![];
    let mut ss = StackState::new();
    assert_eq!(g_exp(&mut out, &mut ss, Dest::Tail, Exp::SetImm(3), &mut IdGen::new()), Ok(()));
    assert_eq!(out, vec![Instr::MovIR(3, Reg::Rax), Instr::Ret]);
    let mut out = vec![];
    assert_eq!(g_exp(&mut out, &mut ss, Dest::Tail, Exp::Nop, &mut IdGen::new()), Ok(()));
    assert_eq!(out, vec![Instr::Ret]);
    let mut out = vec![];
    assert_eq!(g_exp(&mut out, &mut ss, Dest::Tail, call("f"), &mut IdGen::new()), Ok(()));
    assert_eq!(out, vec![Instr::Jmp(s("f"))]);
}

#[test]
fn call_places_arguments() {
    let mut out = vec![];
    let mut ss = StackState::new();
    let e = Exp::CallDir(L(s("f")), vec![s("%rbx"), s("%rax")], vec![s("%xmm1")]);
    assert_eq!(g_exp(&mut out, &mut ss, Dest::NonTail(s("%rax")), e, &mut IdGen::new()), Ok(()));
    assert_eq!(
        out,
        vec![
            Instr::Mov(s("%rbx"), s("0(%rbp)")),
            Instr::Mov(s("%rax"), s("%rbx")),
            Instr::Mov(s("0(%rbp)"), s("%rax")),
            Instr::MovSD(s("%xmm1"), s("%xmm0")),
            Instr::Call(s("f")),
        ]
    );
}

#[test]
fn argument_placement_uses_slot_past_frame() {
    let mut out = vec![];
    let mut ss = StackState::new();
    ss.save("v");
    let cls = vec![(s("%rcx"), s("%rdi"))];
    assert_eq!(g_exp_args(&mut out, &mut ss, cls, vec![s("%rbx"), s("%rax")], vec![]), Ok(()));
    assert_eq!(
        out,
        vec![
            Instr::Mov(s("%rcx"), s("%rdi")),
            Instr::Mov(s("%rbx"), s("8(%rbp)")),
            Instr::Mov(s("%rax"), s("%rbx")),
            Instr::Mov(s("8(%rbp)"), s("%rax")),
        ]
    );
    assert_eq!(fregs(0), "%xmm0");
    assert_eq!(fregs(7), "%xmm7");
}

#[test]
fn function_body_in_tail_position() {
    let fd = Fundef {
        name: L(s("min_caml_k")),
        args: vec![],
        fargs: vec![],
        body: Asm::Let(s("%rbx"), Type::Int, Exp::SetImm(2), Box::new(Asm::Ans(Exp::Mov(s("%rbx"))))),
        ret: Type::Int,
    };
    let mut out = vec![];
    let mut ids = IdGen::new();
    assert_eq!(h(&mut out, fd, &mut ids), Ok(()));
    assert_eq!(
        out,
        vec![
            Instr::Label(s("min_caml_k")),
            Instr::MovIR(2, Reg::Rbx),
            Instr::MovRR(Reg::Rbx, Reg::Rax),
            Instr::Ret,
        ]
    );
}

#[test]
fn save_and_restore_use_slots() {
    let mut out = vec![];
    let mut ss = StackState::new();
    let save = |x: &str, y: &str| Exp::Save(s(x), s(y));
    assert_eq!(g_exp(&mut out, &mut ss, Dest::NonTail(s("t")), save("%rbx", "v"), &mut IdGen::new()), Ok(()));
    assert_eq!(g_exp(&mut out, &mut ss, Dest::NonTail(s("t")), save("%rbx", "v"), &mut IdGen::new()), Ok(()));
    assert_eq!(g_exp(&mut out, &mut ss, Dest::NonTail(s("t")), save("%xmm1", "d"), &mut IdGen::new()), Ok(()));
    assert_eq!(g_exp(&mut out, &mut ss, Dest::NonTail(s("%rcx")), Exp::Restore(s("v")), &mut IdGen::new()), Ok(()));
    assert_eq!(g_exp(&mut out, &mut ss, Dest::NonTail(s("%xmm2")), Exp::Restore(s("d")), &mut IdGen::new()), Ok(()));
    assert_eq!(
        out,
        vec![
            Instr::Store(Reg::Rbx, 0, Reg::Rbp),
            Instr::MovSD(s("%xmm1"), s("8(%rbp)")),
            Instr::Load(0, Reg::Rbp, Reg::Rcx),
            Instr::MovSD(s("8(%rbp)"), s("%xmm2")),
        ]
    );
    assert!(ss.is_saved("v") && ss.is_saved("d"));
    assert_eq!(ss.stacksize(), 16);
}

#[test]
fn save_in_tail_position_returns() {
    let mut out = vec![];
    let mut ss = StackState::new();
    assert_eq!(g_exp(&mut out, &mut ss, Dest::Tail, Exp::Save(s("%rdx"), s("w")), &mut IdGen::new()), Ok(()));
    assert_eq!(out, vec![Instr::Store(Reg::Rdx, 0, Reg::Rbp), Instr::Ret]);
}

#[test]
fn call_after_save_moves_past_the_frame() {
    let body = Asm::Let(
        s("t"),
        Type::Unit,
        Exp::Save(s("%rbx"), s("v")),
        Box::new(Asm::Ans(call("f"))),
    );
    let mut out = vec![];
    let mut ss = StackState::new();
    assert_eq!(g(&mut out, &mut ss, Dest::NonTail(s("%rax")), body, &mut IdGen::new()), Ok(()));
    assert_eq!(
        out,
        vec![
            Instr::Store(Reg::Rbx, 0, Reg::Rbp),
            Instr::AddIR(8, Reg::Rbp),
            Instr::Call(s("f")),
            Instr::AddIR(-8, Reg::Rbp),
        ]
    );
}

fn ans(e: Exp) -> Box<Asm> {
    Box::new(Asm::Ans(e))
}

#[test]
fn fresh_labels_count_up() {
    let mut ids = IdGen::new();
    assert_eq!(ids.genid("je_else"), "je_else.1");
    assert_eq!(ids.genid("je_cont"), "je_cont.2");
    assert_eq!(ids.counter, 2);
}

#[test]
fn conditional_in_tail_position() {
    let fd = Fundef {
        name: L(s("min_caml_sgn")),
        args: vec![s("%rax")],
        fargs: vec![],
        body: Asm::Ans(Exp::IfEq(s("%rax"), IdOrImm::C(0), ans(Exp::SetImm(1)), ans(Exp::SetImm(2)))),
        ret: Type::Int,
    };
    let mut out = vec![];
    let mut ids = IdGen::new();
    assert_eq!(h(&mut out, fd, &mut ids), Ok(()));
    assert_eq!(
        out,
        vec![
            Instr::Label(s("min_caml_sgn")),
            Instr::CmpIR(0, Reg::Rax),
            Instr::Jcc(Cond::NE, s("je_else.1")),
            Instr::MovIR(1, Reg::Rax),
            Instr::Ret,
            Instr::Label(s("je_else.1")),
            Instr::MovIR(2, Reg::Rax),
            Instr::Ret,
        ]
    );
    assert_eq!(ids.counter, 1);
}

#[test]
fn conditional_into_register_joins_after_both_branches() {
    let mut out = vec![];
    let mut ss = StackState::new();
    let mut ids = IdGen { counter: 5 };
    let e = Exp::IfLE(s("%rax"), IdOrImm::V(s("%rcx")), ans(Exp::SetImm(1)), ans(Exp::SetImm(2)));
    assert_eq!(g_exp(&mut out, &mut ss, Dest::NonTail(s("%rbx")), e, &mut ids), Ok(()));
    assert_eq!(
        out,
        vec![
            Instr::CmpRR(Reg::Rcx, Reg::Rax),
            Instr::Jcc(Cond::G, s("jle_else.6")),
            Instr::MovIR(1, Reg::Rbx),
            Instr::Jmp(s("jle_cont.7")),
            Instr::Label(s("jle_else.6")),
            Instr::MovIR(2, Reg::Rbx),
            Instr::Label(s("jle_cont.7")),
        ]
    );
    assert_eq!(ids.counter, 7);
}

#[test]
fn float_conditions_compare_second_with_first() {
    let mut out = vec![];
    let mut ss = StackState::new();
    let mut ids = IdGen::new();
    let e = Exp::IfFLE(s("%xmm0"), s("%xmm1"), ans(Exp::Nop), ans(Exp::Nop));
    assert_eq!(g_exp(&mut out, &mut ss, Dest::Tail, e, &mut ids), Ok(()));
    assert_eq!(
        out,
        vec![
            Instr::ComiSD(s("%xmm1"), s("%xmm0")),
            Instr::Jcc(Cond::A, s("jbe_else.1")),
            Instr::Ret,
            Instr::Label(s("jbe_else.1")),
            Instr::Ret,
        ]
    );
    let mut out = vec![];
    let e = Exp::IfFEq(s("%xmm2"), s("%xmm3"), ans(Exp::Nop), ans(Exp::Nop));
    assert_eq!(g_exp(&mut out, &mut ss, Dest::NonTail(s("%rax")), e, &mut ids), Ok(()));
    assert_eq!(
        out,
        vec![
            Instr::ComiSD(s("%xmm3"), s("%xmm2")),
            Instr::Jcc(Cond::NE, s("je_else.4")),
            Instr::Jmp(s("je_cont.5")),
            Instr::Label(s("je_else.4")),
            Instr::Label(s("je_cont.5")),
        ]
    );
    assert_eq!(ids.counter, 5);
}

#[test]
fn void_instruction_in_tail_position_takes_a_temporary() {
    let mut out = vec![];
    let mut ss = StackState::new();
    let mut ids = IdGen::new();
    assert_eq!(g_exp(&mut out, &mut ss, Dest::Tail, Exp::Comment(s("end")), &mut ids), Ok(()));
    assert_eq!(out, vec![Instr::Comment(s("end")), Instr::Ret]);
    assert_eq!(ids.counter, 1);
    assert_eq!(g_exp(&mut out, &mut ss, Dest::NonTail(s("%rax")), Exp::Nop, &mut ids), Ok(()));
    assert_eq!(ids.counter, 1);
    assert_eq!(ids.gentmp(&Type::Int), "Ti2");
    assert_eq!(ids.gentmp(&Type::Float), "Td3");
}

#[test]
fn conditional_keeps_saved_only_what_both_branches_saved() {
    let save = |x: &str, y: &str| Exp::Save(s(x), s(y));
    let first = Asm::Let(s("t"), Type::Unit, save("%rbx", "v"), ans(save("%rcx", "w")));
    let second = Asm::Ans(save("%rdx", "v"));
    let e = Exp::IfGE(s("%rax"), IdOrImm::C(3), Box::new(first), Box::new(second));
    let mut out = vec![];
    let mut ss = StackState::new();
    let mut ids = IdGen::new();
    assert_eq!(g_exp(&mut out, &mut ss, Dest::NonTail(s("t")), e, &mut ids), Ok(()));
    assert_eq!(
        out,
        vec![
            Instr::CmpIR(3, Reg::Rax),
            Instr::Jcc(Cond::L, s("jge_else.1")),
            Instr::Store(Reg::Rbx, 0, Reg::Rbp),
            Instr::Store(Reg::Rcx, 8, Reg::Rbp),
            Instr::Jmp(s("jge_cont.2")),
            Instr::Label(s("jge_else.1")),
            Instr::Store(Reg::Rdx, 0, Reg::Rbp),
            Instr::Label(s("jge_cont.2")),
        ]
    );
    assert!(ss.is_saved("v"));
    assert!(!ss.is_saved("w"));
    assert_eq!(ss.offset("w"), Some(8));
    assert_eq!(ss.stacksize(), 16);
}

#[test]
fn conditional_on_a_name_that_is_no_register() {
    let mut out = vec![];
    let mut ss = StackState::new();
    let mut ids = IdGen::new();
    let e = Exp::IfEq(s("x"), IdOrImm::C(0), ans(Exp::Nop), ans(Exp::Nop));
    assert_eq!(g_exp(&mut out, &mut ss, Dest::Tail, e, &mut ids), Err(Error::UnknownRegister(s("x"))));
    assert!(out.is_empty());
    assert_eq!(ids.counter, 0);
    let e = Exp::IfEq(s("%rax"), IdOrImm::V(s("y")), ans(Exp::Nop), ans(Exp::Nop));
    assert_eq!(g_exp(&mut out, &mut ss, Dest::Tail, e, &mut ids), Err(Error::UnknownRegister(s("y"))));
    assert!(out.is_empty());
}

#[test]
fn failing_branch_stops_the_conditional() {
    let mut out = vec![];
    let mut ss = StackState::new();
    let mut ids = IdGen::new();
    let e = Exp::IfEq(s("%rax"), IdOrImm::C(0), ans(Exp::SetImm(1)), ans(Exp::Nop));
    assert_eq!(
        g_exp(&mut out, &mut ss, Dest::NonTail(s("r")), e, &mut ids),
        Err(Error::UnknownRegister(s("r")))
    );
    assert_eq!(out, vec![Instr::CmpIR(0, Reg::Rax), Instr::Jcc(Cond::NE, s("je_else.1"))]);
    assert_eq!(ids.counter, 2);
}

#[test]
fn program_with_conditional_numbers_labels_across_functions() {
    let branchy = |name: &str| Fundef {
        name: L(s(name)),
        args: vec![],
        fargs: vec![],
        body: Asm::Ans(Exp::IfEq(s("%rax"), IdOrImm::C(0), ans(Exp::Nop), ans(Exp::Nop))),
        ret: Type::Unit,
    };
    let prog = Prog(vec![], vec![branchy("a"), branchy("b")], Asm::Ans(Exp::Nop));
    let mut ids = IdGen::new();
    let v = f(prog, &mut ids).unwrap();
    assert!(v.contains(&Instr::Label(s("je_else.1"))));
    assert!(v.contains(&Instr::Label(s("je_else.4"))));
    assert_eq!(ids.counter, 6);
}

#[test]
fn float_moves_and_arithmetic() {
    let mut out = vec![];
    let mut ss = StackState::new();
    let mut ids = IdGen::new();
    let x = || Dest::NonTail(s("%xmm0"));
    assert_eq!(g_exp(&mut out, &mut ss, x(), Exp::FMovD(s("%xmm0")), &mut ids), Ok(()));
    assert!(out.is_empty());
    assert_eq!(g_exp(&mut out, &mut ss, x(), Exp::FMovD(s("%xmm1")), &mut ids), Ok(()));
    assert_eq!(g_exp(&mut out, &mut ss, x(), Exp::FNegD(s("%xmm2")), &mut ids), Ok(()));
    assert_eq!(g_exp(&mut out, &mut ss, x(), Exp::FAddD(s("%xmm3"), s("%xmm0")), &mut ids), Ok(()));
    assert_eq!(g_exp(&mut out, &mut ss, x(), Exp::FDivD(s("%xmm1"), s("%xmm2")), &mut ids), Ok(()));
    assert_eq!(
        out,
        vec![
            Instr::MovSD(s("%xmm1"), s("%xmm0")),
            Instr::MovSD(s("%xmm2"), s("%xmm0")),
            Instr::XorPD(s("min_caml_fnegd"), s("%xmm0")),
            Instr::AddSD(s("%xmm3"), s("%xmm0")),
            Instr::MovSD(s("%xmm1"), s("%xmm0")),
            Instr::DivSD(s("%xmm2"), s("%xmm0")),
        ]
    );
}

#[test]
fn float_subtraction_from_itself_goes_through_the_frame() {
    let mut out = vec![];
    let mut ss = StackState::new();
    ss.save("v");
    let mut ids = IdGen::new();
    let e = Exp::FSubD(s("%xmm1"), s("%xmm0"));
    assert_eq!(g_exp(&mut out, &mut ss, Dest::NonTail(s("%xmm0")), e, &mut ids), Ok(()));
    assert_eq!(
        out,
        vec![
            Instr::MovSD(s("%xmm0"), s("8(%rbp)")),
            Instr::MovSD(s("%xmm1"), s("%xmm0")),
            Instr::SubSD(s("8(%rbp)"), s("%xmm0")),
        ]
    );
}

#[test]
fn float_result_in_tail_position() {
    let mut out = vec![];
    let mut ss = StackState::new();
    let mut ids = IdGen::new();
    let e = Exp::FMulD(s("%xmm1"), s("%xmm2"));
    assert_eq!(g_exp(&mut out, &mut ss, Dest::Tail, e, &mut ids), Ok(()));
    assert_eq!(
        out,
        vec![
            Instr::MovSD(s("%xmm1"), s("%xmm0")),
            Instr::MulSD(s("%xmm2"), s("%xmm0")),
            Instr::Ret,
        ]
    );
}

#[test]
fn address_of_a_label() {
    let mut out = vec![];
    let mut ss = StackState::new();
    let mut ids = IdGen::new();
    let e = Exp::SetL(L(s("l.5")));
    assert_eq!(g_exp(&mut out, &mut ss, Dest::NonTail(s("%rdi")), e, &mut ids), Ok(()));
    assert_eq!(out, vec![Instr::MovLR(s("l.5"), Reg::Rdi)]);
    let e = Exp::SetL(L(s("l.5")));
    assert_eq!(
        g_exp(&mut out, &mut ss, Dest::NonTail(s("a")), e, &mut ids),
        Err(Error::UnknownRegister(s("a")))
    );
}

#[test]
fn call_result_into_float_register() {
    let mut out = vec![];
    let mut ss = StackState::new();
    let mut ids = IdGen::new();
    assert_eq!(g_exp(&mut out, &mut ss, Dest::NonTail(s("%xmm3")), call("sqrt"), &mut ids), Ok(()));
    assert_eq!(out, vec![Instr::Call(s("sqrt")), Instr::MovSD(s("%xmm0"), s("%xmm3"))]);
    let mut out = vec![];
    assert_eq!(g_exp(&mut out, &mut ss, Dest::NonTail(s("%xmm0")), call("sqrt"), &mut ids), Ok(()));
    assert_eq!(out, vec![Instr::Call(s("sqrt"))]);
}

#[test]
fn loads_and_stores_through_memory() {
    let mut out = vec![];
    let mut ss = StackState::new();
    let mut ids = IdGen::new();
    let x = || Dest::NonTail(s("%rax"));
    let ld = Exp::Ld(s("%rbx"), IdOrImm::V(s("%rcx")), 8);
    assert_eq!(g_exp(&mut out, &mut ss, x(), ld, &mut ids), Ok(()));
    let ld = Exp::Ld(s("%rbx"), IdOrImm::C(-3), 8);
    assert_eq!(g_exp(&mut out, &mut ss, x(), ld, &mut ids), Ok(()));
    let st = Exp::St(s("%rdx"), s("%rbx"), IdOrImm::C(2), 4);
    assert_eq!(g_exp(&mut out, &mut ss, x(), st, &mut ids), Ok(()));
    let ld = Exp::LdDF(s("%rbx"), IdOrImm::C(1), 8);
    assert_eq!(g_exp(&mut out, &mut ss, Dest::NonTail(s("%xmm1")), ld, &mut ids), Ok(()));
    let st = Exp::StDF(s("%xmm1"), s("%rbx"), IdOrImm::V(s("%rsi")), 8);
    assert_eq!(g_exp(&mut out, &mut ss, x(), st, &mut ids), Ok(()));
    assert_eq!(
        out,
        vec![
            Instr::Mov(s("(%rbx,%rcx,8)"), s("%rax")),
            Instr::Mov(s("-24(%rbx)"), s("%rax")),
            Instr::Mov(s("%rdx"), s("8(%rbx)")),
            Instr::MovSD(s("8(%rbx)"), s("%xmm1")),
            Instr::MovSD(s("%xmm1"), s("(%rbx,%rsi,8)")),
        ]
    );
    assert_eq!(ids.counter, 0);
}

#[test]
fn loads_and_stores_in_tail_position() {
    let mut out = vec![];
    let mut ss = StackState::new();
    let mut ids = IdGen::new();
    let ld = Exp::LdDF(s("%rbx"), IdOrImm::C(0), 8);
    assert_eq!(g_exp(&mut out, &mut ss, Dest::Tail, ld, &mut ids), Ok(()));
    let st = Exp::St(s("%rdx"), s("%rbx"), IdOrImm::C(0), 8);
    assert_eq!(g_exp(&mut out, &mut ss, Dest::Tail, st, &mut ids), Ok(()));
    let ld = Exp::Ld(s("%rbx"), IdOrImm::C(1), 8);
    assert_eq!(g_exp(&mut out, &mut ss, Dest::Tail, ld, &mut ids), Ok(()));
    assert_eq!(
        out,
        vec![
            Instr::MovSD(s("0(%rbx)"), s("%xmm0")),
            Instr::Ret,
            Instr::Mov(s("%rdx"), s("0(%rbx)")),
            Instr::Ret,
            Instr::Mov(s("8(%rbx)"), s("%rax")),
            Instr::Ret,
        ]
    );
    assert_eq!(ids.counter, 1);
}

#[test]
fn closure_call_goes_through_the_closure_register() {
    let mut out = vec![];
    let mut ss = StackState::new();
    let mut ids = IdGen::new();
    let e = Exp::CallCls(s("%rbx"), vec![s("%rcx")], vec![]);
    assert_eq!(g_exp(&mut out, &mut ss, Dest::NonTail(s("%rdx")), e, &mut ids), Ok(()));
    assert_eq!(
        out,
        vec![
            Instr::Mov(s("%rcx"), s("%rax")),
            Instr::Mov(s("%rbx"), s("%rdi")),
            Instr::CallInd(Reg::Rdi),
            Instr::MovRR(Reg::Rax, Reg::Rdx),
        ]
    );
    let mut out = vec![];
    let e = Exp::CallCls(s("%rax"), vec![s("%rdi")], vec![]);
    assert_eq!(g_exp(&mut out, &mut ss, Dest::Tail, e, &mut ids), Ok(()));
    assert_eq!(
        out,
        vec![
            Instr::Mov(s("%rax"), s("0(%rbp)")),
            Instr::Mov(s("%rdi"), s("%rax")),
            Instr::Mov(s("0(%rbp)"), s("%rdi")),
            Instr::JmpInd(Reg::Rdi),
        ]
    );
}

#[test]
fn function_code_ignores_parameters_and_result_type() {
    let body = || Asm::Ans(Exp::IfEq(s("%rax"), IdOrImm::C(1), ans(Exp::SetImm(1)), ans(Exp::Nop)));
    let fd1 = Fundef { name: L(s("k")), args: vec![s("%rax")], fargs: vec![], body: body(), ret: Type::Int };
    let fd2 = Fundef { name: L(s("k")), args: vec![], fargs: vec![s("%xmm0")], body: body(), ret: Type::Unit };
    let (mut out1, mut out2) = (vec![], vec![]);
    let (mut ids1, mut ids2) = (IdGen { counter: 9 }, IdGen { counter: 9 });
    assert_eq!(h(&mut out1, fd1, &mut ids1), Ok(()));
    assert_eq!(h(&mut out2, fd2, &mut ids2), Ok(()));
    assert_eq!(out1, out2);
    assert_eq!(ids1.counter, ids2.counter);
    assert_eq!(out1[2], Instr::Jcc(Cond::NE, s("je_else.10")));
}

#[test]
fn restore_in_tail_position_returns_the_slot() {
    let mut out = vec![];
    let mut ss = StackState::new();
    let mut ids = IdGen::new();
    ss.save("u");
    ss.save("v");
    assert_eq!(g_exp(&mut out, &mut ss, Dest::Tail, Exp::Restore(s("v")), &mut ids), Ok(()));
    assert_eq!(out, vec![Instr::Load(8, Reg::Rbp, Reg::Rax), Instr::Ret]);
    assert_eq!(ids.counter, 0);
}
