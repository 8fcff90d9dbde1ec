use vstd::prelude::*;

use crate::id::{fresh_label, IdGen, L};
use crate::syntax::Type;
use crate::x86::error::Error;
use crate::x86::instr::{code_view, reg_name, reg_of, Cond, Instr, InstrView, Reg};
use crate::x86::machine::{
    cond_holds, exec_code, exec_instr, lemma_exec_concat, lemma_exec_push, lemma_exec_single, mem_text,
    FloatOp,
};
use crate::x86::ir::{
    align, regs, spec_align, spec_regs, Asm, Exp, Fundef, IdOrImm, Prog, REG_CL, REG_SP,
};
use crate::x86::moves::{
    blocked, lemma_partition_len, lemma_shuffle_is_parallel_move, move_view, moves_view, ready,
    reads, real_moves, redirect, run, shuffle_moves, sources_agree, step, writes, Move,
};

verus! {

broadcast use vstd::seq_lib::group_filter_ensures, vstd::string::group_string_axioms;

/// The stack frame of the function being emitted: which variables were saved, and the
/// slot of each one, in the order in which they were first saved.
pub struct StackState {
    stack_set: Vec<String>,
    stack_map: Vec<String>,
}

/// The frame as emission sees it: the saved variables, and the variables with a slot in order.
pub type FrameModel = (Set<Seq<char>>, Seq<Seq<char>>);

/// The frame of a function before anything is saved.
pub open spec fn empty_frame() -> FrameModel {
    (Set::empty(), Seq::empty())
}

/// The names held by a vector of strings.
pub open spec fn names(v: Seq<String>) -> Seq<Seq<char>> {
    v.map_values(|s: String| s@)
}

/// The slots after saving `x`: a variable keeps its slot, a new one gets the next.
pub open spec fn slots_after_save(slots: Seq<Seq<char>>, x: Seq<char>) -> Seq<Seq<char>> {
    if slots.contains(x) {
        slots
    } else {
        slots.push(x)
    }
}

/// The offset in bytes of the slot of `x`, if it has one.
pub open spec fn slot_offset(slots: Seq<Seq<char>>, x: Seq<char>) -> Option<int> {
    if slots.contains(x) {
        Some(8 * slots.index_of(x))
    } else {
        None
    }
}

/// The size in bytes of a frame with these slots.
pub open spec fn frame_size(slots: Seq<Seq<char>>) -> int {
    spec_align(8 * slots.len() as int)
}

impl StackState {
    /// The variables saved so far.
    pub closed spec fn saved(&self) -> Set<Seq<char>> {
        names(self.stack_set@).to_set()
    }

    /// The variables that have a slot, in the order of their slots.
    pub closed spec fn slots(&self) -> Seq<Seq<char>> {
        names(self.stack_map@)
    }

    /// The saved variables and the slots together.
    pub open spec fn model(&self) -> FrameModel {
        (self.saved(), self.slots())
    }

    /// No variable is listed twice.
    pub closed spec fn well_formed(&self) -> bool {
        &&& names(self.stack_set@).no_duplicates()
        &&& names(self.stack_map@).no_duplicates()
    }

    /// A well-formed frame gives no variable two slots.
    pub proof fn lemma_slots_distinct(&self)
        requires
            self.well_formed(),
        ensures
            self.slots().no_duplicates(),
    {
    }

    /// Whether `x` was saved.
    pub fn is_saved(&self, x: &str) -> (b: bool)
        ensures
            b == self.saved().contains(x@),
    {
        let name = x.to_string();
        let ghost sv = names(self.stack_set@);
        let mut i: usize = 0;
        while i < self.stack_set.len()
            invariant
                i <= self.stack_set.len(),
                name@ == x@,
                sv == names(self.stack_set@),
                forall|j: int| 0 <= j < i ==> sv[j] != x@,
            decreases self.stack_set.len() - i,
        {
            if self.stack_set[i] == name {
                assert(sv[i as int] == x@);
                assert(sv.contains(x@));
                return true;
            }
            i = i + 1;
        }
        assert(!sv.contains(x@));
        false
    }

    /// The variables saved so far, each once.
    pub fn saved_names(&self) -> (v: Vec<String>)
        requires
            self.well_formed(),
        ensures
            names(v@).to_set() == self.saved(),
            names(v@).no_duplicates(),
    {
        let mut v: Vec<String> = Vec::new();
        let mut i: usize = 0;
        while i < self.stack_set.len()
            invariant
                i <= self.stack_set.len(),
                names(self.stack_set@).no_duplicates(),
                names(v@) == names(self.stack_set@).take(i as int),
            decreases self.stack_set.len() - i,
        {
            let x = self.stack_set[i].clone();
            proof {
                lemma_names_push(v@, x);
                assert(names(self.stack_set@).take(i + 1) =~= names(self.stack_set@).take(
                    i as int,
                ).push(x@));
            }
            v.push(x);
            i = i + 1;
        }
        assert(names(self.stack_set@).take(i as int) =~= names(self.stack_set@));
        v
    }

    /// Makes `v` the saved variables again; the slots stay.
    pub fn restore_saved(&mut self, v: Vec<String>)
        requires
            old(self).well_formed(),
            names(v@).no_duplicates(),
        ensures
            final(self).well_formed(),
            final(self).saved() == names(v@).to_set(),
            final(self).slots() == old(self).slots(),
    {
        self.stack_set = v;
    }

    /// Keeps saved only the variables that `v` holds too; the slots stay.
    pub fn intersect_saved(&mut self, v: &Vec<String>)
        requires
            old(self).well_formed(),
        ensures
            final(self).well_formed(),
            final(self).saved() == old(self).saved().intersect(names(v@).to_set()),
            final(self).slots() == old(self).slots(),
    {
        let ghost old_names = names(self.stack_set@);
        let mut kept: Vec<String> = Vec::new();
        let mut i: usize = 0;
        while i < self.stack_set.len()
            invariant
                i <= self.stack_set.len(),
                old_names == names(self.stack_set@),
                old_names.no_duplicates(),
                names(kept@).no_duplicates(),
                forall|a: Seq<char>| #[trigger] names(kept@).contains(a) <==> (
                old_names.take(i as int).contains(a) && names(v@).contains(a)),
            decreases self.stack_set.len() - i,
        {
            let x = self.stack_set[i].clone();
            let found = contains_name(v, &x);
            proof {
                assert(old_names.take(i + 1) =~= old_names.take(i as int).push(x@));
                assert(old_names[i as int] == x@);
                if old_names.take(i as int).contains(x@) {
                    let k = choose|k: int| 0 <= k < i && old_names.take(i as int)[k] == x@;
                    assert(old_names[k] == old_names[i as int]);
                }
                lemma_names_push(kept@, x);
                if found {
                    assert(!names(kept@).contains(x@));
                    let nk = names(kept@).push(x@);
                    assert forall|a: Seq<char>| #[trigger] nk.contains(a) <==> (names(kept@).contains(a)
                        || a == x@) by {
                        if nk.contains(a) {
                            let k = choose|k: int| 0 <= k < nk.len() && nk[k] == a;
                            if k < names(kept@).len() {
                                assert(names(kept@)[k] == a);
                            }
                        }
                        if names(kept@).contains(a) {
                            let k = choose|k: int| 0 <= k < names(kept@).len() && names(kept@)[k] == a;
                            assert(nk[k] == a);
                        }
                        if a == x@ {
                            assert(nk[names(kept@).len() as int] == a);
                        }
                    }
                }
                let ot = old_names.take(i as int).push(x@);
                assert forall|a: Seq<char>| #[trigger] ot.contains(a) <==> (old_names.take(
                    i as int,
                ).contains(a) || a == x@) by {
                    if ot.contains(a) {
                        let k = choose|k: int| 0 <= k < ot.len() && ot[k] == a;
                        if k < i {
                            assert(old_names.take(i as int)[k] == a);
                        }
                    }
                    if old_names.take(i as int).contains(a) {
                        let k = choose|k: int| 0 <= k < i && old_names.take(i as int)[k] == a;
                        assert(ot[k] == a);
                    }
                    if a == x@ {
                        assert(ot[i as int] == a);
                    }
                }
            }
            if found {
                kept.push(x);
            }
            i = i + 1;
        }
        assert(old_names.take(i as int) =~= old_names);
        assert(names(kept@).to_set() =~= old_names.to_set().intersect(names(v@).to_set()));
        self.stack_set = kept;
    }

    /// An empty frame.
    pub fn new() -> (s: StackState)
        ensures
            s.well_formed(),
            s.saved() == Set::<Seq<char>>::empty(),
            s.slots() == Seq::<Seq<char>>::empty(),
            s.slots().no_duplicates(),
    {
        let s = StackState { stack_set: Vec::new(), stack_map: Vec::new() };
        assert(names(s.stack_set@) =~= Seq::<Seq<char>>::empty());
        assert(names(s.stack_set@).to_set() =~= Set::<Seq<char>>::empty());
        assert(names(s.stack_map@) =~= Seq::<Seq<char>>::empty());
        s
    }

    /// Records that `x` is saved, giving it the next slot if it has none yet.
    pub fn save(&mut self, x: &str)
        requires
            old(self).well_formed(),
        ensures
            final(self).well_formed(),
            final(self).saved() == old(self).saved().insert(x@),
            final(self).slots() == slots_after_save(old(self).slots(), x@),
            final(self).slots().no_duplicates(),
    {
        let name = x.to_string();
        insert_new(&mut self.stack_set, &name);
        insert_new(&mut self.stack_map, &name);
    }

    /// Records that the float variable `x` is saved, giving it the next slot if it has none yet.
    pub fn savef(&mut self, x: &str, id_gen: &mut IdGen)
        requires
            old(self).well_formed(),
        ensures
            final(self).well_formed(),
            final(self).saved() == old(self).saved().insert(x@),
            final(self).slots() == slots_after_save(old(self).slots(), x@),
            final(self).slots().no_duplicates(),
            *final(id_gen) == *old(id_gen),
    {
        let name = x.to_string();
        insert_new(&mut self.stack_set, &name);
        insert_new(&mut self.stack_map, &name);
    }

    /// The offset in bytes of the slot of `x` from the stack pointer, if `x` has a slot.
    pub fn offset(&self, x: &str) -> (r: Option<i32>)
        requires
            self.well_formed(),
            self.slots().contains(x@) ==> 8 * self.slots().index_of(x@) <= i32::MAX,
        ensures
            match r {
                Some(o) => slot_offset(self.slots(), x@) == Some(o as int),
                None => slot_offset(self.slots(), x@) is None,
            },
            r is None <==> !self.slots().contains(x@),
            r matches Some(o) ==> {
                &&& 0 <= o
                &&& o % 8 == 0
                &&& o / 8 < self.slots().len()
                &&& self.slots()[o / 8] == x@
                &&& forall|j: int| 0 <= j < o / 8 ==> self.slots()[j] != x@
            },
    {
        let name = x.to_string();
        let ghost sl = self.slots();
        let mut i: usize = 0;
        while i < self.stack_map.len()
            invariant
                i <= self.stack_map.len(),
                name@ == x@,
                sl == self.slots(),
                sl == names(self.stack_map@),
                sl.no_duplicates(),
                sl.contains(x@) ==> 8 * sl.index_of(x@) <= i32::MAX,
                forall|j: int| 0 <= j < i ==> sl[j] != x@,
            decreases self.stack_map.len() - i,
        {
            if self.stack_map[i] == name {
                assert(sl[i as int] == x@);
                assert(sl.index_of(x@) == i as int) by {
                    let k = sl.index_of(x@);
                    assert(sl[k] == x@);
                }
                return Some(8 * (i as i32));
            }
            i = i + 1;
        }
        assert(!sl.contains(x@));
        None
    }

    /// The size in bytes of the frame, kept a multiple of 8.
    pub fn stacksize(&self) -> (r: i32)
        requires
            8 * self.slots().len() <= i32::MAX,
        ensures
            r == frame_size(self.slots()),
            r == 8 * self.slots().len(),
    {
        let n = self.stack_map.len() as i32;
        align(8 * n)
    }
}


/// Saving a variable gives it a slot: afterwards its offset is that of a slot of the frame.
pub proof fn lemma_save_gives_slot(slots: Seq<Seq<char>>, x: Seq<char>)
    ensures
        slot_offset(slots_after_save(slots, x), x) == if slots.contains(x) {
            slot_offset(slots, x)
        } else {
            Some(8 * slots.len() as int)
        },
        slot_offset(slots_after_save(slots, x), x) is Some,
        0 <= slot_offset(slots_after_save(slots, x), x)->Some_0,
        slot_offset(slots_after_save(slots, x), x)->Some_0 + 8 <= frame_size(
            slots_after_save(slots, x),
        ),
{
    let after = slots_after_save(slots, x);
    if !slots.contains(x) {
        assert(after[slots.len() as int] == x);
        assert(after.contains(x));
        let k = after.index_of(x);
        if k < slots.len() {
            assert(slots[k] == x);
        }
    }
    assert(after.contains(x));
    let k = after.index_of(x);
    assert(0 <= k < after.len());
    assert((8 * after.len()) % 8 == 0) by (nonlinear_arith);
}

/// Saving a variable moves no slot: every variable that had a slot keeps its offset.
pub proof fn lemma_save_keeps_slots(slots: Seq<Seq<char>>, x: Seq<char>, y: Seq<char>)
    requires
        slots.no_duplicates(),
        slots.contains(y),
    ensures
        slot_offset(slots_after_save(slots, x), y) == slot_offset(slots, y),
{
    let after = slots_after_save(slots, x);
    if !slots.contains(x) {
        let k = slots.index_of(y);
        assert(after[k] == y);
        assert(after.contains(y));
        let j = after.index_of(y);
        assert(after[j] == y);
        if j == slots.len() {
            assert(x == y);
        } else {
            assert(slots[j] == y);
        }
    }
}

/// Saving a variable a second time changes nothing.
pub proof fn lemma_save_idempotent(slots: Seq<Seq<char>>, x: Seq<char>)
    ensures
        slots_after_save(slots_after_save(slots, x), x) == slots_after_save(slots, x),
{
    let after = slots_after_save(slots, x);
    if !slots.contains(x) {
        assert(after[slots.len() as int] == x);
    }
}

/// Distinct variables with slots have distinct offsets, each within the frame.
pub proof fn lemma_slots_disjoint(slots: Seq<Seq<char>>, x: Seq<char>, y: Seq<char>)
    requires
        slots.no_duplicates(),
        slots.contains(x),
        slots.contains(y),
        x != y,
    ensures
        slot_offset(slots, x) != slot_offset(slots, y),
        0 <= slot_offset(slots, x)->Some_0,
        slot_offset(slots, x)->Some_0 + 8 <= frame_size(slots),
{
    let i = slots.index_of(x);
    let j = slots.index_of(y);
    assert(slots[i] == x && slots[j] == y);
    assert((8 * slots.len()) % 8 == 0) by (nonlinear_arith);
}

proof fn lemma_names_push(v: Seq<String>, x: String)
    ensures
        names(v.push(x)) == names(v).push(x@),
{
    assert(names(v.push(x)) =~= names(v).push(x@));
}

/// Whether `v` holds the name `x`.
fn contains_name(v: &Vec<String>, x: &String) -> (b: bool)
    ensures
        b == names(v@).contains(x@),
{
    let mut i: usize = 0;
    while i < v.len()
        invariant
            i <= v.len(),
            forall|j: int| 0 <= j < i ==> names(v@)[j] != x@,
        decreases v.len() - i,
    {
        if v[i] == *x {
            assert(names(v@)[i as int] == x@);
            return true;
        }
        i = i + 1;
    }
    false
}

/// Appends `x` to `v` unless `v` holds it already.
fn insert_new(v: &mut Vec<String>, x: &String)
    requires
        names(old(v)@).no_duplicates(),
    ensures
        names(final(v)@).no_duplicates(),
        names(final(v)@) == slots_after_save(names(old(v)@), x@),
        names(final(v)@).to_set() == names(old(v)@).to_set().insert(x@),
{
    let ghost before = names(v@);
    let mut i: usize = 0;
    while i < v.len()
        invariant
            i <= v.len(),
            before == names(v@),
            before.no_duplicates(),
            forall|j: int| 0 <= j < i ==> before[j] != x@,
        decreases v.len() - i,
    {
        if v[i] == *x {
            assert(before[i as int] == x@);
            assert(before.to_set().insert(x@) =~= before.to_set());
            return;
        }
        i = i + 1;
    }
    assert(!before.contains(x@));
    v.push(x.clone());
    assert(names(v@) =~= before.push(x@));
    proof {
        before.lemma_push_to_set_commute(x@);
    }
}


/// The character of a decimal digit.
pub open spec fn digit_char(d: int) -> char {
    if d == 0 {
        '0'
    } else     if d == 1 {
        '1'
    } else     if d == 2 {
        '2'
    } else     if d == 3 {
        '3'
    } else     if d == 4 {
        '4'
    } else     if d == 5 {
        '5'
    } else     if d == 6 {
        '6'
    } else     if d == 7 {
        '7'
    } else     if d == 8 {
        '8'
    } else {
        '9'
    }
}

/// The decimal digits of `n`, most significant first, without leading zeros.
pub open spec fn decimal_digits(n: nat) -> Seq<char>
    decreases n,
{
    if n < 10 {
        seq![digit_char(n as int)]
    } else {
        decimal_digits(n / 10).push(digit_char((n % 10) as int))
    }
}

/// The decimal text of an integer, with a leading `-` when it is negative.
pub open spec fn decimal(i: int) -> Seq<char> {
    if i < 0 {
        seq!['-'] + decimal_digits((-i) as nat)
    } else {
        decimal_digits(i as nat)
    }
}

/// The assembler text of an operand: a variable by its name, an immediate as `$` and its value.
pub open spec fn operand_text(value: IdOrImm) -> Seq<char> {
    match value {
        IdOrImm::V(x) => x@,
        IdOrImm::C(i) => seq!['$'] + decimal(i as int),
    }
}

fn digit_str(d: u64) -> (r: &'static str)
    requires
        d < 10,
    ensures
        r@ == seq![digit_char(d as int)],
{
    if d == 0 {
        proof {
            reveal_strlit("0");
        }
        return "0";
    }
    if d == 1 {
        proof {
            reveal_strlit("1");
        }
        return "1";
    }
    if d == 2 {
        proof {
            reveal_strlit("2");
        }
        return "2";
    }
    if d == 3 {
        proof {
            reveal_strlit("3");
        }
        return "3";
    }
    if d == 4 {
        proof {
            reveal_strlit("4");
        }
        return "4";
    }
    if d == 5 {
        proof {
            reveal_strlit("5");
        }
        return "5";
    }
    if d == 6 {
        proof {
            reveal_strlit("6");
        }
        return "6";
    }
    if d == 7 {
        proof {
            reveal_strlit("7");
        }
        return "7";
    }
    if d == 8 {
        proof {
            reveal_strlit("8");
        }
        return "8";
    }
    proof {
        reveal_strlit("9");
    }
    "9"
}

pub(crate) fn push_decimal(s: &mut String, n: u64)
    ensures
        final(s)@ == old(s)@ + decimal_digits(n as nat),
    decreases n,
{
    if n >= 10 {
        push_decimal(s, n / 10);
    }
    s.append(digit_str(n % 10));
}

/// The assembler text of an operand.
pub fn pp_id_or_imm(value: &IdOrImm) -> (r: String)
    ensures
        r@ == operand_text(*value),
{
    match value {
        IdOrImm::V(x) => x.clone(),
        IdOrImm::C(i) => {
            let mut s = String::from_str("$");
            proof {
                reveal_strlit("$");
                reveal_strlit("-");
            }
            if *i < 0 {
                s.append("-");
                let n: i64 = *i as i64;
                push_decimal(&mut s, (-n) as u64);
                assert(s@ =~= seq!['$'] + decimal(*i as int));
            } else {
                push_decimal(&mut s, *i as u64);
            }
            s
        },
    }
}


/// Where the value of an instruction goes: returned from the function, or into a register.
#[derive(Debug)]
pub enum Dest {
    Tail,
    NonTail(String),
}

impl View for Dest {
    /// `None` for the tail position, else the destination's name.
    type V = Option<Seq<char>>;

    open spec fn view(&self) -> Option<Seq<char>> {
        match self {
            Dest::Tail => None,
            Dest::NonTail(x) => Some(x@),
        }
    }
}

/// A call by the instruction `call` in a frame of `frame` bytes: the stack pointer is moved
/// past the frame around the call.
pub open spec fn call_code(frame: int, call: InstrView) -> Seq<InstrView> {
    let grow = if frame > 0 {
        seq![InstrView::AddIR(frame as i32, REG_SP)]
    } else {
        Seq::empty()
    };
    let shrink = if frame > 0 {
        seq![InstrView::AddIR((-frame) as i32, REG_SP)]
    } else {
        Seq::empty()
    };
    grow + seq![call] + shrink
}

/// The move of a call's result from the first register of its kind into the register named
/// `a`; nothing when `a` names no register.
pub open spec fn result_move(a: Seq<char>) -> Seq<InstrView> {
    match reg_of(a) {
        Some(r) => if r == spec_regs()[0] {
            Seq::empty()
        } else {
            seq![InstrView::MovRR(spec_regs()[0], r)]
        },
        None => if is_freg(a) {
            movsd_unless_same(freg_name(0), a)
        } else {
            Seq::empty()
        },
    }
}

/// The move that puts the closure `x` into the closure register.
pub open spec fn closure_move(x: Seq<char>) -> Seq<Move> {
    seq![(x, reg_name(REG_CL))]
}

/// Whether `exp` can be emitted from the frame `fr` with the label counter at `n`, its value
/// going to `dest`. Every instruction can, with these limits: a call has at most as many
/// arguments as there are argument registers (a closure call one fewer, the closure register
/// being one); a save is of an integer or float register, or of a variable already saved; a
/// restore is of a variable with a slot, into a register or returned; offsets into the frame
/// fit in 32 bits; the label counter has room for the labels of a conditional and for the temporary
/// that an instruction without a value takes in tail position; and the branches of a
/// conditional can be emitted in turn.
pub open spec fn emits(fr: FrameModel, n: nat, dest: Option<Seq<char>>, exp: Exp) -> bool
    decreases exp,
{
    match exp {
        Exp::Nop => dest is None ==> n < u64::MAX,
        Exp::Comment(_) => dest is None ==> n < u64::MAX,
        Exp::SetImm(_) => true,
        Exp::SetL(_) => true,
        Exp::Ld(_, _, _) => true,
        Exp::LdDF(_, _, _) => true,
        Exp::St(_, _, _, _) => dest is None ==> n < u64::MAX,
        Exp::StDF(_, _, _, _) => dest is None ==> n < u64::MAX,
        Exp::Mov(_) => true,
        Exp::Neg(_) => true,
        Exp::Add(_, _) => true,
        Exp::Sub(_, _) => true,
        Exp::FMovD(_) => true,
        Exp::FNegD(_) => true,
        Exp::FAddD(_, _) => true,
        Exp::FMulD(_, _) => true,
        Exp::FSubD(_, _) => 8 * fr.1.len() <= i32::MAX,
        Exp::FDivD(_, _) => 8 * fr.1.len() <= i32::MAX,
        Exp::CallDir(_, ys, zs) => ys.len() <= 6 && zs.len() <= 8 && 8 * fr.1.len() <= i32::MAX,
        Exp::CallCls(_, ys, zs) => ys.len() <= 5 && zs.len() <= 8 && 8 * fr.1.len() <= i32::MAX,
        Exp::Save(x, y) => {
            &&& (reg_of(x@) is Some || is_freg(x@) || fr.0.contains(y@))
            &&& 8 * (fr.1.len() + 1) <= i32::MAX
            &&& (dest is None ==> n < u64::MAX)
        },
        Exp::Restore(y) => {
            &&& (dest matches Some(x) ==> reg_of(x) is Some || is_freg(x))
            &&& fr.1.contains(y@)
            &&& 8 * fr.1.len() <= i32::MAX
        },
        Exp::IfEq(x, y, e1, e2) => {
            let r1 = asm_code(fr, branch_start(dest, n), dest, *e1);
            branches_emit(
                int_compare(x@, y).1 is None,
                n,
                asm_emits(fr, branch_start(dest, n), dest, *e1),
                r1.1 is None,
                asm_emits((fr.0, r1.2.1), r1.3, dest, *e2),
            )
        },
        Exp::IfLE(x, y, e1, e2) => {
            let r1 = asm_code(fr, branch_start(dest, n), dest, *e1);
            branches_emit(
                int_compare(x@, y).1 is None,
                n,
                asm_emits(fr, branch_start(dest, n), dest, *e1),
                r1.1 is None,
                asm_emits((fr.0, r1.2.1), r1.3, dest, *e2),
            )
        },
        Exp::IfGE(x, y, e1, e2) => {
            let r1 = asm_code(fr, branch_start(dest, n), dest, *e1);
            branches_emit(
                int_compare(x@, y).1 is None,
                n,
                asm_emits(fr, branch_start(dest, n), dest, *e1),
                r1.1 is None,
                asm_emits((fr.0, r1.2.1), r1.3, dest, *e2),
            )
        },
        Exp::IfFEq(_, _, e1, e2) => {
            let r1 = asm_code(fr, branch_start(dest, n), dest, *e1);
            branches_emit(
                true,
                n,
                asm_emits(fr, branch_start(dest, n), dest, *e1),
                r1.1 is None,
                asm_emits((fr.0, r1.2.1), r1.3, dest, *e2),
            )
        },
        Exp::IfFLE(_, _, e1, e2) => {
            let r1 = asm_code(fr, branch_start(dest, n), dest, *e1);
            branches_emit(
                true,
                n,
                asm_emits(fr, branch_start(dest, n), dest, *e1),
                r1.1 is None,
                asm_emits((fr.0, r1.2.1), r1.3, dest, *e2),
            )
        },
    }
}

/// A conditional can be emitted: when its comparison goes through, the labels fit the counter,
/// the first branch can be emitted, and when that succeeds, the second too.
pub open spec fn branches_emit(
    compare_ok: bool,
    n: nat,
    first_emits: bool,
    first_ok: bool,
    second_emits: bool,
) -> bool {
    compare_ok ==> (n + 2 <= u64::MAX && first_emits && (first_ok ==> second_emits))
}

/// The counter value from which the first branch of a conditional is emitted: after one
/// label in tail position, after two elsewhere.
pub open spec fn branch_start(dest: Option<Seq<char>>, n: nat) -> nat {
    if dest is None {
        n + 1
    } else {
        n + 2
    }
}

/// The comparison of the register named `x` with `y`, or the name that is no register.
pub open spec fn int_compare(x: Seq<char>, y: IdOrImm) -> (Seq<InstrView>, Option<Seq<char>>) {
    match reg_of(x) {
        None => failure(x),
        Some(rx) => match y {
            IdOrImm::V(m) => match reg_of(m@) {
                None => failure(m@),
                Some(ry) => (seq![InstrView::CmpRR(ry, rx)], None),
            },
            IdOrImm::C(i) => (seq![InstrView::CmpIR(i, rx)], None),
        },
    }
}

/// The branches of a conditional whose comparison is emitted: a jump on `cond` to the else
/// label, the first branch (with result `r1`), then the else label and the second branch (with
/// result `r2`, emitted with the saved variables of before the first branch). Away from the
/// tail position the first branch jumps past the second to a continuation label, where the
/// variables saved in both branches stay saved. The labels are named after `b` and the next
/// values of the counter `n`.
pub open spec fn branch_code(
    fr: FrameModel,
    n: nat,
    dest: Option<Seq<char>>,
    b: Seq<char>,
    cond: Cond,
    r1: Emitted,
    r2: Emitted,
) -> Emitted {
    let l_else = fresh_label(b + "_else"@, n + 1);
    let head = seq![InstrView::Jcc(cond, l_else)] + r1.0;
    if r1.1 is Some {
        (head, r1.1, r1.2, r1.3)
    } else if dest is None {
        (head + seq![InstrView::Label(l_else)] + r2.0, r2.1, r2.2, r2.3)
    } else {
        let l_cont = fresh_label(b + "_cont"@, n + 2);
        let mid = head + seq![InstrView::Jmp(l_cont), InstrView::Label(l_else)] + r2.0;
        if r2.1 is Some {
            (mid, r2.1, r2.2, r2.3)
        } else {
            (
                mid + seq![InstrView::Label(l_cont)],
                None,
                (r1.2.0.intersect(r2.2.0), r2.2.1),
                r2.3,
            )
        }
    }
}

/// A conditional: the comparison `cmp`, then, when it went through, the branches `br`.
pub open spec fn compared(
    fr: FrameModel,
    n: nat,
    cmp: (Seq<InstrView>, Option<Seq<char>>),
    br: Emitted,
) -> Emitted {
    if cmp.1 is Some {
        (cmp.0, cmp.1, fr, n)
    } else {
        (cmp.0 + br.0, br.1, br.2, br.3)
    }
}

/// The emission of the branches `e1` and `e2` of a conditional from the frame `fr` and the
/// label counter `n`: the first from `branch_start`, the second from where the first left
/// the counter and the slots, with the saved variables of before the first.
#[verifier::opaque]
pub open spec fn if_branches(
    fr: FrameModel,
    n: nat,
    dest: Option<Seq<char>>,
    b: Seq<char>,
    cond: Cond,
    e1: Asm,
    e2: Asm,
) -> Emitted {
    let r1 = asm_code(fr, branch_start(dest, n), dest, e1);
    let r2 = asm_code((fr.0, r1.2.1), r1.3, dest, e2);
    branch_code(fr, n, dest, b, cond, r1, r2)
}

/// The branches of a conditional can be emitted: the labels fit the counter, the first branch
/// can be emitted, and when that succeeds, the second too.
pub open spec fn if_emits(fr: FrameModel, n: nat, dest: Option<Seq<char>>, e1: Asm, e2: Asm) -> bool {
    let r1 = asm_code(fr, branch_start(dest, n), dest, e1);
    &&& n + 2 <= u64::MAX
    &&& asm_emits(fr, branch_start(dest, n), dest, e1)
    &&& (r1.1 is None ==> asm_emits((fr.0, r1.2.1), r1.3, dest, e2))
}

/// A failure on the name `x`, with no code.
pub open spec fn failure(x: Seq<char>) -> (Seq<InstrView>, Option<Seq<char>>) {
    (Seq::empty(), Some(x))
}

/// `x += y` or `x -= y` on registers, for `x = y op z`: the code, or the name that is no
/// register, checked in the order `x`, `y`, `z`.
pub open spec fn arith_code(x: Seq<char>, y: Seq<char>, z: IdOrImm, add: bool) -> (
    Seq<InstrView>,
    Option<Seq<char>>,
) {
    match reg_of(x) {
        None => failure(x),
        Some(rx) => match reg_of(y) {
            None => failure(y),
            Some(ry) => if z matches IdOrImm::V(n) && n@ == x {
                if add {
                    (seq![InstrView::AddRR(ry, rx)], None)
                } else {
                    (seq![InstrView::SubRR(ry, rx), InstrView::NegR(rx)], None)
                }
            } else {
                let mov = if x != y {
                    seq![InstrView::MovRR(ry, rx)]
                } else {
                    Seq::empty()
                };
                match z {
                    IdOrImm::V(n) => match reg_of(n@) {
                        None => failure(n@),
                        Some(rz) => if add {
                            (mov.push(InstrView::AddRR(rz, rx)), None)
                        } else {
                            (mov.push(InstrView::SubRR(rz, rx)), None)
                        },
                    },
                    IdOrImm::C(i) => if add {
                        (mov.push(InstrView::AddIR(i, rx)), None)
                    } else {
                        (mov.push(InstrView::SubIR(i, rx)), None)
                    },
                }
            },
        },
    }
}

/// The code that puts the value of `exp` into the register named `x`, or the name that is no
/// register.
pub open spec fn value_code(x: Seq<char>, exp: Exp) -> (Seq<InstrView>, Option<Seq<char>>) {
    match exp {
        Exp::Nop => (Seq::empty(), None),
        Exp::Comment(t) => (seq![InstrView::Comment(t@)], None),
        Exp::SetImm(i) => match reg_of(x) {
            Some(r) => (seq![InstrView::MovIR(i, r)], None),
            None => failure(x),
        },
        Exp::SetL(l) => match reg_of(x) {
            Some(r) => (seq![InstrView::MovLR(l.0@, r)], None),
            None => failure(x),
        },
        Exp::Mov(y) => if x == y@ {
            (Seq::empty(), None)
        } else {
            match reg_of(x) {
                None => failure(x),
                Some(rx) => match reg_of(y@) {
                    None => failure(y@),
                    Some(ry) => (seq![InstrView::MovRR(ry, rx)], None),
                },
            }
        },
        Exp::Neg(y) => match reg_of(x) {
            None => failure(x),
            Some(rx) => if x == y@ {
                (seq![InstrView::NegR(rx)], None)
            } else {
                match reg_of(y@) {
                    None => failure(y@),
                    Some(ry) => (seq![InstrView::MovRR(ry, rx), InstrView::NegR(rx)], None),
                }
            },
        },
        Exp::Add(y, z) => arith_code(x, y@, z, true),
        Exp::Sub(y, z) => arith_code(x, y@, z, false),
        _ => (Seq::empty(), None),
    }
}

/// Whether `exp` is a float move, negation or arithmetic.
pub open spec fn is_float_op(exp: Exp) -> bool {
    ||| exp is FMovD
    ||| exp is FNegD
    ||| exp is FAddD
    ||| exp is FSubD
    ||| exp is FMulD
    ||| exp is FDivD
}

/// A float move from `y` to `x`, unless they are the same register.
pub open spec fn movsd_unless_same(y: Seq<char>, x: Seq<char>) -> Seq<InstrView> {
    if x != y {
        seq![InstrView::MovSD(y, x)]
    } else {
        Seq::empty()
    }
}

/// The code that puts the float value of `exp` into the register named `x`, in a frame of
/// `frame` bytes. `x = y - z` and `x = y / z` with `x` and `z` the same register keep `z` in
/// the slot past the frame while `y` is moved into `x`.
pub open spec fn float_code(frame: int, x: Seq<char>, exp: Exp) -> Seq<InstrView> {
    match exp {
        Exp::FMovD(y) => movsd_unless_same(y@, x),
        Exp::FNegD(y) => movsd_unless_same(y@, x).push(InstrView::XorPD("min_caml_fnegd"@, x)),
        Exp::FAddD(y, z) => if x == z@ {
            seq![InstrView::AddSD(y@, x)]
        } else {
            movsd_unless_same(y@, x).push(InstrView::AddSD(z@, x))
        },
        Exp::FMulD(y, z) => if x == z@ {
            seq![InstrView::MulSD(y@, x)]
        } else {
            movsd_unless_same(y@, x).push(InstrView::MulSD(z@, x))
        },
        Exp::FSubD(y, z) => if x == z@ {
            seq![InstrView::MovSD(z@, slot_text(frame))] + movsd_unless_same(y@, x).push(
                InstrView::SubSD(slot_text(frame), x),
            )
        } else {
            movsd_unless_same(y@, x).push(InstrView::SubSD(z@, x))
        },
        Exp::FDivD(y, z) => if x == z@ {
            seq![InstrView::MovSD(z@, slot_text(frame))] + movsd_unless_same(y@, x).push(
                InstrView::DivSD(slot_text(frame), x),
            )
        } else {
            movsd_unless_same(y@, x).push(InstrView::DivSD(z@, x))
        },
        _ => Seq::empty(),
    }
}

/// Whether `exp` loads or stores through memory.
pub open spec fn is_memory_op(exp: Exp) -> bool {
    ||| exp is Ld
    ||| exp is St
    ||| exp is LdDF
    ||| exp is StDF
}

/// The memory operand at `y` plus `z` scaled by `i`: `(y,z,i)` for a register `z`, and the
/// byte offset `j * i` before `(y)` for a constant `j`.
pub open spec fn mem_operand(y: Seq<char>, z: IdOrImm, i: int) -> Seq<char> {
    match z {
        IdOrImm::V(r) => "("@ + y + ","@ + r@ + ","@ + decimal(i) + ")"@,
        IdOrImm::C(j) => decimal(j * i) + "("@ + y + ")"@,
    }
}

/// The code of a load into the location named `x`, or of a store.
pub open spec fn memory_code(x: Seq<char>, exp: Exp) -> Seq<InstrView> {
    match exp {
        Exp::Ld(y, z, i) => seq![InstrView::Mov(mem_operand(y@, z, i as int), x)],
        Exp::St(v, y, z, i) => seq![InstrView::Mov(v@, mem_operand(y@, z, i as int))],
        Exp::LdDF(y, z, i) => seq![InstrView::MovSD(mem_operand(y@, z, i as int), x)],
        Exp::StDF(v, y, z, i) => seq![InstrView::MovSD(v@, mem_operand(y@, z, i as int))],
        _ => Seq::empty(),
    }
}

/// The code for `exp` with its value going to `dest`, in a frame of `frame` bytes, and the
/// name that is no register, if emission fails on one. In tail position a value goes into the
/// first argument register and the function returns; a call becomes a jump.
#[verifier::opaque]
pub open spec fn exp_code(frame: int, dest: Option<Seq<char>>, exp: Exp) -> (
    Seq<InstrView>,
    Option<Seq<char>>,
) {
    match dest {
        Some(x) => match exp {
            Exp::CallDir(l, ys, zs) => {
                let pre = args_code(frame, Seq::empty(), names(ys@), names(zs@)) + call_code(
                    frame,
                    InstrView::Call(l.0@),
                );
                (pre + result_move(x), None)
            },
            Exp::CallCls(c, ys, zs) => {
                let pre = args_code(frame, closure_move(c@), names(ys@), names(zs@)) + call_code(
                    frame,
                    InstrView::CallInd(REG_CL),
                );
                (pre + result_move(x), None)
            },
            _ => if is_float_op(exp) {
                (float_code(frame, x, exp), None)
            } else if is_memory_op(exp) {
                (memory_code(x, exp), None)
            } else {
                value_code(x, exp)
            },
        },
        None => match exp {
            Exp::CallDir(l, ys, zs) => (
                args_code(frame, Seq::empty(), names(ys@), names(zs@)).push(InstrView::Jmp(l.0@)),
                None,
            ),
            Exp::CallCls(c, ys, zs) => (
                args_code(frame, closure_move(c@), names(ys@), names(zs@)).push(
                    InstrView::JmpInd(REG_CL),
                ),
                None,
            ),
            _ => if is_float_op(exp) {
                (float_code(frame, freg_name(0), exp).push(InstrView::Ret), None)
            } else if exp is LdDF {
                (memory_code(freg_name(0), exp).push(InstrView::Ret), None)
            } else if is_memory_op(exp) {
                (memory_code(reg_name(spec_regs()[0]), exp).push(InstrView::Ret), None)
            } else {
                let v = value_code(reg_name(spec_regs()[0]), exp);
                if v.1 is Some {
                    v
                } else {
                    (v.0.push(InstrView::Ret), None)
                }
            },
        },
    }
}

/// Saving the register named `x` into the slot of variable `y`: when `y` was not saved yet, it
/// is recorded as saved, gets its slot, and the register is stored there; else nothing.
pub open spec fn save_code(fr: FrameModel, x: Seq<char>, y: Seq<char>) -> (
    Seq<InstrView>,
    Option<Seq<char>>,
    FrameModel,
) {
    if !fr.0.contains(y) && (reg_of(x) is Some || is_freg(x)) {
        let slots = slots_after_save(fr.1, y);
        let off = 8 * slots.index_of(y);
        let code = match reg_of(x) {
            Some(rx) => seq![InstrView::Store(rx, off as i32, REG_SP)],
            None => seq![InstrView::MovSD(x, slot_text(off))],
        };
        (code, None, (fr.0.insert(y), slots))
    } else {
        (Seq::empty(), None, fr)
    }
}

/// Restoring variable `y` from its slot into the register named `x`.
pub open spec fn restore_code(slots: Seq<Seq<char>>, x: Seq<char>, y: Seq<char>) -> Seq<InstrView> {
    let off = 8 * slots.index_of(y);
    match reg_of(x) {
        Some(rx) => seq![InstrView::Load(off as i32, REG_SP, rx)],
        None => seq![InstrView::MovSD(slot_text(off), x)],
    }
}

/// Restoring variable `y` with its value going to `dest`: into the register named by `dest`,
/// or in tail position into the first integer register, the variable having one slot, and
/// then a return.
pub open spec fn restore_step(slots: Seq<Seq<char>>, dest: Option<Seq<char>>, y: Seq<char>) -> Seq<
    InstrView,
> {
    match dest {
        Some(x) => restore_code(slots, x, y),
        None => restore_code(slots, reg_name(spec_regs()[0]), y).push(InstrView::Ret),
    }
}

/// In tail position an instruction without a value is emitted into a fresh temporary, which
/// takes a value of the label counter: an empty instruction, a comment, a store or a save.
pub open spec fn tail_temp(dest: Option<Seq<char>>, exp: Exp) -> bool {
    &&& dest is None
    &&& (exp is Nop || exp is Comment || exp is Save || exp is St || exp is StDF)
}

/// What emission produces: the code, the name that is no register if it failed on one, the
/// frame afterwards, and the label counter afterwards.
pub type Emitted = (Seq<InstrView>, Option<Seq<char>>, FrameModel, nat);

/// The emission of `exp` with its value going to `dest`, from the frame `fr` and the label
/// counter `n`.
pub open spec fn step_code(fr: FrameModel, n: nat, dest: Option<Seq<char>>, exp: Exp) -> Emitted
    decreases exp,
{
    match exp {
        Exp::Save(x, y) => {
            let s = save_code(fr, x@, y@);
            match dest {
                Some(_) => (s.0, s.1, s.2, n),
                None => (s.0.push(InstrView::Ret), s.1, s.2, n + 1),
            }
        },
        Exp::Restore(y) => (restore_step(fr.1, dest, y@), None, fr, n),
        Exp::IfEq(x, y, e1, e2) => {
            let r1 = asm_code(fr, branch_start(dest, n), dest, *e1);
            let r2 = asm_code((fr.0, r1.2.1), r1.3, dest, *e2);
            compared(fr, n, int_compare(x@, y), branch_code(fr, n, dest, "je"@, Cond::NE, r1, r2))
        },
        Exp::IfLE(x, y, e1, e2) => {
            let r1 = asm_code(fr, branch_start(dest, n), dest, *e1);
            let r2 = asm_code((fr.0, r1.2.1), r1.3, dest, *e2);
            compared(fr, n, int_compare(x@, y), branch_code(fr, n, dest, "jle"@, Cond::G, r1, r2))
        },
        Exp::IfGE(x, y, e1, e2) => {
            let r1 = asm_code(fr, branch_start(dest, n), dest, *e1);
            let r2 = asm_code((fr.0, r1.2.1), r1.3, dest, *e2);
            compared(fr, n, int_compare(x@, y), branch_code(fr, n, dest, "jge"@, Cond::L, r1, r2))
        },
        Exp::IfFEq(x, y, e1, e2) => {
            let r1 = asm_code(fr, branch_start(dest, n), dest, *e1);
            let r2 = asm_code((fr.0, r1.2.1), r1.3, dest, *e2);
            compared(fr, n, (seq![InstrView::ComiSD(y@, x@)], None), branch_code(fr, n, dest, "je"@, Cond::NE, r1, r2))
        },
        Exp::IfFLE(x, y, e1, e2) => {
            let r1 = asm_code(fr, branch_start(dest, n), dest, *e1);
            let r2 = asm_code((fr.0, r1.2.1), r1.3, dest, *e2);
            compared(fr, n, (seq![InstrView::ComiSD(y@, x@)], None), branch_code(fr, n, dest, "jbe"@, Cond::A, r1, r2))
        },
        _ => {
            let c = exp_code(frame_size(fr.1), dest, exp);
            (c.0, c.1, fr, if tail_temp(dest, exp) {
                n + 1
            } else {
                n
            })
        },
    }
}

/// The emission of `body` with its answer going to `dest`, from the frame `fr` and the label
/// counter `n`: each binding in turn, stopping at the first failure.
pub open spec fn asm_code(fr: FrameModel, n: nat, dest: Option<Seq<char>>, body: Asm) -> Emitted
    decreases body,
{
    match body {
        Asm::Ans(exp) => step_code(fr, n, dest, exp),
        Asm::Let(x, _, exp, e) => {
            let first = step_code(fr, n, Some(x@), exp);
            if first.1 is Some {
                first
            } else {
                let rest = asm_code(first.2, first.3, dest, *e);
                (first.0 + rest.0, rest.1, rest.2, rest.3)
            }
        },
    }
}

/// Emission of `body` from the frame `fr` and the label counter `n` reaches only instructions
/// that can be emitted.
pub open spec fn asm_emits(fr: FrameModel, n: nat, dest: Option<Seq<char>>, body: Asm) -> bool
    decreases body,
{
    match body {
        Asm::Ans(exp) => emits(fr, n, dest, exp),
        Asm::Let(x, _, exp, e) => {
            let first = step_code(fr, n, Some(x@), exp);
            &&& emits(fr, n, Some(x@), exp)
            &&& (first.1 is None ==> asm_emits(first.2, first.3, dest, *e))
        },
    }
}

/// `r` reports the failure `failure`: success when there is none, else the offending name.
pub open spec fn reports(r: Result<(), Error>, failure: Option<Seq<char>>) -> bool {
    match r {
        Ok(_) => failure is None,
        Err(e) => failure == Some(e@),
    }
}

/// The name of the `d`-th float argument register.
pub open spec fn freg_name(d: int) -> Seq<char> {
    if d == 0 {
        "%xmm0"@
    } else     if d == 1 {
        "%xmm1"@
    } else     if d == 2 {
        "%xmm2"@
    } else     if d == 3 {
        "%xmm3"@
    } else     if d == 4 {
        "%xmm4"@
    } else     if d == 5 {
        "%xmm5"@
    } else     if d == 6 {
        "%xmm6"@
    } else {
        "%xmm7"@
    }
}

/// The name of the `d`-th float argument register.
pub fn fregs(d: usize) -> (s: String)
    requires
        d < 8,
    ensures
        s@ == freg_name(d as int),
{
    if d == 0 {
        return String::from_str("%xmm0");
    }
    if d == 1 {
        return String::from_str("%xmm1");
    }
    if d == 2 {
        return String::from_str("%xmm2");
    }
    if d == 3 {
        return String::from_str("%xmm3");
    }
    if d == 4 {
        return String::from_str("%xmm4");
    }
    if d == 5 {
        return String::from_str("%xmm5");
    }
    if d == 6 {
        return String::from_str("%xmm6");
    }
    String::from_str("%xmm7")
}

/// The assembler text of the stack location `off` bytes from the stack pointer.
pub open spec fn slot_text(off: int) -> Seq<char> {
    decimal(off) + seq!['('] + reg_name(REG_SP) + seq![')']
}

/// The spare location of argument placement: the first stack slot past a frame of `frame` bytes.
pub open spec fn spare_slot(frame: int) -> Seq<char> {
    slot_text(frame)
}

/// The assembler text of the stack location `off` bytes from the stack pointer.
fn slot_text_of(off: i32) -> (s: String)
    requires
        off >= 0,
    ensures
        s@ == slot_text(off as int),
{
    let mut s = String::new();
    push_decimal(&mut s, off as u64);
    proof {
        reveal_strlit("(");
        reveal_strlit(")");
    }
    s.append("(");
    let sp = REG_SP.name();
    s.append(sp.as_str());
    s.append(")");
    assert(s@ =~= slot_text(off as int));
    s
}

/// `x` names a float argument register.
pub open spec fn is_freg(x: Seq<char>) -> bool {
    exists|d: int| 0 <= d < 8 && #[trigger] freg_name(d) == x
}

/// Whether `x` names a float argument register.
fn is_freg_name(x: &String) -> (b: bool)
    ensures
        b == is_freg(x@),
{
    let mut d: usize = 0;
    while d < 8
        invariant
            d <= 8,
            forall|k: int| 0 <= k < d ==> freg_name(k) != x@,
        decreases 8 - d,
    {
        if fregs(d) == *x {
            assert(freg_name(d as int) == x@);
            return true;
        }
        d = d + 1;
    }
    false
}

/// The moves of the integer arguments `ys` into the argument registers, in front of the
/// moves `cls`: the last argument first.
pub open spec fn int_arg_moves(cls: Seq<Move>, ys: Seq<Seq<char>>) -> Seq<Move>
    decreases ys.len(),
{
    if ys.len() == 0 {
        cls
    } else {
        seq![(ys.last(), reg_name(spec_regs()[ys.len() - 1]))] + int_arg_moves(cls, ys.drop_last())
    }
}

/// The moves of the float arguments `zs` into the float argument registers: the last first.
pub open spec fn float_arg_moves(zs: Seq<Seq<char>>) -> Seq<Move>
    decreases zs.len(),
{
    if zs.len() == 0 {
        Seq::empty()
    } else {
        seq![(zs.last(), freg_name(zs.len() - 1))] + float_arg_moves(zs.drop_last())
    }
}

/// One `movq` per move.
pub open spec fn mov_code(m: Seq<Move>) -> Seq<InstrView> {
    m.map_values(|p: Move| InstrView::Mov(p.0, p.1))
}

/// One `movsd` per move.
pub open spec fn movsd_code(m: Seq<Move>) -> Seq<InstrView> {
    m.map_values(|p: Move| InstrView::MovSD(p.0, p.1))
}

/// The code that places the arguments of a call made from a frame of `frame` bytes.
pub open spec fn args_code(frame: int, cls: Seq<Move>, ys: Seq<Seq<char>>, zs: Seq<Seq<char>>) -> Seq<
    InstrView,
> {
    mov_code(shuffle_moves(spare_slot(frame), int_arg_moves(cls, ys))) + movsd_code(
        shuffle_moves(spare_slot(frame), float_arg_moves(zs)),
    )
}

proof fn lemma_int_arg_moves(cls: Seq<Move>, ys: Seq<Seq<char>>)
    ensures
        int_arg_moves(cls, ys).len() == ys.len() + cls.len(),
        forall|i: int|
            0 <= i < ys.len() ==> #[trigger] int_arg_moves(cls, ys)[ys.len() - 1 - i] == (
            ys[i],
            reg_name(spec_regs()[i]),
        ),
        forall|k: int| 0 <= k < cls.len() ==> #[trigger] int_arg_moves(cls, ys)[ys.len() + k] == cls[k],
    decreases ys.len(),
{
    if ys.len() > 0 {
        lemma_int_arg_moves(cls, ys.drop_last());
        let m = int_arg_moves(cls, ys);
        let rest = int_arg_moves(cls, ys.drop_last());
        assert forall|i: int| 0 <= i < ys.len() implies #[trigger] m[ys.len() - 1 - i] == (
            ys[i],
            reg_name(spec_regs()[i]),
        ) by {
            if i < ys.len() - 1 {
                assert(m[ys.len() - 1 - i] == rest[ys.drop_last().len() - 1 - i]);
            }
        }
        assert forall|k: int| 0 <= k < cls.len() implies #[trigger] m[ys.len() + k] == cls[k] by {
            assert(m[ys.len() + k] == rest[ys.drop_last().len() + k]);
        }
    }
}

proof fn lemma_float_arg_moves(zs: Seq<Seq<char>>)
    ensures
        float_arg_moves(zs).len() == zs.len(),
        forall|d: int|
            0 <= d < zs.len() ==> #[trigger] float_arg_moves(zs)[zs.len() - 1 - d] == (
            zs[d],
            freg_name(d),
        ),
    decreases zs.len(),
{
    if zs.len() > 0 {
        lemma_float_arg_moves(zs.drop_last());
        let m = float_arg_moves(zs);
        let rest = float_arg_moves(zs.drop_last());
        assert forall|d: int| 0 <= d < zs.len() implies #[trigger] m[zs.len() - 1 - d] == (
            zs[d],
            freg_name(d),
        ) by {
            if d < zs.len() - 1 {
                assert(m[zs.len() - 1 - d] == rest[zs.drop_last().len() - 1 - d]);
            }
        }
    }
}

proof fn lemma_decimal_starts_with_digit(n: nat)
    ensures
        decimal_digits(n).len() > 0,
        decimal_digits(n)[0] != '%',
    decreases n,
{
    if n >= 10 {
        lemma_decimal_starts_with_digit(n / 10);
    }
}

proof fn lemma_spare_slot_is_no_register(frame: int)
    requires
        frame >= 0,
    ensures
        spare_slot(frame).len() > 0,
        spare_slot(frame)[0] != '%',
{
    lemma_decimal_starts_with_digit(frame as nat);
}

proof fn lemma_register_names()
    ensures
        forall|r: Reg| (#[trigger] reg_name(r)).len() > 0 && reg_name(r)[0] == '%',
        forall|x: Seq<char>| #[trigger] reg_of(x) is Some ==> x.len() > 0 && x[0] == '%',
        forall|d: int| 0 <= d < 8 ==> (#[trigger] freg_name(d)).len() > 0 && freg_name(d)[0] == '%',
        forall|d1: int, d2: int|
            0 <= d1 < 8 && 0 <= d2 < 8 && d1 != d2 ==> #[trigger] freg_name(d1) != #[trigger] freg_name(d2),
        forall|i: int, j: int|
            0 <= i < 6 && 0 <= j < 6 && i != j ==> #[trigger] reg_name(spec_regs()[i]) != #[trigger] reg_name(
                spec_regs()[j],
            ),
{
    reveal_strlit("%rax");
    reveal_strlit("%rbx");
    reveal_strlit("%rcx");
    reveal_strlit("%rdx");
    reveal_strlit("%rsi");
    reveal_strlit("%rdi");
    reveal_strlit("%rbp");
    reveal_strlit("%rsp");
    reveal_strlit("%r8");
    reveal_strlit("%r9");
    reveal_strlit("%r10");
    reveal_strlit("%r11");
    reveal_strlit("%r12");
    reveal_strlit("%r13");
    reveal_strlit("%r14");
    reveal_strlit("%r15");
    reveal_strlit("%xmm0");
    reveal_strlit("%xmm1");
    reveal_strlit("%xmm2");
    reveal_strlit("%xmm3");
    reveal_strlit("%xmm4");
    reveal_strlit("%xmm5");
    reveal_strlit("%xmm6");
    reveal_strlit("%xmm7");
    assert forall|d1: int, d2: int|
        0 <= d1 < 8 && 0 <= d2 < 8 && d1 != d2 implies #[trigger] freg_name(d1) != #[trigger] freg_name(
            d2,
        ) by {
        assert(freg_name(d1)[4] != freg_name(d2)[4]);
    }
    assert forall|i: int, j: int|
        0 <= i < 6 && 0 <= j < 6 && i != j implies #[trigger] reg_name(spec_regs()[i])
            != #[trigger] reg_name(spec_regs()[j]) by {
        crate::x86::instr::lemma_reg_name_roundtrip(spec_regs()[i]);
        crate::x86::instr::lemma_reg_name_roundtrip(spec_regs()[j]);
    }
}

/// The values a run of moves leaves: `run` over registers holding integers.
proof fn lemma_placement(sw: Seq<char>, m: Seq<Move>, s: spec_fn(Seq<char>) -> int, i: int)
    requires
        sources_agree(m),
        !writes(m, sw),
        0 <= i < m.len(),
        m[i].1 != sw,
    ensures
        run(shuffle_moves(sw, m), s)(m[i].1) == s(m[i].0),
{
    lemma_shuffle_is_parallel_move(sw, m, s, m[i].1);
    assert(writes(m, m[i].1));
    let j = choose|j: int| 0 <= j < m.len() && #[trigger] m[j].1 == m[i].1;
}

/// Places the arguments of a call in their registers: the integer arguments `ys`, after the
/// moves `x_reg_cl`, into the argument registers, and the float arguments `zs` into the float
/// argument registers, through `shuffle`, with the slot past the frame as the spare location.
pub fn g_exp_args(
    output: &mut Vec<Instr>,
    stack_state: &mut StackState,
    x_reg_cl: Vec<(String, String)>,
    ys: Vec<String>,
    zs: Vec<String>,
) -> (r: Result<(), Error>)
    requires
        8 * old(stack_state).slots().len() <= i32::MAX,
        ys.len() + x_reg_cl.len() <= 6,
        zs.len() <= 8,
        forall|k: int| 0 <= k < x_reg_cl.len() ==> reg_of((#[trigger] x_reg_cl@[k]).1@) is Some,
        sources_agree(int_arg_moves(moves_view(x_reg_cl@), names(ys@))),
    ensures
        *final(stack_state) == *old(stack_state),
        r is Ok,
        code_view(final(output)@) == code_view(old(output)@) + args_code(
            frame_size(old(stack_state).slots()),
            moves_view(x_reg_cl@),
            names(ys@),
            names(zs@),
        ),
        forall|s: spec_fn(Seq<char>) -> int, i: int|
            0 <= i < ys.len() ==> #[trigger] run(
                shuffle_moves(
                    spare_slot(frame_size(old(stack_state).slots())),
                    int_arg_moves(moves_view(x_reg_cl@), names(ys@)),
                ),
                s,
            )(reg_name(spec_regs()[i])) == s(ys@[i]@),
        forall|s: spec_fn(Seq<char>) -> int, k: int|
            0 <= k < x_reg_cl.len() ==> #[trigger] run(
                shuffle_moves(
                    spare_slot(frame_size(old(stack_state).slots())),
                    int_arg_moves(moves_view(x_reg_cl@), names(ys@)),
                ),
                s,
            )(x_reg_cl@[k].1@) == s(x_reg_cl@[k].0@),
        forall|s: spec_fn(Seq<char>) -> int, d: int|
            0 <= d < zs.len() ==> #[trigger] run(
                shuffle_moves(spare_slot(frame_size(old(stack_state).slots())), float_arg_moves(names(zs@))),
                s,
            )(freg_name(d)) == s(zs@[d]@),
{
    let ghost frame = frame_size(stack_state.slots());
    let ghost before = code_view(output@);
    let ghost cls = moves_view(x_reg_cl@);
    let ghost yv = names(ys@);
    let ghost zv = names(zs@);
    let mut yrs: Vec<(String, String)> = x_reg_cl;
    let mut i: usize = 0;
    while i < ys.len()
        invariant
            i <= ys.len(),
            ys.len() <= 6,
            yv == names(ys@),
            moves_view(yrs@) == int_arg_moves(cls, yv.take(i as int)),
        decreases ys.len() - i,
    {
        let p = (ys[i].clone(), regs(i).name());
        yrs.insert(0, p);
        proof {
            let t = yv.take(i + 1);
            assert(t.drop_last() =~= yv.take(i as int));
            assert(t.last() == yv[i as int]);
            assert(moves_view(yrs@) =~= seq![move_view(p)] + int_arg_moves(cls, yv.take(i as int)));
        }
        i = i + 1;
    }
    assert(yv.take(ys.len() as int) =~= yv);
    let mut zfrs: Vec<(String, String)> = Vec::new();
    let mut d: usize = 0;
    while d < zs.len()
        invariant
            d <= zs.len(),
            zs.len() <= 8,
            zv == names(zs@),
            moves_view(zfrs@) == float_arg_moves(zv.take(d as int)),
        decreases zs.len() - d,
    {
        let p = (zs[d].clone(), fregs(d));
        zfrs.insert(0, p);
        proof {
            let t = zv.take(d + 1);
            assert(t.drop_last() =~= zv.take(d as int));
            assert(t.last() == zv[d as int]);
            assert(moves_view(zfrs@) =~= seq![move_view(p)] + float_arg_moves(zv.take(d as int)));
        }
        d = d + 1;
    }
    assert(zv.take(zs.len() as int) =~= zv);
    let ss = stack_state.stacksize();
    let sw = slot_text_of(ss);
    let moves = shuffle(sw.as_str(), yrs.as_slice());
    let fmoves = shuffle(sw.as_str(), zfrs.as_slice());
    let ghost im = shuffle_moves(spare_slot(frame), int_arg_moves(cls, yv));
    let ghost fm = shuffle_moves(spare_slot(frame), float_arg_moves(zv));
    let mut j: usize = 0;
    while j < moves.len()
        invariant
            j <= moves.len(),
            moves_view(moves@) == im,
            code_view(output@) == before + mov_code(im.take(j as int)),
        decreases moves.len() - j,
    {
        let ins = Instr::Mov(moves[j].0.clone(), moves[j].1.clone());
        proof {
            lemma_code_view_push(output@, ins);
        }
        output.push(ins);
        assert(im[j as int] == move_view(moves@[j as int]));
        assert(code_view(output@) =~= before + mov_code(im.take(j + 1)));
        j = j + 1;
    }
    assert(im.take(moves.len() as int) =~= im);
    let ghost mid = code_view(output@);
    let mut k: usize = 0;
    while k < fmoves.len()
        invariant
            k <= fmoves.len(),
            moves_view(fmoves@) == fm,
            code_view(output@) == mid + movsd_code(fm.take(k as int)),
        decreases fmoves.len() - k,
    {
        let ins = Instr::MovSD(fmoves[k].0.clone(), fmoves[k].1.clone());
        proof {
            lemma_code_view_push(output@, ins);
        }
        output.push(ins);
        assert(fm[k as int] == move_view(fmoves@[k as int]));
        assert(code_view(output@) =~= mid + movsd_code(fm.take(k + 1)));
        k = k + 1;
    }
    assert(fm.take(fmoves.len() as int) =~= fm);
    assert(code_view(output@) =~= before + args_code(frame, cls, yv, zv));
    proof {
        let m = int_arg_moves(cls, yv);
        let fmv = float_arg_moves(zv);
        let sw = spare_slot(frame);
        lemma_spare_slot_is_no_register(frame);
        lemma_register_names();
        lemma_int_arg_moves(cls, yv);
        lemma_float_arg_moves(zv);
        assert(!writes(m, sw)) by {
            if writes(m, sw) {
                let q = choose|q: int| 0 <= q < m.len() && #[trigger] m[q].1 == sw;
                if q < yv.len() {
                    let i = yv.len() - 1 - q;
                    assert(m[yv.len() - 1 - i].1 == reg_name(spec_regs()[i]));
                } else {
                    let kk = q - yv.len();
                    assert(m[yv.len() + kk] == cls[kk]);
                    assert(reg_of(x_reg_cl@[kk].1@) is Some);
                }
            }
        }
        assert(sources_agree(fmv)) by {
            assert forall|a: int, b: int|
                0 <= a < fmv.len() && 0 <= b < fmv.len() && #[trigger] fmv[a].1 == #[trigger] fmv[b].1 implies fmv[a].0
                == fmv[b].0 by {
                let da = zv.len() - 1 - a;
                let db = zv.len() - 1 - b;
                assert(fmv[zv.len() - 1 - da].1 == freg_name(da));
                assert(fmv[zv.len() - 1 - db].1 == freg_name(db));
            }
        }
        assert(!writes(fmv, sw)) by {
            if writes(fmv, sw) {
                let q = choose|q: int| 0 <= q < fmv.len() && #[trigger] fmv[q].1 == sw;
                let dd = zv.len() - 1 - q;
                assert(fmv[zv.len() - 1 - dd].1 == freg_name(dd));
            }
        }
        assert forall|s: spec_fn(Seq<char>) -> int, i: int| 0 <= i < ys.len() implies #[trigger] run(
            shuffle_moves(sw, m),
            s,
        )(reg_name(spec_regs()[i])) == s(ys@[i]@) by {
            let q = yv.len() - 1 - i;
            assert(m[yv.len() - 1 - i] == (yv[i], reg_name(spec_regs()[i])));
            lemma_placement(sw, m, s, q);
        }
        assert forall|s: spec_fn(Seq<char>) -> int, kk: int| 0 <= kk < x_reg_cl.len() implies #[trigger] run(
            shuffle_moves(sw, m),
            s,
        )(x_reg_cl@[kk].1@) == s(x_reg_cl@[kk].0@) by {
            assert(m[yv.len() + kk] == cls[kk]);
            assert(reg_of(x_reg_cl@[kk].1@) is Some);
            lemma_placement(sw, m, s, yv.len() + kk);
        }
        assert forall|s: spec_fn(Seq<char>) -> int, dd: int| 0 <= dd < zs.len() implies #[trigger] run(
            shuffle_moves(sw, fmv),
            s,
        )(freg_name(dd)) == s(zs@[dd]@) by {
            assert(fmv[zv.len() - 1 - dd] == (zv[dd], freg_name(dd)));
            lemma_placement(sw, fmv, s, zv.len() - 1 - dd);
        }
    }
    Ok(())
}

proof fn lemma_plain_args_agree(yv: Seq<Seq<char>>)
    requires
        yv.len() <= 6,
    ensures
        sources_agree(int_arg_moves(Seq::empty(), yv)),
{
    let m = int_arg_moves(Seq::empty(), yv);
    lemma_int_arg_moves(Seq::empty(), yv);
    lemma_register_names();
    assert forall|a: int, b: int|
        0 <= a < m.len() && 0 <= b < m.len() && #[trigger] m[a].1 == #[trigger] m[b].1 implies m[a].0
        == m[b].0 by {
        let ia = yv.len() - 1 - a;
        let ib = yv.len() - 1 - b;
        assert(m[yv.len() - 1 - ia].1 == reg_name(spec_regs()[ia]));
        assert(m[yv.len() - 1 - ib].1 == reg_name(spec_regs()[ib]));
    }
}

proof fn lemma_closure_args_agree(c: Seq<char>, yv: Seq<Seq<char>>)
    requires
        yv.len() <= 5,
    ensures
        sources_agree(int_arg_moves(closure_move(c), yv)),
{
    let m = int_arg_moves(closure_move(c), yv);
    lemma_int_arg_moves(closure_move(c), yv);
    lemma_register_names();
    assert forall|a: int, b: int|
        0 <= a < m.len() && 0 <= b < m.len() && #[trigger] m[a].1 == #[trigger] m[b].1 implies m[a].0
        == m[b].0 by {
        let ia = yv.len() - 1 - a;
        let ib = yv.len() - 1 - b;
        if a < yv.len() {
            assert(m[yv.len() - 1 - ia].1 == reg_name(spec_regs()[ia]));
        } else {
            assert(m[yv.len() as int + 0] == closure_move(c)[0]);
            assert(m[a].1 == reg_name(spec_regs()[5]));
        }
        if b < yv.len() {
            assert(m[yv.len() - 1 - ib].1 == reg_name(spec_regs()[ib]));
        } else {
            assert(m[yv.len() as int + 0] == closure_move(c)[0]);
            assert(m[b].1 == reg_name(spec_regs()[5]));
        }
    }
}

fn reg_or_fail(name: &String) -> (r: Result<Reg, Error>)
    ensures
        match r {
            Ok(reg) => reg_of(name@) == Some(reg),
            Err(e) => reg_of(name@) is None && e@ == name@,
        },
{
    Reg::from_name(name)
}

/// Emits the code that puts the value of `exp` into the register named `x`.
fn g_value(output: &mut Vec<Instr>, x: &String, exp: Exp) -> (r: Result<(), Error>)
    requires
        emits(empty_frame(), 0, Some(x@), exp),
        !is_conditional(exp),
        !(exp is CallDir),
        !(exp is Save),
        !(exp is Restore),
    ensures
        code_view(final(output)@) == code_view(old(output)@) + value_code(x@, exp).0,
        reports(r, value_code(x@, exp).1),
{
    let ghost before = code_view(output@);
    let ghost ev = exp;
    match exp {
        Exp::Nop => {
            assert(code_view(output@) =~= before + value_code(x@, ev).0);
        },
        Exp::Comment(t) => {
            let ins = Instr::Comment(t);
            proof {
                lemma_code_view_push(output@, ins);
            }
            output.push(ins);
        },
        Exp::SetImm(i) => {
            let rx = match reg_or_fail(x) {
                Ok(r) => r,
                Err(e) => {
                    assert(code_view(output@) =~= before + value_code(x@, ev).0);
                    return Err(e);
                },
            };
            let ins = Instr::MovIR(i, rx);
            proof {
                lemma_code_view_push(output@, ins);
            }
            output.push(ins);
        },
        Exp::SetL(L(l)) => {
            let rx = match reg_or_fail(x) {
                Ok(r) => r,
                Err(e) => {
                    assert(code_view(output@) =~= before + value_code(x@, ev).0);
                    return Err(e);
                },
            };
            let ins = Instr::MovLR(l, rx);
            proof {
                lemma_code_view_push(output@, ins);
            }
            output.push(ins);
        },
        Exp::Mov(y) => {
            if *x != y {
                let rx = match reg_or_fail(x) {
                    Ok(r) => r,
                    Err(e) => {
                        assert(code_view(output@) =~= before + value_code(x@, ev).0);
                        return Err(e);
                    },
                };
                let ry = match reg_or_fail(&y) {
                    Ok(r) => r,
                    Err(e) => {
                        assert(code_view(output@) =~= before + value_code(x@, ev).0);
                        return Err(e);
                    },
                };
                let ins = Instr::MovRR(ry, rx);
                proof {
                    lemma_code_view_push(output@, ins);
                }
                output.push(ins);
            } else {
                assert(code_view(output@) =~= before + value_code(x@, ev).0);
            }
        },
        Exp::Neg(y) => {
            let rx = match reg_or_fail(x) {
                Ok(r) => r,
                Err(e) => {
                    assert(code_view(output@) =~= before + value_code(x@, ev).0);
                    return Err(e);
                },
            };
            if *x != y {
                let ry = match reg_or_fail(&y) {
                    Ok(r) => r,
                    Err(e) => {
                        assert(code_view(output@) =~= before + value_code(x@, ev).0);
                        return Err(e);
                    },
                };
                output.push(Instr::MovRR(ry, rx));
            }
            output.push(Instr::NegR(rx));
            assert(code_view(output@) =~= before + value_code(x@, ev).0);
        },
        Exp::Add(y, z) => {
            return g_arith(output, x, y, z, true);
        },
        Exp::Sub(y, z) => {
            return g_arith(output, x, y, z, false);
        },
        _ => {
            assert(code_view(output@) =~= before + value_code(x@, ev).0);
        },
    }
    Ok(())
}

/// Emits `x = y + z` (when `add`) or `x = y - z`.
fn g_arith(output: &mut Vec<Instr>, x: &String, y: String, z: IdOrImm, add: bool) -> (r: Result<
    (),
    Error,
>)
    ensures
        code_view(final(output)@) == code_view(old(output)@) + arith_code(x@, y@, z, add).0,
        reports(r, arith_code(x@, y@, z, add).1),
{
    let ghost before = code_view(output@);
    let ghost zv = z;
    let rx = match reg_or_fail(x) {
        Ok(r) => r,
        Err(e) => {
            assert(code_view(output@) =~= before + arith_code(x@, y@, zv, add).0);
            return Err(e);
        },
    };
    let ry = match reg_or_fail(&y) {
        Ok(r) => r,
        Err(e) => {
            assert(code_view(output@) =~= before + arith_code(x@, y@, zv, add).0);
            return Err(e);
        },
    };
    let self_operand = match &z {
        IdOrImm::V(n) => *n == *x,
        IdOrImm::C(_) => false,
    };
    if self_operand {
        if add {
            output.push(Instr::AddRR(ry, rx));
        } else {
            output.push(Instr::SubRR(ry, rx));
            output.push(Instr::NegR(rx));
        }
        assert(code_view(output@) =~= before + arith_code(x@, y@, zv, add).0);
        return Ok(());
    }
    let operand: Result<Reg, i32> = match z {
        IdOrImm::V(n) => match reg_or_fail(&n) {
            Ok(r) => Ok(r),
            Err(e) => {
                assert(code_view(output@) =~= before + arith_code(x@, y@, zv, add).0);
                return Err(e);
            },
        },
        IdOrImm::C(i) => Err(i),
    };
    if *x != y {
        output.push(Instr::MovRR(ry, rx));
    }
    match operand {
        Ok(rz) => {
            if add {
                output.push(Instr::AddRR(rz, rx));
            } else {
                output.push(Instr::SubRR(rz, rx));
            }
        },
        Err(i) => {
            if add {
                output.push(Instr::AddIR(i, rx));
            } else {
                output.push(Instr::SubIR(i, rx));
            }
        },
    }
    assert(code_view(output@) =~= before + arith_code(x@, y@, zv, add).0);
    Ok(())
}

/// Appends the decimal text of `v` to `s`, with a leading `-` when it is negative.
fn push_signed(s: &mut String, v: i64)
    requires
        v > i64::MIN,
    ensures
        final(s)@ == old(s)@ + decimal(v as int),
{
    proof {
        reveal_strlit("-");
    }
    if v < 0 {
        s.append("-");
        push_decimal(s, (-v) as u64);
    } else {
        push_decimal(s, v as u64);
    }
}

/// The text of the memory operand at `y` plus `z` scaled by `i`.
fn mem_operand_text(y: &String, z: &IdOrImm, i: i32) -> (t: String)
    ensures
        t@ == mem_operand(y@, *z, i as int),
{
    proof {
        reveal_strlit("(");
        reveal_strlit(",");
        reveal_strlit(")");
    }
    match z {
        IdOrImm::V(r) => {
            let mut t = String::from_str("(");
            t.append(y.as_str());
            t.append(",");
            t.append(r.as_str());
            t.append(",");
            push_signed(&mut t, i as i64);
            t.append(")");
            assert(t@ =~= mem_operand(y@, *z, i as int));
            t
        },
        IdOrImm::C(j) => {
            let mut t = String::new();
            assert((*j as int) * (i as int) <= 0x4000_0000_0000_0000) by (nonlinear_arith)
                requires
                    i32::MIN <= *j <= i32::MAX,
                    i32::MIN <= i <= i32::MAX,
            ;
            assert((*j as int) * (i as int) >= -0x4000_0000_0000_0000) by (nonlinear_arith)
                requires
                    i32::MIN <= *j <= i32::MAX,
                    i32::MIN <= i <= i32::MAX,
            ;
            push_signed(&mut t, (*j as i64) * (i as i64));
            t.append("(");
            t.append(y.as_str());
            t.append(")");
            assert(t@ =~= mem_operand(y@, *z, i as int));
            t
        },
    }
}

/// Emits the load or store `exp`, a load into the location named `x`.
fn g_memory(output: &mut Vec<Instr>, x: String, exp: Exp)
    requires
        is_memory_op(exp),
    ensures
        code_view(final(output)@) == code_view(old(output)@) + memory_code(x@, exp),
{
    let ghost before = code_view(output@);
    let ghost ev = exp;
    let ins = match exp {
        Exp::Ld(y, z, i) => Instr::Mov(mem_operand_text(&y, &z, i), x),
        Exp::St(v, y, z, i) => Instr::Mov(v, mem_operand_text(&y, &z, i)),
        Exp::LdDF(y, z, i) => Instr::MovSD(mem_operand_text(&y, &z, i), x),
        Exp::StDF(v, y, z, i) => Instr::MovSD(v, mem_operand_text(&y, &z, i)),
        _ => {
            assert(false);
            Instr::Ret
        },
    };
    proof {
        lemma_code_view_push(output@, ins);
    }
    output.push(ins);
    assert(code_view(output@) =~= before + memory_code(x@, ev));
}

/// Emits the load or store `exp`, its value going to `dest`: in tail position a load goes
/// into the first integer or float register, and a return follows.
fn g_memory_dest(output: &mut Vec<Instr>, dest: Dest, exp: Exp) -> (r: Result<(), Error>)
    requires
        is_memory_op(exp),
    ensures
        forall|frame: int|
            code_view(final(output)@) == code_view(old(output)@) + #[trigger] exp_code(
                frame,
                dest@,
                exp,
            ).0,
        forall|frame: int| #[trigger] exp_code(frame, dest@, exp).1 is None,
        r is Ok,
{
    reveal(exp_code);
    let ghost before = code_view(output@);
    let ghost ev = exp;
    match dest {
        Dest::NonTail(x) => g_memory(output, x, exp),
        Dest::Tail => {
            let is_float = match &exp {
                Exp::LdDF(_, _, _) => true,
                _ => false,
            };
            let x = if is_float {
                fregs(0)
            } else {
                regs(0).name()
            };
            g_memory(output, x, exp);
            let ins = Instr::Ret;
            proof {
                lemma_code_view_push(output@, ins);
            }
            output.push(ins);
            assert(code_view(output@) =~= before + memory_code(x@, ev).push(InstrView::Ret));
        },
    }
    Ok(())
}

/// Emits the float move, negation or arithmetic `exp` into the register named `x`.
fn g_float(output: &mut Vec<Instr>, stack_state: &StackState, x: String, exp: Exp)
    requires
        is_float_op(exp),
        (exp is FSubD || exp is FDivD) ==> 8 * stack_state.slots().len() <= i32::MAX,
    ensures
        code_view(final(output)@) == code_view(old(output)@) + float_code(
            frame_size(stack_state.slots()),
            x@,
            exp,
        ),
{
    let ghost before = code_view(output@);
    let ghost ev = exp;
    let ghost frame = frame_size(stack_state.slots());
    match exp {
        Exp::FMovD(y) => {
            if x != y {
                output.push(Instr::MovSD(y, x));
            }
        },
        Exp::FNegD(y) => {
            if x != y {
                output.push(Instr::MovSD(y, x.clone()));
            }
            output.push(Instr::XorPD(String::from_str("min_caml_fnegd"), x));
        },
        Exp::FAddD(y, z) => {
            if x == z {
                output.push(Instr::AddSD(y, x));
            } else {
                if x != y {
                    output.push(Instr::MovSD(y, x.clone()));
                }
                output.push(Instr::AddSD(z, x));
            }
        },
        Exp::FMulD(y, z) => {
            if x == z {
                output.push(Instr::MulSD(y, x));
            } else {
                if x != y {
                    output.push(Instr::MovSD(y, x.clone()));
                }
                output.push(Instr::MulSD(z, x));
            }
        },
        Exp::FSubD(y, z) => {
            if x == z {
                let ss = stack_state.stacksize();
                output.push(Instr::MovSD(z, slot_text_of(ss)));
                if x != y {
                    output.push(Instr::MovSD(y, x.clone()));
                }
                output.push(Instr::SubSD(slot_text_of(ss), x));
            } else {
                if x != y {
                    output.push(Instr::MovSD(y, x.clone()));
                }
                output.push(Instr::SubSD(z, x));
            }
        },
        Exp::FDivD(y, z) => {
            if x == z {
                let ss = stack_state.stacksize();
                output.push(Instr::MovSD(z, slot_text_of(ss)));
                if x != y {
                    output.push(Instr::MovSD(y, x.clone()));
                }
                output.push(Instr::DivSD(slot_text_of(ss), x));
            } else {
                if x != y {
                    output.push(Instr::MovSD(y, x.clone()));
                }
                output.push(Instr::DivSD(z, x));
            }
        },
        _ => {},
    }
    assert(code_view(output@) =~= before + float_code(frame, x@, ev));
}

/// Emits the float move, negation or arithmetic `exp`, its value going to `dest`: in tail
/// position into the first float register, then a return.
fn g_float_dest(output: &mut Vec<Instr>, stack_state: &StackState, dest: Dest, exp: Exp) -> (r:
    Result<(), Error>)
    requires
        is_float_op(exp),
        emits(stack_state.model(), 0, dest@, exp),
    ensures
        code_view(final(output)@) == code_view(old(output)@) + exp_code(
            frame_size(stack_state.slots()),
            dest@,
            exp,
        ).0,
        reports(r, exp_code(frame_size(stack_state.slots()), dest@, exp).1),
{
    reveal(exp_code);
    let ghost before = code_view(output@);
    let ghost frame = frame_size(stack_state.slots());
    let ghost ev = exp;
    match dest {
        Dest::NonTail(x) => g_float(output, stack_state, x, exp),
        Dest::Tail => {
            g_float(output, stack_state, fregs(0), exp);
            let ins = Instr::Ret;
            proof {
                lemma_code_view_push(output@, ins);
            }
            output.push(ins);
            assert(code_view(output@) =~= before + exp_code(frame, None, ev).0);
        },
    }
    Ok(())
}

/// Emits the call instruction `call` with the stack pointer moved past the frame around it.
fn g_call(output: &mut Vec<Instr>, stack_state: &StackState, call: Instr)
    requires
        8 * stack_state.slots().len() <= i32::MAX,
    ensures
        code_view(final(output)@) == code_view(old(output)@) + call_code(
            frame_size(stack_state.slots()),
            call@,
        ),
{
    let ghost before = code_view(output@);
    let ghost cv = call@;
    let ss = stack_state.stacksize();
    if ss > 0 {
        output.push(Instr::AddIR(ss, REG_SP));
    }
    output.push(call);
    if ss > 0 {
        output.push(Instr::AddIR(-ss, REG_SP));
    }
    assert(code_view(output@) =~= before + call_code(ss as int, cv));
}

/// Emits the move of a call's result into the register named `a`.
fn g_call_result(output: &mut Vec<Instr>, a: &String)
    ensures
        code_view(final(output)@) == code_view(old(output)@) + result_move(a@),
{
    let ghost before = code_view(output@);
    match Reg::from_name(a) {
        Ok(r) => {
            let rv = regs(0);
            if r != rv {
                let ins = Instr::MovRR(rv, r);
                proof {
                    lemma_code_view_push(output@, ins);
                }
                output.push(ins);
            }
        },
        Err(_) => {
            if is_freg_name(a) {
                let f0 = fregs(0);
                if *a != f0 {
                    let ins = Instr::MovSD(f0, a.clone());
                    proof {
                        lemma_code_view_push(output@, ins);
                    }
                    output.push(ins);
                }
            }
        },
    }
    assert(code_view(output@) =~= before + result_move(a@));
}

/// Emits an instruction that leaves the frame as it is: all but saves and restores.
fn g_plain(output: &mut Vec<Instr>, stack_state: &mut StackState, dest: Dest, exp: Exp) -> (r:
    Result<(), Error>)
    requires
        old(stack_state).well_formed(),
        emits(old(stack_state).model(), 0, dest@, exp),
        !(exp is Save),
        !(exp is Restore),
        !is_conditional(exp),
    ensures
        *final(stack_state) == *old(stack_state),
        code_view(final(output)@) == code_view(old(output)@) + exp_code(
            frame_size(old(stack_state).slots()),
            dest@,
            exp,
        ).0,
        reports(r, exp_code(frame_size(old(stack_state).slots()), dest@, exp).1),
{
    reveal(exp_code);
    let ghost frame = frame_size(stack_state.slots());
    let ghost before = code_view(output@);
    let ghost dv = dest@;
    let ghost ev = exp;
    match exp {
        Exp::CallDir(L(l), ys, zs) => {
            let ghost lv = l@;
            let ghost yv = names(ys@);
            let ghost zv = names(zs@);
            proof {
                lemma_plain_args_agree(yv);
                assert(moves_view(Seq::<(String, String)>::empty()) =~= Seq::<Move>::empty());
            }
            let _ = g_exp_args(output, stack_state, Vec::new(), ys, zs);
            let ghost after_args = code_view(output@);
            assert(after_args == before + args_code(frame, Seq::empty(), yv, zv));
            match dest {
                Dest::NonTail(x) => {
                    g_call(output, stack_state, Instr::Call(l));
                    g_call_result(output, &x);
                    assert(code_view(output@) =~= before + exp_code(frame, dv, ev).0);
                    Ok(())
                },
                Dest::Tail => {
                    let ins = Instr::Jmp(l);
                    proof {
                        lemma_code_view_push(output@, ins);
                    }
                    output.push(ins);
                    assert(code_view(output@) =~= before + exp_code(frame, dv, ev).0);
                    Ok(())
                },
            }
        },
        Exp::CallCls(c, ys, zs) => {
            let ghost cv = c@;
            let ghost yv = names(ys@);
            let ghost zv = names(zs@);
            let cls = vec![(c, REG_CL.name())];
            proof {
                lemma_closure_args_agree(cv, yv);
                crate::x86::instr::lemma_reg_name_roundtrip(REG_CL);
                assert(moves_view(cls@) =~= closure_move(cv));
            }
            let _ = g_exp_args(output, stack_state, cls, ys, zs);
            let ghost after_args = code_view(output@);
            assert(after_args == before + args_code(frame, closure_move(cv), yv, zv));
            match dest {
                Dest::NonTail(x) => {
                    g_call(output, stack_state, Instr::CallInd(REG_CL));
                    g_call_result(output, &x);
                    assert(code_view(output@) =~= before + exp_code(frame, dv, ev).0);
                    Ok(())
                },
                Dest::Tail => {
                    let ins = Instr::JmpInd(REG_CL);
                    proof {
                        lemma_code_view_push(output@, ins);
                    }
                    output.push(ins);
                    assert(code_view(output@) =~= before + exp_code(frame, dv, ev).0);
                    Ok(())
                },
            }
        },
        Exp::Ld(_, _, _) => g_memory_dest(output, dest, exp),
        Exp::St(_, _, _, _) => g_memory_dest(output, dest, exp),
        Exp::LdDF(_, _, _) => g_memory_dest(output, dest, exp),
        Exp::StDF(_, _, _, _) => g_memory_dest(output, dest, exp),
        Exp::FMovD(_) => g_float_dest(output, stack_state, dest, exp),
        Exp::FNegD(_) => g_float_dest(output, stack_state, dest, exp),
        Exp::FAddD(_, _) => g_float_dest(output, stack_state, dest, exp),
        Exp::FSubD(_, _) => g_float_dest(output, stack_state, dest, exp),
        Exp::FMulD(_, _) => g_float_dest(output, stack_state, dest, exp),
        Exp::FDivD(_, _) => g_float_dest(output, stack_state, dest, exp),
        _ => match dest {
            Dest::NonTail(x) => g_value(output, &x, exp),
            Dest::Tail => {
                let x = regs(0).name();
                match g_value(output, &x, exp) {
                    Err(e) => {
                        return Err(e);
                    },
                    Ok(_) => {},
                }
                let ins = Instr::Ret;
                proof {
                    lemma_code_view_push(output@, ins);
                }
                output.push(ins);
                assert(code_view(output@) =~= before + exp_code(frame, dv, ev).0);
                Ok(())
            },
        },
    }
}

/// Emits the save of the register named `x` into the slot of variable `y`, then a return when
/// in tail position.
fn g_save(output: &mut Vec<Instr>, stack_state: &mut StackState, x: String, y: String, tail: bool) -> (r:
    Result<(), Error>)
    requires
        old(stack_state).well_formed(),
        reg_of(x@) is Some || is_freg(x@) || old(stack_state).saved().contains(y@),
        8 * (old(stack_state).slots().len() + 1) <= i32::MAX,
    ensures
        final(stack_state).well_formed(),
        final(stack_state).model() == save_code(old(stack_state).model(), x@, y@).2,
        code_view(final(output)@) == code_view(old(output)@) + if tail {
            save_code(old(stack_state).model(), x@, y@).0.push(InstrView::Ret)
        } else {
            save_code(old(stack_state).model(), x@, y@).0
        },
        r is Ok,
{
    let ghost before = code_view(output@);
    let ghost fr = stack_state.model();
    let ghost sc = save_code(fr, x@, y@);
    let already = stack_state.is_saved(y.as_str());
    let freg = is_freg_name(&x);
    let reg = Reg::from_name(&x);
    let convertible = match reg {
        Ok(_) => true,
        Err(_) => freg,
    };
    if !already && convertible {
        stack_state.save(y.as_str());
        proof {
            lemma_save_gives_slot(fr.1, y@);
        }
        let off: i32 = match stack_state.offset(y.as_str()) {
            Some(o) => o,
            None => {
                assert(false);
                0
            },
        };
        let ins = match reg {
            Ok(rx) => Instr::Store(rx, off, REG_SP),
            Err(_) => Instr::MovSD(x, slot_text_of(off)),
        };
        proof {
            lemma_code_view_push(output@, ins);
        }
        output.push(ins);
        assert(stack_state.model() == sc.2);
    } else {
        assert(code_view(output@) =~= before + sc.0);
    }
    if tail {
        let ins = Instr::Ret;
        proof {
            lemma_code_view_push(output@, ins);
        }
        output.push(ins);
    }
    Ok(())
}

/// Emits the restore of variable `y` from its slot into the register named by `dest`.
fn g_restore(output: &mut Vec<Instr>, stack_state: &mut StackState, dest: Dest, y: String) -> (r:
    Result<(), Error>)
    requires
        old(stack_state).well_formed(),
        dest@ matches Some(x) ==> reg_of(x) is Some || is_freg(x),
        old(stack_state).slots().contains(y@),
        8 * old(stack_state).slots().len() <= i32::MAX,
    ensures
        *final(stack_state) == *old(stack_state),
        code_view(final(output)@) == code_view(old(output)@) + restore_step(
            old(stack_state).slots(),
            dest@,
            y@,
        ),
        r is Ok,
{
    let ghost sl = stack_state.slots();
    let ghost before = code_view(output@);
    let ghost dv = dest@;
    proof {
        stack_state.lemma_slots_distinct();
        let k = sl.index_of(y@);
        assert(0 <= k < sl.len());
        crate::x86::instr::lemma_reg_name_roundtrip(Reg::Rax);
    }
    let off: i32 = match stack_state.offset(y.as_str()) {
        Some(o) => o,
        None => {
            assert(false);
            0
        },
    };
    let (x, tail) = match dest {
        Dest::NonTail(x) => (x, false),
        Dest::Tail => (regs(0).name(), true),
    };
    let ins = match Reg::from_name(&x) {
        Ok(rx) => Instr::Load(off, REG_SP, rx),
        Err(_) => Instr::MovSD(slot_text_of(off), x),
    };
    proof {
        lemma_code_view_push(output@, ins);
    }
    output.push(ins);
    if tail {
        let ins = Instr::Ret;
        proof {
            lemma_code_view_push(output@, ins);
        }
        output.push(ins);
    }
    assert(code_view(output@) =~= before + restore_step(sl, dv, y@));
    Ok(())
}

/// Whether `exp` is a conditional.
pub open spec fn is_conditional(exp: Exp) -> bool {
    ||| exp is IfEq
    ||| exp is IfLE
    ||| exp is IfGE
    ||| exp is IfFEq
    ||| exp is IfFLE
}

/// The number of instructions and bindings in `exp`, branches included.
pub open spec fn exp_size(exp: Exp) -> nat
    decreases exp,
{
    match exp {
        Exp::IfEq(_, _, e1, e2) => 1 + asm_size(*e1) + asm_size(*e2),
        Exp::IfLE(_, _, e1, e2) => 1 + asm_size(*e1) + asm_size(*e2),
        Exp::IfGE(_, _, e1, e2) => 1 + asm_size(*e1) + asm_size(*e2),
        Exp::IfFEq(_, _, e1, e2) => 1 + asm_size(*e1) + asm_size(*e2),
        Exp::IfFLE(_, _, e1, e2) => 1 + asm_size(*e1) + asm_size(*e2),
        _ => 1,
    }
}

/// The number of instructions and bindings in `body`, branches included.
pub open spec fn asm_size(body: Asm) -> nat
    decreases body,
{
    match body {
        Asm::Ans(exp) => 1 + exp_size(exp),
        Asm::Let(_, _, exp, e) => 1 + exp_size(exp) + asm_size(*e),
    }
}

/// Emits the comparison of the register named `x` with `y`.
fn g_compare(output: &mut Vec<Instr>, x: &String, y: &IdOrImm) -> (r: Result<(), Error>)
    ensures
        code_view(final(output)@) == code_view(old(output)@) + int_compare(x@, *y).0,
        reports(r, int_compare(x@, *y).1),
{
    let ghost before = code_view(output@);
    let rx = match reg_or_fail(x) {
        Ok(r) => r,
        Err(e) => {
            assert(code_view(output@) =~= before + int_compare(x@, *y).0);
            return Err(e);
        },
    };
    let ins = match y {
        IdOrImm::V(m) => match reg_or_fail(m) {
            Ok(ry) => Instr::CmpRR(ry, rx),
            Err(e) => {
                assert(code_view(output@) =~= before + int_compare(x@, *y).0);
                return Err(e);
            },
        },
        IdOrImm::C(i) => Instr::CmpIR(*i, rx),
    };
    proof {
        lemma_code_view_push(output@, ins);
    }
    output.push(ins);
    Ok(())
}

/// Emits the branches of a conditional in tail position, after its comparison: a jump on
/// `bn` to the else label, the first branch, the else label, and the second branch, emitted
/// with the saved variables of before the first.
pub fn g_exp_tail_if(
    output: &mut Vec<Instr>,
    stack_state: &mut StackState,
    e1: Asm,
    e2: Asm,
    b: &str,
    bn: Cond,
    id_gen: &mut IdGen,
) -> (r: Result<(), Error>)
    requires
        old(stack_state).well_formed(),
        if_emits(old(stack_state).model(), old(id_gen).counter as nat, None, e1, e2),
    ensures
        final(stack_state).well_formed(),
        final(stack_state).model() == if_branches(
            old(stack_state).model(),
            old(id_gen).counter as nat,
            None,
            b@,
            bn,
            e1,
            e2,
        ).2,
        final(id_gen).counter == if_branches(
            old(stack_state).model(),
            old(id_gen).counter as nat,
            None,
            b@,
            bn,
            e1,
            e2,
        ).3,
        code_view(final(output)@) == code_view(old(output)@) + if_branches(
            old(stack_state).model(),
            old(id_gen).counter as nat,
            None,
            b@,
            bn,
            e1,
            e2,
        ).0,
        reports(
            r,
            if_branches(old(stack_state).model(), old(id_gen).counter as nat, None, b@, bn, e1, e2).1,
        ),
    decreases 3 * asm_size(e1) + 3 * asm_size(e2),
{
    let ghost fr = stack_state.model();
    let ghost n = id_gen.counter as nat;
    let ghost before = code_view(output@);
    reveal(if_branches);
    let ghost res = if_branches(fr, n, None, b@, bn, e1, e2);
    let mut prefix = b.to_string();
    proof {
        reveal_strlit("_else");
    }
    prefix.append("_else");
    let b_else = id_gen.genid(prefix.as_str());
    let ins = Instr::Jcc(bn, b_else.clone());
    proof {
        lemma_code_view_push(output@, ins);
    }
    output.push(ins);
    let stackset_back = stack_state.saved_names();
    let r1 = g(output, stack_state, Dest::Tail, e1, id_gen);
    if let Err(e) = r1 {
        assert(code_view(output@) =~= before + res.0);
        return Err(e);
    }
    let ins = Instr::Label(b_else);
    proof {
        lemma_code_view_push(output@, ins);
    }
    output.push(ins);
    stack_state.restore_saved(stackset_back);
    let r2 = g(output, stack_state, Dest::Tail, e2, id_gen);
    assert(code_view(output@) =~= before + res.0);
    r2
}

/// Emits the branches of a conditional away from the tail position, after its comparison: as
/// in tail position, but the first branch jumps past the second to a continuation label,
/// after which the variables saved in both branches stay saved.
pub fn g_exp_non_tail_if(
    output: &mut Vec<Instr>,
    stack_state: &mut StackState,
    dest: Dest,
    e1: Asm,
    e2: Asm,
    b: &str,
    bn: Cond,
    id_gen: &mut IdGen,
) -> (r: Result<(), Error>)
    requires
        old(stack_state).well_formed(),
        dest is NonTail,
        if_emits(old(stack_state).model(), old(id_gen).counter as nat, dest@, e1, e2),
    ensures
        final(stack_state).well_formed(),
        final(stack_state).model() == if_branches(
            old(stack_state).model(),
            old(id_gen).counter as nat,
            dest@,
            b@,
            bn,
            e1,
            e2,
        ).2,
        final(id_gen).counter == if_branches(
            old(stack_state).model(),
            old(id_gen).counter as nat,
            dest@,
            b@,
            bn,
            e1,
            e2,
        ).3,
        code_view(final(output)@) == code_view(old(output)@) + if_branches(
            old(stack_state).model(),
            old(id_gen).counter as nat,
            dest@,
            b@,
            bn,
            e1,
            e2,
        ).0,
        reports(
            r,
            if_branches(old(stack_state).model(), old(id_gen).counter as nat, dest@, b@, bn, e1, e2).1,
        ),
    decreases 3 * asm_size(e1) + 3 * asm_size(e2),
{
    let ghost fr = stack_state.model();
    let ghost n = id_gen.counter as nat;
    let ghost before = code_view(output@);
    let ghost dv = dest@;
    reveal(if_branches);
    let ghost res = if_branches(fr, n, dv, b@, bn, e1, e2);
    let x = match dest {
        Dest::NonTail(x) => x,
        Dest::Tail => {
            assert(false);
            return Ok(());
        },
    };
    let mut else_prefix = b.to_string();
    let mut cont_prefix = b.to_string();
    proof {
        reveal_strlit("_else");
        reveal_strlit("_cont");
    }
    else_prefix.append("_else");
    cont_prefix.append("_cont");
    let b_else = id_gen.genid(else_prefix.as_str());
    let b_cont = id_gen.genid(cont_prefix.as_str());
    let ins = Instr::Jcc(bn, b_else.clone());
    proof {
        lemma_code_view_push(output@, ins);
    }
    output.push(ins);
    let stackset_back = stack_state.saved_names();
    let r1 = g(output, stack_state, Dest::NonTail(x.clone()), e1, id_gen);
    if let Err(e) = r1 {
        assert(code_view(output@) =~= before + res.0);
        return Err(e);
    }
    let ghost r1v = asm_code(fr, n + 2, dv, e1);
    let ghost after1 = code_view(output@);
    assert(after1 =~= before + seq![InstrView::Jcc(bn, b_else@)] + r1v.0);
    let stackset1 = stack_state.saved_names();
    let ins = Instr::Jmp(b_cont.clone());
    proof {
        lemma_code_view_push(output@, ins);
    }
    output.push(ins);
    let ins = Instr::Label(b_else);
    proof {
        lemma_code_view_push(output@, ins);
    }
    output.push(ins);
    stack_state.restore_saved(stackset_back);
    let ghost mid = code_view(output@);
    let r2 = g(output, stack_state, Dest::NonTail(x), e2, id_gen);
    let ghost r2v = asm_code((fr.0, r1v.2.1), r1v.3, dv, e2);
    let ghost after2 = code_view(output@);
    assert(after2 == mid + r2v.0);
    if let Err(e) = r2 {
        assert(code_view(output@) =~= before + res.0);
        return Err(e);
    }
    let ins = Instr::Label(b_cont);
    proof {
        lemma_code_view_push(output@, ins);
    }
    output.push(ins);
    stack_state.intersect_saved(&stackset1);
    assert(code_view(output@) =~= before + res.0);
    Ok(())
}

/// Emits the branches `e1` and `e2` of a conditional, after its comparison, their value going
/// to `dest`.
fn g_branches(
    output: &mut Vec<Instr>,
    stack_state: &mut StackState,
    dest: Dest,
    e1: Asm,
    e2: Asm,
    b: &str,
    bn: Cond,
    id_gen: &mut IdGen,
) -> (r: Result<(), Error>)
    requires
        old(stack_state).well_formed(),
        if_emits(old(stack_state).model(), old(id_gen).counter as nat, dest@, e1, e2),
    ensures
        final(stack_state).well_formed(),
        final(stack_state).model() == if_branches(
            old(stack_state).model(),
            old(id_gen).counter as nat,
            dest@,
            b@,
            bn,
            e1,
            e2,
        ).2,
        final(id_gen).counter == if_branches(
            old(stack_state).model(),
            old(id_gen).counter as nat,
            dest@,
            b@,
            bn,
            e1,
            e2,
        ).3,
        code_view(final(output)@) == code_view(old(output)@) + if_branches(
            old(stack_state).model(),
            old(id_gen).counter as nat,
            dest@,
            b@,
            bn,
            e1,
            e2,
        ).0,
        reports(
            r,
            if_branches(old(stack_state).model(), old(id_gen).counter as nat, dest@, b@, bn, e1, e2).1,
        ),
    decreases 3 * asm_size(e1) + 3 * asm_size(e2) + 1,
{
    let ghost fr = stack_state.model();
    let ghost n = id_gen.counter as nat;
    match dest {
        Dest::Tail => g_exp_tail_if(output, stack_state, e1, e2, b, bn, id_gen),
        Dest::NonTail(x) => g_exp_non_tail_if(output, stack_state, Dest::NonTail(x), e1, e2, b, bn, id_gen),
    }
}

/// Emits a conditional: the comparison, then the branches, their value going to `dest`.
#[verifier::rlimit(60)]
fn g_if(
    output: &mut Vec<Instr>,
    stack_state: &mut StackState,
    dest: Dest,
    exp: Exp,
    id_gen: &mut IdGen,
) -> (r: Result<(), Error>)
    requires
        old(stack_state).well_formed(),
        is_conditional(exp),
        emits(old(stack_state).model(), old(id_gen).counter as nat, dest@, exp),
    ensures
        final(stack_state).well_formed(),
        final(stack_state).model() == step_code(
            old(stack_state).model(),
            old(id_gen).counter as nat,
            dest@,
            exp,
        ).2,
        final(id_gen).counter == step_code(
            old(stack_state).model(),
            old(id_gen).counter as nat,
            dest@,
            exp,
        ).3,
        code_view(final(output)@) == code_view(old(output)@) + step_code(
            old(stack_state).model(),
            old(id_gen).counter as nat,
            dest@,
            exp,
        ).0,
        reports(r, step_code(old(stack_state).model(), old(id_gen).counter as nat, dest@, exp).1),
    decreases 3 * exp_size(exp) + 1,
{
    let ghost fr = stack_state.model();
    let ghost n = id_gen.counter as nat;
    let ghost before = code_view(output@);
    let ghost dv = dest@;
    let ghost ev = exp;
    reveal(if_branches);
    match exp {
        Exp::IfEq(x, y, e1, e2) => {
            if let Err(e) = g_compare(output, &x, &y) {
                return Err(e);
            }
            let r = g_branches(output, stack_state, dest, *e1, *e2, "je", Cond::NE, id_gen);
            assert(code_view(output@) =~= before + step_code(fr, n, dv, ev).0);
            r
        },
        Exp::IfLE(x, y, e1, e2) => {
            if let Err(e) = g_compare(output, &x, &y) {
                return Err(e);
            }
            let r = g_branches(output, stack_state, dest, *e1, *e2, "jle", Cond::G, id_gen);
            assert(code_view(output@) =~= before + step_code(fr, n, dv, ev).0);
            r
        },
        Exp::IfGE(x, y, e1, e2) => {
            if let Err(e) = g_compare(output, &x, &y) {
                return Err(e);
            }
            let r = g_branches(output, stack_state, dest, *e1, *e2, "jge", Cond::L, id_gen);
            assert(code_view(output@) =~= before + step_code(fr, n, dv, ev).0);
            r
        },
        Exp::IfFEq(x, y, e1, e2) => {
            let ins = Instr::ComiSD(y, x);
            proof {
                lemma_code_view_push(output@, ins);
            }
            output.push(ins);
            let r = g_branches(output, stack_state, dest, *e1, *e2, "je", Cond::NE, id_gen);
            assert(code_view(output@) =~= before + step_code(fr, n, dv, ev).0);
            r
        },
        Exp::IfFLE(x, y, e1, e2) => {
            let ins = Instr::ComiSD(y, x);
            proof {
                lemma_code_view_push(output@, ins);
            }
            output.push(ins);
            let r = g_branches(output, stack_state, dest, *e1, *e2, "jbe", Cond::A, id_gen);
            assert(code_view(output@) =~= before + step_code(fr, n, dv, ev).0);
            r
        },
        _ => {
            assert(false);
            Ok(())
        },
    }
}

/// Emits one instruction, its value going to `dest`.
pub fn g_exp(
    output: &mut Vec<Instr>,
    stack_state: &mut StackState,
    dest: Dest,
    exp: Exp,
    id_gen: &mut IdGen,
) -> (r: Result<(), Error>)
    requires
        old(stack_state).well_formed(),
        emits(old(stack_state).model(), old(id_gen).counter as nat, dest@, exp),
    ensures
        final(stack_state).well_formed(),
        final(stack_state).model() == step_code(
            old(stack_state).model(),
            old(id_gen).counter as nat,
            dest@,
            exp,
        ).2,
        final(id_gen).counter == step_code(
            old(stack_state).model(),
            old(id_gen).counter as nat,
            dest@,
            exp,
        ).3,
        code_view(final(output)@) == code_view(old(output)@) + step_code(
            old(stack_state).model(),
            old(id_gen).counter as nat,
            dest@,
            exp,
        ).0,
        reports(r, step_code(old(stack_state).model(), old(id_gen).counter as nat, dest@, exp).1),
    decreases 3 * exp_size(exp) + 2,
{
    let tail = match dest {
        Dest::Tail => true,
        Dest::NonTail(_) => false,
    };
    let void = match exp {
        Exp::Nop => true,
        Exp::Comment(_) => true,
        Exp::Save(_, _) => true,
        Exp::St(_, _, _, _) => true,
        Exp::StDF(_, _, _, _) => true,
        _ => false,
    };
    if tail && void {
        let _tmp = id_gen.gentmp(&Type::Unit);
    }
    match exp {
        Exp::Save(x, y) => g_save(output, stack_state, x, y, tail),
        Exp::Restore(y) => g_restore(output, stack_state, dest, y),
        Exp::IfEq(..) => g_if(output, stack_state, dest, exp, id_gen),
        Exp::IfLE(..) => g_if(output, stack_state, dest, exp, id_gen),
        Exp::IfGE(..) => g_if(output, stack_state, dest, exp, id_gen),
        Exp::IfFEq(..) => g_if(output, stack_state, dest, exp, id_gen),
        Exp::IfFLE(..) => g_if(output, stack_state, dest, exp, id_gen),
        _ => g_plain(output, stack_state, dest, exp),
    }
}

/// Emits a sequence of instructions, its answer going to `dest`.
pub fn g(
    output: &mut Vec<Instr>,
    stack_state: &mut StackState,
    dest: Dest,
    body: Asm,
    id_gen: &mut IdGen,
) -> (r: Result<(), Error>)
    requires
        old(stack_state).well_formed(),
        asm_emits(old(stack_state).model(), old(id_gen).counter as nat, dest@, body),
    ensures
        final(stack_state).well_formed(),
        final(stack_state).model() == asm_code(
            old(stack_state).model(),
            old(id_gen).counter as nat,
            dest@,
            body,
        ).2,
        final(id_gen).counter == asm_code(
            old(stack_state).model(),
            old(id_gen).counter as nat,
            dest@,
            body,
        ).3,
        code_view(final(output)@) == code_view(old(output)@) + asm_code(
            old(stack_state).model(),
            old(id_gen).counter as nat,
            dest@,
            body,
        ).0,
        reports(r, asm_code(old(stack_state).model(), old(id_gen).counter as nat, dest@, body).1),
    decreases 3 * asm_size(body),
{
    let ghost fr = stack_state.model();
    let ghost n = id_gen.counter as nat;
    let ghost before = code_view(output@);
    let ghost dv = dest@;
    let ghost av = body;
    match body {
        Asm::Ans(exp) => g_exp(output, stack_state, dest, exp, id_gen),
        Asm::Let(x, _t, exp, e) => {
            match g_exp(output, stack_state, Dest::NonTail(x), exp, id_gen) {
                Err(er) => {
                    return Err(er);
                },
                Ok(_) => {},
            }
            let r = g(output, stack_state, dest, *e, id_gen);
            assert(code_view(output@) =~= before + asm_code(fr, n, dv, av).0);
            r
        },
    }
}

/// Every register that `exp` reads or compares is named as one, and the branches of a
/// conditional, their answers going to `dest`, name registers throughout.
pub open spec fn operands_registers(dest: Option<Seq<char>>, exp: Exp) -> bool
    decreases exp,
{
    match exp {
        Exp::Mov(y) => reg_of(y@) is Some,
        Exp::Neg(y) => reg_of(y@) is Some,
        Exp::Add(y, z) => reg_of(y@) is Some && (z matches IdOrImm::V(n) ==> reg_of(n@) is Some),
        Exp::Sub(y, z) => reg_of(y@) is Some && (z matches IdOrImm::V(n) ==> reg_of(n@) is Some),
        Exp::IfEq(x, y, e1, e2) => int_compare(x@, y).1 is None && names_registers(dest, *e1)
            && names_registers(dest, *e2),
        Exp::IfLE(x, y, e1, e2) => int_compare(x@, y).1 is None && names_registers(dest, *e1)
            && names_registers(dest, *e2),
        Exp::IfGE(x, y, e1, e2) => int_compare(x@, y).1 is None && names_registers(dest, *e1)
            && names_registers(dest, *e2),
        Exp::IfFEq(_, _, e1, e2) => names_registers(dest, *e1) && names_registers(dest, *e2),
        Exp::IfFLE(_, _, e1, e2) => names_registers(dest, *e1) && names_registers(dest, *e2),
        _ => true,
    }
}

/// Every binding of `body`, every register its instructions read or compare, and `dest` when
/// it is a register destination, name registers.
pub open spec fn names_registers(dest: Option<Seq<char>>, body: Asm) -> bool
    decreases body,
{
    match body {
        Asm::Ans(exp) => (dest matches Some(x) ==> reg_of(x) is Some) && operands_registers(
            dest,
            exp,
        ),
        Asm::Let(x, _, exp, e) => reg_of(x@) is Some && operands_registers(Some(x@), exp)
            && names_registers(dest, *e),
    }
}

/// One instruction whose names are all registers is emitted in full.
#[verifier::rlimit(50)]
proof fn lemma_step_emits_cleanly(fr: FrameModel, n: nat, dest: Option<Seq<char>>, exp: Exp)
    requires
        dest matches Some(x) ==> reg_of(x) is Some,
        operands_registers(dest, exp),
    ensures
        step_code(fr, n, dest, exp).1 is None,
    decreases exp,
{
    reveal(exp_code);
    crate::x86::instr::lemma_reg_name_roundtrip(Reg::Rax);
    match exp {
        Exp::IfEq(_, _, e1, e2) => {
            lemma_registers_emit_cleanly(fr, branch_start(dest, n), dest, *e1);
            let r1 = asm_code(fr, branch_start(dest, n), dest, *e1);
            lemma_registers_emit_cleanly((fr.0, r1.2.1), r1.3, dest, *e2);
        },
        Exp::IfLE(_, _, e1, e2) => {
            lemma_registers_emit_cleanly(fr, branch_start(dest, n), dest, *e1);
            let r1 = asm_code(fr, branch_start(dest, n), dest, *e1);
            lemma_registers_emit_cleanly((fr.0, r1.2.1), r1.3, dest, *e2);
        },
        Exp::IfGE(_, _, e1, e2) => {
            lemma_registers_emit_cleanly(fr, branch_start(dest, n), dest, *e1);
            let r1 = asm_code(fr, branch_start(dest, n), dest, *e1);
            lemma_registers_emit_cleanly((fr.0, r1.2.1), r1.3, dest, *e2);
        },
        Exp::IfFEq(_, _, e1, e2) => {
            lemma_registers_emit_cleanly(fr, branch_start(dest, n), dest, *e1);
            let r1 = asm_code(fr, branch_start(dest, n), dest, *e1);
            lemma_registers_emit_cleanly((fr.0, r1.2.1), r1.3, dest, *e2);
        },
        Exp::IfFLE(_, _, e1, e2) => {
            lemma_registers_emit_cleanly(fr, branch_start(dest, n), dest, *e1);
            let r1 = asm_code(fr, branch_start(dest, n), dest, *e1);
            lemma_registers_emit_cleanly((fr.0, r1.2.1), r1.3, dest, *e2);
        },
        _ => {},
    }
}

/// Emission fails only on a name that is no register: when all names are registers, the
/// code is emitted in full.
pub proof fn lemma_registers_emit_cleanly(fr: FrameModel, n: nat, dest: Option<Seq<char>>, body: Asm)
    requires
        names_registers(dest, body),
    ensures
        asm_code(fr, n, dest, body).1 is None,
    decreases body,
{
    match body {
        Asm::Ans(exp) => lemma_step_emits_cleanly(fr, n, dest, exp),
        Asm::Let(x, _, exp, e) => {
            lemma_step_emits_cleanly(fr, n, Some(x@), exp);
            let first = step_code(fr, n, Some(x@), exp);
            lemma_registers_emit_cleanly(first.2, first.3, dest, *e);
        },
    }
}

/// The type of a binding plays no part in the code: two bindings that differ only in their
/// types emit the same code, fail alike, and leave the same frame and label counter.
pub proof fn lemma_binding_type_irrelevant(
    fr: FrameModel,
    n: nat,
    dest: Option<Seq<char>>,
    x: String,
    t1: Type,
    t2: Type,
    exp: Exp,
    e: Box<Asm>,
)
    ensures
        asm_code(fr, n, dest, Asm::Let(x, t1, exp, e)) == asm_code(
            fr,
            n,
            dest,
            Asm::Let(x, t2, exp, e),
        ),
{
}

/// `later` keeps every slot of `earlier` where it was, and may add slots after them.
pub open spec fn slots_extend(earlier: Seq<Seq<char>>, later: Seq<Seq<char>>) -> bool {
    &&& earlier.len() <= later.len()
    &&& forall|i: int| 0 <= i < earlier.len() ==> later[i] == earlier[i]
}

/// Emitting one instruction moves no slot of the frame and never turns the label counter
/// back.
pub proof fn lemma_step_keeps_slots_and_labels(
    fr: FrameModel,
    n: nat,
    dest: Option<Seq<char>>,
    exp: Exp,
)
    ensures
        slots_extend(fr.1, step_code(fr, n, dest, exp).2.1),
        n <= step_code(fr, n, dest, exp).3,
    decreases exp,
{
    match exp {
        Exp::IfEq(_, _, e1, e2) => {
            lemma_emission_keeps_slots_and_labels(fr, branch_start(dest, n), dest, *e1);
            let r1 = asm_code(fr, branch_start(dest, n), dest, *e1);
            lemma_emission_keeps_slots_and_labels((fr.0, r1.2.1), r1.3, dest, *e2);
        },
        Exp::IfLE(_, _, e1, e2) => {
            lemma_emission_keeps_slots_and_labels(fr, branch_start(dest, n), dest, *e1);
            let r1 = asm_code(fr, branch_start(dest, n), dest, *e1);
            lemma_emission_keeps_slots_and_labels((fr.0, r1.2.1), r1.3, dest, *e2);
        },
        Exp::IfGE(_, _, e1, e2) => {
            lemma_emission_keeps_slots_and_labels(fr, branch_start(dest, n), dest, *e1);
            let r1 = asm_code(fr, branch_start(dest, n), dest, *e1);
            lemma_emission_keeps_slots_and_labels((fr.0, r1.2.1), r1.3, dest, *e2);
        },
        Exp::IfFEq(_, _, e1, e2) => {
            lemma_emission_keeps_slots_and_labels(fr, branch_start(dest, n), dest, *e1);
            let r1 = asm_code(fr, branch_start(dest, n), dest, *e1);
            lemma_emission_keeps_slots_and_labels((fr.0, r1.2.1), r1.3, dest, *e2);
        },
        Exp::IfFLE(_, _, e1, e2) => {
            lemma_emission_keeps_slots_and_labels(fr, branch_start(dest, n), dest, *e1);
            let r1 = asm_code(fr, branch_start(dest, n), dest, *e1);
            lemma_emission_keeps_slots_and_labels((fr.0, r1.2.1), r1.3, dest, *e2);
        },
        _ => {},
    }
}

/// Emission moves no slot of the frame, so a variable that had a slot keeps its offset, and
/// never turns the label counter back, so no label is handed out twice.
pub proof fn lemma_emission_keeps_slots_and_labels(
    fr: FrameModel,
    n: nat,
    dest: Option<Seq<char>>,
    body: Asm,
)
    ensures
        slots_extend(fr.1, asm_code(fr, n, dest, body).2.1),
        n <= asm_code(fr, n, dest, body).3,
    decreases body,
{
    match body {
        Asm::Ans(exp) => lemma_step_keeps_slots_and_labels(fr, n, dest, exp),
        Asm::Let(x, _, exp, e) => {
            lemma_step_keeps_slots_and_labels(fr, n, Some(x@), exp);
            let first = step_code(fr, n, Some(x@), exp);
            lemma_emission_keeps_slots_and_labels(first.2, first.3, dest, *e);
        },
    }
}

/// Away from the tail position, a conditional whose branches are both emitted leaves saved
/// exactly the variables that both branches left saved, the second branch having started
/// from the variables saved before the conditional; the slots are those after the second.
pub proof fn lemma_conditional_keeps_common_saves(
    fr: FrameModel,
    n: nat,
    x: Seq<char>,
    b: Seq<char>,
    cond: Cond,
    e1: Asm,
    e2: Asm,
)
    requires
        if_branches(fr, n, Some(x), b, cond, e1, e2).1 is None,
    ensures
        fresh_label(b + "_else"@, n + 1) != fresh_label(b + "_cont"@, n + 2),
        ({
            let r1 = asm_code(fr, n + 2, Some(x), e1);
            let r2 = asm_code((fr.0, r1.2.1), r1.3, Some(x), e2);
            &&& r1.1 is None
            &&& r2.1 is None
            &&& if_branches(fr, n, Some(x), b, cond, e1, e2).2 == (r1.2.0.intersect(r2.2.0), r2.2.1)
        }),
{
    reveal(if_branches);
    lemma_branch_labels_distinct(b, n);
}

/// The else and continuation labels of a conditional differ: their names part after the
/// branch name `b`.
pub proof fn lemma_branch_labels_distinct(b: Seq<char>, n: nat)
    ensures
        fresh_label(b + "_else"@, n + 1) != fresh_label(b + "_cont"@, n + 2),
{
    reveal_strlit("_else");
    reveal_strlit("_cont");
    let l1 = fresh_label(b + "_else"@, n + 1);
    let l2 = fresh_label(b + "_cont"@, n + 2);
    assert(l1[b.len() as int + 1] == 'e');
    assert(l2[b.len() as int + 1] == 'c');
}

/// A binding is emitted in order: its instruction into the bound register, then, when that
/// went through, the rest from the frame and label counter it left; a lone instruction is
/// emitted as itself.
pub proof fn lemma_sequence_emits_in_order(
    fr: FrameModel,
    n: nat,
    dest: Option<Seq<char>>,
    x: String,
    t: Type,
    exp: Exp,
    e: Box<Asm>,
)
    ensures
        asm_code(fr, n, dest, Asm::Ans(exp)) == step_code(fr, n, dest, exp),
        ({
            let first = step_code(fr, n, Some(x@), exp);
            let rest = asm_code(first.2, first.3, dest, *e);
            asm_code(fr, n, dest, Asm::Let(x, t, exp, e)) == if first.1 is Some {
                first
            } else {
                (first.0 + rest.0, rest.1, rest.2, rest.3)
            }
        }),
{
}

/// The code of a function: its label, then its body with the answer returned, from the label
/// counter `n`; and the counter afterwards.
pub open spec fn fundef_code(fd: Fundef, n: nat) -> (Seq<InstrView>, Option<Seq<char>>, nat) {
    let body = asm_code(empty_frame(), n, None, fd.body);
    (seq![InstrView::Label(fd.name.0@)] + body.0, body.1, body.3)
}

/// Emits a function: its label, then its body in tail position from an empty frame.
pub fn h(output: &mut Vec<Instr>, fundef: Fundef, id_gen: &mut IdGen) -> (r: Result<(), Error>)
    requires
        asm_emits(empty_frame(), old(id_gen).counter as nat, None, fundef.body),
    ensures
        code_view(final(output)@) == code_view(old(output)@) + fundef_code(
            fundef,
            old(id_gen).counter as nat,
        ).0,
        reports(r, fundef_code(fundef, old(id_gen).counter as nat).1),
        final(id_gen).counter == fundef_code(fundef, old(id_gen).counter as nat).2,
{
    let ghost before = code_view(output@);
    let ghost fv = fundef;
    let ghost n = id_gen.counter as nat;
    let Fundef { name: L(x), args: _ys, fargs: _zs, body: e, ret: _t } = fundef;
    output.push(Instr::Label(x));
    let mut stack_state = StackState::new();
    assert(frame_size(stack_state.slots()) == 0);
    let r = g(output, &mut stack_state, Dest::Tail, e, id_gen);
    assert(code_view(output@) =~= before + fundef_code(fv, n).0);
    r
}

/// The code of a function depends on its name and its body alone: the arguments, the float
/// arguments and the result type play no part.
pub proof fn lemma_function_code_ignores_signature(fd1: Fundef, fd2: Fundef, n: nat)
    requires
        fd1.name == fd2.name,
        fd1.body == fd2.body,
    ensures
        fundef_code(fd1, n) == fundef_code(fd2, n),
{
}

/// The code of the functions in order from the label counter `n`, stopping at the first
/// failure; and the counter afterwards.
pub open spec fn fundefs_code(fds: Seq<Fundef>, n: nat) -> (Seq<InstrView>, Option<Seq<char>>, nat)
    decreases fds.len(),
{
    if fds.len() == 0 {
        (Seq::empty(), None, n)
    } else {
        let before = fundefs_code(fds.drop_last(), n);
        if before.1 is Some {
            before
        } else {
            let last = fundef_code(fds.last(), before.2);
            (before.0 + last.0, last.1, last.2)
        }
    }
}

/// Emission of the functions in order from the label counter `n` reaches only instructions
/// that can be emitted.
pub open spec fn fundefs_emit(fds: Seq<Fundef>, n: nat) -> bool
    decreases fds.len(),
{
    fds.len() == 0 || {
        let before = fundefs_code(fds.drop_last(), n);
        &&& fundefs_emit(fds.drop_last(), n)
        &&& (before.1 is None ==> asm_emits(empty_frame(), before.2, None, fds.last().body))
    }
}

/// The registers that the entry point saves on entry and restores on exit.
pub open spec fn saved_regs() -> Seq<Reg> {
    seq![Reg::Rax, Reg::Rbx, Reg::Rcx, Reg::Rdx, Reg::Rsi, Reg::Rdi, Reg::Rbp]
}

/// The high 32 bits of a float constant's bits.
pub open spec fn high_word(bits: u64) -> u32 {
    (bits / 0x1_0000_0000) as u32
}

/// The low 32 bits of a float constant's bits.
pub open spec fn low_word(bits: u64) -> u32 {
    (bits % 0x1_0000_0000) as u32
}

/// The float constants: each one's label, then its high and its low word.
pub open spec fn data_code(data: Seq<(L, u64)>) -> Seq<InstrView>
    decreases data.len(),
{
    if data.len() == 0 {
        Seq::empty()
    } else {
        let (l, bits) = data.last();
        data_code(data.drop_last()) + seq![
            InstrView::Label(l.0@),
            InstrView::Long(high_word(bits)),
            InstrView::Long(low_word(bits)),
        ]
    }
}

/// The data section with the float constants, then the switch to the text section.
pub open spec fn data_header(data: Seq<(L, u64)>) -> Seq<InstrView> {
    seq![InstrView::Label(".data"@), InstrView::BAlign(8)] + data_code(data) + seq![InstrView::Text]
}

/// The labels of the entry point.
pub open spec fn entry_header() -> Seq<InstrView> {
    seq![
        InstrView::Globl("min_caml_start"@),
        InstrView::Label("min_caml_start"@),
        InstrView::Globl("_min_caml_start"@),
        InstrView::Label("_min_caml_start"@),
    ]
}

/// The pushes of the saved registers.
pub open spec fn save_regs_code() -> Seq<InstrView> {
    saved_regs().map_values(|r: Reg| InstrView::PushQ(r))
}

/// The pops of the saved registers, in reverse order.
pub open spec fn restore_regs_code() -> Seq<InstrView> {
    saved_regs().reverse().map_values(|r: Reg| InstrView::PopQ(r))
}

/// The code of a whole program from the label counter `n`, or the name that is no register.
pub open spec fn prog_code(prog: Prog, n: nat) -> Result<Seq<InstrView>, Seq<char>> {
    let funs = fundefs_code(prog.1@, n);
    match funs.1 {
        Some(e) => Err(e),
        None => {
            let main = asm_code(empty_frame(), funs.2, Some(reg_name(Reg::Rax)), prog.2);
            match main.1 {
                Some(e) => Err(e),
                None => Ok(
                    data_header(prog.0@) + funs.0 + entry_header() + save_regs_code() + main.0
                        + restore_regs_code() + seq![InstrView::Ret],
                ),
            }
        },
    }
}

/// The label counter after a program is emitted from the counter `n`.
pub open spec fn prog_counter(prog: Prog, n: nat) -> nat {
    asm_code(empty_frame(), fundefs_code(prog.1@, n).2, Some(reg_name(Reg::Rax)), prog.2).3
}

/// The program can be emitted from the label counter `n` without reaching an instruction that
/// cannot be.
pub open spec fn prog_emits(prog: Prog, n: nat) -> bool {
    let funs = fundefs_code(prog.1@, n);
    &&& fundefs_emit(prog.1@, n)
    &&& (funs.1 is None ==> asm_emits(empty_frame(), funs.2, Some(reg_name(Reg::Rax)), prog.2))
}

proof fn lemma_fundefs_emit_prefix(fds: Seq<Fundef>, n: nat, k: int)
    requires
        fundefs_emit(fds, n),
        0 <= k <= fds.len(),
    ensures
        fundefs_emit(fds.take(k), n),
    decreases fds.len() - k,
{
    if k < fds.len() {
        lemma_fundefs_emit_prefix(fds, n, k + 1);
        assert(fds.take(k + 1).drop_last() =~= fds.take(k));
    } else {
        assert(fds.take(k) =~= fds);
    }
}

/// Emits a whole program: the data section, the functions, and the entry point, which runs
/// the main body with its result in `%rax` between saving and restoring the registers.
pub fn f(prog: Prog, id_gen: &mut IdGen) -> (r: Result<Vec<Instr>, Error>)
    requires
        prog_emits(prog, old(id_gen).counter as nat),
    ensures
        match r {
            Ok(code) => prog_code(prog, old(id_gen).counter as nat) == Ok::<
                Seq<InstrView>,
                Seq<char>,
            >(code_view(code@)),
            Err(e) => prog_code(prog, old(id_gen).counter as nat) == Err::<
                Seq<InstrView>,
                Seq<char>,
            >(e@),
        },
        r is Ok ==> final(id_gen).counter == prog_counter(prog, old(id_gen).counter as nat),
{
    let ghost pv = prog;
    let ghost n0 = id_gen.counter as nat;
    let Prog(data, fundefs, e) = prog;
    let ghost fv = fundefs@;
    let n = fundefs.len();
    let mut instrs: Vec<Instr> = Vec::new();
    instrs.push(Instr::Label(String::from_str(".data")));
    instrs.push(Instr::BAlign(8));
    let ghost head = code_view(instrs@);
    assert(head =~= seq![InstrView::Label(".data"@), InstrView::BAlign(8)]);
    let mut di: usize = 0;
    while di < data.len()
        invariant
            di <= data.len(),
            code_view(instrs@) == head + data_code(data@.take(di as int)),
        decreases data.len() - di,
    {
        let bits = data[di].1;
        let label = data[di].0.0.clone();
        let ghost before = code_view(instrs@);
        instrs.push(Instr::Label(label));
        instrs.push(Instr::Long((bits / 0x1_0000_0000) as u32));
        instrs.push(Instr::Long((bits % 0x1_0000_0000) as u32));
        assert(data@.take(di + 1).drop_last() =~= data@.take(di as int));
        assert(data@.take(di + 1).last() == data@[di as int]);
        assert(code_view(instrs@) =~= before + seq![
            InstrView::Label(data@[di as int].0.0@),
            InstrView::Long(high_word(bits)),
            InstrView::Long(low_word(bits)),
        ]);
        assert(code_view(instrs@) =~= head + data_code(data@.take(di + 1)));
        di = di + 1;
    }
    assert(data@.take(data.len() as int) =~= data@);
    instrs.push(Instr::Text);
    assert(code_view(instrs@) =~= data_header(data@));
    let mut fds = fundefs;
    let mut k: usize = 0;
    while fds.len() > 0
        invariant
            fds@ == fv.skip(k as int),
            k <= fv.len(),
            fv.len() == n,
            fv == pv.1@,
            pv == prog,
            n0 == old(id_gen).counter,
            fundefs_emit(fv, n0),
            fundefs_code(fv.take(k as int), n0).1 is None,
            code_view(instrs@) == data_header(pv.0@) + fundefs_code(fv.take(k as int), n0).0,
            id_gen.counter == fundefs_code(fv.take(k as int), n0).2,
        decreases fds.len(),
    {
        assert(fds.len() == fv.len() - k);
        let fundef = fds.remove(0);
        proof {
            assert(fundef == fv[k as int]);
            lemma_fundefs_emit_prefix(fv, n0, k + 1);
            assert(fv.take(k + 1).drop_last() =~= fv.take(k as int));
            assert(fv.take(k + 1).last() == fv[k as int]);
        }
        match h(&mut instrs, fundef, id_gen) {
            Err(er) => {
                proof {
                    assert(fundefs_code(fv.take(k + 1), n0).1 == Some(er@));
                    lemma_fundefs_fail_stays(fv, n0, k as int + 1);
                    assert(prog_code(pv, n0) == Err::<Seq<InstrView>, Seq<char>>(er@));
                }
                return Err(er);
            },
            Ok(_) => {},
        }
        assert(code_view(instrs@) =~= data_header(pv.0@) + fundefs_code(fv.take(k + 1), n0).0);
        k = k + 1;
        assert(fds@ =~= fv.skip(k as int));
    }
    assert(fv.take(k as int) =~= fv);
    let ghost funs = code_view(instrs@);
    instrs.push(Instr::Globl(String::from_str("min_caml_start")));
    instrs.push(Instr::Label(String::from_str("min_caml_start")));
    instrs.push(Instr::Globl(String::from_str("_min_caml_start")));
    instrs.push(Instr::Label(String::from_str("_min_caml_start")));
    assert(code_view(instrs@) =~= funs + entry_header());
    let saved: Vec<Reg> = vec![Reg::Rax, Reg::Rbx, Reg::Rcx, Reg::Rdx, Reg::Rsi, Reg::Rdi, Reg::Rbp];
    assert(saved@ =~= saved_regs());
    let ghost entry = code_view(instrs@);
    let mut i: usize = 0;
    while i < saved.len()
        invariant
            i <= saved.len(),
            saved@ == saved_regs(),
            code_view(instrs@) == entry + save_regs_code().take(i as int),
        decreases saved.len() - i,
    {
        assert(save_regs_code()[i as int] == InstrView::PushQ(saved@[i as int]));
        proof {
            lemma_code_view_push(instrs@, Instr::PushQ(saved@[i as int]));
        }
        instrs.push(Instr::PushQ(saved[i]));
        assert(code_view(instrs@) =~= entry + save_regs_code().take(i + 1));
        i = i + 1;
    }
    assert(save_regs_code().take(saved.len() as int) =~= save_regs_code());
    let mut stack_state = StackState::new();
    let main_dest = Dest::NonTail(saved[0].name());
    match g(&mut instrs, &mut stack_state, main_dest, e, id_gen) {
        Err(er) => {
            return Err(er);
        },
        Ok(_) => {},
    }
    let ghost body_done = code_view(instrs@);
    let mut j: usize = saved.len();
    while j > 0
        invariant
            j <= saved.len(),
            saved@ == saved_regs(),
            code_view(instrs@) == body_done + restore_regs_code().take(saved.len() - j),
        decreases j,
    {
        j = j - 1;
        assert(restore_regs_code()[saved.len() - j - 1] == InstrView::PopQ(saved@[j as int]));
        proof {
            lemma_code_view_push(instrs@, Instr::PopQ(saved@[j as int]));
        }
        instrs.push(Instr::PopQ(saved[j]));
        assert(code_view(instrs@) =~= body_done + restore_regs_code().take(saved.len() - j));
    }
    assert(restore_regs_code().take(saved.len() as int) =~= restore_regs_code());
    instrs.push(Instr::Ret);
    assert(code_view(instrs@) =~= prog_code(pv, n0)->Ok_0);
    Ok(instrs)
}

proof fn lemma_code_view_push(v: Seq<Instr>, x: Instr)
    ensures
        code_view(v.push(x)) == code_view(v).push(x@),
{
    assert(code_view(v.push(x)) =~= code_view(v).push(x@));
}

proof fn lemma_fundefs_fail_stays(fds: Seq<Fundef>, n: nat, k: int)
    requires
        0 <= k <= fds.len(),
        fundefs_code(fds.take(k), n).1 is Some,
    ensures
        fundefs_code(fds, n) == fundefs_code(fds.take(k), n),
    decreases fds.len() - k,
{
    if k < fds.len() {
        assert(fds.take(k + 1).drop_last() =~= fds.take(k));
        lemma_fundefs_fail_stays(fds, n, k + 1);
    } else {
        assert(fds.take(k) =~= fds);
    }
}

proof fn lemma_moves_view_push(v: Seq<(String, String)>, p: (String, String))
    ensures
        moves_view(v.push(p)) == moves_view(v).push(move_view(p)),
{
    assert(moves_view(v.push(p)) =~= moves_view(v).push(move_view(p)));
}

proof fn lemma_moves_view_take(v: Seq<(String, String)>, i: int)
    requires
        0 <= i < v.len(),
    ensures
        moves_view(v.take(i + 1)) == moves_view(v.take(i)).push(move_view(v[i])),
        moves_view(v).take(i + 1) == moves_view(v).take(i).push(move_view(v[i])),
{
    assert(v.take(i + 1) =~= v.take(i).push(v[i]));
    lemma_moves_view_push(v.take(i), v[i]);
    assert(moves_view(v).take(i + 1) =~= moves_view(v).take(i).push(move_view(v[i])));
}

/// The moves of `v` that move a register into another one.
fn drop_identical(v: &Vec<(String, String)>) -> (r: Vec<(String, String)>)
    ensures
        moves_view(r@) == real_moves(moves_view(v@)),
{
    let ghost mv = moves_view(v@);
    let mut r: Vec<(String, String)> = Vec::new();
    let mut i: usize = 0;
    while i < v.len()
        invariant
            i <= v.len(),
            mv == moves_view(v@),
            moves_view(r@) == real_moves(mv.take(i as int)),
        decreases v.len() - i,
    {
        proof {
            lemma_moves_view_take(v@, i as int);
            mv.take(i as int).lemma_filter_push(mv[i as int], |p: Move| p.0 != p.1);
        }
        if v[i].0 != v[i].1 {
            let p = (v[i].0.clone(), v[i].1.clone());
            proof {
                lemma_moves_view_push(r@, p);
            }
            r.push(p);
        }
        i = i + 1;
    }
    assert(mv.take(v.len() as int) =~= mv);
    r
}

/// Whether a move of `m` reads register `y`.
fn reads_register(m: &Vec<(String, String)>, y: &String) -> (b: bool)
    ensures
        b == reads(moves_view(m@), y@),
{
    let ghost mv = moves_view(m@);
    let mut i: usize = 0;
    while i < m.len()
        invariant
            i <= m.len(),
            mv == moves_view(m@),
            forall|j: int| 0 <= j < i ==> mv[j].0 != y@,
        decreases m.len() - i,
    {
        if m[i].0 == *y {
            assert(mv[i as int].0 == y@);
            return true;
        }
        i = i + 1;
    }
    false
}

/// Splits `m` into its blocked and its ready moves.
fn split_blocked(m: &Vec<(String, String)>) -> (r: (Vec<(String, String)>, Vec<(String, String)>))
    ensures
        moves_view(r.0@) == blocked(moves_view(m@)),
        moves_view(r.1@) == ready(moves_view(m@)),
{
    let ghost mv = moves_view(m@);
    let mut cyc: Vec<(String, String)> = Vec::new();
    let mut acyc: Vec<(String, String)> = Vec::new();
    let mut i: usize = 0;
    while i < m.len()
        invariant
            i <= m.len(),
            mv == moves_view(m@),
            moves_view(cyc@) == mv.take(i as int).filter(|p: Move| reads(mv, p.1)),
            moves_view(acyc@) == mv.take(i as int).filter(|p: Move| !reads(mv, p.1)),
        decreases m.len() - i,
    {
        proof {
            lemma_moves_view_take(m@, i as int);
            mv.take(i as int).lemma_filter_push(mv[i as int], |p: Move| reads(mv, p.1));
            mv.take(i as int).lemma_filter_push(mv[i as int], |p: Move| !reads(mv, p.1));
        }
        let p = (m[i].0.clone(), m[i].1.clone());
        if reads_register(m, &m[i].1) {
            proof {
                lemma_moves_view_push(cyc@, p);
            }
            cyc.push(p);
        } else {
            proof {
                lemma_moves_view_push(acyc@, p);
            }
            acyc.push(p);
        }
        i = i + 1;
    }
    assert(mv.take(m.len() as int) =~= mv);
    (cyc, acyc)
}

/// The moves of `c` after the first one, with each read of `y` turned into a read of `sw`.
fn redirect_rest(c: &Vec<(String, String)>, y: &String, sw: &String) -> (r: Vec<(String, String)>)
    requires
        c.len() > 0,
    ensures
        moves_view(r@) == redirect(moves_view(c@).drop_first(), y@, sw@),
{
    let ghost d = moves_view(c@).drop_first();
    let ghost target = redirect(d, y@, sw@);
    let mut r: Vec<(String, String)> = Vec::new();
    let mut i: usize = 1;
    while i < c.len()
        invariant
            1 <= i <= c.len(),
            d == moves_view(c@).drop_first(),
            target == redirect(d, y@, sw@),
            moves_view(r@) == target.take(i - 1),
        decreases c.len() - i,
    {
        let p = if c[i].0 == *y {
            (sw.clone(), c[i].1.clone())
        } else {
            (c[i].0.clone(), c[i].1.clone())
        };
        proof {
            lemma_moves_view_push(r@, p);
            assert(target.take(i as int) =~= target.take(i - 1).push(move_view(p)));
        }
        r.push(p);
        i = i + 1;
    }
    assert(target.take(c.len() - 1) =~= target);
    r
}

/// Orders the moves that place the arguments of a call in their registers (register shuffling):
/// the returned moves, done one after the other, have the effect of doing all moves of `xys`
/// at once, with `sw` as the spare location that breaks cycles.
pub fn shuffle(sw: &str, xys: &[(String, String)]) -> (out: Vec<(String, String)>)
    ensures
        moves_view(out@) == shuffle_moves(sw@, moves_view(xys@)),
{
    let sw_name = sw.to_string();
    let ghost goal = shuffle_moves(sw@, moves_view(xys@));
    let mut cur: Vec<(String, String)> = Vec::new();
    let mut i: usize = 0;
    while i < xys.len()
        invariant
            i <= xys.len(),
            moves_view(cur@) == moves_view(xys@).take(i as int),
        decreases xys.len() - i,
    {
        let p = (xys[i].0.clone(), xys[i].1.clone());
        proof {
            lemma_moves_view_take(xys@, i as int);
            lemma_moves_view_push(cur@, p);
        }
        cur.push(p);
        i = i + 1;
    }
    assert(moves_view(xys@).take(xys@.len() as int) =~= moves_view(xys@));
    let mut out: Vec<(String, String)> = Vec::new();
    loop
        invariant
            sw_name@ == sw@,
            goal == shuffle_moves(sw@, moves_view(xys@)),
            moves_view(out@) + shuffle_moves(sw@, moves_view(cur@)) == goal,
        decreases cur.len(),
    {
        let ghost cv = moves_view(cur@);
        let m = drop_identical(&cur);
        let (cyc, acyc) = split_blocked(&m);
        let ghost mv = moves_view(m@);
        proof {
            lemma_partition_len(mv, |p: Move| reads(mv, p.1), |p: Move| !reads(mv, p.1));
        }
        if cyc.len() == 0 && acyc.len() == 0 {
            assert(shuffle_moves(sw@, cv) =~= Seq::<Move>::empty());
            assert(moves_view(out@) =~= goal);
            return out;
        } else if acyc.len() == 0 {
            let x = cyc[0].0.clone();
            let y = cyc[0].1.clone();
            let rest = redirect_rest(&cyc, &y, &sw_name);
            let p1 = (y.clone(), sw_name.clone());
            let p2 = (x, y);
            proof {
                lemma_moves_view_push(out@, p1);
                lemma_moves_view_push(out@.push(p1), p2);
                assert(shuffle_moves(sw@, cv) == seq![move_view(p1), move_view(p2)] + shuffle_moves(
                    sw@,
                    moves_view(rest@),
                ));
            }
            out.push(p1);
            out.push(p2);
            assert(moves_view(out@) + shuffle_moves(sw@, moves_view(rest@)) =~= goal);
            cur = rest;
        } else {
            let ghost before = moves_view(out@);
            let mut j: usize = 0;
            while j < acyc.len()
                invariant
                    j <= acyc.len(),
                    moves_view(out@) == before + moves_view(acyc@).take(j as int),
                decreases acyc.len() - j,
            {
                let p = (acyc[j].0.clone(), acyc[j].1.clone());
                proof {
                    lemma_moves_view_take(acyc@, j as int);
                    lemma_moves_view_push(out@, p);
                }
                out.push(p);
                j = j + 1;
            }
            assert(moves_view(acyc@).take(acyc.len() as int) =~= moves_view(acyc@));
            assert(shuffle_moves(sw@, cv) == moves_view(acyc@) + shuffle_moves(
                sw@,
                moves_view(cyc@),
            ));
            assert(moves_view(out@) + shuffle_moves(sw@, moves_view(cyc@)) =~= goal);
            cur = cyc;
        }
    }
}


/// A register named `x` is named by its own name.
proof fn lemma_reg_of_names(x: Seq<char>)
    ensures
        reg_of(x) matches Some(r) ==> reg_name(r) == x,
{
}

/// The value that the integer operand `z` has in the locations `s`.
pub open spec fn operand_value(z: IdOrImm, s: spec_fn(Seq<char>) -> int) -> int {
    match z {
        IdOrImm::V(n) => s(n@),
        IdOrImm::C(i) => i as int,
    }
}

/// The value that the integer instruction `exp` computes from the locations `s`: a constant,
/// a copy, a negation, a sum or a difference.
pub open spec fn int_result(exp: Exp, s: spec_fn(Seq<char>) -> int) -> int {
    match exp {
        Exp::SetImm(i) => i as int,
        Exp::Mov(y) => s(y@),
        Exp::Neg(y) => -s(y@),
        Exp::Add(y, z) => s(y@) + operand_value(z, s),
        Exp::Sub(y, z) => s(y@) - operand_value(z, s),
        _ => 0,
    }
}

proof fn lemma_arith_code_computes(
    x: Seq<char>,
    y: Seq<char>,
    z: IdOrImm,
    add: bool,
    s: spec_fn(Seq<char>) -> int,
    fop: spec_fn(FloatOp, int, int) -> int,
)
    requires
        arith_code(x, y, z, add).1 is None,
    ensures
        exec_code(arith_code(x, y, z, add).0, s, fop)(x) == if add {
            s(y) + operand_value(z, s)
        } else {
            s(y) - operand_value(z, s)
        },
{
    lemma_reg_of_names(x);
    lemma_reg_of_names(y);
    let rx = reg_of(x)->Some_0;
    let ry = reg_of(y)->Some_0;
    if z matches IdOrImm::V(n) && n@ == x {
        if add {
            lemma_exec_single(InstrView::AddRR(ry, rx), s, fop);
        } else {
            assert(seq![InstrView::SubRR(ry, rx), InstrView::NegR(rx)] =~= seq![
                InstrView::SubRR(ry, rx),
            ].push(InstrView::NegR(rx)));
            lemma_exec_push(seq![InstrView::SubRR(ry, rx)], InstrView::NegR(rx), s, fop);
            lemma_exec_single(InstrView::SubRR(ry, rx), s, fop);
        }
    } else {
        let mov = if x != y {
            seq![InstrView::MovRR(ry, rx)]
        } else {
            Seq::empty()
        };
        let s1 = exec_code(mov, s, fop);
        if x != y {
            lemma_exec_single(InstrView::MovRR(ry, rx), s, fop);
        }
        assert(s1(x) == s(y));
        assert(forall|r: Seq<char>| r != x ==> #[trigger] s1(r) == s(r));
        match z {
            IdOrImm::V(n) => {
                lemma_reg_of_names(n@);
                let rz = reg_of(n@)->Some_0;
                let op = if add {
                    InstrView::AddRR(rz, rx)
                } else {
                    InstrView::SubRR(rz, rx)
                };
                lemma_exec_push(mov, op, s, fop);
            },
            IdOrImm::C(i) => {
                let op = if add {
                    InstrView::AddIR(i, rx)
                } else {
                    InstrView::SubIR(i, rx)
                };
                lemma_exec_push(mov, op, s, fop);
            },
        }
    }
}

/// The integer instructions compute what they stand for: when the code that puts the value of
/// a constant, a move, a negation, an addition or a subtraction into the register named `x`
/// is emitted, running it leaves `x` holding that value of the operands as they were before.
pub proof fn lemma_value_code_computes(
    x: Seq<char>,
    exp: Exp,
    s: spec_fn(Seq<char>) -> int,
    fop: spec_fn(FloatOp, int, int) -> int,
)
    requires
        exp is SetImm || exp is Mov || exp is Neg || exp is Add || exp is Sub,
        value_code(x, exp).1 is None,
    ensures
        exec_code(value_code(x, exp).0, s, fop)(x) == int_result(exp, s),
{
    lemma_reg_of_names(x);
    match exp {
        Exp::SetImm(i) => {
            lemma_exec_single(InstrView::MovIR(i, reg_of(x)->Some_0), s, fop);
        },
        Exp::Mov(y) => {
            if x != y@ {
                lemma_reg_of_names(y@);
                lemma_exec_single(InstrView::MovRR(reg_of(y@)->Some_0, reg_of(x)->Some_0), s, fop);
            }
        },
        Exp::Neg(y) => {
            let rx = reg_of(x)->Some_0;
            if x == y@ {
                lemma_exec_single(InstrView::NegR(rx), s, fop);
            } else {
                lemma_reg_of_names(y@);
                let ry = reg_of(y@)->Some_0;
                assert(seq![InstrView::MovRR(ry, rx), InstrView::NegR(rx)] =~= seq![
                    InstrView::MovRR(ry, rx),
                ].push(InstrView::NegR(rx)));
                lemma_exec_push(seq![InstrView::MovRR(ry, rx)], InstrView::NegR(rx), s, fop);
                lemma_exec_single(InstrView::MovRR(ry, rx), s, fop);
            }
        },
        Exp::Add(y, z) => lemma_arith_code_computes(x, y@, z, true, s, fop),
        Exp::Sub(y, z) => lemma_arith_code_computes(x, y@, z, false, s, fop),
        _ => {},
    }
}


/// The value that the float instruction `exp` computes from the locations `s`, float
/// operations being done by `fop`: a copy, a negation (by the sign mask at
/// `min_caml_fnegd`), a sum, a difference, a product or a quotient.
pub open spec fn float_result(
    exp: Exp,
    s: spec_fn(Seq<char>) -> int,
    fop: spec_fn(FloatOp, int, int) -> int,
) -> int {
    match exp {
        Exp::FMovD(y) => s(y@),
        Exp::FNegD(y) => fop(FloatOp::Xor, s(y@), s("min_caml_fnegd"@)),
        Exp::FAddD(y, z) => fop(FloatOp::Add, s(y@), s(z@)),
        Exp::FSubD(y, z) => fop(FloatOp::Sub, s(y@), s(z@)),
        Exp::FMulD(y, z) => fop(FloatOp::Mul, s(y@), s(z@)),
        Exp::FDivD(y, z) => fop(FloatOp::Div, s(y@), s(z@)),
        _ => 0,
    }
}

/// The operands of the float instruction `exp` are float registers.
pub open spec fn float_operands(exp: Exp) -> bool {
    match exp {
        Exp::FMovD(y) => is_freg(y@),
        Exp::FNegD(y) => is_freg(y@),
        Exp::FAddD(y, z) => is_freg(y@) && is_freg(z@),
        Exp::FSubD(y, z) => is_freg(y@) && is_freg(z@),
        Exp::FMulD(y, z) => is_freg(y@) && is_freg(z@),
        Exp::FDivD(y, z) => is_freg(y@) && is_freg(z@),
        _ => false,
    }
}

proof fn lemma_movsd_unless_same(
    y: Seq<char>,
    x: Seq<char>,
    s: spec_fn(Seq<char>) -> int,
    fop: spec_fn(FloatOp, int, int) -> int,
)
    ensures
        exec_code(movsd_unless_same(y, x), s, fop)(x) == s(y),
        forall|r: Seq<char>| r != x ==> #[trigger] exec_code(movsd_unless_same(y, x), s, fop)(r) == s(r),
{
    if x != y {
        lemma_exec_single(InstrView::MovSD(y, x), s, fop);
    }
}

proof fn lemma_float_locations(frame: int, x: Seq<char>)
    requires
        frame >= 0,
        is_freg(x),
    ensures
        x != slot_text(frame),
        x != "min_caml_fnegd"@,
{
    lemma_spare_slot_is_no_register(frame);
    lemma_register_names();
    reveal_strlit("min_caml_fnegd");
    let d = choose|d: int| 0 <= d < 8 && #[trigger] freg_name(d) == x;
    assert(x[0] == '%');
}

/// The float instructions compute what they stand for: running the code that puts the value
/// of a float move, negation, addition, subtraction, multiplication or division of float
/// registers into the float register `x` leaves `x` holding that value of the operands as
/// they were before, whatever the float operations are, as long as addition and
/// multiplication do not depend on the order of their operands.
pub proof fn lemma_float_code_computes(
    frame: int,
    x: Seq<char>,
    exp: Exp,
    s: spec_fn(Seq<char>) -> int,
    fop: spec_fn(FloatOp, int, int) -> int,
)
    requires
        is_float_op(exp),
        float_operands(exp),
        frame >= 0,
        is_freg(x),
        forall|a: int, b: int| #[trigger] fop(FloatOp::Add, a, b) == fop(FloatOp::Add, b, a),
        forall|a: int, b: int| #[trigger] fop(FloatOp::Mul, a, b) == fop(FloatOp::Mul, b, a),
    ensures
        exec_code(float_code(frame, x, exp), s, fop)(x) == float_result(exp, s, fop),
{
    lemma_float_locations(frame, x);
    let sl = slot_text(frame);
    match exp {
        Exp::FMovD(y) => {
            lemma_movsd_unless_same(y@, x, s, fop);
        },
        Exp::FNegD(y) => {
            lemma_movsd_unless_same(y@, x, s, fop);
            lemma_exec_push(
                movsd_unless_same(y@, x),
                InstrView::XorPD("min_caml_fnegd"@, x),
                s,
                fop,
            );
        },
        Exp::FAddD(y, z) => {
            if x == z@ {
                lemma_exec_single(InstrView::AddSD(y@, x), s, fop);
            } else {
                lemma_movsd_unless_same(y@, x, s, fop);
                lemma_exec_push(movsd_unless_same(y@, x), InstrView::AddSD(z@, x), s, fop);
            }
        },
        Exp::FMulD(y, z) => {
            if x == z@ {
                lemma_exec_single(InstrView::MulSD(y@, x), s, fop);
            } else {
                lemma_movsd_unless_same(y@, x, s, fop);
                lemma_exec_push(movsd_unless_same(y@, x), InstrView::MulSD(z@, x), s, fop);
            }
        },
        Exp::FSubD(y, z) => {
            if x == z@ {
                lemma_float_locations(frame, y@);
                let first = seq![InstrView::MovSD(z@, sl)];
                let s1 = exec_code(first, s, fop);
                lemma_exec_single(InstrView::MovSD(z@, sl), s, fop);
                lemma_movsd_unless_same(y@, x, s1, fop);
                lemma_exec_push(movsd_unless_same(y@, x), InstrView::SubSD(sl, x), s1, fop);
                lemma_exec_concat(
                    first,
                    movsd_unless_same(y@, x).push(InstrView::SubSD(sl, x)),
                    s,
                    fop,
                );
            } else {
                lemma_movsd_unless_same(y@, x, s, fop);
                lemma_exec_push(movsd_unless_same(y@, x), InstrView::SubSD(z@, x), s, fop);
            }
        },
        Exp::FDivD(y, z) => {
            if x == z@ {
                lemma_float_locations(frame, y@);
                let first = seq![InstrView::MovSD(z@, sl)];
                let s1 = exec_code(first, s, fop);
                lemma_exec_single(InstrView::MovSD(z@, sl), s, fop);
                lemma_movsd_unless_same(y@, x, s1, fop);
                lemma_exec_push(movsd_unless_same(y@, x), InstrView::DivSD(sl, x), s1, fop);
                lemma_exec_concat(
                    first,
                    movsd_unless_same(y@, x).push(InstrView::DivSD(sl, x)),
                    s,
                    fop,
                );
            } else {
                lemma_movsd_unless_same(y@, x, s, fop);
                lemma_exec_push(movsd_unless_same(y@, x), InstrView::DivSD(z@, x), s, fop);
            }
        },
        _ => {},
    }
}


/// No float register is named like an integer register.
proof fn lemma_fregs_are_no_registers(d: int)
    requires
        0 <= d < 8,
    ensures
        reg_of(freg_name(d)) is None,
{
    reveal_strlit("%rax");
    reveal_strlit("%rbx");
    reveal_strlit("%rcx");
    reveal_strlit("%rdx");
    reveal_strlit("%rsi");
    reveal_strlit("%rdi");
    reveal_strlit("%rbp");
    reveal_strlit("%rsp");
    reveal_strlit("%r8");
    reveal_strlit("%r9");
    reveal_strlit("%r10");
    reveal_strlit("%r11");
    reveal_strlit("%r12");
    reveal_strlit("%r13");
    reveal_strlit("%r14");
    reveal_strlit("%r15");
    reveal_strlit("%xmm0");
    reveal_strlit("%xmm1");
    reveal_strlit("%xmm2");
    reveal_strlit("%xmm3");
    reveal_strlit("%xmm4");
    reveal_strlit("%xmm5");
    reveal_strlit("%xmm6");
    reveal_strlit("%xmm7");
    assert(freg_name(d)[1] == 'x');
}

/// Running the `movq` or `movsd` code of moves does the moves one after the other.
proof fn lemma_exec_moves(m: Seq<Move>, s: spec_fn(Seq<char>) -> int, fop: spec_fn(FloatOp, int, int) -> int)
    ensures
        exec_code(mov_code(m), s, fop) == run(m, s),
        exec_code(movsd_code(m), s, fop) == run(m, s),
    decreases m.len(),
{
    if m.len() > 0 {
        assert(mov_code(m).drop_first() =~= mov_code(m.drop_first()));
        assert(movsd_code(m).drop_first() =~= movsd_code(m.drop_first()));
        assert(mov_code(m)[0] == InstrView::Mov(m[0].0, m[0].1));
        assert(movsd_code(m)[0] == InstrView::MovSD(m[0].0, m[0].1));
        assert(exec_instr(s, fop, InstrView::Mov(m[0].0, m[0].1)) == step(s, m[0]));
        lemma_exec_moves(m.drop_first(), step(s, m[0]), fop);
    }
}

/// The argument code of a call places every argument: running it leaves each integer
/// argument register holding its argument, each closure register its closure, and each
/// float argument register its float argument, all as they were before the code ran, when
/// no register receives two different values and the float arguments are neither integer
/// registers nor the spare slot.
pub proof fn lemma_args_code_places_arguments(
    frame: int,
    cls: Seq<Move>,
    ys: Seq<Seq<char>>,
    zs: Seq<Seq<char>>,
    s: spec_fn(Seq<char>) -> int,
    fop: spec_fn(FloatOp, int, int) -> int,
)
    requires
        frame >= 0,
        ys.len() + cls.len() <= 6,
        zs.len() <= 8,
        forall|k: int| 0 <= k < cls.len() ==> reg_of(#[trigger] cls[k].1) is Some,
        sources_agree(int_arg_moves(cls, ys)),
        forall|d: int|
            0 <= d < zs.len() ==> reg_of(#[trigger] zs[d]) is None && zs[d] != spare_slot(frame),
    ensures
        forall|i: int|
            0 <= i < ys.len() ==> #[trigger] exec_code(args_code(frame, cls, ys, zs), s, fop)(
                reg_name(spec_regs()[i]),
            ) == s(ys[i]),
        forall|k: int|
            0 <= k < cls.len() ==> exec_code(args_code(frame, cls, ys, zs), s, fop)(
                #[trigger] cls[k].1,
            ) == s(cls[k].0),
        forall|d: int|
            0 <= d < zs.len() ==> #[trigger] exec_code(args_code(frame, cls, ys, zs), s, fop)(
                freg_name(d),
            ) == s(zs[d]),
{
    let sw = spare_slot(frame);
    let m = int_arg_moves(cls, ys);
    let fmv = float_arg_moves(zs);
    let a = shuffle_moves(sw, m);
    let b = shuffle_moves(sw, fmv);
    lemma_exec_concat(mov_code(a), movsd_code(b), s, fop);
    lemma_exec_moves(a, s, fop);
    let s1 = run(a, s);
    lemma_exec_moves(b, s1, fop);
    let out = exec_code(args_code(frame, cls, ys, zs), s, fop);
    assert(out == run(b, s1));
    lemma_spare_slot_is_no_register(frame);
    lemma_register_names();
    lemma_int_arg_moves(cls, ys);
    lemma_float_arg_moves(zs);
    assert forall|q: int| 0 <= q < m.len() implies reg_of(#[trigger] m[q].1) is Some by {
        if q < ys.len() {
            let i = ys.len() - 1 - q;
            assert(m[ys.len() - 1 - i].1 == reg_name(spec_regs()[i]));
            crate::x86::instr::lemma_reg_name_roundtrip(spec_regs()[i]);
        } else {
            let kk = q - ys.len();
            assert(m[ys.len() + kk] == cls[kk]);
        }
    }
    assert forall|q: int| 0 <= q < fmv.len() implies reg_of(#[trigger] fmv[q].1) is None by {
        let dd = zs.len() - 1 - q;
        assert(fmv[zs.len() - 1 - dd].1 == freg_name(dd));
        lemma_fregs_are_no_registers(dd);
    }
    assert(!writes(m, sw)) by {
        if writes(m, sw) {
            let q = choose|q: int| 0 <= q < m.len() && #[trigger] m[q].1 == sw;
            assert(reg_of(m[q].1) is Some);
        }
    }
    assert(!writes(fmv, sw)) by {
        if writes(fmv, sw) {
            let q = choose|q: int| 0 <= q < fmv.len() && #[trigger] fmv[q].1 == sw;
            let dd = zs.len() - 1 - q;
            assert(fmv[zs.len() - 1 - dd].1 == freg_name(dd));
        }
    }
    assert(sources_agree(fmv)) by {
        assert forall|p: int, q: int|
            0 <= p < fmv.len() && 0 <= q < fmv.len() && #[trigger] fmv[p].1 == #[trigger] fmv[q].1 implies fmv[p].0
            == fmv[q].0 by {
            let dp = zs.len() - 1 - p;
            let dq = zs.len() - 1 - q;
            assert(fmv[zs.len() - 1 - dp].1 == freg_name(dp));
            assert(fmv[zs.len() - 1 - dq].1 == freg_name(dq));
        }
    }
    // A location that holds a register is never written by the float moves.
    assert forall|r: Seq<char>| reg_of(r) is Some implies #[trigger] run(b, s1)(r) == s1(r) by {
        assert(r[0] == '%');
        lemma_shuffle_is_parallel_move(sw, fmv, s1, r);
        if writes(fmv, r) {
            let q = choose|q: int| 0 <= q < fmv.len() && #[trigger] fmv[q].1 == r;
            assert(reg_of(fmv[q].1) is None);
        }
    }
    assert forall|i: int| 0 <= i < ys.len() implies #[trigger] out(reg_name(spec_regs()[i])) == s(ys[i]) by {
        assert(m[ys.len() - 1 - i] == (ys[i], reg_name(spec_regs()[i])));
        crate::x86::instr::lemma_reg_name_roundtrip(spec_regs()[i]);
        lemma_placement(sw, m, s, ys.len() - 1 - i);
        assert(run(b, s1)(reg_name(spec_regs()[i])) == s1(reg_name(spec_regs()[i])));
    }
    assert forall|k: int| 0 <= k < cls.len() implies out(#[trigger] cls[k].1) == s(cls[k].0) by {
        assert(m[ys.len() + k] == cls[k]);
        lemma_placement(sw, m, s, ys.len() + k);
        assert(run(b, s1)(cls[k].1) == s1(cls[k].1));
    }
    assert forall|d: int| 0 <= d < zs.len() implies #[trigger] out(freg_name(d)) == s(zs[d]) by {
        assert(fmv[zs.len() - 1 - d] == (zs[d], freg_name(d)));
        lemma_placement(sw, fmv, s1, zs.len() - 1 - d);
        lemma_shuffle_is_parallel_move(sw, m, s, zs[d]);
        if writes(m, zs[d]) {
            let q = choose|q: int| 0 <= q < m.len() && #[trigger] m[q].1 == zs[d];
            assert(reg_of(m[q].1) is Some);
        }
    }
}


/// Whether the conditional `exp` takes its first branch when its first operand has the value
/// `a` and its second the value `b`.
pub open spec fn if_test(exp: Exp, a: int, b: int) -> bool {
    match exp {
        Exp::IfEq(_, _, _, _) => a == b,
        Exp::IfLE(_, _, _, _) => a <= b,
        Exp::IfGE(_, _, _, _) => a >= b,
        Exp::IfFEq(_, _, _, _) => a == b,
        Exp::IfFLE(_, _, _, _) => a <= b,
        _ => false,
    }
}

/// The operands that the conditional `exp` compares: the first by its name, the second as a
/// name or an immediate.
pub open spec fn if_operands(exp: Exp) -> (Seq<char>, IdOrImm) {
    match exp {
        Exp::IfEq(x, y, _, _) => (x@, y),
        Exp::IfLE(x, y, _, _) => (x@, y),
        Exp::IfGE(x, y, _, _) => (x@, y),
        Exp::IfFEq(x, y, _, _) => (x@, IdOrImm::V(y)),
        Exp::IfFLE(x, y, _, _) => (x@, IdOrImm::V(y)),
        _ => (Seq::empty(), IdOrImm::C(0)),
    }
}

/// The instruction `ins` compares the location named `x` with the operand `y`, so that a
/// conditional jump after it tests `x` against `y`.
pub open spec fn compares(ins: InstrView, x: Seq<char>, y: IdOrImm) -> bool {
    match ins {
        InstrView::CmpRR(a, b) => reg_name(b) == x && (y matches IdOrImm::V(n) && n@ == reg_name(a)),
        InstrView::CmpIR(i, b) => reg_name(b) == x && (y matches IdOrImm::C(j) && j == i),
        InstrView::ComiSD(a, b) => b == x && (y matches IdOrImm::V(n) && n@ == a),
        _ => false,
    }
}

/// The compared operands of the conditional `exp` can be compared: for an integer comparison,
/// its first operand and a second operand that is a name are registers.
pub open spec fn if_compares_registers(exp: Exp) -> bool {
    match exp {
        Exp::IfEq(x, y, _, _) => int_compare(x@, y).1 is None,
        Exp::IfLE(x, y, _, _) => int_compare(x@, y).1 is None,
        Exp::IfGE(x, y, _, _) => int_compare(x@, y).1 is None,
        _ => true,
    }
}

/// A conditional compares its first operand with its second, then jumps to its else branch
/// exactly when its test fails, in tail position and away from it alike.
pub proof fn lemma_conditional_jumps_when_test_fails(
    fr: FrameModel,
    n: nat,
    dest: Option<Seq<char>>,
    exp: Exp,
)
    requires
        is_conditional(exp),
        if_compares_registers(exp),
    ensures
        step_code(fr, n, dest, exp).0.len() >= 2,
        compares(step_code(fr, n, dest, exp).0[0], if_operands(exp).0, if_operands(exp).1),
        step_code(fr, n, dest, exp).0[1] matches InstrView::Jcc(c, _) && forall|a: int, b: int|
            cond_holds(c, a, b) == !if_test(exp, a, b),
{
    let code = step_code(fr, n, dest, exp).0;
    match exp {
        Exp::IfEq(x, y, _, _) => {
            lemma_reg_of_names(x@);
            if let IdOrImm::V(m) = y {
                lemma_reg_of_names(m@);
            }
        },
        Exp::IfLE(x, y, _, _) => {
            lemma_reg_of_names(x@);
            if let IdOrImm::V(m) = y {
                lemma_reg_of_names(m@);
            }
        },
        Exp::IfGE(x, y, _, _) => {
            lemma_reg_of_names(x@);
            if let IdOrImm::V(m) = y {
                lemma_reg_of_names(m@);
            }
        },
        _ => {},
    }
}


/// The instruction that transfers control in a call away from the tail position.
pub open spec fn call_instr(exp: Exp) -> InstrView {
    match exp {
        Exp::CallDir(l, _, _) => InstrView::Call(l.0@),
        Exp::CallCls(_, _, _) => InstrView::CallInd(REG_CL),
        _ => InstrView::Ret,
    }
}

/// A call away from the tail position, from a frame of `frame` bytes, moves the stack pointer
/// past the frame just before its call instruction and back just after it, so that the callee
/// leaves the frame's slots alone.
pub proof fn lemma_calls_move_past_the_frame(frame: int, x: Seq<char>, exp: Exp)
    requires
        exp is CallDir || exp is CallCls,
        0 <= frame <= i32::MAX,
    ensures
        exists|k: int|
            0 <= k < exp_code(frame, Some(x), exp).0.len() && #[trigger] exp_code(
                frame,
                Some(x),
                exp,
            ).0[k] == call_instr(exp) && (frame > 0 ==> {
                &&& 0 < k
                &&& k + 1 < exp_code(frame, Some(x), exp).0.len()
                &&& exp_code(frame, Some(x), exp).0[k - 1] == InstrView::AddIR(frame as i32, REG_SP)
                &&& exp_code(frame, Some(x), exp).0[k + 1] == InstrView::AddIR(
                    (-frame) as i32,
                    REG_SP,
                )
            }),
{
    reveal(exp_code);
    let code = exp_code(frame, Some(x), exp).0;
    let args = match exp {
        Exp::CallDir(_, ys, zs) => args_code(frame, Seq::empty(), names(ys@), names(zs@)),
        Exp::CallCls(c, ys, zs) => args_code(frame, closure_move(c@), names(ys@), names(zs@)),
        _ => Seq::empty(),
    };
    let cc = call_code(frame, call_instr(exp));
    assert(code == args + cc + result_move(x));
    let k: int = if frame > 0 {
        args.len() as int + 1
    } else {
        args.len() as int
    };
    assert(code[k] == call_instr(exp));
}


/// The result of a call is where its caller wants it: after the result move, a register
/// destination holds what the first integer register held, a float register destination what
/// the first float register held.
pub proof fn lemma_call_result_arrives(
    a: Seq<char>,
    s: spec_fn(Seq<char>) -> int,
    fop: spec_fn(FloatOp, int, int) -> int,
)
    ensures
        reg_of(a) is Some ==> exec_code(result_move(a), s, fop)(a) == s(reg_name(spec_regs()[0])),
        is_freg(a) ==> exec_code(result_move(a), s, fop)(a) == s(freg_name(0)),
{
    lemma_reg_of_names(a);
    if let Some(r) = reg_of(a) {
        if r != spec_regs()[0] {
            lemma_exec_single(InstrView::MovRR(spec_regs()[0], r), s, fop);
        }
    }
    if is_freg(a) {
        let d = choose|d: int| 0 <= d < 8 && #[trigger] freg_name(d) == a;
        lemma_fregs_are_no_registers(d);
        lemma_movsd_unless_same(freg_name(0), a, s, fop);
    }
}

/// What a restore gives back of a save: saving the register named `x` into the slot of a
/// variable `y` that was not saved yet, then restoring `y` into the register named `r`, leaves
/// `r` holding the value that `x` had.
pub proof fn lemma_restore_gives_back_save(
    fr: FrameModel,
    x: Seq<char>,
    y: Seq<char>,
    r: Seq<char>,
    s: spec_fn(Seq<char>) -> int,
    fop: spec_fn(FloatOp, int, int) -> int,
)
    requires
        !fr.0.contains(y),
        reg_of(x) is Some || is_freg(x),
        reg_of(r) is Some || is_freg(r),
        8 * (fr.1.len() + 1) <= i32::MAX,
    ensures
        exec_code(
            save_code(fr, x, y).0 + restore_code(save_code(fr, x, y).2.1, r, y),
            s,
            fop,
        )(r) == s(x),
{
    let slots = slots_after_save(fr.1, y);
    lemma_save_gives_slot(fr.1, y);
    let k = slots.index_of(y);
    assert(slots.contains(y));
    assert(0 <= k < slots.len());
    let off = 8 * k;
    assert(off as i32 as int == off);
    let sv = save_code(fr, x, y);
    assert(sv.2.1 == slots);
    lemma_reg_of_names(x);
    lemma_reg_of_names(r);
    let st = sv.0;
    let ld = restore_code(slots, r, y);
    assert(st.len() == 1);
    assert(ld.len() == 1);
    assert(st =~= seq![st[0]]);
    assert(ld =~= seq![ld[0]]);
    lemma_exec_concat(st, ld, s, fop);
    lemma_exec_single(st[0], s, fop);
    lemma_exec_single(ld[0], exec_code(st, s, fop), fop);
    assert(mem_text(off, REG_SP) == slot_text(off));
}

/// The instruction ends the function: a return or a jump elsewhere.
pub open spec fn ends_function(ins: InstrView) -> bool {
    ins is Ret || ins is Jmp || ins is JmpInd
}

/// In tail position an instruction that is emitted in full ends the function: its last
/// instruction returns or jumps elsewhere.
pub proof fn lemma_tail_step_ends_function(fr: FrameModel, n: nat, exp: Exp)
    requires
        step_code(fr, n, None, exp).1 is None,
    ensures
        step_code(fr, n, None, exp).0.len() > 0,
        ends_function(step_code(fr, n, None, exp).0.last()),
    decreases exp,
{
    reveal(exp_code);
    match exp {
        Exp::IfEq(_, _, e1, e2) => {
            let r1 = asm_code(fr, n + 1, None, *e1);
            let r2 = asm_code((fr.0, r1.2.1), r1.3, None, *e2);
            if r2.1 is None {
                lemma_tail_body_ends_function((fr.0, r1.2.1), r1.3, *e2);
            }
        },
        Exp::IfLE(_, _, e1, e2) => {
            let r1 = asm_code(fr, n + 1, None, *e1);
            let r2 = asm_code((fr.0, r1.2.1), r1.3, None, *e2);
            if r2.1 is None {
                lemma_tail_body_ends_function((fr.0, r1.2.1), r1.3, *e2);
            }
        },
        Exp::IfGE(_, _, e1, e2) => {
            let r1 = asm_code(fr, n + 1, None, *e1);
            let r2 = asm_code((fr.0, r1.2.1), r1.3, None, *e2);
            if r2.1 is None {
                lemma_tail_body_ends_function((fr.0, r1.2.1), r1.3, *e2);
            }
        },
        Exp::IfFEq(_, _, e1, e2) => {
            let r1 = asm_code(fr, n + 1, None, *e1);
            let r2 = asm_code((fr.0, r1.2.1), r1.3, None, *e2);
            if r2.1 is None {
                lemma_tail_body_ends_function((fr.0, r1.2.1), r1.3, *e2);
            }
        },
        Exp::IfFLE(_, _, e1, e2) => {
            let r1 = asm_code(fr, n + 1, None, *e1);
            let r2 = asm_code((fr.0, r1.2.1), r1.3, None, *e2);
            if r2.1 is None {
                lemma_tail_body_ends_function((fr.0, r1.2.1), r1.3, *e2);
            }
        },
        _ => {},
    }
}

/// In tail position a body that is emitted in full ends the function: its code's last
/// instruction returns or jumps elsewhere.
pub proof fn lemma_tail_body_ends_function(fr: FrameModel, n: nat, body: Asm)
    requires
        asm_code(fr, n, None, body).1 is None,
    ensures
        asm_code(fr, n, None, body).0.len() > 0,
        ends_function(asm_code(fr, n, None, body).0.last()),
    decreases body,
{
    match body {
        Asm::Ans(exp) => lemma_tail_step_ends_function(fr, n, exp),
        Asm::Let(x, _, exp, e) => {
            let first = step_code(fr, n, Some(x@), exp);
            lemma_tail_body_ends_function(first.2, first.3, *e);
        },
    }
}

/// In tail position the value of an integer or float instruction is returned in the first
/// register of its kind: the code before the final return leaves it there.
pub proof fn lemma_tail_value_is_returned(
    frame: int,
    exp: Exp,
    s: spec_fn(Seq<char>) -> int,
    fop: spec_fn(FloatOp, int, int) -> int,
)
    requires
        exp_code(frame, None, exp).1 is None,
        frame >= 0,
        forall|a: int, b: int| #[trigger] fop(FloatOp::Add, a, b) == fop(FloatOp::Add, b, a),
        forall|a: int, b: int| #[trigger] fop(FloatOp::Mul, a, b) == fop(FloatOp::Mul, b, a),
    ensures
        (exp is SetImm || exp is Mov || exp is Neg || exp is Add || exp is Sub) ==> {
            &&& exp_code(frame, None, exp).0.last() == InstrView::Ret
            &&& exec_code(exp_code(frame, None, exp).0.drop_last(), s, fop)(reg_name(spec_regs()[0]))
                == int_result(exp, s)
        },
        (is_float_op(exp) && float_operands(exp)) ==> {
            &&& exp_code(frame, None, exp).0.last() == InstrView::Ret
            &&& exec_code(exp_code(frame, None, exp).0.drop_last(), s, fop)(freg_name(0))
                == float_result(exp, s, fop)
        },
{
    reveal(exp_code);
    let code = exp_code(frame, None, exp).0;
    if exp is SetImm || exp is Mov || exp is Neg || exp is Add || exp is Sub {
        let v = value_code(reg_name(spec_regs()[0]), exp);
        assert(code == v.0.push(InstrView::Ret));
        assert(code.drop_last() =~= v.0);
        lemma_value_code_computes(reg_name(spec_regs()[0]), exp, s, fop);
    }
    if is_float_op(exp) && float_operands(exp) {
        assert(code.drop_last() =~= float_code(frame, freg_name(0), exp));
        assert(is_freg(freg_name(0)));
        lemma_float_code_computes(frame, freg_name(0), exp, s, fop);
    }
}


/// The first branch of the conditional `exp`.
pub open spec fn if_first_branch(exp: Exp) -> Asm {
    match exp {
        Exp::IfEq(_, _, e1, _) => *e1,
        Exp::IfLE(_, _, e1, _) => *e1,
        Exp::IfGE(_, _, e1, _) => *e1,
        Exp::IfFEq(_, _, e1, _) => *e1,
        Exp::IfFLE(_, _, e1, _) => *e1,
        _ => Asm::Ans(Exp::Nop),
    }
}

/// The branches of a conditional emitted in full meet as they should: the jump after the
/// comparison goes to a label that stands right after the first branch's code (after a jump
/// past the second branch, away from the tail position), and away from the tail position the
/// code ends at that jump's own label, which differs from the else label.
pub proof fn lemma_conditional_branches_meet(fr: FrameModel, n: nat, dest: Option<Seq<char>>, exp: Exp)
    requires
        is_conditional(exp),
        step_code(fr, n, dest, exp).1 is None,
    ensures
        ({
            let code = step_code(fr, n, dest, exp).0;
            let r1 = asm_code(fr, branch_start(dest, n), dest, if_first_branch(exp));
            &&& code.len() >= r1.0.len() as int + 3
            &&& code.subrange(2, r1.0.len() as int + 2) == r1.0
            &&& code[1] matches InstrView::Jcc(_, l) && {
                &&& dest is None ==> code[r1.0.len() as int + 2] == InstrView::Label(l)
                &&& dest is Some ==> (code[r1.0.len() as int + 2] matches InstrView::Jmp(lc) && {
                    &&& code[r1.0.len() as int + 3] == InstrView::Label(l)
                    &&& code.last() == InstrView::Label(lc)
                    &&& lc != l
                })
            }
        }),
{
    let code = step_code(fr, n, dest, exp).0;
    let r1 = asm_code(fr, branch_start(dest, n), dest, if_first_branch(exp));
    let b: Seq<char> = match exp {
        Exp::IfEq(_, _, _, _) => "je"@,
        Exp::IfLE(_, _, _, _) => "jle"@,
        Exp::IfGE(_, _, _, _) => "jge"@,
        Exp::IfFEq(_, _, _, _) => "je"@,
        _ => "jbe"@,
    };
    lemma_branch_labels_distinct(b, n);
    assert(code.subrange(2, r1.0.len() as int + 2) =~= r1.0);
}

/// A save stores the register in the slot of its variable: after the code of a save that
/// emits anything, the slot at the variable's offset, which lies within the frame, holds the
/// value the register had.
pub proof fn lemma_save_stores_in_its_slot(
    fr: FrameModel,
    x: Seq<char>,
    y: Seq<char>,
    s: spec_fn(Seq<char>) -> int,
    fop: spec_fn(FloatOp, int, int) -> int,
)
    requires
        !fr.0.contains(y),
        reg_of(x) is Some || is_freg(x),
        8 * (fr.1.len() + 1) <= i32::MAX,
    ensures
        slot_offset(save_code(fr, x, y).2.1, y) matches Some(o) && {
            &&& 0 <= o
            &&& o + 8 <= frame_size(save_code(fr, x, y).2.1)
            &&& exec_code(save_code(fr, x, y).0, s, fop)(slot_text(o)) == s(x)
        },
{
    let slots = slots_after_save(fr.1, y);
    lemma_save_gives_slot(fr.1, y);
    let k = slots.index_of(y);
    assert(slots.contains(y));
    assert(0 <= k < slots.len());
    let off = 8 * k;
    assert(off as i32 as int == off);
    lemma_reg_of_names(x);
    let st = save_code(fr, x, y).0;
    assert(st =~= seq![st[0]]);
    lemma_exec_single(st[0], s, fop);
    assert(mem_text(off, REG_SP) == slot_text(off));
}


/// In tail position a restore returns the variable's value: the code before the final return
/// leaves the first integer register holding what the variable's slot held.
pub proof fn lemma_tail_restore_returns(
    fr: FrameModel,
    n: nat,
    y: String,
    s: spec_fn(Seq<char>) -> int,
    fop: spec_fn(FloatOp, int, int) -> int,
)
    requires
        fr.1.contains(y@),
        8 * fr.1.len() <= i32::MAX,
    ensures
        step_code(fr, n, None, Exp::Restore(y)).0.last() == InstrView::Ret,
        exec_code(step_code(fr, n, None, Exp::Restore(y)).0.drop_last(), s, fop)(reg_name(
            spec_regs()[0],
        )) == s(slot_text(slot_offset(fr.1, y@)->Some_0)),
{
    let k = fr.1.index_of(y@);
    assert(0 <= k < fr.1.len());
    let off = 8 * k;
    assert(off as i32 as int == off);
    crate::x86::instr::lemma_reg_name_roundtrip(Reg::Rax);
    let ld = restore_code(fr.1, reg_name(spec_regs()[0]), y@);
    let code = step_code(fr, n, None, Exp::Restore(y)).0;
    assert(code.drop_last() =~= ld);
    assert(ld =~= seq![ld[0]]);
    lemma_exec_single(ld[0], s, fop);
    assert(mem_text(off, REG_SP) == slot_text(off));
}

/// The data section keeps every float constant whole: for each constant, its label, then a
/// word and a word after it that together, the first as the high half, make up its bits.
pub proof fn lemma_data_words_rebuild_constants(data: Seq<(L, u64)>)
    ensures
        data_code(data).len() == 3 * data.len(),
        forall|k: int|
            0 <= k < data.len() ==> {
                &&& #[trigger] data_code(data)[3 * k] == InstrView::Label(data[k].0.0@)
                &&& data_code(data)[3 * k + 1] matches InstrView::Long(hi) && data_code(data)[3 * k
                    + 2] matches InstrView::Long(lo) && hi * 0x1_0000_0000 + lo == data[k].1
            },
    decreases data.len(),
{
    if data.len() > 0 {
        let rest = data.drop_last();
        lemma_data_words_rebuild_constants(rest);
        let bits = data.last().1;
        assert(high_word(bits) * 0x1_0000_0000 + low_word(bits) == bits) by (nonlinear_arith)
            requires
                high_word(bits) == bits / 0x1_0000_0000,
                low_word(bits) == bits % 0x1_0000_0000,
        ;
        let c = data_code(data);
        assert forall|k: int|
            0 <= k < data.len() implies {
                &&& #[trigger] c[3 * k] == InstrView::Label(data[k].0.0@)
                &&& c[3 * k + 1] matches InstrView::Long(hi) && c[3 * k + 2] matches InstrView::Long(
                    lo,
                ) && hi * 0x1_0000_0000 + lo == data[k].1
            } by {
            if k < rest.len() {
                assert(c[3 * k] == data_code(rest)[3 * k]);
                assert(c[3 * k + 1] == data_code(rest)[3 * k + 1]);
                assert(c[3 * k + 2] == data_code(rest)[3 * k + 2]);
                assert(rest[k] == data[k]);
            }
        }
    }
}


/// Loads and stores move values between registers and memory: a load leaves the location
/// named `x` holding what its memory operand held, and a store leaves its memory operand
/// holding what the stored register held.
pub proof fn lemma_memory_code_moves(
    x: Seq<char>,
    exp: Exp,
    s: spec_fn(Seq<char>) -> int,
    fop: spec_fn(FloatOp, int, int) -> int,
)
    requires
        is_memory_op(exp),
    ensures
        match exp {
            Exp::Ld(y, z, i) => exec_code(memory_code(x, exp), s, fop)(x) == s(
                mem_operand(y@, z, i as int),
            ),
            Exp::LdDF(y, z, i) => exec_code(memory_code(x, exp), s, fop)(x) == s(
                mem_operand(y@, z, i as int),
            ),
            Exp::St(v, y, z, i) => exec_code(memory_code(x, exp), s, fop)(
                mem_operand(y@, z, i as int),
            ) == s(v@),
            Exp::StDF(v, y, z, i) => exec_code(memory_code(x, exp), s, fop)(
                mem_operand(y@, z, i as int),
            ) == s(v@),
            _ => true,
        },
{
    let c = memory_code(x, exp);
    assert(c =~= seq![c[0]]);
    lemma_exec_single(c[0], s, fop);
}

} // verus!
