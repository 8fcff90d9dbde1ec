use vstd::prelude::*;

use crate::syntax::Type;
use crate::x86::emit::{decimal, push_decimal};

verus! {

/// A label: the name of a function or of a data item in the generated code.
#[derive(Clone, Debug, PartialEq, Eq)]
pub struct L(pub String);

/// The source of fresh identifiers: a counter that each new identifier moves on by one.
#[derive(Debug)]
pub struct IdGen {
    pub counter: u64,
}

/// The fresh name that `prefix` gets from the counter value `n`: `prefix`, a dot, and `n`.
pub open spec fn fresh_label(prefix: Seq<char>, n: nat) -> Seq<char> {
    prefix + seq!['.'] + decimal(n as int)
}

/// The letter that marks a temporary of type `typ` in its name.
pub open spec fn type_letter(typ: Type) -> Seq<char> {
    match typ {
        Type::Unit => "u"@,
        Type::Bool => "b"@,
        Type::Int => "i"@,
        Type::Float => "d"@,
        Type::Fun(_, _) => "f"@,
        Type::Tuple(_) => "t"@,
        Type::Array(_) => "a"@,
        Type::Var(_) => Seq::empty(),
    }
}

/// The name of the temporary of type `typ` that the counter value `n` gives: `T`, the
/// type's letter, and `n`.
pub open spec fn temp_name(typ: Type, n: nat) -> Seq<char> {
    "T"@ + type_letter(typ) + decimal(n as int)
}

fn type_letter_str(typ: &Type) -> (r: &'static str)
    requires
        !(typ is Var),
    ensures
        r@ == type_letter(*typ),
{
    proof {
        reveal_strlit("u");
        reveal_strlit("b");
        reveal_strlit("i");
        reveal_strlit("d");
        reveal_strlit("f");
        reveal_strlit("t");
        reveal_strlit("a");
    }
    match typ {
        Type::Unit => "u",
        Type::Bool => "b",
        Type::Int => "i",
        Type::Float => "d",
        Type::Fun(_, _) => "f",
        Type::Tuple(_) => "t",
        Type::Array(_) => "a",
        Type::Var(_) => "",
    }
}

impl IdGen {
    /// A fresh temporary of type `typ`, which is no type variable: the counter moves on, and
    /// its new value names it.
    pub fn gentmp(&mut self, typ: &Type) -> (s: String)
        requires
            old(self).counter < u64::MAX,
            !(typ is Var),
        ensures
            final(self).counter == old(self).counter + 1,
            s@ == temp_name(*typ, final(self).counter as nat),
    {
        self.counter = self.counter + 1;
        let mut s = String::from_str("T");
        proof {
            reveal_strlit("T");
        }
        s.append(type_letter_str(typ));
        push_decimal(&mut s, self.counter);
        s
    }

    /// A fresh name made from `prefix`: the counter moves on, and its new value names it.
    pub fn genid(&mut self, prefix: &str) -> (s: String)
        requires
            old(self).counter < u64::MAX,
        ensures
            final(self).counter == old(self).counter + 1,
            s@ == fresh_label(prefix@, final(self).counter as nat),
    {
        self.counter = self.counter + 1;
        let mut s = prefix.to_string();
        proof {
            reveal_strlit(".");
        }
        s.append(".");
        push_decimal(&mut s, self.counter);
        s
    }

    /// A generator that has handed out no identifier yet.
    pub fn new() -> (g: IdGen)
        ensures
            g.counter == 0,
    {
        IdGen { counter: 0 }
    }
}

} // verus!
