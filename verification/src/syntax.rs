use vstd::prelude::*;

verus! {

/// The types of the source language, carried by each binding of the intermediate code.
#[derive(Debug)]
pub enum Type {
    Unit,
    Bool,
    Int,
    Float,
    Fun(Vec<Type>, Box<Type>),
    Tuple(Vec<Type>),
    Array(Box<Type>),
    Var(Option<Box<Type>>),
}

} // verus!
