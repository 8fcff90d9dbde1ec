use vstd::prelude::*;

verus! {

/// Why no code could be emitted.
#[derive(Debug, PartialEq, Eq)]
pub enum Error {
    /// A destination or operand names no machine register.
    UnknownRegister(String),
}

impl View for Error {
    /// The offending register name.
    type V = Seq<char>;

    open spec fn view(&self) -> Seq<char> {
        match self {
            Error::UnknownRegister(name) => name@,
        }
    }
}

} // verus!
