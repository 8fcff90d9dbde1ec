pub mod id;
pub mod syntax;
pub mod x86;
