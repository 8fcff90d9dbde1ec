pub mod error;
pub mod instr;
pub mod ir;
pub mod machine;
pub mod moves;
pub mod emit;
