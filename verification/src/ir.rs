//! The intermediate representation: typed values, basic blocks and a small
//! instruction set, together with the builder that appends to a function.

pub mod basic_block;
pub mod builder;
pub mod dfg;
pub mod function;
pub mod instruction;
pub mod semantics;
pub mod types;
pub mod value;
