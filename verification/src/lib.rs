//! Generation of a static-single-assignment intermediate representation from
//! a type-checked, monomorphized program.
//!
//! Leaf first: `ir` holds the representation that is produced and the
//! builder that appends to it; `ast` holds the surface program that is
//! consumed; `value` and `flatten` map the nested types of the surface onto
//! the scalars of the representation; `operators` maps the surface operators
//! onto the smaller set of the representation; `context` and `lvalue`
//! translate one function; `shared` keeps what all translators have in
//! common.
//!
//! What the inserted instructions compute is stated over the machine of
//! `ir::semantics`: `laws` for the operators, `equality` for the comparison
//! of arrays, and `lvalue_laws`, `path_laws`, `extraction_laws` and
//! `round_trip` for assignments, from the single steps up to the whole of
//! an assignment and the reading that follows it.
//!
//! `item_scope` and `package` belong to the stages around the translation:
//! the names that a module defines, and the description of a package.

pub mod ast;
pub mod context;
pub mod equality;
pub mod errors;
pub mod extraction_laws;
pub mod flatten;
pub mod ir;
pub mod item_scope;
pub mod laws;
pub mod lvalue;
pub mod lvalue_laws;
pub mod operators;
pub mod package;
pub mod path_laws;
pub mod round_trip;
pub mod shared;
pub mod value;
