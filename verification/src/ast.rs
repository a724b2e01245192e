use vstd::prelude::*;
use crate::ir::instruction::Location;

verus! {

/// The identity of a local variable within one function.
#[derive(Copy, Clone, Debug, PartialEq, Eq, Hash, Structural)]
pub struct LocalId(pub u32);

/// The identity of a function of the surface program.
#[derive(Copy, Clone, Debug, PartialEq, Eq, Hash, Structural)]
pub struct FuncId(pub u32);

#[derive(Copy, Clone, Debug, PartialEq, Eq, Hash, Structural)]
pub enum Signedness {
    Unsigned,
    Signed,
}

/// The binary operators of the surface language.
#[derive(Copy, Clone, Debug, PartialEq, Eq, Hash, Structural)]
pub enum BinaryOpKind {
    Add,
    Subtract,
    Multiply,
    Divide,
    Equal,
    NotEqual,
    Less,
    LessEqual,
    Greater,
    GreaterEqual,
    And,
    Or,
    Xor,
    ShiftRight,
    ShiftLeft,
    Modulo,
}

/// The types of the surface language, after every generic has been replaced
/// by a concrete type.
#[derive(Debug)]
pub enum Type {
    Field,
    /// The length, then the element type.
    Array(u64, Box<Type>),
    /// The signedness, then the width in bits.
    Integer(Signedness, u32),
    Bool,
    /// The length in characters.
    String(u64),
    /// The length of the message, then the type of the captured values.
    FmtString(u64, Box<Type>),
    Unit,
    Tuple(Vec<Type>),
    Slice(Box<Type>),
    MutableReference(Box<Type>),
    /// The parameter types, then the return type.
    Function(Vec<Type>, Box<Type>),
}

/// What a name refers to.
#[derive(Debug)]
pub enum Definition {
    Local(LocalId),
    Function(FuncId),
    Builtin(String),
    LowLevel(String),
    Oracle(String),
}

/// A use of a name.
#[derive(Debug)]
pub struct Ident {
    pub location: Option<Location>,
    pub definition: Definition,
    pub mutable: bool,
    pub name: String,
    pub typ: Type,
}

#[derive(Debug)]
pub enum Literal {
    /// The value, then its type.
    Integer(u128, Type),
    Bool(bool),
}

/// The expressions that can stand as the index of an assignment target.
#[derive(Debug)]
pub enum Expression {
    Ident(Ident),
    Literal(Literal),
}

/// The target of an assignment, nested to any depth.
#[derive(Debug)]
pub enum LValue {
    Ident(Ident),
    Index { array: Box<LValue>, index: Box<Expression>, element_type: Type, location: Location },
    MemberAccess { object: Box<LValue>, field_index: usize },
    Dereference { reference: Box<LValue>, element_type: Type },
}

/// One parameter of a function.
#[derive(Debug)]
pub struct Parameter {
    pub id: LocalId,
    pub mutable: bool,
    pub name: String,
    pub typ: Type,
}

/// A function of the surface program.
#[derive(Debug)]
pub struct Function {
    pub id: FuncId,
    pub name: String,
    pub parameters: Vec<Parameter>,
    pub return_type: Type,
    /// Whether the function is computed outside the constraint system.
    pub unconstrained: bool,
}

/// The whole surface program.
#[derive(Debug)]
pub struct Program {
    pub functions: Vec<Function>,
}

} // verus!
