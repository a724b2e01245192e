use vstd::prelude::*;
use crate::ir::basic_block::BasicBlockId;
use crate::ir::function::FunctionId;
use crate::ir::types::{Type, TypeView};

verus! {

/// The identity of a value: its position among the values of one function.
#[derive(Copy, Clone, Debug, PartialEq, Eq, Hash, Structural)]
pub struct ValueId(pub usize);

impl View for ValueId {
    type V = ValueId;

    open spec fn view(&self) -> ValueId {
        *self
    }
}

/// Where a value comes from.
#[derive(Copy, Clone, Debug, PartialEq, Eq, Hash, Structural)]
pub enum ValueKind {
    /// The result of an instruction.
    Instruction,
    /// A parameter of a block; the entry block's parameters are the
    /// function's.
    Param { block: BasicBlockId },
    /// A constant known while compiling.
    NumericConstant { constant: u128 },
    /// Another function, made visible in this one so that it can be called.
    Function { function: FunctionId },
}

/// A value of a function: where it comes from and what type it has.
#[derive(Debug)]
pub struct Value {
    pub kind: ValueKind,
    pub typ: Type,
}

/// The mathematical value of a [`Value`].
pub struct ValueView {
    pub kind: ValueKind,
    pub typ: TypeView,
}

impl View for Value {
    type V = ValueView;

    open spec fn view(&self) -> ValueView {
        ValueView { kind: self.kind, typ: self.typ@ }
    }
}

/// The values of a sequence of [`Value`]s, in order.
pub open spec fn view_values(values: Seq<Value>) -> Seq<ValueView> {
    Seq::new(values.len(), |i: int| values[i]@)
}

} // verus!
