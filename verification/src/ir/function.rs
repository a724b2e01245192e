use vstd::prelude::*;
use crate::ir::basic_block::BasicBlockId;
use crate::ir::dfg::{DataFlowGraph, DfgView};
use crate::ir::types::Type;

verus! {

/// The identity of a function of the representation, unique within the whole
/// program.
#[derive(Copy, Clone, Debug, PartialEq, Eq, Hash, Structural)]
pub struct FunctionId(pub usize);

/// How a function will be executed.
#[derive(Copy, Clone, Debug, PartialEq, Eq, Hash, Structural)]
pub enum RuntimeType {
    /// An ordinary function, every step of which is constrained.
    Acir,
    /// An unconstrained helper, computed outside the constraint system.
    Brillig,
}

/// A function: its instructions, grouped into basic blocks, and the values
/// they use. Other functions are visible in it only once they have been
/// imported as values.
#[derive(Debug)]
pub struct Function {
    pub name: String,
    pub id: FunctionId,
    pub runtime: RuntimeType,
    /// The first basic block in the function.
    pub entry_block: BasicBlockId,
    pub dfg: DataFlowGraph,
}

/// The mathematical value of a [`Function`].
pub struct FunctionView {
    pub name: Seq<char>,
    pub id: FunctionId,
    pub runtime: RuntimeType,
    pub entry_block: BasicBlockId,
    pub dfg: DfgView,
}

impl FunctionView {
    /// A constrained function whose only block is its empty entry block.
    pub open spec fn new(name: Seq<char>, id: FunctionId) -> FunctionView {
        FunctionView {
            name,
            id,
            runtime: RuntimeType::Acir,
            entry_block: BasicBlockId(0),
            dfg: DfgView::empty().with_block(),
        }
    }

    pub open spec fn with_runtime(self, runtime: RuntimeType) -> FunctionView {
        FunctionView { runtime, ..self }
    }

    pub open spec fn with_dfg(self, dfg: DfgView) -> FunctionView {
        FunctionView { dfg, ..self }
    }
}

impl View for Function {
    type V = FunctionView;

    open spec fn view(&self) -> FunctionView {
        FunctionView {
            name: self.name@,
            id: self.id,
            runtime: self.runtime,
            entry_block: self.entry_block,
            dfg: self.dfg@,
        }
    }
}

/// The values of a sequence of functions, in order.
pub open spec fn view_functions(functions: Seq<Function>) -> Seq<FunctionView> {
    Seq::new(functions.len(), |i: int| functions[i]@)
}

impl Function {
    /// Creates a constrained function with an automatically inserted entry
    /// block. Its parameters are added later.
    pub fn new(name: String, id: FunctionId) -> (function: Function)
        ensures
            function@ == FunctionView::new(name@, id),
    {
        let mut dfg = DataFlowGraph::new();
        let entry_block = dfg.make_block();
        Function { name, id, runtime: RuntimeType::Acir, entry_block, dfg }
    }

    /// The first basic block in the function.
    pub fn entry_block(&self) -> (block: BasicBlockId)
        ensures
            block == self@.entry_block,
    {
        self.entry_block
    }

    pub fn id(&self) -> (id: FunctionId)
        ensures
            id == self@.id,
    {
        self.id
    }

    pub fn runtime(&self) -> (runtime: RuntimeType)
        ensures
            runtime == self@.runtime,
    {
        self.runtime
    }

    pub fn set_runtime(&mut self, runtime: RuntimeType)
        ensures
            final(self)@ == old(self)@.with_runtime(runtime),
    {
        self.runtime = runtime;
    }
}

/// The parameter and return types of a function.
#[derive(Debug)]
pub struct Signature {
    pub params: Vec<Type>,
    pub returns: Vec<Type>,
}

impl Default for Signature {
    fn default() -> (signature: Signature)
        ensures
            signature.params@.len() == 0,
            signature.returns@.len() == 0,
    {
        Signature { params: Vec::new(), returns: Vec::new() }
    }
}

} // verus!
