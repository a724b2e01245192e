use vstd::prelude::*;
use crate::errors::InternalError;
use crate::ir::basic_block::{BasicBlockId, BlockView};
use crate::ir::dfg::DfgView;
use crate::ir::function::{Function, FunctionId, FunctionView, RuntimeType, view_functions};
use crate::ir::instruction::{
    BinaryOp, Instruction, InstructionView, Location, TerminatorInstruction, TerminatorView,
};
use crate::ir::types::{Type, TypeView, view_types};
use crate::ir::value::{ValueId, ValueKind, ValueView};

verus! {

/// Builds functions one after another. It keeps a current function, a current
/// block in it to which instructions are appended, and the source place that
/// inserted instructions are tagged with.
#[derive(Debug)]
pub struct FunctionBuilder {
    pub current_function: Function,
    pub current_block: BasicBlockId,
    pub finished_functions: Vec<Function>,
    pub current_location: Option<Location>,
}

/// The mathematical value of a [`FunctionBuilder`].
pub struct BuilderView {
    pub function: FunctionView,
    pub current_block: BasicBlockId,
    pub finished: Seq<FunctionView>,
    pub location: Option<Location>,
}

impl View for FunctionBuilder {
    type V = BuilderView;

    open spec fn view(&self) -> BuilderView {
        BuilderView {
            function: self.current_function@,
            current_block: self.current_block,
            finished: view_functions(self.finished_functions@),
            location: self.current_location,
        }
    }
}

/// The type of the result of a binary instruction: a boolean for the
/// comparisons, the type of the left operand for every other operator.
pub open spec fn binary_result_type(operator: BinaryOp, lhs_type: TypeView) -> TypeView {
    match operator {
        BinaryOp::Eq | BinaryOp::Lt => TypeView::bool(),
        _ => lhs_type,
    }
}

/// `count` identities in a row, starting at `first`.
pub open spec fn consecutive_values(first: ValueId, count: nat) -> Seq<ValueId> {
    Seq::new(count, |i: int| ValueId((first.0 + i) as usize))
}

/// One instruction result for each of `types`, in order.
pub open spec fn result_values(types: Seq<TypeView>) -> Seq<ValueView> {
    Seq::new(types.len(), |i: int| ValueView { kind: ValueKind::Instruction, typ: types[i] })
}

impl BuilderView {
    /// The state of a builder that has just started on its first function.
    pub open spec fn new(name: Seq<char>, id: FunctionId, runtime: RuntimeType) -> BuilderView {
        BuilderView {
            function: FunctionView::new(name, id).with_runtime(runtime),
            current_block: BasicBlockId(0),
            finished: Seq::empty(),
            location: None,
        }
    }

    /// The current block and the entry block exist, and the values and
    /// blocks can be counted in a machine word.
    pub open spec fn wf(self) -> bool {
        &&& self.dfg().has_block(self.current_block)
        &&& self.dfg().has_block(self.function.entry_block)
        &&& self.dfg().values.len() <= usize::MAX
        &&& self.dfg().blocks.len() <= usize::MAX
    }

    pub open spec fn dfg(self) -> DfgView {
        self.function.dfg
    }

    pub open spec fn with_dfg(self, dfg: DfgView) -> BuilderView {
        BuilderView { function: self.function.with_dfg(dfg), ..self }
    }

    pub open spec fn has_value(self, value: ValueId) -> bool {
        self.dfg().has_value(value)
    }

    pub open spec fn type_of_value(self, value: ValueId) -> TypeView {
        self.dfg().type_of_value(value)
    }

    /// The identity that the next new value will get.
    pub open spec fn next_value(self) -> ValueId {
        self.dfg().next_value()
    }

    /// The identity that the next new block will get.
    pub open spec fn next_block(self) -> BasicBlockId {
        self.dfg().next_block()
    }

    /// Whether the current block already ends in a terminator, so that
    /// nothing can be appended to it.
    pub open spec fn terminated(self) -> bool {
        self.dfg().block(self.current_block).terminator is Some
    }

    /// What an insertion into a terminated current block fails with.
    pub open spec fn terminated_error(self) -> InternalError {
        InternalError::BlockAlreadyTerminated { block: self.current_block.0 }
    }

    /// The instructions of the current block.
    pub open spec fn current_instructions(self) -> Seq<InstructionView> {
        self.dfg().block(self.current_block).instructions
    }

    /// Starts a function of the given kind; the function built so far is
    /// finished and kept.
    pub open spec fn new_function(
        self,
        name: Seq<char>,
        id: FunctionId,
        runtime: RuntimeType,
    ) -> BuilderView {
        BuilderView {
            function: FunctionView::new(name, id).with_runtime(runtime),
            current_block: BasicBlockId(0),
            finished: self.finished.push(self.function),
            ..self
        }
    }

    pub open spec fn set_location(self, location: Location) -> BuilderView {
        BuilderView { location: Some(location), ..self }
    }

    pub open spec fn switch_to_block(self, block: BasicBlockId) -> BuilderView {
        BuilderView { current_block: block, ..self }
    }

    pub open spec fn insert_block(self) -> BuilderView {
        self.with_dfg(self.dfg().with_block())
    }

    /// Adds a parameter to the entry block.
    pub open spec fn add_parameter(self, typ: TypeView) -> BuilderView {
        self.add_block_parameter(self.function.entry_block, typ)
    }

    pub open spec fn add_block_parameter(self, block: BasicBlockId, typ: TypeView) -> BuilderView {
        self.with_dfg(self.dfg().with_block_parameter(block, typ))
    }

    pub open spec fn numeric_constant(self, constant: u128, typ: TypeView) -> BuilderView {
        self.with_dfg(self.dfg().with_value(ValueKind::NumericConstant { constant }, typ))
    }

    pub open spec fn field_constant(self, constant: u128) -> BuilderView {
        self.numeric_constant(constant, TypeView::field())
    }

    pub open spec fn import_function(self, function: FunctionId) -> BuilderView {
        self.with_dfg(self.dfg().with_value(ValueKind::Function { function }, TypeView::Function))
    }

    /// Appends an instruction to the current block, tagged with the current
    /// source place.
    pub open spec fn insert(self, instruction: InstructionView) -> BuilderView {
        self.with_dfg(self.dfg().with_instruction(self.current_block, instruction, self.location))
    }

    /// Adds the value that an instruction about to be inserted will define.
    pub open spec fn with_result(self, typ: TypeView) -> BuilderView {
        self.with_dfg(self.dfg().with_value(ValueKind::Instruction, typ))
    }

    pub open spec fn insert_binary(
        self,
        lhs: ValueId,
        operator: BinaryOp,
        rhs: ValueId,
    ) -> BuilderView {
        self.with_result(binary_result_type(operator, self.type_of_value(lhs))).insert(
            InstructionView::Binary { lhs, operator, rhs, result: self.next_value() },
        )
    }

    pub open spec fn insert_not(self, value: ValueId) -> BuilderView {
        self.with_result(self.type_of_value(value)).insert(
            InstructionView::Not { value, result: self.next_value() },
        )
    }

    pub open spec fn insert_truncate(
        self,
        value: ValueId,
        bit_size: u32,
        max_bit_size: u32,
    ) -> BuilderView {
        self.with_result(self.type_of_value(value)).insert(
            InstructionView::Truncate { value, bit_size, max_bit_size, result: self.next_value() },
        )
    }

    pub open spec fn insert_allocate(self) -> BuilderView {
        self.with_result(TypeView::Reference).insert(
            InstructionView::Allocate { result: self.next_value() },
        )
    }

    pub open spec fn insert_load(self, address: ValueId, typ: TypeView) -> BuilderView {
        self.with_result(typ).insert(InstructionView::Load { address, result: self.next_value() })
    }

    pub open spec fn insert_store(self, address: ValueId, value: ValueId) -> BuilderView {
        self.insert(InstructionView::Store { address, value })
    }

    pub open spec fn insert_array_get(
        self,
        array: ValueId,
        index: ValueId,
        element_type: TypeView,
    ) -> BuilderView {
        self.with_result(element_type).insert(
            InstructionView::ArrayGet { array, index, result: self.next_value() },
        )
    }

    pub open spec fn insert_array_set(
        self,
        array: ValueId,
        index: ValueId,
        value: ValueId,
    ) -> BuilderView {
        self.with_result(self.type_of_value(array)).insert(
            InstructionView::ArraySet { array, index, value, result: self.next_value() },
        )
    }

    /// The values that a call inserted now would define.
    pub open spec fn call_results(self, result_types: Seq<TypeView>) -> Seq<ValueId> {
        consecutive_values(self.next_value(), result_types.len())
    }

    pub open spec fn insert_call(
        self,
        function: ValueId,
        arguments: Seq<ValueId>,
        result_types: Seq<TypeView>,
    ) -> BuilderView {
        self.with_dfg(
            DfgView { values: self.dfg().values + result_values(result_types), ..self.dfg() },
        ).insert(
            InstructionView::Call { function, arguments, results: self.call_results(result_types) },
        )
    }

    pub open spec fn terminate(self, terminator: TerminatorView) -> BuilderView {
        self.with_dfg(self.dfg().with_terminator(self.current_block, terminator))
    }

    pub open spec fn terminate_with_jmp(
        self,
        destination: BasicBlockId,
        arguments: Seq<ValueId>,
    ) -> BuilderView {
        self.terminate(TerminatorView::Jmp { destination, arguments })
    }

    pub open spec fn terminate_with_jmpif(
        self,
        condition: ValueId,
        then_destination: BasicBlockId,
        else_destination: BasicBlockId,
    ) -> BuilderView {
        self.terminate(TerminatorView::JmpIf { condition, then_destination, else_destination })
    }

    pub open spec fn terminate_with_return(self, return_values: Seq<ValueId>) -> BuilderView {
        self.terminate(TerminatorView::Return { return_values })
    }

    /// Whether this state can have come from `old` by adding values, blocks,
    /// parameters and instructions alone: the current block is the same and
    /// is terminated or not as before, the values of `old` are still there,
    /// unchanged, no block has lost or changed its terminator, and a current
    /// block that is terminated has the instructions it had.
    pub open spec fn continues(self, old: BuilderView) -> bool {
        &&& self.wf()
        &&& self.current_block == old.current_block
        &&& self.function.entry_block == old.function.entry_block
        &&& self.terminated() == old.terminated()
        &&& old.terminated() ==> self.current_instructions() == old.current_instructions()
        &&& old.dfg().values.is_prefix_of(self.dfg().values)
        &&& old.dfg().blocks.len() <= self.dfg().blocks.len()
        &&& forall|block: int|
            0 <= block < old.dfg().blocks.len() && block != old.current_block.0
                ==> (#[trigger] self.dfg().blocks[block]).terminator
                == old.dfg().blocks[block].terminator
    }

    /// Whether `value` is a value of type `typ` here.
    pub open spec fn has_typed_value(self, value: ValueId, typ: TypeView) -> bool {
        self.has_value(value) && self.type_of_value(value) == typ
    }

    /// Every function built, the current one last.
    pub open spec fn finish(self) -> Seq<FunctionView> {
        self.finished.push(self.function)
    }
}

/// A state that continues one that continues a third continues the third.
pub proof fn lemma_continues_transitive(
    earliest: BuilderView,
    earlier: BuilderView,
    latest: BuilderView,
)
    requires
        earlier.continues(earliest),
        latest.continues(earlier),
    ensures
        latest.continues(earliest),
{
}

/// What holds of a value holds of it in every state that continues.
pub proof fn lemma_continues_keeps_values(earlier: BuilderView, later: BuilderView, value: ValueId)
    requires
        later.continues(earlier),
        earlier.has_value(value),
    ensures
        later.has_value(value),
        later.type_of_value(value) == earlier.type_of_value(value),
        later.dfg().get_numeric_constant(value) == earlier.dfg().get_numeric_constant(value),
{
}

impl FunctionBuilder {
    /// Creates a builder positioned at the entry block of a fresh function.
    pub fn new(name: String, id: FunctionId, runtime: RuntimeType) -> (builder: FunctionBuilder)
        ensures
            builder@ == BuilderView::new(name@, id, runtime),
            builder@.wf(),
            !builder@.terminated(),
    {
        let mut function = Function::new(name, id);
        function.set_runtime(runtime);
        let current_block = function.entry_block();
        let builder = FunctionBuilder {
            current_function: function,
            current_block,
            finished_functions: Vec::new(),
            current_location: None,
        };
        assert(builder@.finished =~= Seq::empty());
        builder
    }

    /// Finishes the current function and starts a new one of the given kind,
    /// positioned at its entry block. The finished function cannot be resumed.
    pub fn new_function_with_type(&mut self, name: String, id: FunctionId, runtime: RuntimeType)
        ensures
            final(self)@ == old(self)@.new_function(name@, id, runtime),
            final(self)@.wf(),
            !final(self)@.terminated(),
    {
        let mut function = Function::new(name, id);
        function.set_runtime(runtime);
        self.current_block = function.entry_block();
        let mut finished = function;
        std::mem::swap(&mut self.current_function, &mut finished);
        self.finished_functions.push(finished);
        assert(final(self)@.finished =~= old(self)@.finished.push(old(self)@.function));
    }

    /// Finishes the current function and starts a constrained one.
    pub fn new_function(&mut self, name: String, id: FunctionId)
        ensures
            final(self)@ == old(self)@.new_function(name@, id, RuntimeType::Acir),
            final(self)@.wf(),
            !final(self)@.terminated(),
    {
        self.new_function_with_type(name, id, RuntimeType::Acir);
    }

    /// Finishes the current function and starts an unconstrained one.
    pub fn new_brillig_function(&mut self, name: String, id: FunctionId)
        ensures
            final(self)@ == old(self)@.new_function(name@, id, RuntimeType::Brillig),
            final(self)@.wf(),
            !final(self)@.terminated(),
    {
        self.new_function_with_type(name, id, RuntimeType::Brillig);
    }

    /// Hands out every function built, the current one last.
    pub fn finish(self) -> (functions: Vec<Function>)
        ensures
            view_functions(functions@) == self@.finish(),
    {
        let mut functions = self.finished_functions;
        functions.push(self.current_function);
        assert(view_functions(functions@) =~= self@.finish());
        functions
    }

    /// Sets the source place that instructions inserted from now on are
    /// tagged with.
    pub fn set_location(&mut self, location: Location)
        ensures
            final(self)@ == old(self)@.set_location(location),
            old(self)@.wf() ==> final(self)@.continues(old(self)@),
    {
        self.current_location = Some(location);
    }

    pub fn current_block(&self) -> (block: BasicBlockId)
        ensures
            block == self@.current_block,
    {
        self.current_block
    }

    /// Whether the current block already ends in a terminator.
    pub fn is_terminated(&self) -> (terminated: bool)
        requires
            self@.wf(),
        ensures
            terminated == self@.terminated(),
    {
        self.current_function.dfg.is_terminated(self.current_block)
    }

    /// Whether `value` is a value of the current function.
    pub fn has_value(&self, value: ValueId) -> (known: bool)
        ensures
            known == self@.has_value(value),
    {
        self.current_function.dfg.has_value(value)
    }

    pub fn type_of_value(&self, value: ValueId) -> (typ: Type)
        requires
            self@.has_value(value),
        ensures
            typ@ == self@.type_of_value(value),
    {
        self.current_function.dfg.type_of_value(value).duplicate()
    }

    /// Makes `block` the block that instructions are appended to.
    pub fn switch_to_block(&mut self, block: BasicBlockId)
        requires
            old(self)@.wf(),
            old(self)@.dfg().has_block(block),
        ensures
            final(self)@ == old(self)@.switch_to_block(block),
            final(self)@.wf(),
    {
        self.current_block = block;
    }

    /// Adds an empty block to the current function.
    pub fn insert_block(&mut self) -> (block: BasicBlockId)
        ensures
            final(self)@ == old(self)@.insert_block(),
            block == old(self)@.next_block(),
            old(self)@.wf() ==> final(self)@.dfg().has_block(block),
            old(self)@.wf() ==> final(self)@.dfg().block(block) == BlockView::empty(),
            old(self)@.wf() ==> final(self)@.continues(old(self)@),
    {
        self.current_function.dfg.make_block()
    }

    /// Adds a parameter to the current function, that is to its entry block.
    pub fn add_parameter(&mut self, typ: Type) -> (value: ValueId)
        requires
            old(self)@.wf(),
        ensures
            final(self)@ == old(self)@.add_parameter(typ@),
            value == old(self)@.next_value(),
            old(self)@.wf() ==> final(self)@.has_typed_value(value, typ@),
            final(self)@.continues(old(self)@),
    {
        let entry = self.current_function.entry_block();
        self.current_function.dfg.add_block_parameter(entry, typ)
    }

    pub fn add_block_parameter(&mut self, block: BasicBlockId, typ: Type) -> (value: ValueId)
        requires
            old(self)@.wf(),
            old(self)@.dfg().has_block(block),
        ensures
            final(self)@ == old(self)@.add_block_parameter(block, typ@),
            value == old(self)@.next_value(),
            old(self)@.wf() ==> final(self)@.has_typed_value(value, typ@),
            final(self)@.continues(old(self)@),
    {
        self.current_function.dfg.add_block_parameter(block, typ)
    }

    /// Adds a constant of the given type.
    pub fn numeric_constant(&mut self, constant: u128, typ: Type) -> (value: ValueId)
        ensures
            final(self)@ == old(self)@.numeric_constant(constant, typ@),
            value == old(self)@.next_value(),
            old(self)@.wf() ==> final(self)@.has_typed_value(value, typ@),
            old(self)@.wf() ==> final(self)@.dfg().get_numeric_constant(value) == Some(constant),
            old(self)@.wf() ==> final(self)@.continues(old(self)@),
    {
        self.current_function.dfg.make_value(ValueKind::NumericConstant { constant }, typ)
    }

    /// Adds a constant of the native field.
    pub fn field_constant(&mut self, constant: u128) -> (value: ValueId)
        ensures
            final(self)@ == old(self)@.field_constant(constant),
            value == old(self)@.next_value(),
            old(self)@.wf() ==> final(self)@.has_typed_value(value, TypeView::field()),
            old(self)@.wf() ==> final(self)@.dfg().get_numeric_constant(value) == Some(constant),
            old(self)@.wf() ==> final(self)@.continues(old(self)@),
    {
        self.numeric_constant(constant, Type::field())
    }

    /// Makes another function visible in the current one and returns the
    /// value that stands for it.
    pub fn import_function(&mut self, function: FunctionId) -> (value: ValueId)
        ensures
            final(self)@ == old(self)@.import_function(function),
            value == old(self)@.next_value(),
            old(self)@.wf() ==> final(self)@.has_typed_value(value, TypeView::Function),
            old(self)@.wf() ==> final(self)@.continues(old(self)@),
    {
        self.current_function.dfg.make_value(ValueKind::Function { function }, Type::Function)
    }

    /// Fails if the current block is terminated; changes nothing.
    fn check_open(&self) -> (result: Result<(), InternalError>)
        requires
            self@.wf(),
        ensures
            result is Ok <==> !self@.terminated(),
            result is Err ==> result->Err_0 == self@.terminated_error(),
    {
        if self.is_terminated() {
            Err(InternalError::BlockAlreadyTerminated { block: self.current_block.0 })
        } else {
            Ok(())
        }
    }

    /// Appends the instruction that defines one new value of type `typ`.
    fn define(&mut self, typ: Type) -> (value: ValueId)
        ensures
            final(self)@.dfg().bounded(),
            final(self)@ == old(self)@.with_result(typ@),
            value == old(self)@.next_value(),
    {
        self.current_function.dfg.make_value(ValueKind::Instruction, typ)
    }

    fn append(&mut self, instruction: Instruction)
        requires
            old(self)@.wf(),
        ensures
            final(self)@.dfg().bounded(),
            final(self)@ == old(self)@.insert(instruction@),
    {
        self.current_function.dfg.insert_instruction(
            self.current_block,
            instruction,
            self.current_location,
        );
    }

    /// Inserts a binary instruction at the end of the current block.
    pub fn insert_binary(&mut self, lhs: ValueId, operator: BinaryOp, rhs: ValueId) -> (result:
        Result<ValueId, InternalError>)
        requires
            old(self)@.wf(),
            old(self)@.has_value(lhs),
        ensures
            final(self)@.continues(old(self)@),
            match result {
                Ok(value) => {
                    &&& !old(self)@.terminated()
                    &&& final(self)@ == old(self)@.insert_binary(lhs, operator, rhs)
                    &&& value == old(self)@.next_value()
                    &&& final(self)@.has_typed_value(
                        value,
                        binary_result_type(operator, old(self)@.type_of_value(lhs)),
                    )
                },
                Err(error) => {
                    &&& old(self)@.terminated()
                    &&& final(self)@ == old(self)@
                    &&& error == old(self)@.terminated_error()
                },
            },
    {
        self.check_open()?;
        let typ = match operator {
            BinaryOp::Eq | BinaryOp::Lt => Type::bool(),
            _ => self.type_of_value(lhs),
        };
        let result = self.define(typ);
        self.append(Instruction::Binary { lhs, operator, rhs, result });
        Ok(result)
    }

    /// Inserts a logical negation at the end of the current block.
    pub fn insert_not(&mut self, value: ValueId) -> (result: Result<ValueId, InternalError>)
        requires
            old(self)@.wf(),
            old(self)@.has_value(value),
        ensures
            final(self)@.continues(old(self)@),
            match result {
                Ok(negated) => {
                    &&& !old(self)@.terminated()
                    &&& final(self)@ == old(self)@.insert_not(value)
                    &&& negated == old(self)@.next_value()
                    &&& final(self)@.has_typed_value(negated, old(self)@.type_of_value(value))
                },
                Err(error) => {
                    &&& old(self)@.terminated()
                    &&& final(self)@ == old(self)@
                    &&& error == old(self)@.terminated_error()
                },
            },
    {
        self.check_open()?;
        let typ = self.type_of_value(value);
        let result = self.define(typ);
        self.append(Instruction::Not { value, result });
        Ok(result)
    }

    /// Inserts a truncation of `value`, which may occupy `max_bit_size` bits,
    /// to `bit_size` bits.
    pub fn insert_truncate(&mut self, value: ValueId, bit_size: u32, max_bit_size: u32) -> (result:
        Result<ValueId, InternalError>)
        requires
            old(self)@.wf(),
            old(self)@.has_value(value),
        ensures
            final(self)@.continues(old(self)@),
            match result {
                Ok(truncated) => {
                    &&& !old(self)@.terminated()
                    &&& final(self)@ == old(self)@.insert_truncate(value, bit_size, max_bit_size)
                    &&& truncated == old(self)@.next_value()
                    &&& final(self)@.has_typed_value(truncated, old(self)@.type_of_value(value))
                },
                Err(error) => {
                    &&& old(self)@.terminated()
                    &&& final(self)@ == old(self)@
                    &&& error == old(self)@.terminated_error()
                },
            },
    {
        self.check_open()?;
        let typ = self.type_of_value(value);
        let result = self.define(typ);
        self.append(Instruction::Truncate { value, bit_size, max_bit_size, result });
        Ok(result)
    }

    /// Inserts the allocation of one memory slot; the result refers to it.
    pub fn insert_allocate(&mut self) -> (result: Result<ValueId, InternalError>)
        requires
            old(self)@.wf(),
        ensures
            final(self)@.continues(old(self)@),
            match result {
                Ok(address) => {
                    &&& !old(self)@.terminated()
                    &&& final(self)@ == old(self)@.insert_allocate()
                    &&& address == old(self)@.next_value()
                    &&& final(self)@.has_typed_value(address, TypeView::Reference)
                },
                Err(error) => {
                    &&& old(self)@.terminated()
                    &&& final(self)@ == old(self)@
                    &&& error == old(self)@.terminated_error()
                },
            },
    {
        self.check_open()?;
        let result = self.define(Type::Reference);
        self.append(Instruction::Allocate { result });
        Ok(result)
    }

    /// Inserts a load of a value of type `typ` from `address`.
    pub fn insert_load(&mut self, address: ValueId, typ: Type) -> (result: Result<
        ValueId,
        InternalError,
    >)
        requires
            old(self)@.wf(),
        ensures
            final(self)@.continues(old(self)@),
            match result {
                Ok(loaded) => {
                    &&& !old(self)@.terminated()
                    &&& final(self)@ == old(self)@.insert_load(address, typ@)
                    &&& loaded == old(self)@.next_value()
                    &&& final(self)@.has_typed_value(loaded, typ@)
                },
                Err(error) => {
                    &&& old(self)@.terminated()
                    &&& final(self)@ == old(self)@
                    &&& error == old(self)@.terminated_error()
                },
            },
    {
        self.check_open()?;
        let result = self.define(typ);
        self.append(Instruction::Load { address, result });
        Ok(result)
    }

    /// Inserts a store of `value` to `address`.
    pub fn insert_store(&mut self, address: ValueId, value: ValueId) -> (result: Result<
        (),
        InternalError,
    >)
        requires
            old(self)@.wf(),
        ensures
            final(self)@.continues(old(self)@),
            match result {
                Ok(_) => {
                    &&& !old(self)@.terminated()
                    &&& final(self)@ == old(self)@.insert_store(address, value)
                },
                Err(error) => {
                    &&& old(self)@.terminated()
                    &&& final(self)@ == old(self)@
                    &&& error == old(self)@.terminated_error()
                },
            },
    {
        self.check_open()?;
        self.append(Instruction::Store { address, value });
        Ok(())
    }

    /// Inserts the read of the element of type `element_type` at `index`.
    pub fn insert_array_get(
        &mut self,
        array: ValueId,
        index: ValueId,
        element_type: Type,
    ) -> (result: Result<ValueId, InternalError>)
        requires
            old(self)@.wf(),
        ensures
            final(self)@.continues(old(self)@),
            match result {
                Ok(element) => {
                    &&& !old(self)@.terminated()
                    &&& final(self)@ == old(self)@.insert_array_get(array, index, element_type@)
                    &&& element == old(self)@.next_value()
                    &&& final(self)@.has_typed_value(element, element_type@)
                },
                Err(error) => {
                    &&& old(self)@.terminated()
                    &&& final(self)@ == old(self)@
                    &&& error == old(self)@.terminated_error()
                },
            },
    {
        self.check_open()?;
        let result = self.define(element_type);
        self.append(Instruction::ArrayGet { array, index, result });
        Ok(result)
    }

    /// Inserts the creation of an array that differs from `array` at `index`,
    /// where it holds `value`.
    pub fn insert_array_set(&mut self, array: ValueId, index: ValueId, value: ValueId) -> (result:
        Result<ValueId, InternalError>)
        requires
            old(self)@.wf(),
            old(self)@.has_value(array),
        ensures
            final(self)@.continues(old(self)@),
            match result {
                Ok(updated) => {
                    &&& !old(self)@.terminated()
                    &&& final(self)@ == old(self)@.insert_array_set(array, index, value)
                    &&& updated == old(self)@.next_value()
                    &&& final(self)@.has_typed_value(updated, old(self)@.type_of_value(array))
                },
                Err(error) => {
                    &&& old(self)@.terminated()
                    &&& final(self)@ == old(self)@
                    &&& error == old(self)@.terminated_error()
                },
            },
    {
        self.check_open()?;
        let typ = self.type_of_value(array);
        let result = self.define(typ);
        self.append(Instruction::ArraySet { array, index, value, result });
        Ok(result)
    }

    /// Ends the current block with a jump, replacing an earlier terminator.
    pub fn terminate_with_jmp(&mut self, destination: BasicBlockId, arguments: Vec<ValueId>)
        requires
            old(self)@.wf(),
        ensures
            final(self)@ == old(self)@.terminate_with_jmp(destination, arguments@),
            final(self)@.wf(),
    {
        self.current_function.dfg.set_terminator(
            self.current_block,
            TerminatorInstruction::Jmp { destination, arguments },
        );
    }

    /// Ends the current block with a conditional jump, replacing an earlier
    /// terminator.
    pub fn terminate_with_jmpif(
        &mut self,
        condition: ValueId,
        then_destination: BasicBlockId,
        else_destination: BasicBlockId,
    )
        requires
            old(self)@.wf(),
        ensures
            final(self)@ == old(self)@.terminate_with_jmpif(
                condition,
                then_destination,
                else_destination,
            ),
            final(self)@.wf(),
    {
        self.current_function.dfg.set_terminator(
            self.current_block,
            TerminatorInstruction::JmpIf { condition, then_destination, else_destination },
        );
    }

    /// Ends the current block with a return, replacing an earlier terminator.
    pub fn terminate_with_return(&mut self, return_values: Vec<ValueId>)
        requires
            old(self)@.wf(),
        ensures
            final(self)@ == old(self)@.terminate_with_return(return_values@),
            final(self)@.wf(),
    {
        self.current_function.dfg.set_terminator(
            self.current_block,
            TerminatorInstruction::Return { return_values },
        );
    }
    /// Inserts a call of `function` that defines one value for each of
    /// `result_types`, and returns those values in order.
    pub fn insert_call(
        &mut self,
        function: ValueId,
        arguments: Vec<ValueId>,
        result_types: Vec<Type>,
    ) -> (result: Result<Vec<ValueId>, InternalError>)
        requires
            old(self)@.wf(),
        ensures
            final(self)@.continues(old(self)@),
            match result {
                Ok(results) => {
                    &&& !old(self)@.terminated()
                    &&& final(self)@ == old(self)@.insert_call(
                        function,
                        arguments@,
                        view_types(result_types@),
                    )
                    &&& results@ == old(self)@.call_results(view_types(result_types@))
                },
                Err(error) => {
                    &&& old(self)@.terminated()
                    &&& final(self)@ == old(self)@
                    &&& error == old(self)@.terminated_error()
                },
            },
    {
        self.check_open()?;
        let ghost types = view_types(result_types@);
        let ghost first = old(self)@.next_value();
        let mut results: Vec<ValueId> = Vec::new();
        let mut copies: Vec<ValueId> = Vec::new();
        let mut i: usize = 0;
        while i < result_types.len()
            invariant
                i <= result_types.len(),
                types == view_types(result_types@),
                first == old(self)@.next_value(),
                self@.wf(),
                results@ == consecutive_values(first, i as nat),
                copies@ == results@,
                self@ == old(self)@.with_dfg(
                    DfgView {
                        values: old(self)@.dfg().values + result_values(types.take(i as int)),
                        ..old(self)@.dfg()
                    },
                ),
            decreases result_types.len() - i,
        {
            assert(self@.dfg().values.len() == self.current_function.dfg.values.len());
            assert(old(self)@.dfg().values.len() == old(self).current_function.dfg.values.len());
            let value = self.define(result_types[i].duplicate());
            results.push(value);
            copies.push(value);
            assert(types.take(i + 1) =~= types.take(i as int).push(types[i as int]));
            assert(result_values(types.take(i + 1)) =~= result_values(types.take(i as int)).push(
                ValueView { kind: ValueKind::Instruction, typ: types[i as int] },
            ));
            assert(self@.dfg().values =~= old(self)@.dfg().values + result_values(
                types.take(i + 1),
            ));
            assert(results@ =~= consecutive_values(first, (i + 1) as nat));
            i += 1;
        }
        assert(types.take(i as int) =~= types);
        self.append(Instruction::Call { function, arguments, results: copies });
        Ok(results)
    }
}

} // verus!
