use vstd::prelude::*;
use crate::ir::basic_block::{BasicBlock, BasicBlockId, BlockView, view_blocks};
use crate::ir::instruction::{
    Instruction, InstructionView, Location, TerminatorInstruction, TerminatorView,
};
use crate::ir::types::{Type, TypeView};
use crate::ir::value::{Value, ValueId, ValueKind, ValueView, view_values};

verus! {

/// The values and blocks of one function.
#[derive(Debug)]
pub struct DataFlowGraph {
    pub values: Vec<Value>,
    pub blocks: Vec<BasicBlock>,
}

/// The mathematical value of a [`DataFlowGraph`].
pub struct DfgView {
    pub values: Seq<ValueView>,
    pub blocks: Seq<BlockView>,
}

impl DfgView {
    /// A graph without values or blocks.
    pub open spec fn empty() -> DfgView {
        DfgView { values: Seq::empty(), blocks: Seq::empty() }
    }

    /// The values and the blocks can each be counted in a machine word.
    pub open spec fn bounded(self) -> bool {
        self.values.len() <= usize::MAX && self.blocks.len() <= usize::MAX
    }

    pub open spec fn has_value(self, value: ValueId) -> bool {
        value.0 < self.values.len()
    }

    pub open spec fn has_block(self, block: BasicBlockId) -> bool {
        block.0 < self.blocks.len()
    }

    /// The identity that the next new value will get.
    pub open spec fn next_value(self) -> ValueId {
        ValueId(self.values.len() as usize)
    }

    /// The identity that the next new block will get.
    pub open spec fn next_block(self) -> BasicBlockId {
        BasicBlockId(self.blocks.len() as usize)
    }

    pub open spec fn type_of_value(self, value: ValueId) -> TypeView {
        self.values[value.0 as int].typ
    }

    /// The number that a value stands for, if it is a constant.
    pub open spec fn get_numeric_constant(self, value: ValueId) -> Option<u128> {
        match self.values[value.0 as int].kind {
            ValueKind::NumericConstant { constant } => Some(constant),
            _ => None,
        }
    }

    pub open spec fn block(self, block: BasicBlockId) -> BlockView {
        self.blocks[block.0 as int]
    }

    pub open spec fn with_value(self, kind: ValueKind, typ: TypeView) -> DfgView {
        DfgView { values: self.values.push(ValueView { kind, typ }), ..self }
    }

    pub open spec fn with_block(self) -> DfgView {
        DfgView { blocks: self.blocks.push(BlockView::empty()), ..self }
    }

    pub open spec fn with_block_parameter(self, block: BasicBlockId, typ: TypeView) -> DfgView {
        DfgView {
            values: self.values.push(ValueView { kind: ValueKind::Param { block }, typ }),
            blocks: self.blocks.update(
                block.0 as int,
                self.block(block).with_parameter(self.next_value()),
            ),
        }
    }

    pub open spec fn with_instruction(
        self,
        block: BasicBlockId,
        instruction: InstructionView,
        location: Option<Location>,
    ) -> DfgView {
        DfgView {
            blocks: self.blocks.update(
                block.0 as int,
                self.block(block).with_instruction(instruction, location),
            ),
            ..self
        }
    }

    pub open spec fn with_terminator(
        self,
        block: BasicBlockId,
        terminator: TerminatorView,
    ) -> DfgView {
        DfgView {
            blocks: self.blocks.update(
                block.0 as int,
                self.block(block).with_terminator(terminator),
            ),
            ..self
        }
    }
}

impl View for DataFlowGraph {
    type V = DfgView;

    open spec fn view(&self) -> DfgView {
        DfgView { values: view_values(self.values@), blocks: view_blocks(self.blocks@) }
    }
}

impl DataFlowGraph {
    /// The values and blocks of a graph in memory can be counted.
    pub proof fn lemma_bounded(&self)
        ensures
            self@.bounded(),
    {
        assert(self@.values.len() == self.values.len());
        assert(self@.blocks.len() == self.blocks.len());
    }

    /// A graph without values or blocks.
    pub fn new() -> (dfg: DataFlowGraph)
        ensures
            dfg@ == DfgView::empty(),
            dfg@.bounded(),
    {
        let dfg = DataFlowGraph { values: Vec::new(), blocks: Vec::new() };
        assert(dfg@.values =~= Seq::empty());
        assert(dfg@.blocks =~= Seq::empty());
        dfg
    }

    /// Whether `value` is one of this graph's values.
    pub fn has_value(&self, value: ValueId) -> (known: bool)
        ensures
            known == self@.has_value(value),
    {
        value.0 < self.values.len()
    }

    /// Whether `block` is one of this graph's blocks.
    pub fn has_block(&self, block: BasicBlockId) -> (known: bool)
        ensures
            known == self@.has_block(block),
    {
        block.0 < self.blocks.len()
    }

    /// Adds a value and returns its identity.
    pub fn make_value(&mut self, kind: ValueKind, typ: Type) -> (value: ValueId)
        ensures
            final(self)@.bounded(),
            final(self)@ == old(self)@.with_value(kind, typ@),
            value == old(self)@.next_value(),
    {
        let value = ValueId(self.values.len());
        self.values.push(Value { kind, typ });
        assert(final(self)@.values =~= old(self)@.values.push(ValueView { kind, typ: typ@ }));
        assert(final(self)@.blocks =~= old(self)@.blocks);
        proof {
            self.lemma_bounded();
        }
        value
    }

    /// Adds an empty block and returns its identity.
    pub fn make_block(&mut self) -> (block: BasicBlockId)
        ensures
            final(self)@.bounded(),
            final(self)@ == old(self)@.with_block(),
            block == old(self)@.next_block(),
    {
        let block = BasicBlockId(self.blocks.len());
        self.blocks.push(BasicBlock::new());
        assert(final(self)@.blocks =~= old(self)@.blocks.push(BlockView::empty()));
        assert(final(self)@.values =~= old(self)@.values);
        proof {
            self.lemma_bounded();
        }
        block
    }

    /// Adds a parameter of the given type to `block` and returns the value
    /// that stands for it.
    pub fn add_block_parameter(&mut self, block: BasicBlockId, typ: Type) -> (value: ValueId)
        requires
            old(self)@.has_block(block),
        ensures
            final(self)@.bounded(),
            final(self)@ == old(self)@.with_block_parameter(block, typ@),
            value == old(self)@.next_value(),
    {
        let value = ValueId(self.values.len());
        self.values.push(Value { kind: ValueKind::Param { block }, typ });
        self.blocks[block.0].add_parameter(value);
        assert(final(self)@.values =~= old(self)@.with_block_parameter(block, typ@).values);
        assert(final(self)@.blocks =~= old(self)@.with_block_parameter(block, typ@).blocks);
        proof {
            self.lemma_bounded();
        }
        value
    }

    /// Appends an instruction to `block`.
    pub fn insert_instruction(
        &mut self,
        block: BasicBlockId,
        instruction: Instruction,
        location: Option<Location>,
    )
        requires
            old(self)@.has_block(block),
        ensures
            final(self)@.bounded(),
            final(self)@ == old(self)@.with_instruction(block, instruction@, location),
    {
        self.blocks[block.0].insert_instruction(instruction, location);
        assert(final(self)@.blocks =~= old(self)@.with_instruction(
            block,
            instruction@,
            location,
        ).blocks);
        assert(final(self)@.values =~= old(self)@.values);
        proof {
            self.lemma_bounded();
        }
    }

    /// Sets the terminator of `block`, replacing an earlier one.
    pub fn set_terminator(&mut self, block: BasicBlockId, terminator: TerminatorInstruction)
        requires
            old(self)@.has_block(block),
        ensures
            final(self)@.bounded(),
            final(self)@ == old(self)@.with_terminator(block, terminator@),
    {
        self.blocks[block.0].set_terminator(terminator);
        assert(final(self)@.blocks =~= old(self)@.with_terminator(block, terminator@).blocks);
        assert(final(self)@.values =~= old(self)@.values);
        proof {
            self.lemma_bounded();
        }
    }

    /// Whether `block` already ends in a terminator.
    pub fn is_terminated(&self, block: BasicBlockId) -> (terminated: bool)
        requires
            self@.has_block(block),
        ensures
            terminated == (self@.block(block).terminator is Some),
    {
        self.blocks[block.0].is_terminated()
    }

    pub fn type_of_value(&self, value: ValueId) -> (typ: &Type)
        requires
            self@.has_value(value),
        ensures
            typ@ == self@.type_of_value(value),
    {
        &self.values[value.0].typ
    }

    /// The number that a value stands for, if it is a constant.
    pub fn get_numeric_constant(&self, value: ValueId) -> (constant: Option<u128>)
        requires
            self@.has_value(value),
        ensures
            constant == self@.get_numeric_constant(value),
    {
        match self.values[value.0].kind {
            ValueKind::NumericConstant { constant } => Some(constant),
            _ => None,
        }
    }
}

} // verus!
