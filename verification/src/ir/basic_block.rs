use vstd::prelude::*;
use crate::ir::instruction::{
    Instruction, InstructionView, Location, TerminatorInstruction, TerminatorView,
    view_instructions,
};
use crate::ir::value::ValueId;

verus! {

/// The identity of a block: its position among the blocks of one function.
#[derive(Copy, Clone, Debug, PartialEq, Eq, Hash, Structural)]
pub struct BasicBlockId(pub usize);

/// A straight run of instructions with one way in and, once it is finished,
/// a terminator that says where control goes next.
#[derive(Debug)]
pub struct BasicBlock {
    pub parameters: Vec<ValueId>,
    pub instructions: Vec<Instruction>,
    /// For each instruction, in the same order, the place in the source text
    /// that was current when it was inserted.
    pub locations: Vec<Option<Location>>,
    pub terminator: Option<TerminatorInstruction>,
}

/// The mathematical value of a [`BasicBlock`].
pub struct BlockView {
    pub parameters: Seq<ValueId>,
    pub instructions: Seq<InstructionView>,
    pub locations: Seq<Option<Location>>,
    pub terminator: Option<TerminatorView>,
}

impl BlockView {
    /// A block without parameters, instructions or terminator.
    pub open spec fn empty() -> BlockView {
        BlockView {
            parameters: Seq::empty(),
            instructions: Seq::empty(),
            locations: Seq::empty(),
            terminator: None,
        }
    }

    pub open spec fn with_parameter(self, parameter: ValueId) -> BlockView {
        BlockView { parameters: self.parameters.push(parameter), ..self }
    }

    pub open spec fn with_instruction(
        self,
        instruction: InstructionView,
        location: Option<Location>,
    ) -> BlockView {
        BlockView {
            instructions: self.instructions.push(instruction),
            locations: self.locations.push(location),
            ..self
        }
    }

    pub open spec fn with_terminator(self, terminator: TerminatorView) -> BlockView {
        BlockView { terminator: Some(terminator), ..self }
    }
}

impl View for BasicBlock {
    type V = BlockView;

    open spec fn view(&self) -> BlockView {
        BlockView {
            parameters: self.parameters@,
            instructions: view_instructions(self.instructions@),
            locations: self.locations@,
            terminator: match self.terminator {
                Some(terminator) => Some(terminator@),
                None => None,
            },
        }
    }
}

/// The values of a sequence of blocks, in order.
pub open spec fn view_blocks(blocks: Seq<BasicBlock>) -> Seq<BlockView> {
    Seq::new(blocks.len(), |i: int| blocks[i]@)
}

impl BasicBlock {
    /// A block without parameters, instructions or terminator.
    pub fn new() -> (block: BasicBlock)
        ensures
            block@ == BlockView::empty(),
    {
        let block = BasicBlock {
            parameters: Vec::new(),
            instructions: Vec::new(),
            locations: Vec::new(),
            terminator: None,
        };
        assert(block@.instructions =~= Seq::empty());
        block
    }

    /// Whether the block already ends in a terminator.
    pub fn is_terminated(&self) -> (terminated: bool)
        ensures
            terminated == (self@.terminator is Some),
    {
        self.terminator.is_some()
    }

    pub fn add_parameter(&mut self, parameter: ValueId)
        ensures
            final(self)@ == old(self)@.with_parameter(parameter),
    {
        self.parameters.push(parameter);
    }

    /// Appends an instruction and the source place that belongs to it.
    pub fn insert_instruction(&mut self, instruction: Instruction, location: Option<Location>)
        ensures
            final(self)@ == old(self)@.with_instruction(instruction@, location),
    {
        self.instructions.push(instruction);
        self.locations.push(location);
        assert(final(self)@.instructions =~= old(self)@.instructions.push(instruction@));
    }

    /// Sets the terminator, replacing an earlier one.
    pub fn set_terminator(&mut self, terminator: TerminatorInstruction)
        ensures
            final(self)@ == old(self)@.with_terminator(terminator@),
    {
        self.terminator = Some(terminator);
    }
}

} // verus!
