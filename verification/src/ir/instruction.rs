use vstd::prelude::*;
use crate::ir::basic_block::BasicBlockId;
use crate::ir::value::ValueId;

verus! {

/// The binary operations of the representation. There is no greater-than,
/// no less-or-equal and no inequality: those are expressed through `Lt`, `Eq`
/// and a negation.
#[derive(Copy, Clone, Debug, PartialEq, Eq, Hash, Structural)]
pub enum BinaryOp {
    Add,
    Sub,
    Mul,
    Div,
    Mod,
    Eq,
    Lt,
    And,
    Or,
    Xor,
    Shl,
    Shr,
}

/// A place in the source text.
#[derive(Copy, Clone, Debug, PartialEq, Eq, Hash, Structural)]
pub struct Location {
    pub file: usize,
    pub start: u32,
    pub end: u32,
}

/// An instruction, with the values it reads and the values it defines.
#[derive(Debug)]
pub enum Instruction {
    Binary { lhs: ValueId, operator: BinaryOp, rhs: ValueId, result: ValueId },
    /// Logical negation.
    Not { value: ValueId, result: ValueId },
    /// Reduces a value that may occupy `max_bit_size` bits to `bit_size` bits.
    Truncate { value: ValueId, bit_size: u32, max_bit_size: u32, result: ValueId },
    /// Reserves one memory slot; the result is a reference to it.
    Allocate { result: ValueId },
    Load { address: ValueId, result: ValueId },
    Store { address: ValueId, value: ValueId },
    ArrayGet { array: ValueId, index: ValueId, result: ValueId },
    /// Arrays are values: the result is a new array that differs from
    /// `array` at `index`.
    ArraySet { array: ValueId, index: ValueId, value: ValueId, result: ValueId },
    Call { function: ValueId, arguments: Vec<ValueId>, results: Vec<ValueId> },
}

/// The mathematical value of an [`Instruction`].
pub enum InstructionView {
    Binary { lhs: ValueId, operator: BinaryOp, rhs: ValueId, result: ValueId },
    Not { value: ValueId, result: ValueId },
    Truncate { value: ValueId, bit_size: u32, max_bit_size: u32, result: ValueId },
    Allocate { result: ValueId },
    Load { address: ValueId, result: ValueId },
    Store { address: ValueId, value: ValueId },
    ArrayGet { array: ValueId, index: ValueId, result: ValueId },
    ArraySet { array: ValueId, index: ValueId, value: ValueId, result: ValueId },
    Call { function: ValueId, arguments: Seq<ValueId>, results: Seq<ValueId> },
}

impl View for Instruction {
    type V = InstructionView;

    open spec fn view(&self) -> InstructionView {
        match *self {
            Instruction::Binary { lhs, operator, rhs, result } => InstructionView::Binary {
                lhs,
                operator,
                rhs,
                result,
            },
            Instruction::Not { value, result } => InstructionView::Not { value, result },
            Instruction::Truncate { value, bit_size, max_bit_size, result } => {
                InstructionView::Truncate { value, bit_size, max_bit_size, result }
            },
            Instruction::Allocate { result } => InstructionView::Allocate { result },
            Instruction::Load { address, result } => InstructionView::Load { address, result },
            Instruction::Store { address, value } => InstructionView::Store { address, value },
            Instruction::ArrayGet { array, index, result } => InstructionView::ArrayGet {
                array,
                index,
                result,
            },
            Instruction::ArraySet { array, index, value, result } => InstructionView::ArraySet {
                array,
                index,
                value,
                result,
            },
            Instruction::Call { function, arguments, results } => InstructionView::Call {
                function,
                arguments: arguments@,
                results: results@,
            },
        }
    }
}

/// The values of a sequence of instructions, in order.
pub open spec fn view_instructions(instructions: Seq<Instruction>) -> Seq<InstructionView> {
    Seq::new(instructions.len(), |i: int| instructions[i]@)
}

/// The instruction that ends a block.
#[derive(Debug)]
pub enum TerminatorInstruction {
    /// Continues at `destination`, whose parameters take `arguments`.
    Jmp { destination: BasicBlockId, arguments: Vec<ValueId> },
    /// Continues at one block if `condition` is true, at the other if not.
    JmpIf { condition: ValueId, then_destination: BasicBlockId, else_destination: BasicBlockId },
    Return { return_values: Vec<ValueId> },
}

/// The mathematical value of a [`TerminatorInstruction`].
pub enum TerminatorView {
    Jmp { destination: BasicBlockId, arguments: Seq<ValueId> },
    JmpIf { condition: ValueId, then_destination: BasicBlockId, else_destination: BasicBlockId },
    Return { return_values: Seq<ValueId> },
}

impl View for TerminatorInstruction {
    type V = TerminatorView;

    open spec fn view(&self) -> TerminatorView {
        match *self {
            TerminatorInstruction::Jmp { destination, arguments } => TerminatorView::Jmp {
                destination,
                arguments: arguments@,
            },
            TerminatorInstruction::JmpIf { condition, then_destination, else_destination } => {
                TerminatorView::JmpIf { condition, then_destination, else_destination }
            },
            TerminatorInstruction::Return { return_values } => TerminatorView::Return {
                return_values: return_values@,
            },
        }
    }
}

} // verus!
