use vstd::prelude::*;
use vstd::arithmetic::power2::pow2;
use crate::ir::basic_block::{BasicBlockId, BlockView};
use crate::ir::dfg::DfgView;
use crate::ir::instruction::{BinaryOp, InstructionView, TerminatorView};
use crate::ir::value::ValueId;

verus! {

/// What a value can be when a function runs.
pub enum Data {
    /// An element of the field, which also stands for integers and, as zero
    /// and one, for truth values.
    Number(nat),
    /// An array or a slice: the scalars of its elements, one element after
    /// the other.
    Array(Seq<Data>),
    /// A reference to the memory slot of the given number.
    Reference(nat),
}

/// The state of a run: what the values defined so far are, and what the
/// memory slots hold.
pub struct Machine {
    pub values: Map<ValueId, Data>,
    pub memory: Seq<Data>,
}

/// The number that stands for a truth value.
pub open spec fn truth(holds: bool) -> nat {
    if holds {
        1
    } else {
        0
    }
}

/// What a binary instruction computes on two elements of a field with
/// `modulus` elements. Addition, subtraction and multiplication are those of
/// the field; division and remainder are those of the integers; the logical
/// operators are defined on truth values. `None` where the instruction has
/// no result: a division by zero, a logical operator on other numbers than
/// zero and one, a shift.
pub open spec fn binary_value(modulus: nat, operator: BinaryOp, lhs: nat, rhs: nat) -> Option<nat> {
    match operator {
        BinaryOp::Add => Some((lhs + rhs) % modulus),
        BinaryOp::Sub => Some(((lhs + modulus - rhs) % (modulus as int)) as nat),
        BinaryOp::Mul => Some((lhs * rhs) % modulus),
        BinaryOp::Div => if rhs > 0 {
            Some(lhs / rhs)
        } else {
            None
        },
        BinaryOp::Mod => if rhs > 0 {
            Some(lhs % rhs)
        } else {
            None
        },
        BinaryOp::Eq => Some(truth(lhs == rhs)),
        BinaryOp::Lt => Some(truth(lhs < rhs)),
        BinaryOp::And => if lhs <= 1 && rhs <= 1 {
            Some(truth(lhs == 1 && rhs == 1))
        } else {
            None
        },
        BinaryOp::Or => if lhs <= 1 && rhs <= 1 {
            Some(truth(lhs == 1 || rhs == 1))
        } else {
            None
        },
        BinaryOp::Xor => if lhs <= 1 && rhs <= 1 {
            Some(truth(lhs != rhs))
        } else {
            None
        },
        _ => None,
    }
}

impl Machine {
    /// What `value` is: the number it stands for if it is a constant of the
    /// function, what the run has defined it as if not.
    pub open spec fn operand(self, dfg: DfgView, value: ValueId) -> Data {
        match dfg.get_numeric_constant(value) {
            Some(constant) => Data::Number(constant as nat),
            None => self.values[value],
        }
    }

    pub open spec fn with_value(self, value: ValueId, data: Data) -> Machine {
        Machine { values: self.values.insert(value, data), ..self }
    }

    /// The state after one instruction. An instruction that has no result on
    /// its operands, such as a load through a number, leaves the state as it
    /// is, and so does a call, which is not modelled.
    pub open spec fn execute(
        self,
        modulus: nat,
        dfg: DfgView,
        instruction: InstructionView,
    ) -> Machine {
        match instruction {
            InstructionView::Binary { lhs, operator, rhs, result } => match (
                self.operand(dfg, lhs),
                self.operand(dfg, rhs),
            ) {
                (Data::Number(left), Data::Number(right)) => match binary_value(
                    modulus,
                    operator,
                    left,
                    right,
                ) {
                    Some(number) => self.with_value(result, Data::Number(number)),
                    None => self,
                },
                _ => self,
            },
            InstructionView::Not { value, result } => match self.operand(dfg, value) {
                Data::Number(number) => self.with_value(result, Data::Number(truth(number == 0))),
                _ => self,
            },
            InstructionView::Truncate { value, bit_size, max_bit_size, result } => match (
                self.operand(dfg, value)
            ) {
                Data::Number(number) => self.with_value(
                    result,
                    Data::Number(number % pow2(bit_size as nat)),
                ),
                _ => self,
            },
            InstructionView::Allocate { result } => Machine {
                values: self.values.insert(result, Data::Reference(self.memory.len())),
                memory: self.memory.push(Data::Number(0)),
            },
            InstructionView::Load { address, result } => match self.operand(dfg, address) {
                Data::Reference(slot) => if slot < self.memory.len() {
                    self.with_value(result, self.memory[slot as int])
                } else {
                    self
                },
                _ => self,
            },
            InstructionView::Store { address, value } => match self.operand(dfg, address) {
                Data::Reference(slot) => if slot < self.memory.len() {
                    Machine {
                        memory: self.memory.update(slot as int, self.operand(dfg, value)),
                        ..self
                    }
                } else {
                    self
                },
                _ => self,
            },
            InstructionView::ArrayGet { array, index, result } => match (
                self.operand(dfg, array),
                self.operand(dfg, index),
            ) {
                (Data::Array(elements), Data::Number(place)) => if place < elements.len() {
                    self.with_value(result, elements[place as int])
                } else {
                    self
                },
                _ => self,
            },
            InstructionView::ArraySet { array, index, value, result } => match (
                self.operand(dfg, array),
                self.operand(dfg, index),
            ) {
                (Data::Array(elements), Data::Number(place)) => if place < elements.len() {
                    self.with_value(
                        result,
                        Data::Array(elements.update(place as int, self.operand(dfg, value))),
                    )
                } else {
                    self
                },
                _ => self,
            },
            InstructionView::Call { function, arguments, results } => self,
        }
    }

    /// The state after a run of instructions, from first to last.
    pub open spec fn run(
        self,
        modulus: nat,
        dfg: DfgView,
        instructions: Seq<InstructionView>,
    ) -> Machine
        decreases instructions.len(),
    {
        if instructions.len() == 0 {
            self
        } else {
            self.run(modulus, dfg, instructions.drop_last()).execute(
                modulus,
                dfg,
                instructions.last(),
            )
        }
    }

    /// The state after the first `count` parameters of a block have taken
    /// the arguments at their places.
    pub open spec fn bind(
        self,
        parameters: Seq<ValueId>,
        arguments: Seq<Data>,
        count: nat,
    ) -> Machine
        decreases count,
    {
        if count == 0 {
            self
        } else {
            self.bind(parameters, arguments, (count - 1) as nat).with_value(
                parameters[count - 1],
                arguments[count - 1],
            )
        }
    }

    /// The data of each of `values`, in order.
    pub open spec fn operands(self, dfg: DfgView, values: Seq<ValueId>) -> Seq<Data> {
        Seq::new(values.len(), |i: int| self.operand(dfg, values[i]))
    }

    /// The state after a block has run with the given arguments, and where
    /// control goes from there.
    pub open spec fn run_block(
        self,
        modulus: nat,
        dfg: DfgView,
        block: BasicBlockId,
        arguments: Seq<Data>,
    ) -> (Machine, Control) {
        let entered = self.bind(dfg.block(block).parameters, arguments, arguments.len());
        let after = entered.run(modulus, dfg, dfg.block(block).instructions);
        (after, after.leave(dfg, dfg.block(block)))
    }

    /// Where control goes at the end of a block.
    pub open spec fn leave(self, dfg: DfgView, block: BlockView) -> Control {
        match block.terminator {
            Some(TerminatorView::Jmp { destination, arguments }) => Control::Jump {
                block: destination,
                arguments: self.operands(dfg, arguments),
            },
            Some(TerminatorView::JmpIf { condition, then_destination, else_destination }) => {
                match self.operand(dfg, condition) {
                    Data::Number(number) => Control::Jump {
                        block: if number != 0 {
                            then_destination
                        } else {
                            else_destination
                        },
                        arguments: Seq::empty(),
                    },
                    _ => Control::Stuck,
                }
            },
            Some(TerminatorView::Return { return_values }) => Control::Return {
                values: self.operands(dfg, return_values),
            },
            None => Control::Stuck,
        }
    }

    /// The state in which control reaches the block `stop`, coming from the
    /// start of `block`, within `fuel` blocks; `None` if it does not.
    pub open spec fn run_to(
        self,
        fuel: nat,
        modulus: nat,
        dfg: DfgView,
        block: BasicBlockId,
        arguments: Seq<Data>,
        stop: BasicBlockId,
    ) -> Option<Machine>
        decreases fuel,
    {
        if block == stop {
            Some(self)
        } else if fuel == 0 {
            None
        } else {
            let (after, control) = self.run_block(modulus, dfg, block, arguments);
            match control {
                Control::Jump { block: next, arguments: passed } => after.run_to(
                    (fuel - 1) as nat,
                    modulus,
                    dfg,
                    next,
                    passed,
                    stop,
                ),
                _ => None,
            }
        }
    }
}

/// Where control goes at the end of a block.
pub enum Control {
    Jump { block: BasicBlockId, arguments: Seq<Data> },
    Return { values: Seq<Data> },
    /// The block has no terminator, or branches on what is no number.
    Stuck,
}

/// Running one instruction is executing it.
pub proof fn lemma_run_one(
    machine: Machine,
    modulus: nat,
    dfg: DfgView,
    instruction: InstructionView,
)
    ensures
        machine.run(modulus, dfg, seq![instruction]) == machine.execute(modulus, dfg, instruction),
{
    reveal_with_fuel(Machine::run, 2);
    assert(seq![instruction].drop_last() =~= Seq::empty());
}

/// Running a sequence and one more instruction is running the sequence and
/// then executing the instruction.
pub proof fn lemma_run_push(
    machine: Machine,
    modulus: nat,
    dfg: DfgView,
    instructions: Seq<InstructionView>,
    instruction: InstructionView,
)
    ensures
        machine.run(modulus, dfg, instructions.push(instruction)) == machine.run(
            modulus,
            dfg,
            instructions,
        ).execute(modulus, dfg, instruction),
{
    assert(instructions.push(instruction).drop_last() =~= instructions);
}

/// Running two sequences one after the other is running the first and then
/// the second.
pub proof fn lemma_run_concat(
    machine: Machine,
    modulus: nat,
    dfg: DfgView,
    first: Seq<InstructionView>,
    second: Seq<InstructionView>,
)
    ensures
        machine.run(modulus, dfg, first + second) == machine.run(modulus, dfg, first).run(
            modulus,
            dfg,
            second,
        ),
    decreases second.len(),
{
    if second.len() == 0 {
        assert(first + second =~= first);
    } else {
        lemma_run_concat(machine, modulus, dfg, first, second.drop_last());
        assert((first + second).drop_last() =~= first + second.drop_last());
        assert((first + second).last() == second.last());
    }
}

} // verus!
