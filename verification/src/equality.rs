use vstd::prelude::*;
use crate::ast::BinaryOpKind;
use crate::context::{
    array_equality_lowering, array_equality_operands, equality_loop_body, equality_loop_end,
    equality_loop_start, equality_setup, only_current_block_changed,
};
use crate::ir::basic_block::BasicBlockId;
use crate::ir::builder::BuilderView;
use crate::ir::instruction::Location;
use crate::ir::types::TypeView;
use crate::operators::requires_not;
use crate::ir::dfg::DfgView;
use crate::ir::instruction::{BinaryOp, InstructionView, TerminatorView};
use crate::ir::semantics::{Control, Data, lemma_run_one, lemma_run_push, Machine, truth};
use crate::ir::value::ValueId;

verus! {

/// The places of the loop that compares two arrays: the arrays, their
/// length, whether the result is negated, the first of the loop's three
/// blocks and the first of its values.
pub struct EqualityLoop {
    pub lhs: ValueId,
    pub rhs: ValueId,
    pub length: nat,
    pub negate: bool,
    pub first_block: nat,
    pub first_value: nat,
}

impl EqualityLoop {
    /// The value of the loop with the given number, counted from its first.
    pub open spec fn value(self, number: nat) -> ValueId {
        ValueId((self.first_value + number) as usize)
    }

    pub open spec fn loop_start(self) -> BasicBlockId {
        BasicBlockId(self.first_block as usize)
    }

    pub open spec fn loop_body(self) -> BasicBlockId {
        BasicBlockId((self.first_block + 1) as usize)
    }

    pub open spec fn loop_end(self) -> BasicBlockId {
        BasicBlockId((self.first_block + 2) as usize)
    }

    /// The address of the boolean that the loop accumulates in.
    pub open spec fn result_alloc(self) -> ValueId {
        self.value(0)
    }

    /// The index that `loop_start` takes as its parameter.
    pub open spec fn index(self) -> ValueId {
        self.value(3)
    }

    /// The result of the comparison.
    pub open spec fn result(self) -> ValueId {
        if self.negate {
            self.value(14)
        } else {
            self.value(13)
        }
    }

    /// The two instructions that start the loop off in the block before it.
    pub open spec fn setup(self) -> Seq<InstructionView> {
        seq![
            InstructionView::Allocate { result: self.value(0) },
            InstructionView::Store { address: self.value(0), value: self.value(1) },
        ]
    }

    pub open spec fn start_instructions(self) -> Seq<InstructionView> {
        seq![
            InstructionView::Binary {
                lhs: self.value(3),
                operator: BinaryOp::Lt,
                rhs: self.value(4),
                result: self.value(5),
            },
        ]
    }

    pub open spec fn body_instructions(self) -> Seq<InstructionView> {
        seq![
            InstructionView::ArrayGet {
                array: self.lhs,
                index: self.value(3),
                result: self.value(6),
            },
            InstructionView::ArrayGet {
                array: self.rhs,
                index: self.value(3),
                result: self.value(7),
            },
            InstructionView::Binary {
                lhs: self.value(6),
                operator: BinaryOp::Eq,
                rhs: self.value(7),
                result: self.value(8),
            },
            InstructionView::Load { address: self.value(0), result: self.value(9) },
            InstructionView::Binary {
                lhs: self.value(9),
                operator: BinaryOp::And,
                rhs: self.value(8),
                result: self.value(10),
            },
            InstructionView::Store { address: self.value(0), value: self.value(10) },
            InstructionView::Binary {
                lhs: self.value(3),
                operator: BinaryOp::Add,
                rhs: self.value(11),
                result: self.value(12),
            },
        ]
    }

    pub open spec fn end_instructions(self) -> Seq<InstructionView> {
        if self.negate {
            seq![
                InstructionView::Load { address: self.value(0), result: self.value(13) },
                InstructionView::Not { value: self.value(13), result: self.value(14) },
            ]
        } else {
            seq![InstructionView::Load { address: self.value(0), result: self.value(13) }]
        }
    }

    /// Whether the graph holds the loop at these places: the three blocks
    /// with their instructions and terminators, and the constants that the
    /// loop reads. The arrays are older than the loop.
    pub open spec fn is_in(self, dfg: DfgView) -> bool {
        &&& self.first_value + 15 <= usize::MAX
        &&& self.first_block + 3 <= usize::MAX
        &&& self.first_block + 3 <= dfg.blocks.len()
        &&& self.first_value + 15 <= dfg.values.len() + (if self.negate {
            0nat
        } else {
            1nat
        })
        &&& self.lhs.0 < self.first_value
        &&& self.rhs.0 < self.first_value
        &&& dfg.get_numeric_constant(self.value(1)) == Some(1u128)
        &&& dfg.get_numeric_constant(self.value(2)) == Some(0u128)
        &&& dfg.get_numeric_constant(self.value(4)) == Some(self.length as u128)
        &&& self.length <= u128::MAX
        &&& dfg.get_numeric_constant(self.value(11)) == Some(1u128)
        &&& forall|number: nat|
            number < 15 && (number < 14 || self.negate) && number != 1 && number != 2 && number
                != 4 && number != 11 ==> dfg.get_numeric_constant(
                #[trigger] self.value(number),
            ) is None
        &&& dfg.block(self.loop_start()).parameters == seq![self.value(3)]
        &&& dfg.block(self.loop_start()).instructions == self.start_instructions()
        &&& dfg.block(self.loop_start()).terminator == Some(
            TerminatorView::JmpIf {
                condition: self.value(5),
                then_destination: self.loop_body(),
                else_destination: self.loop_end(),
            },
        )
        &&& dfg.block(self.loop_body()).parameters == Seq::<ValueId>::empty()
        &&& dfg.block(self.loop_body()).instructions == self.body_instructions()
        &&& dfg.block(self.loop_body()).terminator == Some(
            TerminatorView::Jmp { destination: self.loop_start(), arguments: seq![self.value(12)] },
        )
        &&& dfg.block(self.loop_end()).instructions == self.end_instructions()
    }
}

/// Whether every element of an array is a number.
pub open spec fn all_numbers(elements: Seq<Data>) -> bool {
    forall|i: int| 0 <= i < elements.len() ==> (#[trigger] elements[i]) is Number
}

/// What the loop relies on while it runs: the two arrays are what they
/// were, and the boolean lives in its slot.
pub open spec fn loop_state(
    places: EqualityLoop,
    dfg: DfgView,
    machine: Machine,
    left: Seq<Data>,
    right: Seq<Data>,
    slot: nat,
) -> bool {
    &&& machine.operand(dfg, places.lhs) == Data::Array(left)
    &&& machine.operand(dfg, places.rhs) == Data::Array(right)
    &&& machine.values[places.result_alloc()] == Data::Reference(slot)
    &&& slot < machine.memory.len()
}

/// Two arrays agree on their first `count + 1` elements if they agree on
/// their first `count` and on the next one.
pub proof fn lemma_take_one_more(left: Seq<Data>, right: Seq<Data>, count: int)
    requires
        0 <= count < left.len(),
        left.len() == right.len(),
    ensures
        (left.take(count + 1) == right.take(count + 1)) == (left.take(count) == right.take(count)
            && left[count] == right[count]),
{
    if left.take(count + 1) == right.take(count + 1) {
        assert(left.take(count) =~= left.take(count + 1).take(count));
        assert(right.take(count) =~= right.take(count + 1).take(count));
        assert(left[count] == left.take(count + 1)[count]);
        assert(right[count] == right.take(count + 1)[count]);
    }
    if left.take(count) == right.take(count) && left[count] == right[count] {
        assert(left.take(count + 1) =~= left.take(count).push(left[count]));
        assert(right.take(count + 1) =~= right.take(count).push(right[count]));
    }
}

/// The state after the body of the loop has run once, at index `count`.
pub open spec fn after_body(
    places: EqualityLoop,
    modulus: nat,
    dfg: DfgView,
    machine: Machine,
) -> Machine {
    machine.run(modulus, dfg, places.body_instructions())
}

/// Running seven instructions is executing them one after the other.
proof fn lemma_run_seven(
    machine: Machine,
    modulus: nat,
    dfg: DfgView,
    instructions: Seq<InstructionView>,
)
    requires
        instructions.len() == 7,
    ensures
        machine.run(modulus, dfg, instructions) == machine.execute(
            modulus,
            dfg,
            instructions[0],
        ).execute(modulus, dfg, instructions[1]).execute(modulus, dfg, instructions[2]).execute(
            modulus,
            dfg,
            instructions[3],
        ).execute(modulus, dfg, instructions[4]).execute(modulus, dfg, instructions[5]).execute(
            modulus,
            dfg,
            instructions[6],
        ),
{
    let one = seq![instructions[0]];
    lemma_run_one(machine, modulus, dfg, instructions[0]);
    lemma_run_push(machine, modulus, dfg, one, instructions[1]);
    let two = one.push(instructions[1]);
    lemma_run_push(machine, modulus, dfg, two, instructions[2]);
    let three = two.push(instructions[2]);
    lemma_run_push(machine, modulus, dfg, three, instructions[3]);
    let four = three.push(instructions[3]);
    lemma_run_push(machine, modulus, dfg, four, instructions[4]);
    let five = four.push(instructions[4]);
    lemma_run_push(machine, modulus, dfg, five, instructions[5]);
    let six = five.push(instructions[5]);
    lemma_run_push(machine, modulus, dfg, six, instructions[6]);
    assert(six.push(instructions[6]) =~= instructions);
}

/// One pass through the body: the boolean becomes its conjunction with the
/// comparison of the two elements at the index, the next index is one more,
/// and nothing else that the loop relies on changes.
proof fn lemma_body(
    places: EqualityLoop,
    modulus: nat,
    dfg: DfgView,
    machine: Machine,
    left: Seq<Data>,
    right: Seq<Data>,
    slot: nat,
    count: nat,
    accumulated: bool,
)
    requires
        places.is_in(dfg),
        loop_state(places, dfg, machine, left, right, slot),
        left.len() == places.length,
        right.len() == places.length,
        all_numbers(left),
        all_numbers(right),
        count < places.length,
        places.length < modulus,
        machine.values[places.index()] == Data::Number(count),
        machine.memory[slot as int] == Data::Number(truth(accumulated)),
    ensures
        ({
            let after = after_body(places, modulus, dfg, machine);
            &&& loop_state(places, dfg, after, left, right, slot)
            &&& after.memory == machine.memory.update(
                slot as int,
                Data::Number(truth(accumulated && left[count as int] == right[count as int])),
            )
            &&& after.values[places.value(12)] == Data::Number(count + 1)
        }),
{
    let body = places.body_instructions();
    lemma_run_seven(machine, modulus, dfg, body);
    assert(left[count as int] is Number);
    assert(right[count as int] is Number);
    let m1 = machine.execute(modulus, dfg, body[0]);
    assert(m1.values[places.value(6)] == left[count as int]);
    let m2 = m1.execute(modulus, dfg, body[1]);
    assert(m2.values[places.value(7)] == right[count as int]);
    assert(m2.values[places.value(6)] == left[count as int]);
    let m3 = m2.execute(modulus, dfg, body[2]);
    assert(m3.values[places.value(8)] == Data::Number(
        truth(left[count as int] == right[count as int]),
    ));
    let m4 = m3.execute(modulus, dfg, body[3]);
    assert(m4.values[places.value(9)] == Data::Number(truth(accumulated)));
    let m5 = m4.execute(modulus, dfg, body[4]);
    assert(m5.values[places.value(10)] == Data::Number(
        truth(accumulated && left[count as int] == right[count as int]),
    ));
    let m6 = m5.execute(modulus, dfg, body[5]);
    assert(m6.memory == machine.memory.update(
        slot as int,
        Data::Number(truth(accumulated && left[count as int] == right[count as int])),
    ));
    let m7 = m6.execute(modulus, dfg, body[6]);
    vstd::arithmetic::div_mod::lemma_small_mod(count + 1, modulus);
    assert(m7.values[places.value(12)] == Data::Number(count + 1));
}

/// The head of the loop: the index takes the argument and is compared with
/// the length, and control goes on to the body while it is below, to the
/// end after that.
proof fn lemma_head(
    places: EqualityLoop,
    modulus: nat,
    dfg: DfgView,
    machine: Machine,
    left: Seq<Data>,
    right: Seq<Data>,
    slot: nat,
    count: nat,
)
    requires
        places.is_in(dfg),
        loop_state(places, dfg, machine, left, right, slot),
        count <= places.length,
    ensures
        ({
            let (after, control) = machine.run_block(
                modulus,
                dfg,
                places.loop_start(),
                seq![Data::Number(count)],
            );
            &&& loop_state(places, dfg, after, left, right, slot)
            &&& after.memory == machine.memory
            &&& after.values[places.index()] == Data::Number(count)
            &&& control == Control::Jump {
                block: if count < places.length {
                    places.loop_body()
                } else {
                    places.loop_end()
                },
                arguments: Seq::<Data>::empty(),
            }
        }),
{
    reveal_with_fuel(Machine::bind, 2);
    let arguments = seq![Data::Number(count)];
    let entered = machine.bind(dfg.block(places.loop_start()).parameters, arguments, 1);
    assert(entered == machine.with_value(places.value(3), Data::Number(count)));
    lemma_run_one(entered, modulus, dfg, places.start_instructions()[0]);
    assert(places.start_instructions() =~= seq![places.start_instructions()[0]]);
    let after = entered.run(modulus, dfg, places.start_instructions());
    assert(after.values[places.value(5)] == Data::Number(truth(count < places.length)));
}

/// The loop, entered with index `count` while the boolean says whether the
/// arrays agree on their first `count` elements, reaches its end with the
/// boolean saying whether the arrays agree altogether.
proof fn lemma_loop(
    places: EqualityLoop,
    modulus: nat,
    dfg: DfgView,
    machine: Machine,
    left: Seq<Data>,
    right: Seq<Data>,
    slot: nat,
    count: nat,
)
    requires
        places.is_in(dfg),
        loop_state(places, dfg, machine, left, right, slot),
        left.len() == places.length,
        right.len() == places.length,
        all_numbers(left),
        all_numbers(right),
        count <= places.length,
        places.length < modulus,
        machine.memory[slot as int] == Data::Number(
            truth(left.take(count as int) == right.take(count as int)),
        ),
    ensures
        machine.run_to(
            (2 * (places.length - count) + 1) as nat,
            modulus,
            dfg,
            places.loop_start(),
            seq![Data::Number(count)],
            places.loop_end(),
        ) matches Some(reached) && {
            &&& loop_state(places, dfg, reached, left, right, slot)
            &&& reached.memory == machine.memory.update(
                slot as int,
                Data::Number(truth(left == right)),
            )
        },
    decreases places.length - count,
{
    reveal_with_fuel(Machine::run_to, 3);
    reveal_with_fuel(Machine::bind, 1);
    let fuel = (2 * (places.length - count) + 1) as nat;
    lemma_head(places, modulus, dfg, machine, left, right, slot, count);
    let (headed, control) = machine.run_block(
        modulus,
        dfg,
        places.loop_start(),
        seq![Data::Number(count)],
    );
    if count == places.length {
        assert(left.take(count as int) =~= left);
        assert(right.take(count as int) =~= right);
        assert(headed.memory =~= machine.memory.update(
            slot as int,
            Data::Number(truth(left == right)),
        ));
    } else {
        let accumulated = left.take(count as int) == right.take(count as int);
        lemma_body(places, modulus, dfg, headed, left, right, slot, count, accumulated);
        lemma_take_one_more(left, right, count as int);
        let (looped, back) = headed.run_block(
            modulus,
            dfg,
            places.loop_body(),
            Seq::<Data>::empty(),
        );
        assert(looped == after_body(places, modulus, dfg, headed));
        assert(back == Control::Jump {
            block: places.loop_start(),
            arguments: seq![Data::Number(count + 1)],
        }) by {
            assert(looped.operands(dfg, seq![places.value(12)]) =~= seq![
                Data::Number(count + 1),
            ]);
        }
        lemma_loop(places, modulus, dfg, looped, left, right, slot, count + 1);
        let reached = looped.run_to(
            (2 * (places.length - (count + 1)) + 1) as nat,
            modulus,
            dfg,
            places.loop_start(),
            seq![Data::Number(count + 1)],
            places.loop_end(),
        )->Some_0;
        assert(reached.memory =~= machine.memory.update(
            slot as int,
            Data::Number(truth(left == right)),
        ));
    }
}

/// The loop compares the arrays: started by its two instructions where the
/// arrays are `left` and `right`, of the loop's length and made of numbers,
/// it reaches its end from `loop_start` with index zero, and running the
/// end leaves in the result the truth value of `left == right`, negated if
/// the loop negates. The memory is as before but for the new slot of the
/// boolean.
pub proof fn lemma_equality_loop(
    places: EqualityLoop,
    modulus: nat,
    dfg: DfgView,
    machine: Machine,
    left: Seq<Data>,
    right: Seq<Data>,
)
    requires
        places.is_in(dfg),
        machine.operand(dfg, places.lhs) == Data::Array(left),
        machine.operand(dfg, places.rhs) == Data::Array(right),
        left.len() == places.length,
        right.len() == places.length,
        all_numbers(left),
        all_numbers(right),
        places.length < modulus,
    ensures
        machine.run(modulus, dfg, places.setup()).run_to(
            2 * places.length + 1,
            modulus,
            dfg,
            places.loop_start(),
            seq![Data::Number(0)],
            places.loop_end(),
        ) matches Some(reached) && {
            let finished = reached.run(modulus, dfg, places.end_instructions());
            &&& finished.operand(dfg, places.result()) == Data::Number(
                truth((left == right) != places.negate),
            )
            &&& finished.memory == machine.memory.push(Data::Number(truth(left == right)))
        },
{
    let slot = machine.memory.len();
    let allocate = places.setup()[0];
    let store = places.setup()[1];
    lemma_run_one(machine, modulus, dfg, allocate);
    lemma_run_push(machine, modulus, dfg, seq![allocate], store);
    assert(places.setup() =~= seq![allocate].push(store));
    let started = machine.run(modulus, dfg, places.setup());
    assert(started.memory =~= machine.memory.push(Data::Number(1)));
    assert(left.take(0) =~= right.take(0));
    lemma_loop(places, modulus, dfg, started, left, right, slot, 0);
    let reached = started.run_to(
        2 * places.length + 1,
        modulus,
        dfg,
        places.loop_start(),
        seq![Data::Number(0)],
        places.loop_end(),
    )->Some_0;
    assert(reached.memory =~= machine.memory.push(Data::Number(truth(left == right))));
    let load = places.end_instructions()[0];
    lemma_run_one(reached, modulus, dfg, load);
    if places.negate {
        let negate = places.end_instructions()[1];
        lemma_run_push(reached, modulus, dfg, seq![load], negate);
        assert(places.end_instructions() =~= seq![load].push(negate));
    } else {
        assert(places.end_instructions() =~= seq![load]);
    }
}

/// The places of the loop that the lowering of `lhs == rhs` or `lhs != rhs`
/// adds to `builder`.
pub open spec fn lowered_loop(
    builder: BuilderView,
    lhs: ValueId,
    op: BinaryOpKind,
    rhs: ValueId,
) -> EqualityLoop {
    EqualityLoop {
        lhs,
        rhs,
        length: builder.type_of_value(lhs)->Array_1 as nat,
        negate: requires_not(op),
        first_block: builder.dfg().blocks.len(),
        first_value: builder.dfg().values.len(),
    }
}

/// What the first part of the lowering adds: three values, two instructions
/// and the jump into the loop.
proof fn lemma_setup(builder: BuilderView, loop_start: BasicBlockId, location: Location)
    requires
        builder.wf(),
        builder.dfg().values.len() + 3 <= usize::MAX,
    ensures
        ({
            let (after, result_alloc) = equality_setup(builder, loop_start, location);
            let first = builder.dfg().values.len();
            &&& only_current_block_changed(after, builder)
            &&& result_alloc == ValueId(first as usize)
            &&& after.dfg().values.len() == first + 3
            &&& after.dfg().get_numeric_constant(ValueId(first as usize)) is None
            &&& after.dfg().get_numeric_constant(ValueId((first + 1) as usize)) == Some(1u128)
            &&& after.dfg().get_numeric_constant(ValueId((first + 2) as usize)) == Some(0u128)
            &&& after.current_instructions() == builder.current_instructions() + seq![
                InstructionView::Allocate { result: ValueId(first as usize) },
                InstructionView::Store {
                    address: ValueId(first as usize),
                    value: ValueId((first + 1) as usize),
                },
            ]
            &&& after.dfg().block(after.current_block).terminator == Some(
                TerminatorView::Jmp {
                    destination: loop_start,
                    arguments: seq![ValueId((first + 2) as usize)],
                },
            )
        }),
{
    let (after, result_alloc) = equality_setup(builder, loop_start, location);
    let first = builder.dfg().values.len();
    assert(after.current_instructions() =~= builder.current_instructions() + seq![
        InstructionView::Allocate { result: ValueId(first as usize) },
        InstructionView::Store {
            address: ValueId(first as usize),
            value: ValueId((first + 1) as usize),
        },
    ]);
}

/// What the head of the loop adds: three values, and the contents of
/// `loop_start`.
proof fn lemma_loop_start(
    builder: BuilderView,
    loop_start: BasicBlockId,
    loop_body: BasicBlockId,
    loop_end: BasicBlockId,
    length: usize,
)
    requires
        builder.wf(),
        builder.dfg().has_block(loop_start),
        builder.dfg().block(loop_start) == crate::ir::basic_block::BlockView::empty(),
        builder.dfg().values.len() + 3 <= usize::MAX,
    ensures
        ({
            let (after, i) = equality_loop_start(builder, loop_start, loop_body, loop_end, length);
            let first = builder.dfg().values.len();
            &&& only_current_block_changed(after, builder.switch_to_block(loop_start))
            &&& i == ValueId(first as usize)
            &&& after.dfg().values.len() == first + 3
            &&& after.dfg().get_numeric_constant(ValueId(first as usize)) is None
            &&& after.dfg().get_numeric_constant(ValueId((first + 1) as usize)) == Some(
                length as u128,
            )
            &&& after.dfg().get_numeric_constant(ValueId((first + 2) as usize)) is None
            &&& after.dfg().block(loop_start).parameters == seq![ValueId(first as usize)]
            &&& after.dfg().block(loop_start).instructions == seq![
                InstructionView::Binary {
                    lhs: ValueId(first as usize),
                    operator: BinaryOp::Lt,
                    rhs: ValueId((first + 1) as usize),
                    result: ValueId((first + 2) as usize),
                },
            ]
            &&& after.dfg().block(loop_start).terminator == Some(
                TerminatorView::JmpIf {
                    condition: ValueId((first + 2) as usize),
                    then_destination: loop_body,
                    else_destination: loop_end,
                },
            )
        }),
{
    let (after, i) = equality_loop_start(builder, loop_start, loop_body, loop_end, length);
    let first = builder.dfg().values.len();
    assert(after.dfg().block(loop_start).parameters =~= seq![ValueId(first as usize)]);
    assert(after.dfg().block(loop_start).instructions =~= seq![
        InstructionView::Binary {
            lhs: ValueId(first as usize),
            operator: BinaryOp::Lt,
            rhs: ValueId((first + 1) as usize),
            result: ValueId((first + 2) as usize),
        },
    ]);
}

/// What the body of the loop adds: seven values, and the contents of
/// `loop_body`.
proof fn lemma_loop_body(
    builder: BuilderView,
    loop_start: BasicBlockId,
    loop_body: BasicBlockId,
    lhs: ValueId,
    rhs: ValueId,
    i: ValueId,
    element_type: TypeView,
    result_alloc: ValueId,
)
    requires
        builder.wf(),
        builder.dfg().has_block(loop_body),
        builder.dfg().block(loop_body) == crate::ir::basic_block::BlockView::empty(),
        builder.dfg().values.len() + 7 <= usize::MAX,
        builder.has_value(i),
    ensures
        ({
            let after = equality_loop_body(
                builder,
                loop_start,
                loop_body,
                lhs,
                rhs,
                i,
                element_type,
                result_alloc,
            );
            let first = builder.dfg().values.len();
            let value = |number: nat| ValueId((first + number) as usize);
            &&& only_current_block_changed(after, builder.switch_to_block(loop_body))
            &&& after.dfg().values.len() == first + 7
            &&& after.dfg().get_numeric_constant(value(5)) == Some(1u128)
            &&& forall|number: nat|
                number < 7 && number != 5 ==> after.dfg().get_numeric_constant(
                    #[trigger] value(number),
                ) is None
            &&& after.dfg().block(loop_body).parameters == Seq::<ValueId>::empty()
            &&& after.dfg().block(loop_body).instructions == seq![
                InstructionView::ArrayGet { array: lhs, index: i, result: value(0) },
                InstructionView::ArrayGet { array: rhs, index: i, result: value(1) },
                InstructionView::Binary {
                    lhs: value(0),
                    operator: BinaryOp::Eq,
                    rhs: value(1),
                    result: value(2),
                },
                InstructionView::Load { address: result_alloc, result: value(3) },
                InstructionView::Binary {
                    lhs: value(3),
                    operator: BinaryOp::And,
                    rhs: value(2),
                    result: value(4),
                },
                InstructionView::Store { address: result_alloc, value: value(4) },
                InstructionView::Binary {
                    lhs: i,
                    operator: BinaryOp::Add,
                    rhs: value(5),
                    result: value(6),
                },
            ]
            &&& after.dfg().block(loop_body).terminator == Some(
                TerminatorView::Jmp { destination: loop_start, arguments: seq![value(6)] },
            )
        }),
{
    let after = equality_loop_body(
        builder,
        loop_start,
        loop_body,
        lhs,
        rhs,
        i,
        element_type,
        result_alloc,
    );
    let first = builder.dfg().values.len();
    let value = |number: nat| ValueId((first + number) as usize);
    assert(after.dfg().block(loop_body).parameters =~= Seq::<ValueId>::empty());
    assert(after.dfg().block(loop_body).instructions =~= seq![
        InstructionView::ArrayGet { array: lhs, index: i, result: value(0) },
        InstructionView::ArrayGet { array: rhs, index: i, result: value(1) },
        InstructionView::Binary {
            lhs: value(0),
            operator: BinaryOp::Eq,
            rhs: value(1),
            result: value(2),
        },
        InstructionView::Load { address: result_alloc, result: value(3) },
        InstructionView::Binary {
            lhs: value(3),
            operator: BinaryOp::And,
            rhs: value(2),
            result: value(4),
        },
        InstructionView::Store { address: result_alloc, value: value(4) },
        InstructionView::Binary {
            lhs: i,
            operator: BinaryOp::Add,
            rhs: value(5),
            result: value(6),
        },
    ]);
    assert forall|number: nat| number < 7 && number != 5 implies after.dfg().get_numeric_constant(
        #[trigger] value(number),
    ) is None by {
        assert(number == 0 || number == 1 || number == 2 || number == 3 || number == 4 || number
            == 6);
    }
}

/// What the end of the loop adds: one value, or two if the result is
/// negated, and the contents of `loop_end`.
proof fn lemma_loop_end(
    builder: BuilderView,
    loop_end: BasicBlockId,
    result_alloc: ValueId,
    negate: bool,
)
    requires
        builder.wf(),
        builder.dfg().has_block(loop_end),
        builder.dfg().block(loop_end) == crate::ir::basic_block::BlockView::empty(),
        builder.dfg().values.len() + 2 <= usize::MAX,
    ensures
        ({
            let (after, result) = equality_loop_end(builder, loop_end, result_alloc, negate);
            let first = builder.dfg().values.len();
            let loaded = ValueId(first as usize);
            let negated = ValueId((first + 1) as usize);
            &&& only_current_block_changed(after, builder.switch_to_block(loop_end))
            &&& after.dfg().get_numeric_constant(loaded) is None
            &&& if negate {
                &&& result == negated
                &&& after.dfg().values.len() == first + 2
                &&& after.dfg().get_numeric_constant(negated) is None
                &&& after.dfg().block(loop_end).instructions == seq![
                    InstructionView::Load { address: result_alloc, result: loaded },
                    InstructionView::Not { value: loaded, result: negated },
                ]
            } else {
                &&& result == loaded
                &&& after.dfg().values.len() == first + 1
                &&& after.dfg().block(loop_end).instructions == seq![
                    InstructionView::Load { address: result_alloc, result: loaded },
                ]
            }
        }),
{
    let (after, result) = equality_loop_end(builder, loop_end, result_alloc, negate);
    let first = builder.dfg().values.len();
    let loaded = ValueId(first as usize);
    let negated = ValueId((first + 1) as usize);
    if negate {
        assert(after.dfg().block(loop_end).instructions =~= seq![
            InstructionView::Load { address: result_alloc, result: loaded },
            InstructionView::Not { value: loaded, result: negated },
        ]);
    } else {
        assert(after.dfg().block(loop_end).instructions =~= seq![
            InstructionView::Load { address: result_alloc, result: loaded },
        ]);
    }
}

/// The lowering of a comparison of arrays adds the loop that
/// [`EqualityLoop`] describes, at the places of [`lowered_loop`]: the block
/// that was current gets the two instructions that start the loop and the
/// jump into it, and the end of the loop is the current block afterwards.
pub proof fn lemma_lowering_is_a_loop(
    builder: BuilderView,
    lhs: ValueId,
    op: BinaryOpKind,
    rhs: ValueId,
    location: Location,
)
    requires
        builder.wf(),
        array_equality_operands(builder, lhs, rhs),
        builder.dfg().values.len() + 15 <= usize::MAX,
        builder.dfg().blocks.len() + 3 <= usize::MAX,
    ensures
        ({
            let (after, result) = array_equality_lowering(builder, lhs, op, rhs, location);
            let places = lowered_loop(builder, lhs, op, rhs);
            &&& places.is_in(after.dfg())
            &&& result == places.result()
            &&& after.wf()
            &&& after.current_block == places.loop_end()
            &&& after.dfg().block(builder.current_block).instructions
                == builder.current_instructions() + places.setup()
            &&& after.dfg().block(builder.current_block).terminator == Some(
                TerminatorView::Jmp {
                    destination: places.loop_start(),
                    arguments: seq![places.value(2)],
                },
            )
            &&& builder.dfg().values.is_prefix_of(after.dfg().values)
        }),
{
    let places = lowered_loop(builder, lhs, op, rhs);
    let length = builder.type_of_value(lhs)->Array_1;
    let element_type = builder.type_of_value(lhs)->Array_0[0];
    let loop_start = builder.next_block();
    let b1 = builder.insert_block();
    let loop_body = b1.next_block();
    let b2 = b1.insert_block();
    let loop_end = b2.next_block();
    let b3 = b2.insert_block();
    assert(loop_start == places.loop_start());
    assert(loop_body == places.loop_body());
    assert(loop_end == places.loop_end());
    assert(b3.wf());
    lemma_setup(b3, loop_start, location);
    let (s, result_alloc) = equality_setup(b3, loop_start, location);
    assert(s.dfg().blocks[loop_start.0 as int] == b3.dfg().blocks[loop_start.0 as int]);
    lemma_loop_start(s, loop_start, loop_body, loop_end, length);
    let (t, i) = equality_loop_start(s, loop_start, loop_body, loop_end, length);
    assert(s.dfg().blocks[loop_body.0 as int] == b3.dfg().blocks[loop_body.0 as int]);
    assert(t.dfg().blocks[loop_body.0 as int] == s.dfg().blocks[loop_body.0 as int]);
    lemma_loop_body(t, loop_start, loop_body, lhs, rhs, i, element_type, result_alloc);
    let u = equality_loop_body(
        t,
        loop_start,
        loop_body,
        lhs,
        rhs,
        i,
        element_type,
        result_alloc,
    );
    assert(s.dfg().blocks[loop_end.0 as int] == b3.dfg().blocks[loop_end.0 as int]);
    assert(t.dfg().blocks[loop_end.0 as int] == s.dfg().blocks[loop_end.0 as int]);
    assert(u.dfg().blocks[loop_end.0 as int] == t.dfg().blocks[loop_end.0 as int]);
    lemma_loop_end(u, loop_end, result_alloc, requires_not(op));
    let (after, result) = equality_loop_end(u, loop_end, result_alloc, requires_not(op));
    let dfg = after.dfg();
    let current = builder.current_block;
    assert(dfg.blocks[loop_start.0 as int] == t.dfg().blocks[loop_start.0 as int]) by {
        assert(u.dfg().blocks[loop_start.0 as int] == t.dfg().blocks[loop_start.0 as int]);
    }
    assert(dfg.blocks[loop_body.0 as int] == u.dfg().blocks[loop_body.0 as int]);
    assert(dfg.blocks[current.0 as int] == s.dfg().blocks[current.0 as int]) by {
        assert(t.dfg().blocks[current.0 as int] == s.dfg().blocks[current.0 as int]);
        assert(u.dfg().blocks[current.0 as int] == t.dfg().blocks[current.0 as int]);
    }
    assert(s.current_instructions() == builder.current_instructions() + places.setup()) by {
        assert(b3.current_instructions() == builder.current_instructions());
    }
    assert(dfg.get_numeric_constant(places.value(0)) is None) by {
        let place = (places.first_value + 0) as int;
        assert(s.dfg().get_numeric_constant(places.value(0)) is None);
        assert(t.dfg().values[place] == s.dfg().values[place]);
        assert(u.dfg().values[place] == t.dfg().values[place]);
        assert(dfg.values[place] == u.dfg().values[place]);
    }
    assert(dfg.get_numeric_constant(places.value(3)) is None) by {
        let place = (places.first_value + 3) as int;
        assert(t.dfg().get_numeric_constant(places.value(3)) is None);
        assert(u.dfg().values[place] == t.dfg().values[place]);
        assert(dfg.values[place] == u.dfg().values[place]);
    }
    assert(dfg.get_numeric_constant(places.value(5)) is None) by {
        let place = (places.first_value + 5) as int;
        assert(t.dfg().get_numeric_constant(places.value(5)) is None);
        assert(u.dfg().values[place] == t.dfg().values[place]);
        assert(dfg.values[place] == u.dfg().values[place]);
    }
    assert forall|number: nat| 6 <= number < 13 && number != 11 implies dfg.get_numeric_constant(
        #[trigger] places.value(number),
    ) is None by {
        let place = (places.first_value + number) as int;
        let first = t.dfg().values.len();
        let shifted = (number - 6) as nat;
        let local = |number: nat| ValueId((first + number) as usize);
        assert(places.value(number) == local(shifted));
        assert(u.dfg().get_numeric_constant(local(shifted)) is None);
        assert(dfg.values[place] == u.dfg().values[place]);
    }
    assert(dfg.get_numeric_constant(places.value(13)) is None);
    assert(places.negate ==> dfg.get_numeric_constant(places.value(14)) is None);
    assert forall|number: nat|
        number < 15 && (number < 14 || places.negate) && number != 1 && number != 2 && number != 4
            && number != 11 implies dfg.get_numeric_constant(
        #[trigger] places.value(number),
    ) is None by {
        assert(number == 0 || number == 3 || number == 5 || 6 <= number < 13 || number == 13
            || number == 14);
    }
    assert(dfg.get_numeric_constant(places.value(1)) == Some(1u128)) by {
        let place = (places.first_value + 1) as int;
        assert(t.dfg().values[place] == s.dfg().values[place]);
        assert(u.dfg().values[place] == t.dfg().values[place]);
        assert(dfg.values[place] == u.dfg().values[place]);
    }
    assert(dfg.get_numeric_constant(places.value(2)) == Some(0u128)) by {
        let place = (places.first_value + 2) as int;
        assert(t.dfg().values[place] == s.dfg().values[place]);
        assert(u.dfg().values[place] == t.dfg().values[place]);
        assert(dfg.values[place] == u.dfg().values[place]);
    }
    assert(dfg.get_numeric_constant(places.value(4)) == Some(places.length as u128)) by {
        let place = (places.first_value + 4) as int;
        assert(u.dfg().values[place] == t.dfg().values[place]);
        assert(dfg.values[place] == u.dfg().values[place]);
    }
    assert(dfg.get_numeric_constant(places.value(11)) == Some(1u128)) by {
        let place = (places.first_value + 11) as int;
        assert(dfg.values[place] == u.dfg().values[place]);
    }
}

/// The comparison of two arrays is lowered faithfully. Whatever arrays of
/// numbers `lhs` and `rhs` are, of the length that their type declares:
/// running what the lowering appends to the block that was current, taking
/// the jump at its end, and running on, reaches the block that is current
/// afterwards; and running that block leaves in the result the truth value
/// of `lhs == rhs`, or of `lhs != rhs` for that operator.
pub proof fn lemma_array_equality_is_faithful(
    builder: BuilderView,
    lhs: ValueId,
    op: BinaryOpKind,
    rhs: ValueId,
    location: Location,
    modulus: nat,
    machine: Machine,
    left: Seq<Data>,
    right: Seq<Data>,
)
    requires
        builder.wf(),
        array_equality_operands(builder, lhs, rhs),
        builder.dfg().values.len() + 15 <= usize::MAX,
        builder.dfg().blocks.len() + 3 <= usize::MAX,
        machine.operand(builder.dfg(), lhs) == Data::Array(left),
        machine.operand(builder.dfg(), rhs) == Data::Array(right),
        left.len() == builder.type_of_value(lhs)->Array_1,
        right.len() == left.len(),
        all_numbers(left),
        all_numbers(right),
        left.len() < modulus,
    ensures
        ({
            let (after, result) = array_equality_lowering(builder, lhs, op, rhs, location);
            let dfg = after.dfg();
            let before = dfg.block(builder.current_block);
            let started = machine.run(
                modulus,
                dfg,
                before.instructions.skip(builder.current_instructions().len() as int),
            );
            let loop_start = builder.next_block();
            &&& started.leave(dfg, before) == Control::Jump {
                block: loop_start,
                arguments: seq![Data::Number(0)],
            }
            &&& started.run_to(
                2 * left.len() + 1,
                modulus,
                dfg,
                loop_start,
                seq![Data::Number(0)],
                after.current_block,
            ) matches Some(reached) && reached.run(
                modulus,
                dfg,
                dfg.block(after.current_block).instructions,
            ).operand(dfg, result) == Data::Number(truth((left == right) != requires_not(op)))
        }),
{
    let (after, result) = array_equality_lowering(builder, lhs, op, rhs, location);
    let dfg = after.dfg();
    let places = lowered_loop(builder, lhs, op, rhs);
    lemma_lowering_is_a_loop(builder, lhs, op, rhs, location);
    let before = dfg.block(builder.current_block);
    assert(before.instructions.skip(builder.current_instructions().len() as int)
        =~= places.setup());
    assert(machine.operand(dfg, lhs) == machine.operand(builder.dfg(), lhs));
    assert(machine.operand(dfg, rhs) == machine.operand(builder.dfg(), rhs));
    lemma_equality_loop(places, modulus, dfg, machine, left, right);
    let started = machine.run(modulus, dfg, places.setup());
    assert(started.operands(dfg, seq![places.value(2)]) =~= seq![Data::Number(0)]);
}

} // verus!
