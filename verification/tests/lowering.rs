//! Tests that run the emitted instructions on a small interpreter.

use std::collections::HashMap;

use ssa_gen::ast;
use ssa_gen::ast::{BinaryOpKind, LocalId, Signedness};
use ssa_gen::context::FunctionContext;
use ssa_gen::errors::InternalError;
use ssa_gen::ir::builder::FunctionBuilder;
use ssa_gen::ir::function::{Function, FunctionId, RuntimeType};
use ssa_gen::ir::instruction::{BinaryOp, Instruction, Location, TerminatorInstruction};
use ssa_gen::ir::types::{NumericType, Type};
use ssa_gen::ir::value::{ValueId, ValueKind};
use ssa_gen::value::{Tree, Value, Values};

#[derive(Clone, Debug, PartialEq)]
enum Data {
    Number(u128),
    Array(Vec<Data>),
    Reference(usize),
}

fn number(data: &Data) -> u128 {
    match data {
        Data::Number(value) => *value,
        other => panic!("expected a number, found {:?}", other),
    }
}

struct Machine<'a> {
    function: &'a Function,
    values: HashMap<usize, Data>,
    memory: Vec<Option<Data>>,
}

impl<'a> Machine<'a> {
    fn get(&self, id: ValueId) -> Data {
        match self.function.dfg.values[id.0].kind {
            ValueKind::NumericConstant { constant } => Data::Number(constant),
            _ => self.values.get(&id.0).expect("value read before it was defined").clone(),
        }
    }

    fn binary(&self, operator: BinaryOp, lhs: &Data, rhs: &Data) -> Data {
        if let (BinaryOp::Eq, Data::Array(_), Data::Array(_)) = (operator, lhs, rhs) {
            panic!("the comparing instruction is for scalars");
        }
        let (a, b) = (number(lhs), number(rhs));
        Data::Number(match operator {
            BinaryOp::Add => a.wrapping_add(b),
            BinaryOp::Sub => a.wrapping_sub(b),
            BinaryOp::Mul => a.wrapping_mul(b),
            BinaryOp::Div => a / b,
            BinaryOp::Mod => a % b,
            BinaryOp::Eq => (a == b) as u128,
            BinaryOp::Lt => (a < b) as u128,
            BinaryOp::And => a & b,
            BinaryOp::Or => a | b,
            BinaryOp::Xor => a ^ b,
            BinaryOp::Shl => a << b,
            BinaryOp::Shr => a >> b,
        })
    }

    fn execute(&mut self, instruction: &Instruction) {
        match instruction {
            Instruction::Binary { lhs, operator, rhs, result } => {
                let value = self.binary(*operator, &self.get(*lhs), &self.get(*rhs));
                self.values.insert(result.0, value);
            }
            Instruction::Not { value, result } => {
                let negated = if number(&self.get(*value)) == 0 { 1 } else { 0 };
                self.values.insert(result.0, Data::Number(negated));
            }
            Instruction::Truncate { value, bit_size, result, .. } => {
                let truncated = number(&self.get(*value)) % (1u128 << *bit_size);
                self.values.insert(result.0, Data::Number(truncated));
            }
            Instruction::Allocate { result } => {
                self.memory.push(None);
                self.values.insert(result.0, Data::Reference(self.memory.len() - 1));
            }
            Instruction::Load { address, result } => match self.get(*address) {
                Data::Reference(slot) => {
                    let loaded = self.memory[slot].clone().expect("load before store");
                    self.values.insert(result.0, loaded);
                }
                other => panic!("load from {:?}", other),
            },
            Instruction::Store { address, value } => match self.get(*address) {
                Data::Reference(slot) => self.memory[slot] = Some(self.get(*value)),
                other => panic!("store to {:?}", other),
            },
            Instruction::ArrayGet { array, index, result } => match self.get(*array) {
                Data::Array(elements) => {
                    let element = elements[number(&self.get(*index)) as usize].clone();
                    self.values.insert(result.0, element);
                }
                other => panic!("array_get on {:?}", other),
            },
            Instruction::ArraySet { array, index, value, result } => match self.get(*array) {
                Data::Array(mut elements) => {
                    elements[number(&self.get(*index)) as usize] = self.get(*value);
                    self.values.insert(result.0, Data::Array(elements));
                }
                other => panic!("array_set on {:?}", other),
            },
            Instruction::Call { .. } => panic!("calls are not interpreted"),
        }
    }

    fn run(function: &'a Function, arguments: Vec<Data>) -> Vec<Data> {
        let mut machine = Machine { function, values: HashMap::new(), memory: Vec::new() };
        let mut block = function.entry_block.0;
        let mut incoming = arguments;
        let mut steps = 0;
        loop {
            steps += 1;
            assert!(steps < 10_000, "the function does not return");
            let current = &function.dfg.blocks[block];
            assert_eq!(current.parameters.len(), incoming.len());
            for (parameter, value) in current.parameters.iter().zip(incoming.drain(..)) {
                machine.values.insert(parameter.0, value);
            }
            for instruction in &current.instructions {
                machine.execute(instruction);
            }
            match current.terminator.as_ref().expect("a block without terminator") {
                TerminatorInstruction::Jmp { destination, arguments } => {
                    incoming = arguments.iter().map(|id| machine.get(*id)).collect();
                    block = destination.0;
                }
                TerminatorInstruction::JmpIf { condition, then_destination, else_destination } => {
                    block = if number(&machine.get(*condition)) != 0 {
                        then_destination.0
                    } else {
                        else_destination.0
                    };
                }
                TerminatorInstruction::Return { return_values } => {
                    return return_values.iter().map(|id| machine.get(*id)).collect();
                }
            }
        }
    }
}

fn location() -> Location {
    Location { file: 0, start: 0, end: 0 }
}

fn context() -> FunctionContext {
    FunctionContext {
        definitions: HashMap::new(),
        builder: FunctionBuilder::new("main".to_string(), FunctionId(0), RuntimeType::Acir),
    }
}

fn leaf(values: Values) -> ValueId {
    match values {
        Tree::Leaf(Value::Normal(id)) => id,
        other => panic!("expected a single value, found {:?}", other),
    }
}

fn finish(mut context: FunctionContext, results: Vec<ValueId>) -> Function {
    context.builder.terminate_with_return(results);
    context.builder.finish().pop().unwrap()
}

/// Lowers `lhs op rhs` on two parameters of the given types and evaluates it.
fn evaluate(op: BinaryOpKind, lhs_type: Type, lhs: u128, rhs_type: Type, rhs: u128) -> u128 {
    let mut context = context();
    let a = context.builder.add_parameter(lhs_type);
    let b = context.builder.add_parameter(rhs_type);
    let result = leaf(context.insert_binary(a, op, b, location()).unwrap());
    let function = finish(context, vec![result]);
    number(&Machine::run(&function, vec![Data::Number(lhs), Data::Number(rhs)])[0])
}

const PAIRS: [(u128, u128); 9] =
    [(0, 0), (0, 255), (255, 0), (255, 255), (7, 7), (3, 9), (9, 3), (254, 255), (1, 0)];

#[test]
fn greater_is_less_with_operands_exchanged() {
    for (a, b) in PAIRS {
        let result = evaluate(BinaryOpKind::Greater, Type::unsigned(8), a, Type::unsigned(8), b);
        assert_eq!(result, (a > b) as u128, "{} > {}", a, b);
    }
}

#[test]
fn greater_equal_is_negated_less() {
    for (a, b) in PAIRS {
        let result =
            evaluate(BinaryOpKind::GreaterEqual, Type::unsigned(8), a, Type::unsigned(8), b);
        assert_eq!(result, (a >= b) as u128, "{} >= {}", a, b);
    }
}

#[test]
fn less_equal_is_negated_less_with_operands_exchanged() {
    for (a, b) in PAIRS {
        let result = evaluate(BinaryOpKind::LessEqual, Type::unsigned(8), a, Type::unsigned(8), b);
        assert_eq!(result, (a <= b) as u128, "{} <= {}", a, b);
    }
}

#[test]
fn not_equal_is_negated_equal() {
    for (a, b) in PAIRS {
        let result = evaluate(BinaryOpKind::NotEqual, Type::unsigned(8), a, Type::unsigned(8), b);
        assert_eq!(result, (a != b) as u128, "{} != {}", a, b);
    }
}

#[test]
fn less_and_equal_need_no_compensation() {
    for (a, b) in PAIRS {
        assert_eq!(
            evaluate(BinaryOpKind::Less, Type::unsigned(8), a, Type::unsigned(8), b),
            (a < b) as u128
        );
        assert_eq!(
            evaluate(BinaryOpKind::Equal, Type::unsigned(8), a, Type::unsigned(8), b),
            (a == b) as u128
        );
    }
}

#[test]
fn less_equal_emits_swap_then_not() {
    let mut context = context();
    let a = context.builder.add_parameter(Type::unsigned(8));
    let b = context.builder.add_parameter(Type::unsigned(8));
    let result = leaf(context.insert_binary(a, BinaryOpKind::LessEqual, b, location()).unwrap());
    let function = finish(context, vec![result]);
    let instructions = &function.dfg.blocks[0].instructions;
    assert_eq!(instructions.len(), 2);
    match &instructions[0] {
        Instruction::Binary { lhs, operator, rhs, result } => {
            assert_eq!((*lhs, *operator, *rhs, *result), (b, BinaryOp::Lt, a, ValueId(2)));
        }
        other => panic!("unexpected {:?}", other),
    }
    match &instructions[1] {
        Instruction::Not { value, result } => assert_eq!((*value, *result), (ValueId(2), ValueId(3))),
        other => panic!("unexpected {:?}", other),
    }
    assert_eq!(result, ValueId(3));
    assert_eq!(function.dfg.blocks[0].locations, vec![Some(location()), Some(location())]);
}

#[test]
fn add_of_two_eight_bit_maxima_is_truncated() {
    let result = evaluate(BinaryOpKind::Add, Type::unsigned(8), 255, Type::unsigned(8), 255);
    assert_eq!(result, 254);
    assert_eq!(evaluate(BinaryOpKind::Add, Type::unsigned(8), 1, Type::unsigned(8), 2), 3);
    assert_eq!(evaluate(BinaryOpKind::Add, Type::unsigned(8), 255, Type::unsigned(8), 1), 0);
}

#[test]
fn multiply_is_truncated_to_the_declared_width() {
    let result = evaluate(BinaryOpKind::Multiply, Type::unsigned(8), 255, Type::unsigned(8), 255);
    assert_eq!(result, (255u128 * 255) % 256);
    assert_eq!(evaluate(BinaryOpKind::Multiply, Type::unsigned(8), 16, Type::unsigned(8), 16), 0);
    assert_eq!(evaluate(BinaryOpKind::Multiply, Type::unsigned(8), 15, Type::unsigned(8), 17), 255);
}

#[test]
fn subtract_is_truncated_to_the_declared_width() {
    assert_eq!(evaluate(BinaryOpKind::Subtract, Type::unsigned(8), 255, Type::unsigned(8), 255), 0);
    assert_eq!(evaluate(BinaryOpKind::Subtract, Type::unsigned(8), 255, Type::unsigned(8), 0), 255);
    assert_eq!(evaluate(BinaryOpKind::Subtract, Type::unsigned(8), 9, Type::unsigned(8), 3), 6);
}

#[test]
fn mixed_widths_truncate_to_the_width_of_the_left_operand() {
    let result = evaluate(BinaryOpKind::Add, Type::unsigned(8), 200, Type::unsigned(16), 1000);
    assert_eq!(result, (200u128 + 1000) % 256);
    let result = evaluate(BinaryOpKind::Add, Type::unsigned(16), 65535, Type::unsigned(8), 255);
    assert_eq!(result, (65535u128 + 255) % 65536);
}

/// The instructions of the only block, after lowering `op` on two parameters.
fn lowered(op: BinaryOpKind, lhs_type: Type, rhs_type: Type) -> Vec<Instruction> {
    let mut context = context();
    let a = context.builder.add_parameter(lhs_type);
    let b = context.builder.add_parameter(rhs_type);
    let result = leaf(context.insert_binary(a, op, b, location()).unwrap());
    let mut function = finish(context, vec![result]);
    function.dfg.blocks.remove(0).instructions
}

#[test]
fn truncation_bounds_follow_the_width_policy() {
    let add = lowered(BinaryOpKind::Add, Type::unsigned(8), Type::unsigned(16));
    match &add[1] {
        Instruction::Truncate { value, bit_size, max_bit_size, result } => {
            assert_eq!((*value, *bit_size, *max_bit_size, *result), (ValueId(2), 8, 17, ValueId(3)));
        }
        other => panic!("unexpected {:?}", other),
    }
    let subtract = lowered(BinaryOpKind::Subtract, Type::signed(32), Type::signed(8));
    assert!(matches!(subtract[1], Instruction::Truncate { bit_size: 32, max_bit_size: 33, .. }));
    let multiply = lowered(BinaryOpKind::Multiply, Type::unsigned(8), Type::unsigned(16));
    assert!(matches!(multiply[1], Instruction::Truncate { bit_size: 8, max_bit_size: 24, .. }));
}

#[test]
fn field_operands_are_not_truncated() {
    let add = lowered(BinaryOpKind::Add, Type::field(), Type::field());
    assert_eq!(add.len(), 1);
    let mixed = lowered(BinaryOpKind::Multiply, Type::unsigned(8), Type::field());
    assert_eq!(mixed.len(), 1);
    let divide = lowered(BinaryOpKind::Divide, Type::unsigned(8), Type::unsigned(8));
    assert_eq!(divide.len(), 1);
    assert!(matches!(divide[0], Instruction::Binary { operator: BinaryOp::Div, .. }));
}

#[test]
fn shift_left_by_a_constant_adds_the_amount() {
    let mut context = context();
    let a = context.builder.add_parameter(Type::unsigned(8));
    let amount = context.builder.numeric_constant(3, Type::unsigned(8));
    let result = leaf(context.insert_binary(a, BinaryOpKind::ShiftLeft, amount, location()).unwrap());
    let function = finish(context, vec![result]);
    let instructions = &function.dfg.blocks[0].instructions;
    assert!(matches!(instructions[1], Instruction::Truncate { bit_size: 8, max_bit_size: 11, .. }));
    assert_eq!(Machine::run(&function, vec![Data::Number(0xff)]), vec![Data::Number(0xf8)]);
}

#[test]
fn shift_left_by_a_large_constant_is_not_cut_short() {
    let mut context = context();
    let a = context.builder.add_parameter(Type::unsigned(8));
    let amount = context.builder.numeric_constant(300, Type::unsigned(16));
    let result = leaf(context.insert_binary(a, BinaryOpKind::ShiftLeft, amount, location()).unwrap());
    let function = finish(context, vec![result]);
    let instructions = &function.dfg.blocks[0].instructions;
    assert!(matches!(instructions[1], Instruction::Truncate { bit_size: 8, max_bit_size: 308, .. }));
}

#[test]
fn shift_left_by_an_unknown_amount_assumes_the_worst_case() {
    // 4 + 2^3 - 1
    let small = lowered(BinaryOpKind::ShiftLeft, Type::unsigned(4), Type::unsigned(3));
    assert!(matches!(small[1], Instruction::Truncate { bit_size: 4, max_bit_size: 11, .. }));
    // 8 + 2^8 - 1 is more than a field element has bits, and is the bound all the same
    let precise = lowered(BinaryOpKind::ShiftLeft, Type::unsigned(8), Type::unsigned(8));
    assert!(matches!(precise[1], Instruction::Truncate { bit_size: 8, max_bit_size: 263, .. }));
    // 2^32 cannot be computed in 32 bits
    let overflowing = lowered(BinaryOpKind::ShiftLeft, Type::unsigned(8), Type::unsigned(32));
    assert!(matches!(overflowing[1], Instruction::Truncate { bit_size: 8, max_bit_size: 254, .. }));
    // 2^31 + 2^31 cannot be computed in 32 bits either
    let adding =
        lowered(BinaryOpKind::ShiftLeft, Type::unsigned(0x8000_0000), Type::unsigned(31));
    assert_eq!(adding.len(), 1);
}

fn field_array(length: usize) -> Type {
    Type::Array(vec![Type::field()], length)
}

fn numbers(values: &[u128]) -> Data {
    Data::Array(values.iter().map(|value| Data::Number(*value)).collect())
}

fn compare_arrays(op: BinaryOpKind, lhs: &[u128], rhs: &[u128]) -> u128 {
    let mut context = context();
    let a = context.builder.add_parameter(field_array(lhs.len()));
    let b = context.builder.add_parameter(field_array(rhs.len()));
    let result = leaf(context.insert_binary(a, op, b, location()).unwrap());
    let function = finish(context, vec![result]);
    number(&Machine::run(&function, vec![numbers(lhs), numbers(rhs)])[0])
}

#[test]
fn equal_arrays_compare_equal() {
    assert_eq!(compare_arrays(BinaryOpKind::Equal, &[1, 2, 3], &[1, 2, 3]), 1);
}

#[test]
fn arrays_that_differ_compare_unequal() {
    assert_eq!(compare_arrays(BinaryOpKind::Equal, &[1, 2, 3], &[1, 2, 4]), 0);
    assert_eq!(compare_arrays(BinaryOpKind::Equal, &[0, 2, 3], &[1, 2, 3]), 0);
}

#[test]
fn not_equal_on_equal_arrays_is_false() {
    assert_eq!(compare_arrays(BinaryOpKind::NotEqual, &[1, 2, 3], &[1, 2, 3]), 0);
    assert_eq!(compare_arrays(BinaryOpKind::NotEqual, &[1, 2, 3], &[1, 2, 4]), 1);
}

#[test]
fn empty_arrays_are_equal() {
    assert_eq!(compare_arrays(BinaryOpKind::Equal, &[], &[]), 1);
}

#[test]
fn array_equality_builds_a_loop_of_three_blocks() {
    let mut context = context();
    let a = context.builder.add_parameter(field_array(3));
    let b = context.builder.add_parameter(field_array(3));
    let result = leaf(context.insert_binary(a, BinaryOpKind::NotEqual, b, location()).unwrap());
    assert_eq!(context.builder.current_block().0, 3);
    let function = finish(context, vec![result]);
    let blocks = &function.dfg.blocks;
    assert_eq!(blocks.len(), 4);
    assert_eq!(blocks[0].instructions.len(), 2);
    assert!(matches!(blocks[0].instructions[0], Instruction::Allocate { .. }));
    assert!(matches!(blocks[0].instructions[1], Instruction::Store { .. }));
    match blocks[0].terminator.as_ref().unwrap() {
        TerminatorInstruction::Jmp { destination, arguments } => {
            assert_eq!(destination.0, 1);
            assert_eq!(arguments.len(), 1);
            assert!(matches!(
                function.dfg.values[arguments[0].0].kind,
                ValueKind::NumericConstant { constant: 0 }
            ));
        }
        other => panic!("unexpected {:?}", other),
    }
    assert_eq!(blocks[1].parameters.len(), 1);
    assert_eq!(blocks[1].instructions.len(), 1);
    assert!(matches!(
        blocks[1].terminator,
        Some(TerminatorInstruction::JmpIf { then_destination, else_destination, .. })
            if then_destination.0 == 2 && else_destination.0 == 3
    ));
    assert_eq!(blocks[2].instructions.len(), 7);
    assert!(matches!(
        blocks[2].terminator,
        Some(TerminatorInstruction::Jmp { destination, .. }) if destination.0 == 1
    ));
    assert_eq!(blocks[3].instructions.len(), 2);
    assert!(matches!(blocks[3].instructions[0], Instruction::Load { .. }));
    assert!(matches!(blocks[3].instructions[1], Instruction::Not { .. }));
}

#[test]
fn insertion_into_a_terminated_block_fails() {
    let mut context = context();
    let a = context.builder.add_parameter(Type::unsigned(8));
    context.builder.terminate_with_return(vec![a]);
    let result = context.insert_binary(a, BinaryOpKind::Add, a, location());
    assert_eq!(result.unwrap_err(), InternalError::BlockAlreadyTerminated { block: 0 });
    assert_eq!(
        context.new_mutable_variable(a).unwrap_err(),
        InternalError::BlockAlreadyTerminated { block: 0 }
    );
    assert!(context.builder.current_function.dfg.blocks[0].instructions.is_empty());
}

#[test]
fn what_inserts_nothing_succeeds_in_a_terminated_block() {
    let mut context = context();
    let a = context.builder.add_parameter(Type::unsigned(8));
    context.builder.terminate_with_return(vec![a]);
    assert_eq!(context.make_offset(a, 0), Ok(a));
    assert!(context.make_offset(a, 1).is_err());
    let unit = FunctionContext::unit_value();
    assert!(context.assign(&unit, &FunctionContext::unit_value()).is_ok());
}

#[test]
fn make_offset_skips_the_addition_of_zero() {
    let mut context = context();
    let address = context.builder.add_parameter(Type::field());
    assert_eq!(context.make_offset(address, 0), Ok(address));
    assert!(context.builder.current_function.dfg.blocks[0].instructions.is_empty());
    let moved = context.make_offset(address, 5).unwrap();
    assert_ne!(moved, address);
    let function = finish(context, vec![moved]);
    assert_eq!(function.dfg.blocks[0].instructions.len(), 1);
    assert_eq!(Machine::run(&function, vec![Data::Number(10)]), vec![Data::Number(15)]);
}

fn local(id: u32, name: &str, typ: ast::Type) -> ast::Ident {
    ast::Ident {
        location: None,
        definition: ast::Definition::Local(LocalId(id)),
        mutable: false,
        name: name.to_string(),
        typ,
    }
}

fn pair() -> ast::Type {
    ast::Type::Tuple(vec![ast::Type::Field, ast::Type::Field])
}

/// The type of `a` in `a.1[i].1 = v`: a field and an array of two pairs.
fn record() -> ast::Type {
    ast::Type::Tuple(vec![ast::Type::Field, ast::Type::Array(2, Box::new(pair()))])
}

/// The target `a.1[i].1`.
fn nested_target() -> ast::LValue {
    ast::LValue::MemberAccess {
        object: Box::new(ast::LValue::Index {
            array: Box::new(ast::LValue::MemberAccess {
                object: Box::new(ast::LValue::Ident(local(0, "a", record()))),
                field_index: 1,
            }),
            index: Box::new(ast::Expression::Ident(local(1, "i", ast::Type::Field))),
            element_type: pair(),
            location: location(),
        }),
        field_index: 1,
    }
}

/// Builds `fn main(mut a, i, v) { a.1[i].1 = v; (a.0, a.1, a.1[i].1) }`.
fn assign_nested() -> Function {
    let mut context = context();
    context.add_parameter_to_scope(LocalId(0), &record(), true).unwrap();
    context.add_parameter_to_scope(LocalId(1), &ast::Type::Field, false).unwrap();
    context.add_parameter_to_scope(LocalId(2), &ast::Type::Field, false).unwrap();

    let target = context.extract_current_value(&nested_target()).unwrap();
    let new_value = context.lookup(LocalId(2));
    context.assign_new_value(target, new_value).unwrap();

    let mut results = Vec::new();
    for value in context.lookup(LocalId(0)).flatten() {
        results.push(value.eval(&mut context.builder).unwrap());
    }
    let (read, _) = context.extract_current_value_recursive(&nested_target()).unwrap();
    results.push(leaf(read));
    finish(context, results)
}

#[test]
fn nested_assignment_round_trip() {
    let function = assign_nested();
    for index in 0..2u128 {
        let results = Machine::run(
            &function,
            vec![Data::Number(10), numbers(&[1, 2, 3, 4]), Data::Number(index), Data::Number(99)],
        );
        let mut expected = vec![1, 2, 3, 4];
        expected[(index * 2 + 1) as usize] = 99;
        assert_eq!(results, vec![Data::Number(10), numbers(&expected), Data::Number(99)]);
    }
}

/// The target `a.1[index].field`, with the index held by the local `id`.
fn field_of_element(id: u32, name: &str, field: usize) -> ast::LValue {
    ast::LValue::MemberAccess {
        object: Box::new(ast::LValue::Index {
            array: Box::new(ast::LValue::MemberAccess {
                object: Box::new(ast::LValue::Ident(local(0, "a", record()))),
                field_index: 1,
            }),
            index: Box::new(ast::Expression::Ident(local(id, name, ast::Type::Field))),
            element_type: pair(),
            location: location(),
        }),
        field_index: field,
    }
}

#[test]
fn assignment_leaves_the_other_fields_and_elements() {
    // fn main(mut a, i, v, j) { a.1[i].1 = v; (a.1[i].0, a.1[j].1) }
    let mut context = context();
    context.add_parameter_to_scope(LocalId(0), &record(), true).unwrap();
    context.add_parameter_to_scope(LocalId(1), &ast::Type::Field, false).unwrap();
    context.add_parameter_to_scope(LocalId(2), &ast::Type::Field, false).unwrap();
    context.add_parameter_to_scope(LocalId(3), &ast::Type::Field, false).unwrap();

    let target = context.extract_current_value(&nested_target()).unwrap();
    let new_value = context.lookup(LocalId(2));
    context.assign_new_value(target, new_value).unwrap();

    let (other_field, _) =
        context.extract_current_value_recursive(&field_of_element(1, "i", 0)).unwrap();
    let (other_element, _) =
        context.extract_current_value_recursive(&field_of_element(3, "j", 1)).unwrap();
    let function = finish(context, vec![leaf(other_field), leaf(other_element)]);

    let run = |i: u128, j: u128| {
        Machine::run(
            &function,
            vec![
                Data::Number(10),
                numbers(&[1, 2, 3, 4]),
                Data::Number(i),
                Data::Number(99),
                Data::Number(j),
            ],
        )
    };
    assert_eq!(run(0, 1), vec![Data::Number(1), Data::Number(4)]);
    assert_eq!(run(1, 0), vec![Data::Number(3), Data::Number(2)]);
}

/// The target `a[index]`, with the index held by the local `id`.
fn element(id: u32, name: &str) -> ast::LValue {
    ast::LValue::Index {
        array: Box::new(ast::LValue::Ident(local(
            0,
            "a",
            ast::Type::Array(3, Box::new(ast::Type::Field)),
        ))),
        index: Box::new(ast::Expression::Ident(local(id, name, ast::Type::Field))),
        element_type: ast::Type::Field,
        location: location(),
    }
}

#[test]
fn element_assignment_round_trip() {
    // fn main(mut a, i, v, j) { a[i] = v; (a[i], a[j]) }
    let mut context = context();
    let array = ast::Type::Array(3, Box::new(ast::Type::Field));
    context.add_parameter_to_scope(LocalId(0), &array, true).unwrap();
    context.add_parameter_to_scope(LocalId(1), &ast::Type::Field, false).unwrap();
    context.add_parameter_to_scope(LocalId(2), &ast::Type::Field, false).unwrap();
    context.add_parameter_to_scope(LocalId(3), &ast::Type::Field, false).unwrap();

    let target = context.extract_current_value(&element(1, "i")).unwrap();
    let new_value = context.lookup(LocalId(2));
    context.assign_new_value(target, new_value).unwrap();

    let (same, _) = context.extract_current_value_recursive(&element(1, "i")).unwrap();
    let (other, _) = context.extract_current_value_recursive(&element(3, "j")).unwrap();
    let function = finish(context, vec![leaf(same), leaf(other)]);

    let run = |i: u128, j: u128| {
        Machine::run(
            &function,
            vec![numbers(&[5, 6, 7]), Data::Number(i), Data::Number(99), Data::Number(j)],
        )
    };
    assert_eq!(run(0, 2), vec![Data::Number(99), Data::Number(7)]);
    assert_eq!(run(2, 1), vec![Data::Number(99), Data::Number(6)]);
    assert_eq!(run(1, 1), vec![Data::Number(99), Data::Number(99)]);
}

#[test]
fn assignment_through_a_reference_stores_every_scalar() {
    let mut context = context();
    let reference_type = ast::Type::MutableReference(Box::new(pair()));
    context.add_parameter_to_scope(LocalId(0), &reference_type, false).unwrap();
    context.add_parameter_to_scope(LocalId(1), &pair(), false).unwrap();
    let target = ast::LValue::Dereference {
        reference: Box::new(ast::LValue::Ident(local(0, "r", reference_type))),
        element_type: pair(),
    };
    let path = context.extract_current_value(&target).unwrap();
    let new_value = context.lookup(LocalId(1));
    context.assign_new_value(path, new_value).unwrap();
    let references = context.lookup(LocalId(0));
    let read = context.dereference(&references, &pair()).unwrap();
    let mut results = Vec::new();
    for value in read.flatten() {
        results.push(value.eval(&mut context.builder).unwrap());
    }
    let stores = context.builder.current_function.dfg.blocks[0]
        .instructions
        .iter()
        .filter(|instruction| matches!(instruction, Instruction::Store { .. }))
        .count();
    assert_eq!(stores, 2);
    let loads = context.builder.current_function.dfg.blocks[0]
        .instructions
        .iter()
        .filter(|instruction| matches!(instruction, Instruction::Load { .. }))
        .count();
    assert_eq!(loads, 2);
    let function = finish(context, results);
    assert_eq!(function.dfg.blocks[0].parameters.len(), 4);
    assert!(matches!(function.dfg.values[0].typ, Type::Reference));
    assert!(matches!(function.dfg.values[1].typ, Type::Reference));
}

#[test]
fn index_of_a_composite_element_reads_consecutive_slots() {
    let mut context = context();
    let array = context.builder.add_parameter(Type::Array(vec![Type::field(), Type::field()], 2));
    let index = context.builder.add_parameter(Type::field());
    let element = context.codegen_array_index(array, index, &pair(), location()).unwrap();
    let mut results = Vec::new();
    for value in element.flatten() {
        results.push(value.eval(&mut context.builder).unwrap());
    }
    let function = finish(context, results);
    assert_eq!(
        Machine::run(&function, vec![numbers(&[1, 2, 3, 4]), Data::Number(1)]),
        vec![Data::Number(3), Data::Number(4)]
    );
    assert_eq!(
        Machine::run(&function, vec![numbers(&[1, 2, 3, 4]), Data::Number(0)]),
        vec![Data::Number(1), Data::Number(2)]
    );
}

#[test]
fn literal_index_is_a_constant() {
    let mut context = context();
    context
        .add_parameter_to_scope(LocalId(0), &ast::Type::Array(3, Box::new(ast::Type::Field)), true)
        .unwrap();
    context.add_parameter_to_scope(LocalId(1), &ast::Type::Field, false).unwrap();
    let target = ast::LValue::Index {
        array: Box::new(ast::LValue::Ident(local(
            0,
            "a",
            ast::Type::Array(3, Box::new(ast::Type::Field)),
        ))),
        index: Box::new(ast::Expression::Literal(ast::Literal::Integer(2, ast::Type::Field))),
        element_type: ast::Type::Field,
        location: location(),
    };
    let path = context.extract_current_value(&target).unwrap();
    let new_value = context.lookup(LocalId(1));
    context.assign_new_value(path, new_value).unwrap();
    let array = leaf_value(context.lookup(LocalId(0))).eval(&mut context.builder).unwrap();
    let function = finish(context, vec![array]);
    assert_eq!(
        Machine::run(&function, vec![numbers(&[1, 2, 3]), Data::Number(7)]),
        vec![numbers(&[1, 2, 7])]
    );
}

fn leaf_value(values: Values) -> Value {
    match values {
        Tree::Leaf(value) => value,
        other => panic!("expected a single leaf, found {:?}", other),
    }
}

#[test]
fn mutable_parameter_lives_in_a_slot() {
    let mut context = context();
    context
        .add_parameter_to_scope(LocalId(0), &ast::Type::Integer(Signedness::Unsigned, 8), true)
        .unwrap();
    let instructions = &context.builder.current_function.dfg.blocks[0].instructions;
    assert_eq!(instructions.len(), 2);
    assert!(matches!(instructions[0], Instruction::Allocate { result: ValueId(1) }));
    assert!(matches!(
        instructions[1],
        Instruction::Store { address: ValueId(1), value: ValueId(0) }
    ));
    match leaf_value(context.lookup(LocalId(0))) {
        Value::Mutable(address, typ) => {
            assert_eq!(address, ValueId(1));
            assert!(typ.same(&Type::Numeric(NumericType::Unsigned { bit_size: 8 })));
        }
        other => panic!("unexpected {:?}", other),
    }
}

#[test]
fn immutable_parameter_is_bound_to_itself() {
    let mut context = context();
    context.add_parameter_to_scope(LocalId(0), &pair(), false).unwrap();
    assert!(context.builder.current_function.dfg.blocks[0].instructions.is_empty());
    match context.lookup(LocalId(0)) {
        Tree::Branch(fields) => {
            assert_eq!(fields.len(), 2);
            assert!(matches!(fields[0], Tree::Leaf(Value::Normal(ValueId(0)))));
            assert!(matches!(fields[1], Tree::Leaf(Value::Normal(ValueId(1)))));
        }
        other => panic!("unexpected {:?}", other),
    }
}
