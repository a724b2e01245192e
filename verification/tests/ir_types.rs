use ssa_gen::ir::builder::FunctionBuilder;
use ssa_gen::ir::function::{Function, FunctionId, RuntimeType, Signature};
use ssa_gen::ir::instruction::{BinaryOp, Instruction, Location, TerminatorInstruction};
use ssa_gen::ir::types::{NumericType, Type};
use ssa_gen::ir::value::{ValueId, ValueKind};
use ssa_gen::errors::InternalError;

#[test]
fn sign_smoke() {
    let mut signature = Signature::default();

    signature.params.push(Type::Numeric(NumericType::NativeField));
    signature.returns.push(Type::Numeric(NumericType::Unsigned { bit_size: 32 }));
}

#[test]
fn type_constructors() {
    assert!(matches!(Type::signed(8), Type::Numeric(NumericType::Signed { bit_size: 8 })));
    assert!(matches!(Type::unsigned(16), Type::Numeric(NumericType::Unsigned { bit_size: 16 })));
    assert!(matches!(Type::field(), Type::Numeric(NumericType::NativeField)));
    assert!(matches!(Type::bool(), Type::Numeric(NumericType::Unsigned { bit_size: 1 })));
    assert!(matches!(Type::char(), Type::Numeric(NumericType::Unsigned { bit_size: 8 })));
}

#[test]
fn bit_sizes() {
    assert_eq!(Type::signed(8).bit_size(), Some(8));
    assert_eq!(Type::unsigned(254).bit_size(), Some(254));
    assert_eq!(Type::field().bit_size(), None);
    assert_eq!(Type::Reference.bit_size(), None);
    assert_eq!(NumericType::NativeField.bit_size(), None);
}

#[test]
fn types_compare_by_structure() {
    let nested = Type::Array(vec![Type::field(), Type::Slice(vec![Type::unsigned(8)])], 3);
    let copy = nested.duplicate();
    assert!(nested.same(&copy));
    assert!(!nested.same(&Type::Array(vec![Type::field(), Type::Slice(vec![Type::unsigned(9)])], 3)));
    assert!(!nested.same(&Type::Array(vec![Type::field(), Type::Slice(vec![Type::unsigned(8)])], 4)));
    assert!(!nested.same(&Type::Array(vec![Type::field()], 3)));
    assert!(!Type::signed(8).same(&Type::unsigned(8)));
    assert!(Type::Unit.same(&Type::Unit));
    assert!(!Type::Function.same(&Type::Reference));
    assert!(nested.is_array());
    assert!(!Type::Slice(vec![]).is_array());
}

#[test]
fn new_function_has_an_empty_entry_block() {
    let function = Function::new("main".to_string(), FunctionId(7));
    assert_eq!(function.entry_block().0, 0);
    assert_eq!(function.id(), FunctionId(7));
    assert_eq!(function.runtime(), RuntimeType::Acir);
    assert_eq!(function.name, "main");
    assert_eq!(function.dfg.blocks.len(), 1);
    assert!(function.dfg.blocks[0].instructions.is_empty());
    assert!(function.dfg.blocks[0].terminator.is_none());
    assert!(function.dfg.values.is_empty());
}

fn builder() -> FunctionBuilder {
    FunctionBuilder::new("main".to_string(), FunctionId(0), RuntimeType::Acir)
}

#[test]
fn values_are_numbered_in_order() {
    let mut builder = builder();
    let a = builder.add_parameter(Type::unsigned(8));
    let constant = builder.numeric_constant(5, Type::unsigned(8));
    let sum = builder.insert_binary(a, BinaryOp::Add, constant).unwrap();
    let imported = builder.import_function(FunctionId(3));
    assert_eq!((a, constant, sum, imported), (ValueId(0), ValueId(1), ValueId(2), ValueId(3)));
    assert!(builder.has_value(imported));
    assert!(!builder.has_value(ValueId(4)));
    let dfg = &builder.current_function.dfg;
    assert_eq!(dfg.get_numeric_constant(constant), Some(5));
    assert_eq!(dfg.get_numeric_constant(a), None);
    assert!(matches!(dfg.values[3].kind, ValueKind::Function { function: FunctionId(3) }));
    assert!(matches!(dfg.values[0].kind, ValueKind::Param { block } if block.0 == 0));
    assert!(matches!(dfg.values[2].kind, ValueKind::Instruction));
    assert!(builder.type_of_value(sum).same(&Type::unsigned(8)));
    assert!(builder.type_of_value(imported).same(&Type::Function));
}

#[test]
fn comparisons_give_booleans() {
    let mut builder = builder();
    let a = builder.add_parameter(Type::unsigned(8));
    let less = builder.insert_binary(a, BinaryOp::Lt, a).unwrap();
    let equal = builder.insert_binary(a, BinaryOp::Eq, a).unwrap();
    let negated = builder.insert_not(less).unwrap();
    let truncated = builder.insert_truncate(a, 4, 8).unwrap();
    assert!(builder.type_of_value(less).same(&Type::bool()));
    assert!(builder.type_of_value(equal).same(&Type::bool()));
    assert!(builder.type_of_value(negated).same(&Type::bool()));
    assert!(builder.type_of_value(truncated).same(&Type::unsigned(8)));
}

#[test]
fn memory_and_array_instructions() {
    let mut builder = builder();
    let array = builder.add_parameter(Type::Array(vec![Type::field()], 2));
    let index = builder.field_constant(1);
    let slot = builder.insert_allocate().unwrap();
    builder.insert_store(slot, array).unwrap();
    let loaded = builder.insert_load(slot, Type::Array(vec![Type::field()], 2)).unwrap();
    let element = builder.insert_array_get(loaded, index, Type::field()).unwrap();
    let updated = builder.insert_array_set(loaded, index, element).unwrap();
    assert!(builder.type_of_value(slot).same(&Type::Reference));
    assert!(builder.type_of_value(element).same(&Type::field()));
    assert!(builder.type_of_value(updated).same(&Type::Array(vec![Type::field()], 2)));
    let instructions = &builder.current_function.dfg.blocks[0].instructions;
    assert_eq!(instructions.len(), 5);
    assert!(matches!(instructions[4], Instruction::ArraySet { result, .. } if result == updated));
}

#[test]
fn calls_define_one_value_for_each_result_type() {
    let mut builder = builder();
    let callee = builder.import_function(FunctionId(1));
    let argument = builder.field_constant(2);
    let results = builder
        .insert_call(callee, vec![argument], vec![Type::field(), Type::bool(), Type::Reference])
        .unwrap();
    assert_eq!(results, vec![ValueId(2), ValueId(3), ValueId(4)]);
    assert!(builder.type_of_value(results[1]).same(&Type::bool()));
    match &builder.current_function.dfg.blocks[0].instructions[0] {
        Instruction::Call { function, arguments, results } => {
            assert_eq!(*function, callee);
            assert_eq!(arguments, &vec![argument]);
            assert_eq!(results, &vec![ValueId(2), ValueId(3), ValueId(4)]);
        }
        other => panic!("unexpected {:?}", other),
    }
    let none = builder.insert_call(callee, vec![], vec![]).unwrap();
    assert!(none.is_empty());
}

#[test]
fn instructions_carry_the_current_location() {
    let mut builder = builder();
    let a = builder.add_parameter(Type::field());
    builder.insert_not(a).unwrap();
    let place = Location { file: 1, start: 2, end: 3 };
    builder.set_location(place);
    builder.insert_not(a).unwrap();
    builder.insert_not(a).unwrap();
    assert_eq!(
        builder.current_function.dfg.blocks[0].locations,
        vec![None, Some(place), Some(place)]
    );
}

#[test]
fn every_insertion_fails_after_the_terminator() {
    let mut builder = builder();
    let a = builder.add_parameter(Type::field());
    let other = builder.insert_block();
    assert!(!builder.is_terminated());
    builder.terminate_with_jmp(other, vec![a]);
    assert!(builder.is_terminated());
    let error = InternalError::BlockAlreadyTerminated { block: 0 };
    assert_eq!(builder.insert_binary(a, BinaryOp::Add, a), Err(error));
    assert_eq!(builder.insert_not(a), Err(error));
    assert_eq!(builder.insert_truncate(a, 1, 2), Err(error));
    assert_eq!(builder.insert_allocate(), Err(error));
    assert_eq!(builder.insert_load(a, Type::field()), Err(error));
    assert_eq!(builder.insert_store(a, a), Err(error));
    assert_eq!(builder.insert_array_get(a, a, Type::field()), Err(error));
    assert_eq!(builder.insert_array_set(a, a, a), Err(error));
    assert_eq!(builder.insert_call(a, vec![], vec![Type::field()]), Err(error));
    assert_eq!(builder.current_function.dfg.values.len(), 1);
    builder.switch_to_block(other);
    assert_eq!(builder.current_block(), other);
    assert!(builder.insert_not(a).is_ok());
}

#[test]
fn terminators_replace_each_other() {
    let mut builder = builder();
    let a = builder.add_parameter(Type::bool());
    let then_block = builder.insert_block();
    let else_block = builder.insert_block();
    let parameter = builder.add_block_parameter(then_block, Type::field());
    assert_eq!(builder.current_function.dfg.blocks[1].parameters, vec![parameter]);
    builder.terminate_with_return(vec![a]);
    builder.terminate_with_jmpif(a, then_block, else_block);
    assert!(matches!(
        builder.current_function.dfg.blocks[0].terminator,
        Some(TerminatorInstruction::JmpIf { condition, then_destination, else_destination })
            if condition == a && then_destination == then_block && else_destination == else_block
    ));
}

#[test]
fn finished_functions_come_in_order() {
    let mut builder = builder();
    builder.add_parameter(Type::field());
    builder.new_brillig_function("helper".to_string(), FunctionId(1));
    assert!(builder.current_function.dfg.values.is_empty());
    assert_eq!(builder.current_block().0, 0);
    builder.new_function("other".to_string(), FunctionId(2));
    let functions = builder.finish();
    let names: Vec<&str> = functions.iter().map(|function| function.name.as_str()).collect();
    assert_eq!(names, vec!["main", "helper", "other"]);
    assert_eq!(functions[1].runtime(), RuntimeType::Brillig);
    assert_eq!(functions[2].runtime(), RuntimeType::Acir);
    assert_eq!(functions[0].dfg.values.len(), 1);
}
