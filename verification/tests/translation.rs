use std::collections::HashMap;

use ssa_gen::ast;
use ssa_gen::ast::{BinaryOpKind, FuncId, LocalId, Signedness};
use ssa_gen::context::FunctionContext;
use ssa_gen::ir::builder::FunctionBuilder;
use ssa_gen::ir::dfg::DataFlowGraph;
use ssa_gen::ir::function::{FunctionId, RuntimeType};
use ssa_gen::ir::instruction::{BinaryOp, Instruction, Location};
use ssa_gen::ir::types::{NumericType, Type};
use ssa_gen::ir::value::{ValueId, ValueKind};
use ssa_gen::operators::{
    convert_operator, operator_requires_not, operator_requires_swapped_operands,
    operator_result_max_bit_size_to_truncate, shift_left_max_bit_size,
};
use ssa_gen::shared::SharedContext;
use ssa_gen::value::{duplicate_values, Tree, Value, Values};

fn program() -> ast::Program {
    ast::Program { functions: Vec::new() }
}

fn context() -> FunctionContext {
    FunctionContext {
        definitions: HashMap::new(),
        builder: FunctionBuilder::new("main".to_string(), FunctionId(0), RuntimeType::Acir),
    }
}

fn location() -> Location {
    Location { file: 0, start: 0, end: 0 }
}

/// The tree written with brackets for branches and the kind and number of
/// the value for leaves.
fn show(values: &Values) -> String {
    match values {
        Tree::Leaf(Value::Normal(id)) => format!("v{}", id.0),
        Tree::Leaf(Value::Mutable(id, _)) => format!("m{}", id.0),
        Tree::Branch(children) => {
            let children: Vec<String> = children.iter().map(show).collect();
            format!("[{}]", children.join(" "))
        }
    }
}

fn show_type(typ: &Type) -> String {
    match typ {
        Type::Numeric(NumericType::Signed { bit_size }) => format!("i{}", bit_size),
        Type::Numeric(NumericType::Unsigned { bit_size }) => format!("u{}", bit_size),
        Type::Numeric(NumericType::NativeField) => "Field".to_string(),
        Type::Reference => "ref".to_string(),
        Type::Array(elements, length) => {
            let elements: Vec<String> = elements.iter().map(show_type).collect();
            format!("[{}; {}]", elements.join(", "), length)
        }
        Type::Slice(elements) => {
            let elements: Vec<String> = elements.iter().map(show_type).collect();
            format!("[{}]", elements.join(", "))
        }
        Type::Function => "fn".to_string(),
        Type::Unit => "unit".to_string(),
    }
}

fn show_types(tree: &Tree<Type>) -> String {
    match tree {
        Tree::Leaf(typ) => show_type(typ),
        Tree::Branch(children) => {
            let children: Vec<String> = children.iter().map(show_types).collect();
            format!("({})", children.join(", "))
        }
    }
}

fn flattened(typ: &ast::Type) -> String {
    show_types(&FunctionContext::convert_type(typ))
}

#[test]
fn scalars_are_single_leaves() {
    assert_eq!(flattened(&ast::Type::Field), "Field");
    assert_eq!(flattened(&ast::Type::Bool), "u1");
    assert_eq!(flattened(&ast::Type::Integer(Signedness::Signed, 32)), "i32");
    assert_eq!(flattened(&ast::Type::Integer(Signedness::Unsigned, 8)), "u8");
    assert_eq!(flattened(&ast::Type::String(5)), "[u8; 5]");
    assert_eq!(
        flattened(&ast::Type::Function(vec![ast::Type::Field], Box::new(ast::Type::Unit))),
        "fn"
    );
}

#[test]
fn tuples_are_branches_and_unit_is_an_empty_branch() {
    assert_eq!(flattened(&ast::Type::Unit), "()");
    let nested = ast::Type::Tuple(vec![
        ast::Type::Field,
        ast::Type::Tuple(vec![ast::Type::Bool, ast::Type::Unit]),
        ast::Type::Integer(Signedness::Unsigned, 8),
    ]);
    assert_eq!(flattened(&nested), "(Field, (u1, ()), u8)");
    assert_eq!(FunctionContext::convert_type(&nested).flatten().len(), 3);
}

#[test]
fn arrays_list_the_scalars_of_one_element() {
    let pairs = ast::Type::Array(
        4,
        Box::new(ast::Type::Tuple(vec![ast::Type::Field, ast::Type::Bool])),
    );
    assert_eq!(flattened(&pairs), "[Field, u1; 4]");
    let slice = ast::Type::Slice(Box::new(ast::Type::Array(2, Box::new(ast::Type::Field))));
    assert_eq!(flattened(&slice), "[[Field; 2]]");
    assert_eq!(show_type(&FunctionContext::convert_non_tuple_type(&pairs)), "[Field, u1; 4]");
}

#[test]
fn mutable_reference_is_one_reference_for_each_scalar() {
    let reference = ast::Type::MutableReference(Box::new(ast::Type::Tuple(vec![
        ast::Type::Field,
        ast::Type::Tuple(vec![ast::Type::Bool, ast::Type::Array(2, Box::new(ast::Type::Field))]),
    ])));
    assert_eq!(flattened(&reference), "(ref, (ref, ref))");
    let scalar = ast::Type::MutableReference(Box::new(ast::Type::Field));
    assert_eq!(flattened(&scalar), "ref");
    assert_eq!(show_type(&FunctionContext::convert_non_tuple_type(&scalar)), "ref");
}

#[test]
fn formatted_string_is_a_triple() {
    let formatted = ast::Type::FmtString(
        7,
        Box::new(ast::Type::Tuple(vec![ast::Type::Field, ast::Type::Bool])),
    );
    assert_eq!(flattened(&formatted), "([u8; 7], Field, (Field, u1))");
}

#[test]
fn operators_map_onto_the_smaller_set() {
    let expected = [
        (BinaryOpKind::Add, BinaryOp::Add, false, false),
        (BinaryOpKind::Subtract, BinaryOp::Sub, false, false),
        (BinaryOpKind::Multiply, BinaryOp::Mul, false, false),
        (BinaryOpKind::Divide, BinaryOp::Div, false, false),
        (BinaryOpKind::Modulo, BinaryOp::Mod, false, false),
        (BinaryOpKind::Equal, BinaryOp::Eq, false, false),
        (BinaryOpKind::NotEqual, BinaryOp::Eq, false, true),
        (BinaryOpKind::Less, BinaryOp::Lt, false, false),
        (BinaryOpKind::Greater, BinaryOp::Lt, true, false),
        (BinaryOpKind::LessEqual, BinaryOp::Lt, true, true),
        (BinaryOpKind::GreaterEqual, BinaryOp::Lt, false, true),
        (BinaryOpKind::And, BinaryOp::And, false, false),
        (BinaryOpKind::Or, BinaryOp::Or, false, false),
        (BinaryOpKind::Xor, BinaryOp::Xor, false, false),
        (BinaryOpKind::ShiftRight, BinaryOp::Shr, false, false),
        (BinaryOpKind::ShiftLeft, BinaryOp::Shl, false, false),
    ];
    for (operator, base, swap, negate) in expected {
        assert_eq!(convert_operator(operator), base, "{:?}", operator);
        assert_eq!(operator_requires_swapped_operands(operator), swap, "{:?}", operator);
        assert_eq!(operator_requires_not(operator), negate, "{:?}", operator);
    }
}

fn graph(lhs: Type, rhs: Type) -> DataFlowGraph {
    let mut dfg = DataFlowGraph::new();
    dfg.make_value(ValueKind::Instruction, lhs);
    dfg.make_value(ValueKind::Instruction, rhs);
    dfg.make_value(ValueKind::NumericConstant { constant: 5 }, Type::unsigned(8));
    dfg
}

#[test]
fn maximal_bit_sizes() {
    let dfg = graph(Type::unsigned(8), Type::unsigned(16));
    let (lhs, rhs, five) = (ValueId(0), ValueId(1), ValueId(2));
    let bits = |op, a, b| operator_result_max_bit_size_to_truncate(op, a, b, &dfg);
    assert_eq!(bits(BinaryOpKind::Add, lhs, rhs), Some(17));
    assert_eq!(bits(BinaryOpKind::Add, rhs, lhs), Some(17));
    assert_eq!(bits(BinaryOpKind::Subtract, lhs, lhs), Some(9));
    assert_eq!(bits(BinaryOpKind::Multiply, lhs, rhs), Some(24));
    assert_eq!(bits(BinaryOpKind::ShiftLeft, lhs, five), Some(13));
    // 16 + 2^8 - 1: the bound is not capped at the width of the field
    assert_eq!(bits(BinaryOpKind::ShiftLeft, rhs, lhs), Some(271));
    // 8 + 2^8 - 1
    assert_eq!(bits(BinaryOpKind::ShiftLeft, lhs, lhs), Some(263));
    assert_eq!(bits(BinaryOpKind::Divide, lhs, rhs), None);
    assert_eq!(bits(BinaryOpKind::Less, lhs, rhs), None);
    assert_eq!(bits(BinaryOpKind::ShiftRight, lhs, rhs), None);
    let fields = graph(Type::field(), Type::unsigned(8));
    assert_eq!(
        operator_result_max_bit_size_to_truncate(BinaryOpKind::Add, lhs, rhs, &fields),
        None
    );
    assert_eq!(
        operator_result_max_bit_size_to_truncate(BinaryOpKind::Add, rhs, lhs, &fields),
        None
    );
}

#[test]
fn shift_left_bound_falls_back_to_the_field_on_overflow_only() {
    assert_eq!(shift_left_max_bit_size(4, 3, 254), 11);
    assert_eq!(shift_left_max_bit_size(8, 0, 254), 8);
    assert_eq!(shift_left_max_bit_size(8, 7, 254), 135);
    assert_eq!(shift_left_max_bit_size(127, 7, 254), 254);
    assert_eq!(shift_left_max_bit_size(128, 7, 254), 255);
    assert_eq!(shift_left_max_bit_size(8, 8, 254), 263);
    assert_eq!(shift_left_max_bit_size(8, 31, 254), (1 << 31) + 7);
    assert_eq!(shift_left_max_bit_size((1 << 31) - 1, 31, 254), u32::MAX - 1);
    // 2^31 + 2^31 does not fit 32 bits
    assert_eq!(shift_left_max_bit_size(1 << 31, 31, 254), 254);
    // 2^32 does not fit 32 bits
    assert_eq!(shift_left_max_bit_size(8, 32, 254), 254);
    assert_eq!(shift_left_max_bit_size(u32::MAX, 1, 254), 254);
    assert_eq!(shift_left_max_bit_size(8, 32, 100), 100);
    assert_eq!(shift_left_max_bit_size(4, 3, 10), 11);
}

#[test]
fn define_then_lookup_returns_what_was_stored() {
    let mut context = context();
    let a = context.builder.add_parameter(Type::field());
    let b = context.builder.add_parameter(Type::field());
    let stored: Values = Tree::Branch(vec![
        Tree::Leaf(Value::Normal(a)),
        Tree::Branch(vec![Tree::Leaf(Value::Mutable(b, Type::unsigned(8)))]),
        Tree::Branch(vec![]),
    ]);
    assert!(!context.is_defined(LocalId(4)));
    context.define(LocalId(4), duplicate_values(&stored));
    assert!(context.is_defined(LocalId(4)));
    assert!(!context.is_defined(LocalId(5)));
    assert_eq!(show(&context.lookup(LocalId(4))), "[v0 [m1] []]");
    context.define(LocalId(5), Tree::Leaf(Value::Normal(b)));
    assert_eq!(show(&context.lookup(LocalId(4))), show(&stored));
    assert_eq!(show(&context.lookup(LocalId(5))), "v1");
}

#[test]
fn unit_value_is_an_empty_branch() {
    assert_eq!(show(&FunctionContext::unit_value()), "[]");
}

#[test]
fn fields_are_read_and_replaced_by_position() {
    let tuple = || -> Values {
        Tree::Branch(vec![
            Tree::Leaf(Value::Normal(ValueId(0))),
            Tree::Leaf(Value::Normal(ValueId(1))),
            Tree::Leaf(Value::Normal(ValueId(2))),
        ])
    };
    assert_eq!(show(&FunctionContext::get_field(tuple(), 1)), "v1");
    assert_eq!(show(FunctionContext::get_field_ref(&tuple(), 2)), "v2");
    let replaced =
        FunctionContext::replace_field(tuple(), 1, Tree::Branch(vec![Tree::Leaf(Value::Normal(ValueId(9)))]));
    assert_eq!(show(&replaced), "[v0 [v9] v2]");
    assert_eq!(show(FunctionContext::get_field_ref(&replaced, 0)), "v0");
    assert_eq!(show(FunctionContext::get_field_ref(&replaced, 2)), "v2");
}

#[test]
fn call_results_take_the_shape_of_the_result_type() {
    let mut context = context();
    let callee = context.builder.import_function(FunctionId(1));
    let argument = context.builder.field_constant(3);
    let result_type = ast::Type::Tuple(vec![
        ast::Type::Field,
        ast::Type::Tuple(vec![ast::Type::Integer(Signedness::Unsigned, 8), ast::Type::Unit]),
        ast::Type::Bool,
    ]);
    let results = context.insert_call(callee, vec![argument], &result_type, location()).unwrap();
    assert_eq!(show(&results), "[v2 [v3 []] v4]");
    match &context.builder.current_function.dfg.blocks[0].instructions[0] {
        Instruction::Call { results, .. } => {
            assert_eq!(results, &vec![ValueId(2), ValueId(3), ValueId(4)]);
        }
        other => panic!("unexpected {:?}", other),
    }
    assert_eq!(show_type(&context.builder.type_of_value(ValueId(3))), "u8");
    let nothing = context.insert_call(callee, vec![], &ast::Type::Unit, location()).unwrap();
    assert_eq!(show(&nothing), "[]");
}

#[test]
fn element_size_counts_the_scalars_of_one_element() {
    let mut context = context();
    let pairs = context.builder.add_parameter(Type::Array(vec![Type::field(), Type::bool()], 9));
    let slice = context.builder.add_parameter(Type::Slice(vec![Type::field()]));
    assert_eq!(context.element_size(pairs), 2);
    assert_eq!(context.element_size(slice), 1);
}

#[test]
fn get_or_queue_gives_each_function_one_identity() {
    let mut shared = SharedContext::new(program());
    let first = shared.get_or_queue_function(FuncId(10));
    let second = shared.get_or_queue_function(FuncId(20));
    assert_ne!(first, second);
    assert_eq!(shared.get_or_queue_function(FuncId(10)), first);
    assert_eq!(shared.get_or_queue_function(FuncId(20)), second);
    assert_eq!(shared.get_or_queue_function(FuncId(10)), first);
    assert_eq!(shared.pending(), 2);
    assert_eq!(shared.function_queue, vec![(FuncId(10), first), (FuncId(20), second)]);
}

#[test]
fn pop_drains_the_queue() {
    for order in [[1u32, 2, 3], [3, 1, 2], [2, 3, 1]] {
        let mut shared = SharedContext::new(program());
        assert_eq!(shared.pop_next_function_in_queue(), None);
        let mut queued = Vec::new();
        for id in order {
            queued.push((FuncId(id), shared.get_or_queue_function(FuncId(id))));
        }
        let mut popped = Vec::new();
        for _ in 0..3 {
            popped.push(shared.pop_next_function_in_queue().expect("a function waits"));
        }
        assert_eq!(shared.pop_next_function_in_queue(), None);
        assert_eq!(shared.pop_next_function_in_queue(), None);
        assert_eq!(shared.pending(), 0);
        popped.sort_by_key(|entry| entry.0 .0);
        queued.sort_by_key(|entry| entry.0 .0);
        assert_eq!(popped, queued);
        let known = shared.get_or_queue_function(FuncId(order[0]));
        assert!(queued.contains(&(FuncId(order[0]), known)));
        assert_eq!(shared.pending(), 0);
    }
}

fn parameter(id: u32, mutable: bool, typ: ast::Type) -> ast::Parameter {
    ast::Parameter { id: LocalId(id), mutable, name: format!("p{}", id), typ }
}

#[test]
fn new_context_translates_the_waiting_function() {
    let mut shared = SharedContext::new(program());
    shared.get_or_queue_function(FuncId(0));
    let helper = shared.get_or_queue_function(FuncId(1));
    let parameters = vec![
        parameter(0, false, ast::Type::Tuple(vec![ast::Type::Field, ast::Type::Bool])),
        parameter(1, true, ast::Type::Field),
    ];
    let context =
        FunctionContext::new("helper".to_string(), &parameters, RuntimeType::Brillig, &mut shared)
            .unwrap();
    assert_eq!(shared.pending(), 1);
    assert_eq!(context.builder.current_function.id(), helper);
    assert_eq!(context.builder.current_function.runtime(), RuntimeType::Brillig);
    assert_eq!(context.builder.current_function.name, "helper");
    assert_eq!(show(&context.lookup(LocalId(0))), "[v0 v1]");
    assert_eq!(show(&context.lookup(LocalId(1))), "m3");
    assert_eq!(context.builder.current_function.dfg.blocks[0].parameters.len(), 3);
}

#[test]
fn new_function_drops_the_bindings() {
    let mut context = context();
    context.add_parameter_to_scope(LocalId(0), &ast::Type::Field, false).unwrap();
    context.add_parameter_to_scope(LocalId(1), &ast::Type::Field, false).unwrap();
    let function = ast::Function {
        id: FuncId(4),
        name: "next".to_string(),
        parameters: vec![parameter(1, false, ast::Type::Bool)],
        return_type: ast::Type::Unit,
        unconstrained: true,
    };
    context.new_function(FunctionId(9), &function).unwrap();
    assert!(!context.is_defined(LocalId(0)));
    assert_eq!(show(&context.lookup(LocalId(1))), "v0");
    assert_eq!(context.builder.current_function.id(), FunctionId(9));
    assert_eq!(context.builder.current_function.runtime(), RuntimeType::Brillig);
    assert_eq!(context.builder.finished_functions.len(), 1);
    assert_eq!(context.builder.finished_functions[0].dfg.values.len(), 2);
    let constrained = ast::Function {
        id: FuncId(5),
        name: "last".to_string(),
        parameters: Vec::new(),
        return_type: ast::Type::Unit,
        unconstrained: false,
    };
    context.new_function(FunctionId(10), &constrained).unwrap();
    assert_eq!(context.builder.current_function.runtime(), RuntimeType::Acir);
    assert!(!context.is_defined(LocalId(1)));
}

#[test]
fn functions_are_imported_as_values() {
    let mut shared = SharedContext::new(program());
    let mut context = context();
    let first = context.get_or_queue_function(&mut shared, FuncId(3));
    let again = context.get_or_queue_function(&mut shared, FuncId(3));
    assert_eq!(show(&first), "v0");
    assert_eq!(show(&again), "v1");
    assert_eq!(shared.pending(), 1);
    let values = &context.builder.current_function.dfg.values;
    assert!(matches!(values[0].kind, ValueKind::Function { function: FunctionId(0) }));
    assert!(matches!(values[1].kind, ValueKind::Function { function: FunctionId(0) }));
}

fn show_widths(tree: &Tree<Option<u32>>) -> String {
    match tree {
        Tree::Leaf(Some(bits)) => format!("{}", bits),
        Tree::Leaf(None) => "-".to_string(),
        Tree::Branch(children) => {
            let children: Vec<String> = children.iter().map(show_widths).collect();
            format!("[{}]", children.join(" "))
        }
    }
}

fn mixed() -> ast::Type {
    ast::Type::Tuple(vec![
        ast::Type::Integer(Signedness::Unsigned, 8),
        ast::Type::Tuple(vec![ast::Type::Bool, ast::Type::Unit, ast::Type::Field]),
        ast::Type::Integer(Signedness::Signed, 64),
    ])
}

#[test]
fn map_type_applies_the_function_to_each_scalar() {
    let widths = FunctionContext::map_type(&mixed(), &|typ: Type| typ.bit_size());
    assert_eq!(show_widths(&widths), "[8 [1 [] -] 64]");
    let scalar = FunctionContext::map_type(&ast::Type::Field, &|typ: Type| typ.bit_size());
    assert_eq!(show_widths(&scalar), "-");
}

#[test]
fn try_map_type_stops_at_the_first_failure() {
    let integers = ast::Type::Tuple(vec![
        ast::Type::Bool,
        ast::Type::Tuple(vec![ast::Type::Integer(Signedness::Unsigned, 8)]),
    ]);
    let widths = FunctionContext::try_map_type(&integers, &|typ: Type| {
        typ.bit_size().map(Some).ok_or("not an integer")
    });
    assert_eq!(show_widths(&widths.unwrap()), "[1 [8]]");
    let failed = FunctionContext::try_map_type(&mixed(), &|typ: Type| match typ.bit_size() {
        Some(bits) if bits < 64 => Ok(Some(bits)),
        Some(bits) => Err(format!("{} bits are too many", bits)),
        None => Err("not an integer".to_string()),
    });
    assert_eq!(failed.unwrap_err(), "not an integer");
}

#[test]
fn trees_map_leaf_by_leaf() {
    let tree: Tree<u32> =
        Tree::Branch(vec![Tree::Leaf(1), Tree::Branch(vec![Tree::Leaf(2)]), Tree::Leaf(3)]);
    let doubled = tree.map(&|leaf: u32| Some(leaf * 2));
    assert_eq!(show_widths(&doubled), "[2 [4] 6]");
    assert_eq!(doubled.flatten(), vec![Some(2), Some(4), Some(6)]);
    let empty: Tree<u32> = Tree::empty();
    assert!(empty.flatten().is_empty());
    assert_eq!(Tree::Leaf(5u32).into_leaf(), 5);
}
