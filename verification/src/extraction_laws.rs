use vstd::prelude::*;
use crate::ast;
use crate::flatten::flatten_type;
use crate::ir::builder::BuilderView;
use crate::ir::dfg::DfgView;
use crate::ir::instruction::InstructionView;
use crate::ir::semantics::{Data, lemma_run_concat, lemma_run_one, Machine};
use crate::ir::types::TypeView;
use crate::ir::value::ValueId;
use crate::laws::{element_read, emitted};
use crate::lvalue::{
    array_index, bool_constant, element_count, expression_ok, expression_value, extractable,
    extraction, index_extraction, LValueView,
};
use crate::lvalue_laws::{
    extends, keeps, leaf_data, lemma_array_index, lemma_array_index_extends,
    lemma_emitted_in_stages, lemma_leaf_kept, lemma_tree_kept, readable, tree_data, tree_plain,
    tree_readable,
};
use crate::path_laws::{
    aligned, consistent, field_size, field_start, lemma_field_leaves, lemma_path_kept, path_ok,
    recorded, root, root_ok, select, width,
};
use crate::value::{ValueView, ValuesView};

verus! {

/// Reading a binding, semantically: running what this appends, which is
/// nothing or one load, defines the value read as what the binding stands
/// for, and touches neither the memory nor the older values.
pub proof fn lemma_eval(
    builder: BuilderView,
    leaf: ValueView,
    modulus: nat,
    machine: Machine,
    dfg: DfgView,
)
    requires
        builder.wf(),
        builder.dfg().values.len() + 1 <= usize::MAX,
        leaf.below(builder.dfg().values.len()),
        readable(machine, dfg, leaf),
        leaf.eval(builder).0.dfg().values.is_prefix_of(dfg.values),
    ensures
        ({
            let (after, value) = leaf.eval(builder);
            let ran = machine.run(modulus, dfg, emitted(builder, after));
            &&& extends(after, builder)
            &&& after.has_value(value)
            &&& after.dfg().values.len() <= builder.dfg().values.len() + 1
            &&& ran.operand(dfg, value) == leaf_data(machine, dfg, leaf)
            &&& keeps(ran, machine, builder.dfg().values.len())
            &&& after.type_of_value(value) == leaf_type(builder, leaf)
        }),
{
    let (after, value) = leaf.eval(builder);
    match leaf {
        ValueView::Normal(plain) => {
            assert(emitted(builder, after) =~= Seq::empty());
        },
        ValueView::Mutable(address, typ) => {
            let load = InstructionView::Load { address, result: value };
            assert(dfg.values[value.0 as int] == after.dfg().values[value.0 as int]);
            assert(emitted(builder, after) =~= seq![load]);
            lemma_run_one(machine, modulus, dfg, load);
        },
    }
}

/// The type of what a binding stands for: the type of the value, or the
/// type that the slot is recorded to hold.
pub open spec fn leaf_type(builder: BuilderView, leaf: ValueView) -> TypeView {
    match leaf {
        ValueView::Normal(value) => builder.type_of_value(value),
        ValueView::Mutable(_, typ) => typ,
    }
}

/// What an expression stands for in a state of the machine.
pub open spec fn expression_data(
    machine: Machine,
    dfg: DfgView,
    bindings: Map<u32, ValuesView>,
    expression: ast::Expression,
) -> Data {
    match expression {
        ast::Expression::Ident(ident) => leaf_data(
            machine,
            dfg,
            bindings[ident.definition->Local_0.0]->Leaf_0,
        ),
        ast::Expression::Literal(ast::Literal::Integer(value, _)) => Data::Number(value as nat),
        ast::Expression::Literal(ast::Literal::Bool(value)) => Data::Number(
            bool_constant(value) as nat,
        ),
    }
}

/// Whether the variable that an expression names, if it names one, can be
/// read.
pub open spec fn expression_readable(
    machine: Machine,
    dfg: DfgView,
    bindings: Map<u32, ValuesView>,
    expression: ast::Expression,
    count: nat,
) -> bool {
    expression matches ast::Expression::Ident(ident) ==> {
        let leaf = bindings[ident.definition->Local_0.0]->Leaf_0;
        leaf.below(count) && readable(machine, dfg, leaf)
    }
}

/// Evaluating an expression, semantically: running what this appends
/// defines the value as what the expression stands for, and touches neither
/// the memory nor the older values.
pub proof fn lemma_expression(
    builder: BuilderView,
    bindings: Map<u32, ValuesView>,
    expression: ast::Expression,
    modulus: nat,
    machine: Machine,
    dfg: DfgView,
)
    requires
        builder.wf(),
        builder.dfg().values.len() + 1 <= usize::MAX,
        expression_ok(bindings, expression),
        expression_readable(machine, dfg, bindings, expression, builder.dfg().values.len()),
        expression_value(builder, bindings, expression).0.dfg().values.is_prefix_of(dfg.values),
    ensures
        ({
            let (after, value) = expression_value(builder, bindings, expression);
            let ran = machine.run(modulus, dfg, emitted(builder, after));
            &&& extends(after, builder)
            &&& after.has_value(value)
            &&& after.dfg().values.len() <= builder.dfg().values.len() + 1
            &&& ran.operand(dfg, value) == expression_data(machine, dfg, bindings, expression)
            &&& keeps(ran, machine, builder.dfg().values.len())
        }),
{
    let (after, value) = expression_value(builder, bindings, expression);
    match expression {
        ast::Expression::Ident(ident) => {
            lemma_eval(
                builder,
                bindings[ident.definition->Local_0.0]->Leaf_0,
                modulus,
                machine,
                dfg,
            );
        },
        ast::Expression::Literal(literal) => {
            assert(emitted(builder, after) =~= Seq::empty());
            assert(dfg.values[value.0 as int] == after.dfg().values[value.0 as int]);
        },
    }
}

/// An upper bound on the values that the first phase of an assignment adds.
pub open spec fn extraction_cost(lvalue: ast::LValue) -> nat
    decreases lvalue,
{
    match lvalue {
        ast::LValue::Ident(_) => 0,
        ast::LValue::Index { array, index, element_type, location } => extraction_cost(*array)
            + 4 + 3 * flatten_type(element_type).count_leaves(),
        ast::LValue::MemberAccess { object, field_index } => extraction_cost(*object),
        ast::LValue::Dereference { reference, element_type } => 0,
    }
}

/// Whether the first phase of an assignment to `lvalue` reads what is
/// there: the variable at its root lives in slots of its own; what is
/// indexed is, when it has been read, an array whose elements have as many
/// scalars as the type of the element says, and which holds the element at
/// the index; the index can be read and is a number; and no step goes
/// through a reference.
pub open spec fn sound(
    machine: Machine,
    dfg: DfgView,
    builder: BuilderView,
    bindings: Map<u32, ValuesView>,
    lvalue: ast::LValue,
    modulus: nat,
) -> bool
    decreases lvalue,
{
    match lvalue {
        ast::LValue::Ident(ident) => root_ok(
            machine,
            dfg,
            bindings[ident.definition->Local_0.0],
            builder.dfg().values.len(),
        ),
        ast::LValue::Index { array, index, element_type, location } => {
            let (extracted, values, _) = extraction(builder, bindings, *array);
            let reached = machine.run(modulus, dfg, emitted(builder, extracted));
            let leaf = values->Leaf_0;
            let size = flatten_type(element_type).count_leaves();
            &&& sound(machine, dfg, builder, bindings, *array, modulus)
            &&& leaf_data(reached, dfg, leaf) is Array
            &&& expression_readable(machine, dfg, bindings, *index, builder.dfg().values.len())
            &&& expression_data(machine, dfg, bindings, *index) is Number
            &&& expression_data(machine, dfg, bindings, *index)->Number_0 * size + size
                <= leaf_data(reached, dfg, leaf)->Array_0.len()
            &&& leaf_data(reached, dfg, leaf)->Array_0.len() < modulus
            &&& size <= u128::MAX
            &&& size == element_count(leaf_type(extracted, leaf))
        },
        ast::LValue::MemberAccess { object, field_index } => sound(
            machine,
            dfg,
            builder,
            bindings,
            *object,
            modulus,
        ),
        ast::LValue::Dereference { reference, element_type } => false,
    }
}

/// What is recorded stays what the variable holds when the machine keeps
/// its memory and its older values and the builder goes on.
pub proof fn lemma_consistent_kept(
    earlier: Machine,
    later: Machine,
    dfg: DfgView,
    builder: BuilderView,
    extended: BuilderView,
    path: LValueView,
    modulus: nat,
    held: Seq<Data>,
)
    requires
        path_ok(earlier, dfg, builder, path, modulus),
        consistent(earlier, dfg, builder, path, held),
        keeps(later, earlier, builder.dfg().values.len()),
        extends(extended, builder),
    ensures
        consistent(later, dfg, extended, path, held),
    decreases path,
{
    lemma_path_kept(earlier, later, dfg, builder, extended, path, modulus);
    match path {
        LValueView::Index { old_array, index, array_lvalue } => {
            lemma_consistent_kept(
                earlier,
                later,
                dfg,
                builder,
                extended,
                *array_lvalue,
                modulus,
                held,
            );
            lemma_path_kept(earlier, later, dfg, builder, extended, *array_lvalue, modulus);
            assert(select(later, dfg, extended, *array_lvalue, held) == select(
                earlier,
                dfg,
                builder,
                *array_lvalue,
                held,
            ));
        },
        LValueView::MemberAccess { old_object, index, object_lvalue } => {
            lemma_consistent_kept(
                earlier,
                later,
                dfg,
                builder,
                extended,
                *object_lvalue,
                modulus,
                held,
            );
            lemma_path_kept(earlier, later, dfg, builder, extended, *object_lvalue, modulus);
            assert(select(later, dfg, extended, *object_lvalue, held) == select(
                earlier,
                dfg,
                builder,
                *object_lvalue,
                held,
            ));
            lemma_tree_kept(
                earlier,
                later,
                dfg,
                old_object,
                builder.dfg().values.len(),
                extended.dfg().values.len(),
            );
        },
        _ => {},
    }
}

/// A run that keeps what a run before it has kept keeps it too.
pub proof fn lemma_keeps_transitive(
    first: Machine,
    second: Machine,
    third: Machine,
    count: nat,
    more: nat,
)
    requires
        keeps(second, first, count),
        keeps(third, second, more),
        count <= more,
    ensures
        keeps(third, first, count),
{
}

/// Whether every binding that the first phase of an assignment reads is
/// older than the value with the number `count`.
pub open spec fn lvalue_below(
    bindings: Map<u32, ValuesView>,
    lvalue: ast::LValue,
    count: nat,
) -> bool
    decreases lvalue,
{
    match lvalue {
        ast::LValue::Ident(ident) => forall|k: int|
            0 <= k < bindings[ident.definition->Local_0.0].count_leaves() ==> (
            #[trigger] bindings[ident.definition->Local_0.0].flatten()[k]).below(count),
        ast::LValue::Index { array, index, element_type, location } => {
            &&& lvalue_below(bindings, *array, count)
            &&& *index matches ast::Expression::Ident(ident) ==> bindings[ident.definition
                ->Local_0.0]->Leaf_0.below(count)
        },
        ast::LValue::MemberAccess { object, field_index } => lvalue_below(bindings, *object, count),
        ast::LValue::Dereference { reference, element_type } => false,
    }
}

/// What is read soundly is older than the values of the builder.
pub proof fn lemma_sound_below(
    machine: Machine,
    dfg: DfgView,
    builder: BuilderView,
    bindings: Map<u32, ValuesView>,
    lvalue: ast::LValue,
    modulus: nat,
)
    requires
        sound(machine, dfg, builder, bindings, lvalue, modulus),
    ensures
        lvalue_below(bindings, lvalue, builder.dfg().values.len()),
    decreases lvalue,
{
    match lvalue {
        ast::LValue::Index { array, index, element_type, location } => {
            lemma_sound_below(machine, dfg, builder, bindings, *array, modulus);
        },
        ast::LValue::MemberAccess { object, field_index } => {
            lemma_sound_below(machine, dfg, builder, bindings, *object, modulus);
        },
        _ => {},
    }
}

/// Whether every leaf of a tree is older than the value with the number
/// `count`.
pub open spec fn leaves_below(tree: ValuesView, count: nat) -> bool {
    forall|k: int| 0 <= k < tree.count_leaves() ==> (#[trigger] tree.flatten()[k]).below(count)
}

/// The first phase of an assignment only adds values and appends
/// instructions, and what it gives as the current value is made of values
/// that the builder has.
pub proof fn lemma_extraction_extends(
    builder: BuilderView,
    bindings: Map<u32, ValuesView>,
    lvalue: ast::LValue,
)
    requires
        builder.wf(),
        extractable(builder, bindings, lvalue),
        lvalue_below(bindings, lvalue, builder.dfg().values.len()),
        builder.dfg().values.len() + extraction_cost(lvalue) <= usize::MAX,
    ensures
        ({
            let (after, current, path) = extraction(builder, bindings, lvalue);
            &&& extends(after, builder)
            &&& after.dfg().values.len() <= builder.dfg().values.len() + extraction_cost(lvalue)
            &&& leaves_below(current, after.dfg().values.len())
        }),
    decreases lvalue,
{
    let (after, current, path) = extraction(builder, bindings, lvalue);
    match lvalue {
        ast::LValue::Ident(ident) => {},
        ast::LValue::Index { array, index, element_type, location } => {
            lemma_extraction_extends(builder, bindings, *array);
            let (extracted, values, sub) = extraction(builder, bindings, *array);
            let leaf = values->Leaf_0;
            assert(values.flatten()[0] == leaf);
            let (read, old_array) = leaf.eval(extracted);
            assert(extends(read, extracted));
            let (evaluated, index_value) = expression_value(read, bindings, *index);
            assert(extends(evaluated, read));
            assert(evaluated.has_value(index_value));
            lemma_array_index_extends(evaluated, old_array, index_value, element_type, location);
            let indexed = index_extraction(builder, bindings, *array, *index);
            assert(indexed.0 == evaluated && indexed.1 == old_array && indexed.2 == index_value);
            let (last, element) = array_index(
                evaluated,
                old_array,
                index_value,
                element_type,
                location,
            );
            assert(after == last && current == element);
            assert(extends(last, evaluated));
            lemma_emitted_in_stages(builder, extracted, read);
            lemma_emitted_in_stages(builder, read, evaluated);
            lemma_emitted_in_stages(builder, evaluated, after);
        },
        ast::LValue::MemberAccess { object, field_index } => {
            lemma_extraction_extends(builder, bindings, *object);
            let (extracted, old_object, sub) = extraction(builder, bindings, *object);
            lemma_field_leaves(old_object, field_index as int);
            assert forall|k: int| 0 <= k < current.count_leaves() implies (
            #[trigger] current.flatten()[k]).below(after.dfg().values.len()) by {
                assert(current.flatten()[k] == old_object.flatten()[field_start(
                    old_object,
                    field_index as int,
                ) + k]);
            }
        },
        ast::LValue::Dereference { reference, element_type } => {},
    }
}

/// The path that an index step records on top of the path of what is
/// indexed.
pub open spec fn index_path(
    builder: BuilderView,
    bindings: Map<u32, ValuesView>,
    leaf: ValueView,
    index: ast::Expression,
    sub: LValueView,
) -> LValueView {
    let (read, old_array) = leaf.eval(builder);
    let (evaluated, index_value) = expression_value(read, bindings, index);
    LValueView::Index { old_array, index: index_value, array_lvalue: Box::new(sub) }
}

/// The state after an index step: the array has been read, the index
/// evaluated, and the element read. Gives the state and the element.
pub open spec fn index_step(
    builder: BuilderView,
    bindings: Map<u32, ValuesView>,
    leaf: ValueView,
    index: ast::Expression,
    element_type: ast::Type,
    location: crate::ir::instruction::Location,
) -> (BuilderView, ValuesView) {
    let (read, old_array) = leaf.eval(builder);
    let (evaluated, index_value) = expression_value(read, bindings, index);
    array_index(evaluated, old_array, index_value, element_type, location)
}

/// An index step only adds values and appends instructions.
pub proof fn lemma_index_step_extends(
    builder: BuilderView,
    bindings: Map<u32, ValuesView>,
    leaf: ValueView,
    index: ast::Expression,
    element_type: ast::Type,
    location: crate::ir::instruction::Location,
)
    requires
        builder.wf(),
        leaf.below(builder.dfg().values.len()),
        expression_ok(bindings, index),
        index matches ast::Expression::Ident(ident) ==> bindings[ident.definition->Local_0.0]
            ->Leaf_0.below(builder.dfg().values.len()),
        builder.dfg().values.len() + 4 + 3 * flatten_type(element_type).count_leaves()
            <= usize::MAX,
    ensures
        ({
            let (read, old_array) = leaf.eval(builder);
            let (evaluated, index_value) = expression_value(read, bindings, index);
            let (after, element) = index_step(
                builder,
                bindings,
                leaf,
                index,
                element_type,
                location,
            );
            &&& extends(read, builder)
            &&& extends(evaluated, read)
            &&& extends(after, evaluated)
            &&& extends(after, builder)
            &&& read.has_value(old_array)
            &&& evaluated.has_value(index_value)
            &&& read.dfg().values.len() <= builder.dfg().values.len() + 1
            &&& evaluated.dfg().values.len() <= read.dfg().values.len() + 1
            &&& after.dfg().values.len() <= builder.dfg().values.len() + 4 + 3 * flatten_type(
                element_type,
            ).count_leaves()
            &&& element.count_leaves() == flatten_type(element_type).count_leaves()
            &&& tree_plain(element, after.dfg().values.len())
            &&& emitted(builder, after) == emitted(builder, read) + emitted(read, evaluated)
                + emitted(evaluated, after)
        }),
{
    let (read, old_array) = leaf.eval(builder);
    assert(extends(read, builder));
    let (evaluated, index_value) = expression_value(read, bindings, index);
    assert(extends(evaluated, read));
    assert(evaluated.has_value(index_value));
    lemma_array_index_extends(evaluated, old_array, index_value, element_type, location);
    let (after, element) = array_index(evaluated, old_array, index_value, element_type, location);
    assert(extends(after, evaluated));
    lemma_emitted_in_stages(builder, read, evaluated);
    lemma_emitted_in_stages(builder, evaluated, after);
}

/// An index step, semantically: the array is read, the index is evaluated
/// and the element is read, and running this defines as the element the
/// scalars that the array holds at the index. The memory and the older
/// values are untouched.
pub proof fn lemma_index_step(
    builder: BuilderView,
    bindings: Map<u32, ValuesView>,
    leaf: ValueView,
    index: ast::Expression,
    element_type: ast::Type,
    location: crate::ir::instruction::Location,
    modulus: nat,
    machine: Machine,
    dfg: DfgView,
)
    requires
        builder.wf(),
        leaf.below(builder.dfg().values.len()),
        readable(machine, dfg, leaf),
        expression_ok(bindings, index),
        expression_readable(machine, dfg, bindings, index, builder.dfg().values.len()),
        builder.dfg().values.len() + 4 + 3 * flatten_type(element_type).count_leaves()
            <= usize::MAX,
        index_step(
            builder,
            bindings,
            leaf,
            index,
            element_type,
            location,
        ).0.dfg().values.is_prefix_of(dfg.values),
        leaf_data(machine, dfg, leaf) is Array,
        expression_data(machine, dfg, bindings, index) is Number,
        expression_data(machine, dfg, bindings, index)->Number_0 * flatten_type(
            element_type,
        ).count_leaves() + flatten_type(element_type).count_leaves() <= leaf_data(
            machine,
            dfg,
            leaf,
        )->Array_0.len(),
        leaf_data(machine, dfg, leaf)->Array_0.len() < modulus,
        flatten_type(element_type).count_leaves() <= u128::MAX,
    ensures
        ({
            let (read, old_array) = leaf.eval(builder);
            let (evaluated, index_value) = expression_value(read, bindings, index);
            let (after, element) = index_step(
                builder,
                bindings,
                leaf,
                index,
                element_type,
                location,
            );
            let ran = machine.run(modulus, dfg, emitted(builder, after));
            &&& keeps(ran, machine, builder.dfg().values.len())
            &&& ran.operand(dfg, old_array) == leaf_data(machine, dfg, leaf)
            &&& ran.operand(dfg, index_value) == expression_data(machine, dfg, bindings, index)
            &&& after.type_of_value(old_array) == leaf_type(builder, leaf)
            &&& tree_data(ran, dfg, element) == element_read(
                leaf_data(machine, dfg, leaf)->Array_0,
                flatten_type(element_type).count_leaves(),
                expression_data(machine, dfg, bindings, index)->Number_0,
            )
        }),
{
    let count = builder.dfg().values.len();
    let elements = leaf_data(machine, dfg, leaf)->Array_0;
    let place = expression_data(machine, dfg, bindings, index)->Number_0;
    lemma_index_step_extends(builder, bindings, leaf, index, element_type, location);
    let (read, old_array) = leaf.eval(builder);
    let (evaluated, index_value) = expression_value(read, bindings, index);
    let (after, element) = array_index(evaluated, old_array, index_value, element_type, location);
    lemma_eval(builder, leaf, modulus, machine, dfg);
    let ran1 = machine.run(modulus, dfg, emitted(builder, read));
    assert(expression_readable(ran1, dfg, bindings, index, read.dfg().values.len())
        && expression_data(ran1, dfg, bindings, index) == expression_data(
        machine,
        dfg,
        bindings,
        index,
    )) by {
        match index {
            ast::Expression::Ident(ident) => {
                lemma_leaf_kept(
                    machine,
                    ran1,
                    dfg,
                    bindings[ident.definition->Local_0.0]->Leaf_0,
                    count,
                );
            },
            _ => {},
        }
    }
    lemma_expression(read, bindings, index, modulus, ran1, dfg);
    let ran2 = ran1.run(modulus, dfg, emitted(read, evaluated));
    assert(ran2.operand(dfg, old_array) == Data::Array(elements));
    lemma_array_index(
        evaluated,
        old_array,
        index_value,
        element_type,
        location,
        modulus,
        ran2,
        dfg,
        elements,
        place,
    );
    let ran3 = ran2.run(modulus, dfg, emitted(evaluated, after));
    lemma_run_concat(machine, modulus, dfg, emitted(builder, read), emitted(read, evaluated));
    lemma_run_concat(
        machine,
        modulus,
        dfg,
        emitted(builder, read) + emitted(read, evaluated),
        emitted(evaluated, after),
    );
    lemma_keeps_transitive(machine, ran1, ran2, count, read.dfg().values.len());
    lemma_keeps_transitive(machine, ran2, ran3, count, evaluated.dfg().values.len());
    assert(ran3.operand(dfg, old_array) == ran2.operand(dfg, old_array));
    assert(ran3.operand(dfg, index_value) == ran2.operand(dfg, index_value));
    assert(after.dfg().values[old_array.0 as int] == read.dfg().values[old_array.0 as int]);
}

/// What an index step records: on top of a path that can be assigned along
/// and records what the variable holds, the step with the array and the
/// index as they are after the step can be assigned along too, records what
/// the variable holds, and selects the element at the index.
pub proof fn lemma_index_recorded(
    earlier: Machine,
    later: Machine,
    dfg: DfgView,
    builder: BuilderView,
    extended: BuilderView,
    sub: LValueView,
    old_array: ValueId,
    index_value: ValueId,
    modulus: nat,
    held: Seq<Data>,
    elements: Seq<Data>,
    place: nat,
    size: nat,
)
    requires
        path_ok(earlier, dfg, builder, sub, modulus),
        consistent(earlier, dfg, builder, sub, held),
        tree_data(earlier, dfg, root(sub)) == held,
        select(earlier, dfg, builder, sub, held) == seq![Data::Array(elements)],
        width(builder, sub) == 1,
        keeps(later, earlier, builder.dfg().values.len()),
        extends(extended, builder),
        extended.has_value(old_array),
        extended.has_value(index_value),
        later.operand(dfg, old_array) == Data::Array(elements),
        later.operand(dfg, index_value) == Data::Number(place),
        element_count(extended.type_of_value(old_array)) == size,
        place * size + size <= elements.len(),
        elements.len() < modulus,
        size <= u128::MAX,
    ensures
        ({
            let path = LValueView::Index {
                old_array,
                index: index_value,
                array_lvalue: Box::new(sub),
            };
            &&& path_ok(later, dfg, extended, path, modulus)
            &&& consistent(later, dfg, extended, path, held)
            &&& tree_data(later, dfg, root(path)) == held
            &&& select(later, dfg, extended, path, held) == element_read(elements, size, place)
            &&& width(extended, path) == size
        }),
{
    lemma_path_kept(earlier, later, dfg, builder, extended, sub, modulus);
    lemma_consistent_kept(earlier, later, dfg, builder, extended, sub, modulus, held);
    assert(select(later, dfg, extended, sub, held) == select(earlier, dfg, builder, sub, held));
}

/// What the first phase records of an index step, if `lvalue` ends in one:
/// the recorded index stands for what the index expression stood for, the
/// elements of the recorded array have as many scalars as the type of the
/// element says, and the step itself has touched neither the memory nor
/// the values that were there when what is indexed had been extracted.
pub open spec fn index_recorded(
    machine: Machine,
    dfg: DfgView,
    builder: BuilderView,
    bindings: Map<u32, ValuesView>,
    lvalue: ast::LValue,
    modulus: nat,
) -> bool {
    lvalue matches ast::LValue::Index { array, index, element_type, location } ==> {
        let (after, current, path) = extraction(builder, bindings, lvalue);
        let ran = machine.run(modulus, dfg, emitted(builder, after));
        let (extracted, values, sub) = extraction(builder, bindings, *array);
        let reached = machine.run(modulus, dfg, emitted(builder, extracted));
        &&& path is Index
        &&& *path->array_lvalue == sub
        &&& extends(after, extracted)
        &&& extends(extracted, builder)
        &&& keeps(ran, reached, extracted.dfg().values.len())
        &&& ran.operand(dfg, path->Index_index) == expression_data(
            machine,
            dfg,
            bindings,
            *index,
        )
        &&& width(after, path) == flatten_type(element_type).count_leaves()
    }
}

/// The first phase of an assignment, semantically: running the
/// instructions that it appends touches neither the memory nor the older
/// values; the path that it records can be assigned along and records what
/// the variable at its root holds; and the current value that it gives
/// stands for what the variable holds at the target of the path.
#[verifier::rlimit(40)]
pub proof fn lemma_extraction(
    builder: BuilderView,
    bindings: Map<u32, ValuesView>,
    lvalue: ast::LValue,
    modulus: nat,
    machine: Machine,
    dfg: DfgView,
)
    requires
        builder.wf(),
        extractable(builder, bindings, lvalue),
        sound(machine, dfg, builder, bindings, lvalue, modulus),
        builder.dfg().values.len() + extraction_cost(lvalue) <= usize::MAX,
        extraction(builder, bindings, lvalue).0.dfg().values.is_prefix_of(dfg.values),
    ensures
        ({
            let (after, current, path) = extraction(builder, bindings, lvalue);
            let ran = machine.run(modulus, dfg, emitted(builder, after));
            let held = tree_data(machine, dfg, root(path));
            &&& keeps(ran, machine, builder.dfg().values.len())
            &&& path_ok(ran, dfg, after, path, modulus)
            &&& consistent(ran, dfg, after, path, held)
            &&& tree_data(ran, dfg, root(path)) == held
            &&& tree_data(ran, dfg, current) == select(ran, dfg, after, path, held)
            &&& current.count_leaves() == width(after, path)
            &&& tree_readable(ran, dfg, current, after.dfg().values.len())
            &&& aligned(current, path, after.dfg().values.len())
            &&& index_recorded(machine, dfg, builder, bindings, lvalue, modulus)
        }),
    decreases lvalue,
{
    let count = builder.dfg().values.len();
    let (after, current, path) = extraction(builder, bindings, lvalue);
    lemma_sound_below(machine, dfg, builder, bindings, lvalue, modulus);
    lemma_extraction_extends(builder, bindings, lvalue);
    match lvalue {
        ast::LValue::Ident(ident) => {
            assert(emitted(builder, after) =~= Seq::empty());
        },
        ast::LValue::Index { array, index, element_type, location } => {
            let size = flatten_type(element_type).count_leaves();
            lemma_extraction_extends(builder, bindings, *array);
            let (extracted, values, sub) = extraction(builder, bindings, *array);
            let leaf = values->Leaf_0;
            assert(values.flatten() =~= seq![leaf]);
            assert(values.flatten()[0] == leaf);
            lemma_index_step_extends(extracted, bindings, leaf, *index, element_type, location);
            let step = index_step(extracted, bindings, leaf, *index, element_type, location);
            let indexed = index_extraction(builder, bindings, *array, *index);
            assert(after == step.0 && current == step.1);
            assert(path == index_path(extracted, bindings, leaf, *index, sub));
            assert(extracted.dfg().values.is_prefix_of(dfg.values)) by {
                assert(extracted.dfg().values.is_prefix_of(after.dfg().values));
            }
            lemma_emitted_in_stages(builder, extracted, after);
            lemma_extraction(builder, bindings, *array, modulus, machine, dfg);
            let ran1 = machine.run(modulus, dfg, emitted(builder, extracted));
            let held = tree_data(machine, dfg, root(sub));
            assert(expression_readable(ran1, dfg, bindings, *index, extracted.dfg().values.len())
                && expression_data(ran1, dfg, bindings, *index) == expression_data(
                machine,
                dfg,
                bindings,
                *index,
            )) by {
                match *index {
                    ast::Expression::Ident(ident) => {
                        lemma_leaf_kept(
                            machine,
                            ran1,
                            dfg,
                            bindings[ident.definition->Local_0.0]->Leaf_0,
                            count,
                        );
                    },
                    _ => {},
                }
            }
            lemma_index_step(
                extracted,
                bindings,
                leaf,
                *index,
                element_type,
                location,
                modulus,
                ran1,
                dfg,
            );
            lemma_run_concat(
                machine,
                modulus,
                dfg,
                emitted(builder, extracted),
                emitted(extracted, after),
            );
            let ran = machine.run(modulus, dfg, emitted(builder, after));
            lemma_keeps_transitive(machine, ran1, ran, count, extracted.dfg().values.len());
            let elements = leaf_data(ran1, dfg, leaf)->Array_0;
            let place = expression_data(machine, dfg, bindings, *index)->Number_0;
            assert(tree_data(ran1, dfg, values) =~= seq![Data::Array(elements)]);
            lemma_index_recorded(
                ran1,
                ran,
                dfg,
                extracted,
                after,
                sub,
                path->old_array,
                path->Index_index,
                modulus,
                held,
                elements,
                place,
                size,
            );
            assert(tree_readable(ran, dfg, current, after.dfg().values.len()));
            assert(aligned(current, path, after.dfg().values.len()));
        },
        ast::LValue::MemberAccess { object, field_index } => {
            lemma_extraction(builder, bindings, *object, modulus, machine, dfg);
            let (extracted, old_object, sub) = extraction(builder, bindings, *object);
            let ran = machine.run(modulus, dfg, emitted(builder, after));
            let start = field_start(old_object, field_index as int);
            lemma_field_leaves(old_object, field_index as int);
            assert forall|k: int| 0 <= k < current.count_leaves() implies current.flatten()[k]
                == #[trigger] old_object.flatten()[start + k] by {}
            assert(tree_data(ran, dfg, current) =~= tree_data(ran, dfg, old_object).subrange(
                start as int,
                (start + field_size(old_object, field_index as int)) as int,
            ));
            assert forall|k: int| 0 <= k < current.count_leaves() implies readable(
                ran,
                dfg,
                #[trigger] current.flatten()[k],
            ) && current.flatten()[k].below(after.dfg().values.len()) by {
                assert(current.flatten()[k] == old_object.flatten()[start + k]);
            }
        },
        ast::LValue::Dereference { reference, element_type } => {},
    }
}

} // verus!
