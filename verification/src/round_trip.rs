use vstd::prelude::*;
use crate::ast;
use crate::flatten::flatten_type;
use crate::ir::builder::BuilderView;
use crate::ir::dfg::DfgView;
use crate::ir::semantics::{Data, lemma_run_concat, Machine};
use crate::ir::types::TypeView;
use crate::ir::value::ValueId;
use crate::laws::emitted;
use crate::extraction_laws::{
    expression_data, expression_readable, extraction_cost, index_step, leaf_type, lemma_eval,
    lemma_expression, lemma_extraction, lemma_extraction_extends, lemma_index_step_extends,
    lemma_keeps_transitive, lemma_sound_below, lvalue_below, sound,
};
use crate::lvalue::{
    assignable, element_assignment, element_count, elements_at, elements_at_all,
    expression_value, extractable, extraction, current_value_path, index_extraction,
    lemma_same_shape_reflexive, lemma_same_shape_transitive, LValueView, reassignment,
};
use crate::lvalue_laws::{
    extends, keeps, keeps_values, lemma_emitted_in_stages, target_slot, tree_data, tree_plain,
    tree_readable,
};
use crate::extraction_laws::index_recorded;
use crate::laws::{element_read, element_written, lemma_element_round_trip};
use crate::lvalue_laws::{
    leaf_data, lemma_element_assignment, lemma_element_assignment_extends, lemma_leaf_kept,
    written_from,
};
use crate::path_laws::lemma_assignable_kept;
use crate::value::ValueView;
use crate::path_laws::{
    aligned, consistent, cost, field_size, field_start, lemma_field_leaves, lemma_path_kept,
    lemma_reassignment, lemma_reassignment_extends, lemma_select_written, lemma_widths_kept,
    path_ok, root, root_ok, root_written, select, width, widths_ok,
};
use crate::value::{lemma_flatten_all_take, TreeView, ValuesView};

verus! {

/// If one tree branches like another, the other branches like the one.
pub proof fn lemma_same_shape_symmetric<V, W>(first: TreeView<V>, second: TreeView<W>)
    requires
        first.same_shape(second),
    ensures
        second.same_shape(first),
    decreases first,
{
    match (first, second) {
        (TreeView::Branch(a), TreeView::Branch(b)) => {
            assert forall|i: int| 0 <= i < b.len() implies (#[trigger] b[i]).same_shape(a[i]) by {
                assert(a[i].same_shape(b[i]));
                lemma_same_shape_symmetric(a[i], b[i]);
            }
        },
        _ => {},
    }
}

/// Trees that branch alike have as many leaves.
pub proof fn lemma_same_shape_count<V, W>(first: TreeView<V>, second: TreeView<W>)
    requires
        first.same_shape(second),
    ensures
        first.count_leaves() == second.count_leaves(),
    decreases first,
{
    match (first, second) {
        (TreeView::Branch(a), TreeView::Branch(b)) => {
            lemma_same_shape_counts(a, b, a.len() as int);
            assert(a.take(a.len() as int) =~= a);
            assert(b.take(b.len() as int) =~= b);
        },
        _ => {},
    }
}

/// Lists of trees that branch alike, tree by tree, have as many leaves in
/// their first `count` trees.
pub proof fn lemma_same_shape_counts<V, W>(
    first: Seq<TreeView<V>>,
    second: Seq<TreeView<W>>,
    count: int,
)
    requires
        first.len() == second.len(),
        0 <= count <= first.len(),
        forall|i: int| 0 <= i < first.len() ==> (#[trigger] first[i]).same_shape(second[i]),
    ensures
        TreeView::flatten_all(first.take(count)).len() == TreeView::flatten_all(
            second.take(count),
        ).len(),
    decreases first, count,
{
    if count > 0 {
        lemma_same_shape_counts(first, second, count - 1);
        lemma_flatten_all_take(first, count - 1);
        lemma_flatten_all_take(second, count - 1);
        assert(first[count - 1].same_shape(second[count - 1]));
        lemma_same_shape_count(first[count - 1], second[count - 1]);
    } else {
        assert(first.take(0) =~= Seq::empty());
        assert(second.take(0) =~= Seq::empty());
    }
}

/// In trees that branch alike, a field starts at the same place and has as
/// many leaves, and the fields branch alike.
pub proof fn lemma_same_shape_field<V, W>(first: TreeView<V>, second: TreeView<W>, index: int)
    requires
        first.same_shape(second),
        first.has_field(index),
    ensures
        second.has_field(index),
        field_start(first, index) == field_start(second, index),
        field_size(first, index) == field_size(second, index),
        first.field(index).same_shape(second.field(index)),
{
    let a = first->Branch_0;
    let b = second->Branch_0;
    lemma_same_shape_counts(a, b, index);
    assert(a[index].same_shape(b[index]));
    lemma_same_shape_count(a[index], b[index]);
}

/// Whether two paths follow the same fields and the same places of arrays:
/// they start from the same variable, take the same fields of tuples that
/// branch alike, and index at the same places arrays whose elements have as
/// many scalars.
pub open spec fn similar(
    machine: Machine,
    dfg: DfgView,
    builder: BuilderView,
    path: LValueView,
    other_machine: Machine,
    other_builder: BuilderView,
    other: LValueView,
) -> bool
    decreases path,
{
    match (path, other) {
        (LValueView::Ident(values), LValueView::Ident(other_values)) => values == other_values,
        (
            LValueView::Index { old_array, index, array_lvalue },
            LValueView::Index {
                old_array: other_array,
                index: other_index,
                array_lvalue: other_lvalue,
            },
        ) => {
            &&& similar(
                machine,
                dfg,
                builder,
                *array_lvalue,
                other_machine,
                other_builder,
                *other_lvalue,
            )
            &&& width(builder, path) == width(other_builder, other)
            &&& machine.operand(dfg, index)->Number_0 == other_machine.operand(
                dfg,
                other_index,
            )->Number_0
        },
        (
            LValueView::MemberAccess { old_object, index, object_lvalue },
            LValueView::MemberAccess {
                old_object: other_object,
                index: other_index,
                object_lvalue: other_lvalue,
            },
        ) => {
            &&& similar(
                machine,
                dfg,
                builder,
                *object_lvalue,
                other_machine,
                other_builder,
                *other_lvalue,
            )
            &&& index == other_index
            &&& old_object.has_field(index as int)
            &&& old_object.same_shape(other_object)
        },
        _ => false,
    }
}

/// Similar paths start from the same variable and select the same of
/// whatever the variable holds.
pub proof fn lemma_similar_select(
    machine: Machine,
    dfg: DfgView,
    builder: BuilderView,
    path: LValueView,
    other_machine: Machine,
    other_builder: BuilderView,
    other: LValueView,
    held: Seq<Data>,
)
    requires
        similar(machine, dfg, builder, path, other_machine, other_builder, other),
    ensures
        root(path) == root(other),
        select(machine, dfg, builder, path, held) == select(
            other_machine,
            dfg,
            other_builder,
            other,
            held,
        ),
    decreases path,
{
    match (path, other) {
        (
            LValueView::Index { old_array, index, array_lvalue },
            LValueView::Index {
                old_array: other_array,
                index: other_index,
                array_lvalue: other_lvalue,
            },
        ) => {
            lemma_similar_select(
                machine,
                dfg,
                builder,
                *array_lvalue,
                other_machine,
                other_builder,
                *other_lvalue,
                held,
            );
        },
        (
            LValueView::MemberAccess { old_object, index, object_lvalue },
            LValueView::MemberAccess {
                old_object: other_object,
                index: other_index,
                object_lvalue: other_lvalue,
            },
        ) => {
            lemma_similar_select(
                machine,
                dfg,
                builder,
                *object_lvalue,
                other_machine,
                other_builder,
                *other_lvalue,
                held,
            );
            lemma_same_shape_field(old_object, other_object, index as int);
        },
        _ => {},
    }
}

/// Paths stay similar when the machine of the first keeps its older values
/// and its builder goes on.
pub proof fn lemma_similar_kept(
    machine: Machine,
    later: Machine,
    dfg: DfgView,
    builder: BuilderView,
    extended: BuilderView,
    path: LValueView,
    modulus: nat,
    other_machine: Machine,
    other_builder: BuilderView,
    other: LValueView,
)
    requires
        similar(machine, dfg, builder, path, other_machine, other_builder, other),
        path_ok(machine, dfg, builder, path, modulus),
        keeps(later, machine, builder.dfg().values.len()),
        extends(extended, builder),
    ensures
        similar(later, dfg, extended, path, other_machine, other_builder, other),
    decreases path,
{
    lemma_path_kept(machine, later, dfg, builder, extended, path, modulus);
    match (path, other) {
        (
            LValueView::Index { old_array, index, array_lvalue },
            LValueView::Index {
                old_array: other_array,
                index: other_index,
                array_lvalue: other_lvalue,
            },
        ) => {
            lemma_similar_kept(
                machine,
                later,
                dfg,
                builder,
                extended,
                *array_lvalue,
                modulus,
                other_machine,
                other_builder,
                *other_lvalue,
            );
            assert(later.operand(dfg, index) == machine.operand(dfg, index));
        },
        (
            LValueView::MemberAccess { old_object, index, object_lvalue },
            LValueView::MemberAccess {
                old_object: other_object,
                index: other_index,
                object_lvalue: other_lvalue,
            },
        ) => {
            lemma_similar_kept(
                machine,
                later,
                dfg,
                builder,
                extended,
                *object_lvalue,
                modulus,
                other_machine,
                other_builder,
                *other_lvalue,
            );
        },
        _ => {},
    }
}

/// If one path is similar to another, the other is similar to the one.
pub proof fn lemma_similar_symmetric(
    machine: Machine,
    dfg: DfgView,
    builder: BuilderView,
    path: LValueView,
    other_machine: Machine,
    other_builder: BuilderView,
    other: LValueView,
)
    requires
        similar(machine, dfg, builder, path, other_machine, other_builder, other),
    ensures
        similar(other_machine, dfg, other_builder, other, machine, builder, path),
    decreases path,
{
    match (path, other) {
        (
            LValueView::Index { old_array, index, array_lvalue },
            LValueView::Index {
                old_array: other_array,
                index: other_index,
                array_lvalue: other_lvalue,
            },
        ) => {
            lemma_similar_symmetric(
                machine,
                dfg,
                builder,
                *array_lvalue,
                other_machine,
                other_builder,
                *other_lvalue,
            );
        },
        (
            LValueView::MemberAccess { old_object, index, object_lvalue },
            LValueView::MemberAccess {
                old_object: other_object,
                index: other_index,
                object_lvalue: other_lvalue,
            },
        ) => {
            lemma_similar_symmetric(
                machine,
                dfg,
                builder,
                *object_lvalue,
                other_machine,
                other_builder,
                *other_lvalue,
            );
            lemma_same_shape_symmetric(old_object, other_object);
            lemma_same_shape_field(old_object, other_object, index as int);
        },
        _ => {},
    }
}

/// The element that is read branches like its type.
pub proof fn lemma_elements_at_shape(
    builder: BuilderView,
    shape: TreeView<TypeView>,
    array: ValueId,
    base_index: ValueId,
    field: nat,
)
    ensures
        elements_at(builder, shape, array, base_index, field).1.same_shape(shape),
    decreases shape,
{
    match shape {
        TreeView::Leaf(_) => {},
        TreeView::Branch(children) => {
            lemma_elements_at_all_shape(builder, children, array, base_index, field);
        },
    }
}

/// [`lemma_elements_at_shape`] for a list of shapes.
pub proof fn lemma_elements_at_all_shape(
    builder: BuilderView,
    shapes: Seq<TreeView<TypeView>>,
    array: ValueId,
    base_index: ValueId,
    field: nat,
)
    ensures
        elements_at_all(builder, shapes, array, base_index, field).1.len() == shapes.len(),
        forall|i: int|
            0 <= i < shapes.len() ==> (#[trigger] elements_at_all(
                builder,
                shapes,
                array,
                base_index,
                field,
            ).1[i]).same_shape(shapes[i]),
    decreases shapes,
{
    if shapes.len() > 0 {
        let firsts = shapes.drop_last();
        lemma_elements_at_all_shape(builder, firsts, array, base_index, field);
        let (middle, first_read) = elements_at_all(builder, firsts, array, base_index, field);
        let used = TreeView::flatten_all(firsts).len();
        lemma_elements_at_shape(middle, shapes.last(), array, base_index, field + used);
        let read = elements_at_all(builder, shapes, array, base_index, field).1;
        assert forall|i: int| 0 <= i < shapes.len() implies (#[trigger] read[i]).same_shape(
            shapes[i],
        ) by {
            if i < shapes.len() - 1 {
                assert(read[i] == first_read[i]);
                assert(firsts[i] == shapes[i]);
            }
        }
    }
}

/// Whether no step of an assignment target goes through a reference.
pub open spec fn no_dereference(lvalue: ast::LValue) -> bool
    decreases lvalue,
{
    match lvalue {
        ast::LValue::Ident(_) => true,
        ast::LValue::Index { array, index, element_type, location } => no_dereference(*array),
        ast::LValue::MemberAccess { object, field_index } => no_dereference(*object),
        ast::LValue::Dereference { reference, element_type } => false,
    }
}

/// What the first phase gives as the current value branches the same way
/// whatever the state of the builder.
pub proof fn lemma_extraction_shape(
    builder: BuilderView,
    other: BuilderView,
    bindings: Map<u32, ValuesView>,
    lvalue: ast::LValue,
)
    requires
        extractable(builder, bindings, lvalue),
        no_dereference(lvalue),
    ensures
        extraction(builder, bindings, lvalue).1.same_shape(
            extraction(other, bindings, lvalue).1,
        ),
    decreases lvalue,
{
    match lvalue {
        ast::LValue::Ident(ident) => {
            lemma_same_shape_reflexive(bindings[ident.definition->Local_0.0]);
        },
        ast::LValue::Index { array, index, element_type, location } => {
            let shape = flatten_type(element_type);
            let first = extraction(builder, bindings, lvalue).1;
            let second = extraction(other, bindings, lvalue).1;
            let indexed = index_extraction(builder, bindings, *array, *index);
            let other_indexed = index_extraction(other, bindings, *array, *index);
            let multiplied = indexed.0.field_constant(shape.count_leaves() as u128).set_location(
                location,
            );
            let other_multiplied = other_indexed.0.field_constant(
                shape.count_leaves() as u128,
            ).set_location(location);
            lemma_elements_at_shape(
                multiplied.insert_binary(
                    indexed.2,
                    crate::ir::instruction::BinaryOp::Mul,
                    indexed.0.next_value(),
                ),
                shape,
                indexed.1,
                multiplied.next_value(),
                0,
            );
            lemma_elements_at_shape(
                other_multiplied.insert_binary(
                    other_indexed.2,
                    crate::ir::instruction::BinaryOp::Mul,
                    other_indexed.0.next_value(),
                ),
                shape,
                other_indexed.1,
                other_multiplied.next_value(),
                0,
            );
            lemma_same_shape_symmetric(second, shape);
            lemma_same_shape_transitive(first, shape, second);
        },
        ast::LValue::MemberAccess { object, field_index } => {
            lemma_extraction_shape(builder, other, bindings, *object);
            lemma_same_shape_field(
                extraction(builder, bindings, *object).1,
                extraction(other, bindings, *object).1,
                field_index as int,
            );
        },
        ast::LValue::Dereference { reference, element_type } => {},
    }
}

/// Whether, at every index step of an assignment target, the elements of
/// what is indexed have as many scalars as the type of the element says.
pub open spec fn types_agree(
    builder: BuilderView,
    bindings: Map<u32, ValuesView>,
    lvalue: ast::LValue,
) -> bool
    decreases lvalue,
{
    match lvalue {
        ast::LValue::Index { array, index, element_type, location } => {
            let (extracted, values, _) = extraction(builder, bindings, *array);
            &&& types_agree(builder, bindings, *array)
            &&& flatten_type(element_type).count_leaves() == element_count(
                leaf_type(extracted, values->Leaf_0),
            )
        },
        ast::LValue::MemberAccess { object, field_index } => types_agree(
            builder,
            bindings,
            *object,
        ),
        _ => true,
    }
}

/// What is read soundly has types that agree and goes through no
/// reference.
pub proof fn lemma_sound_types(
    machine: Machine,
    dfg: DfgView,
    builder: BuilderView,
    bindings: Map<u32, ValuesView>,
    lvalue: ast::LValue,
    modulus: nat,
)
    requires
        sound(machine, dfg, builder, bindings, lvalue, modulus),
    ensures
        types_agree(builder, bindings, lvalue),
        no_dereference(lvalue),
    decreases lvalue,
{
    match lvalue {
        ast::LValue::Index { array, index, element_type, location } => {
            lemma_sound_types(machine, dfg, builder, bindings, *array, modulus);
        },
        ast::LValue::MemberAccess { object, field_index } => {
            lemma_sound_types(machine, dfg, builder, bindings, *object, modulus);
        },
        _ => {},
    }
}

/// The path that the first phase records has consistent widths, and the
/// current value has as many scalars as the target of the path.
pub proof fn lemma_extraction_widths(
    builder: BuilderView,
    bindings: Map<u32, ValuesView>,
    lvalue: ast::LValue,
)
    requires
        builder.wf(),
        extractable(builder, bindings, lvalue),
        lvalue_below(bindings, lvalue, builder.dfg().values.len()),
        types_agree(builder, bindings, lvalue),
        builder.dfg().values.len() + extraction_cost(lvalue) <= usize::MAX,
    ensures
        ({
            let (after, current, path) = extraction(builder, bindings, lvalue);
            &&& widths_ok(after, path)
            &&& current.count_leaves() == width(after, path)
        }),
    decreases lvalue,
{
    let (after, current, path) = extraction(builder, bindings, lvalue);
    match lvalue {
        ast::LValue::Index { array, index, element_type, location } => {
            lemma_extraction_widths(builder, bindings, *array);
            lemma_extraction_extends(builder, bindings, *array);
            let (extracted, values, sub) = extraction(builder, bindings, *array);
            let leaf = values->Leaf_0;
            assert(values.flatten() =~= seq![leaf]);
            assert(values.flatten()[0] == leaf);
            lemma_index_step_extends(extracted, bindings, leaf, *index, element_type, location);
            let step = index_step(extracted, bindings, leaf, *index, element_type, location);
            let indexed = index_extraction(builder, bindings, *array, *index);
            assert(after == step.0 && current == step.1);
            let (read, old_array) = leaf.eval(extracted);
            assert(path->old_array == old_array);
            assert(*path->array_lvalue == sub);
            lemma_widths_kept(extracted, after, sub);
            assert(read.type_of_value(old_array) == leaf_type(extracted, leaf));
            assert(after.dfg().values[old_array.0 as int] == read.dfg().values[old_array.0 as int]);
        },
        ast::LValue::MemberAccess { object, field_index } => {
            lemma_extraction_widths(builder, bindings, *object);
        },
        _ => {},
    }
}

/// Whether every index expression of an assignment target stands for the
/// same in two states of the machine.
pub open spec fn indices_agree(
    machine: Machine,
    other: Machine,
    dfg: DfgView,
    bindings: Map<u32, ValuesView>,
    lvalue: ast::LValue,
) -> bool
    decreases lvalue,
{
    match lvalue {
        ast::LValue::Index { array, index, element_type, location } => {
            &&& indices_agree(machine, other, dfg, bindings, *array)
            &&& expression_data(machine, dfg, bindings, *index) == expression_data(
                other,
                dfg,
                bindings,
                *index,
            )
        },
        ast::LValue::MemberAccess { object, field_index } => indices_agree(
            machine,
            other,
            dfg,
            bindings,
            *object,
        ),
        _ => true,
    }
}

/// Two walks of the first phase over the same assignment target, in two
/// states in which the index expressions stand for the same, record similar
/// paths.
pub proof fn lemma_extractions_similar(
    builder: BuilderView,
    machine: Machine,
    other_builder: BuilderView,
    other_machine: Machine,
    bindings: Map<u32, ValuesView>,
    lvalue: ast::LValue,
    modulus: nat,
    dfg: DfgView,
)
    requires
        builder.wf(),
        extractable(builder, bindings, lvalue),
        sound(machine, dfg, builder, bindings, lvalue, modulus),
        builder.dfg().values.len() + extraction_cost(lvalue) <= usize::MAX,
        extraction(builder, bindings, lvalue).0.dfg().values.is_prefix_of(dfg.values),
        other_builder.wf(),
        extractable(other_builder, bindings, lvalue),
        sound(other_machine, dfg, other_builder, bindings, lvalue, modulus),
        other_builder.dfg().values.len() + extraction_cost(lvalue) <= usize::MAX,
        extraction(other_builder, bindings, lvalue).0.dfg().values.is_prefix_of(dfg.values),
        indices_agree(machine, other_machine, dfg, bindings, lvalue),
    ensures
        ({
            let (after, current, path) = extraction(builder, bindings, lvalue);
            let (other_after, other_current, other_path) = extraction(
                other_builder,
                bindings,
                lvalue,
            );
            similar(
                machine.run(modulus, dfg, emitted(builder, after)),
                dfg,
                after,
                path,
                other_machine.run(modulus, dfg, emitted(other_builder, other_after)),
                other_after,
                other_path,
            )
        }),
    decreases lvalue,
{
    let (after, current, path) = extraction(builder, bindings, lvalue);
    let (other_after, other_current, other_path) = extraction(other_builder, bindings, lvalue);
    let ran = machine.run(modulus, dfg, emitted(builder, after));
    let other_ran = other_machine.run(modulus, dfg, emitted(other_builder, other_after));
    lemma_sound_types(machine, dfg, builder, bindings, lvalue, modulus);
    lemma_extraction(builder, bindings, lvalue, modulus, machine, dfg);
    lemma_extraction(other_builder, bindings, lvalue, modulus, other_machine, dfg);
    match lvalue {
        ast::LValue::Index { array, index, element_type, location } => {
            let (extracted, values, sub) = extraction(builder, bindings, *array);
            let (other_extracted, other_values, other_sub) = extraction(
                other_builder,
                bindings,
                *array,
            );
            assert(extracted.dfg().values.is_prefix_of(dfg.values)) by {
                assert(extracted.dfg().values.is_prefix_of(after.dfg().values));
            }
            assert(other_extracted.dfg().values.is_prefix_of(dfg.values)) by {
                assert(other_extracted.dfg().values.is_prefix_of(other_after.dfg().values));
            }
            lemma_extractions_similar(
                builder,
                machine,
                other_builder,
                other_machine,
                bindings,
                *array,
                modulus,
                dfg,
            );
            lemma_extraction(builder, bindings, *array, modulus, machine, dfg);
            lemma_extraction(other_builder, bindings, *array, modulus, other_machine, dfg);
            let reached = machine.run(modulus, dfg, emitted(builder, extracted));
            let other_reached = other_machine.run(
                modulus,
                dfg,
                emitted(other_builder, other_extracted),
            );
            lemma_similar_kept(
                reached,
                ran,
                dfg,
                extracted,
                after,
                sub,
                modulus,
                other_reached,
                other_extracted,
                other_sub,
            );
            lemma_similar_symmetric(
                ran,
                dfg,
                after,
                sub,
                other_reached,
                other_extracted,
                other_sub,
            );
            lemma_similar_kept(
                other_reached,
                other_ran,
                dfg,
                other_extracted,
                other_after,
                other_sub,
                modulus,
                ran,
                after,
                sub,
            );
            lemma_similar_symmetric(other_ran, dfg, other_after, other_sub, ran, after, sub);
        },
        ast::LValue::MemberAccess { object, field_index } => {
            lemma_extractions_similar(
                builder,
                machine,
                other_builder,
                other_machine,
                bindings,
                *object,
                modulus,
                dfg,
            );
            lemma_extraction_shape(builder, other_builder, bindings, *object);
        },
        _ => {},
    }
}

/// What can be extracted in one state of the builder can be extracted in
/// every other: whether it can depends on how the bindings branch alone.
pub proof fn lemma_extractable_kept(
    builder: BuilderView,
    other: BuilderView,
    bindings: Map<u32, ValuesView>,
    lvalue: ast::LValue,
)
    requires
        extractable(builder, bindings, lvalue),
        no_dereference(lvalue),
    ensures
        extractable(other, bindings, lvalue),
    decreases lvalue,
{
    match lvalue {
        ast::LValue::Index { array, index, element_type, location } => {
            lemma_extractable_kept(builder, other, bindings, *array);
            lemma_extraction_shape(builder, other, bindings, *array);
        },
        ast::LValue::MemberAccess { object, field_index } => {
            lemma_extractable_kept(builder, other, bindings, *object);
            lemma_extraction_shape(builder, other, bindings, *object);
            lemma_same_shape_field(
                extraction(builder, bindings, *object).1,
                extraction(other, bindings, *object).1,
                field_index as int,
            );
        },
        _ => {},
    }
}

/// The bindings of the variable that an assignment target starts from.
pub open spec fn root_bindings(bindings: Map<u32, ValuesView>, lvalue: ast::LValue) -> ValuesView
    decreases lvalue,
{
    match lvalue {
        ast::LValue::Ident(ident) => bindings[ident.definition->Local_0.0],
        ast::LValue::Index { array, index, element_type, location } => root_bindings(
            bindings,
            *array,
        ),
        ast::LValue::MemberAccess { object, field_index } => root_bindings(bindings, *object),
        ast::LValue::Dereference { reference, element_type } => root_bindings(
            bindings,
            *reference,
        ),
    }
}

/// The path that the first phase records starts from the variable that the
/// target starts from.
pub proof fn lemma_extraction_root(
    builder: BuilderView,
    bindings: Map<u32, ValuesView>,
    lvalue: ast::LValue,
)
    requires
        no_dereference(lvalue),
    ensures
        root(extraction(builder, bindings, lvalue).2) == root_bindings(bindings, lvalue),
    decreases lvalue,
{
    match lvalue {
        ast::LValue::Index { array, index, element_type, location } => {
            lemma_extraction_root(builder, bindings, *array);
            let indexed = index_extraction(builder, bindings, *array, *index);
            assert(extraction(builder, bindings, lvalue).2 == indexed.3);
            assert(*indexed.3->array_lvalue == extraction(builder, bindings, *array).2);
        },
        ast::LValue::MemberAccess { object, field_index } => {
            lemma_extraction_root(builder, bindings, *object);
        },
        _ => {},
    }
}

/// Whether the index expressions of an assignment target are apart from
/// the variable that is assigned to: none of them names a variable that
/// lives in one of that variable's slots.
pub open spec fn indices_apart(
    machine: Machine,
    dfg: DfgView,
    bindings: Map<u32, ValuesView>,
    assigned: ValuesView,
    lvalue: ast::LValue,
) -> bool
    decreases lvalue,
{
    match lvalue {
        ast::LValue::Index { array, index, element_type, location } => {
            &&& indices_apart(machine, dfg, bindings, assigned, *array)
            &&& *index matches ast::Expression::Ident(ident) ==> {
                let leaf = bindings[ident.definition->Local_0.0]->Leaf_0;
                leaf is Mutable ==> forall|k: int|
                    0 <= k < assigned.count_leaves() ==> target_slot(
                        machine,
                        dfg,
                        #[trigger] assigned.flatten()[k],
                    ) != target_slot(machine, dfg, leaf)
            }
        },
        ast::LValue::MemberAccess { object, field_index } => indices_apart(
            machine,
            dfg,
            bindings,
            assigned,
            *object,
        ),
        _ => true,
    }
}

/// Index expressions that are apart from the variable assigned to stand
/// for the same after a run that has kept the older values and every slot
/// that is none of the variable's.
pub proof fn lemma_indices_agree(
    machine: Machine,
    later: Machine,
    dfg: DfgView,
    bindings: Map<u32, ValuesView>,
    assigned: ValuesView,
    lvalue: ast::LValue,
    count: nat,
)
    requires
        indices_apart(machine, dfg, bindings, assigned, lvalue),
        lvalue_below(bindings, lvalue, count),
        keeps_values(later, machine, count),
        later.memory.len() == machine.memory.len(),
        forall|slot: int|
            0 <= slot < machine.memory.len() && (forall|k: int|
                0 <= k < assigned.count_leaves() ==> target_slot(
                    machine,
                    dfg,
                    #[trigger] assigned.flatten()[k],
                ) != slot) ==> #[trigger] later.memory[slot] == machine.memory[slot],
        forall|index: ast::Expression|
            index_of(lvalue, index) ==> expression_readable(machine, dfg, bindings, index, count),
    ensures
        indices_agree(machine, later, dfg, bindings, lvalue),
        forall|index: ast::Expression|
            index_of(lvalue, index) ==> expression_readable(later, dfg, bindings, index, count),
    decreases lvalue,
{
    match lvalue {
        ast::LValue::Index { array, index, element_type, location } => {
            assert forall|other: ast::Expression|
                index_of(*array, other) implies expression_readable(
                machine,
                dfg,
                bindings,
                other,
                count,
            ) by {
                assert(index_of(lvalue, other));
            }
            lemma_indices_agree(machine, later, dfg, bindings, assigned, *array, count);
            assert(index_of(lvalue, *index));
            assert(expression_readable(machine, dfg, bindings, *index, count));
            match *index {
                ast::Expression::Ident(ident) => {
                    let leaf = bindings[ident.definition->Local_0.0]->Leaf_0;
                    assert(later.operand(dfg, leaf.eval_reference()) == machine.operand(
                        dfg,
                        leaf.eval_reference(),
                    ));
                    if leaf is Mutable {
                        let slot = target_slot(machine, dfg, leaf) as int;
                        assert(later.memory[slot] == machine.memory[slot]);
                    }
                },
                _ => {},
            }
            assert forall|other: ast::Expression|
                index_of(lvalue, other) implies expression_readable(
                later,
                dfg,
                bindings,
                other,
                count,
            ) by {
                if other != *index {
                    assert(index_of(*array, other));
                }
            }
        },
        ast::LValue::MemberAccess { object, field_index } => {
            assert forall|other: ast::Expression|
                index_of(*object, other) implies expression_readable(
                machine,
                dfg,
                bindings,
                other,
                count,
            ) by {
                assert(index_of(lvalue, other));
            }
            lemma_indices_agree(machine, later, dfg, bindings, assigned, *object, count);
            assert forall|other: ast::Expression|
                index_of(lvalue, other) implies expression_readable(
                later,
                dfg,
                bindings,
                other,
                count,
            ) by {
                assert(index_of(*object, other));
            }
        },
        _ => {},
    }
}

/// Whether `index` is one of the index expressions of an assignment target.
pub open spec fn index_of(lvalue: ast::LValue, index: ast::Expression) -> bool
    decreases lvalue,
{
    match lvalue {
        ast::LValue::Index { array, index: own, element_type, location } => *own == index
            || index_of(*array, index),
        ast::LValue::MemberAccess { object, field_index } => index_of(*object, index),
        _ => false,
    }
}

/// What is read soundly has index expressions that can be read.
pub proof fn lemma_sound_indices(
    machine: Machine,
    dfg: DfgView,
    builder: BuilderView,
    bindings: Map<u32, ValuesView>,
    lvalue: ast::LValue,
    modulus: nat,
)
    requires
        sound(machine, dfg, builder, bindings, lvalue, modulus),
    ensures
        forall|index: ast::Expression|
            index_of(lvalue, index) ==> expression_readable(
                machine,
                dfg,
                bindings,
                index,
                builder.dfg().values.len(),
            ),
    decreases lvalue,
{
    match lvalue {
        ast::LValue::Index { array, index, element_type, location } => {
            lemma_sound_indices(machine, dfg, builder, bindings, *array, modulus);
            assert forall|other: ast::Expression|
                index_of(lvalue, other) implies expression_readable(
                machine,
                dfg,
                bindings,
                other,
                builder.dfg().values.len(),
            ) by {
                if other != *index {
                    assert(index_of(*array, other));
                }
            }
        },
        ast::LValue::MemberAccess { object, field_index } => {
            lemma_sound_indices(machine, dfg, builder, bindings, *object, modulus);
            assert forall|other: ast::Expression|
                index_of(lvalue, other) implies expression_readable(
                machine,
                dfg,
                bindings,
                other,
                builder.dfg().values.len(),
            ) by {
                assert(index_of(*object, other));
            }
        },
        _ => {},
    }
}

/// Bindings that are older than the value with the number `count` are
/// older than the one with the number `more`, if `more` is no less.
pub proof fn lemma_lvalue_below_monotone(
    bindings: Map<u32, ValuesView>,
    lvalue: ast::LValue,
    count: nat,
    more: nat,
)
    requires
        lvalue_below(bindings, lvalue, count),
        count <= more,
    ensures
        lvalue_below(bindings, lvalue, more),
    decreases lvalue,
{
    match lvalue {
        ast::LValue::Index { array, index, element_type, location } => {
            lemma_lvalue_below_monotone(bindings, *array, count, more);
        },
        ast::LValue::MemberAccess { object, field_index } => {
            lemma_lvalue_below_monotone(bindings, *object, count, more);
        },
        _ => {},
    }
}

/// The state of the builder when the first phase has walked as far as the
/// value that the last step of an assignment target starts from.
pub open spec fn walked_to_parent(
    builder: BuilderView,
    bindings: Map<u32, ValuesView>,
    lvalue: ast::LValue,
) -> BuilderView {
    match lvalue {
        ast::LValue::Index { array, index, element_type, location } => extraction(
            builder,
            bindings,
            *array,
        ).0,
        ast::LValue::MemberAccess { object, field_index } => extraction(
            builder,
            bindings,
            *object,
        ).0,
        _ => builder,
    }
}

/// The walk as far as the last step lies between the builder and the whole
/// walk.
pub proof fn lemma_walked_to_parent(
    builder: BuilderView,
    bindings: Map<u32, ValuesView>,
    lvalue: ast::LValue,
)
    requires
        builder.wf(),
        extractable(builder, bindings, lvalue),
        lvalue_below(bindings, lvalue, builder.dfg().values.len()),
        builder.dfg().values.len() + extraction_cost(lvalue) <= usize::MAX,
    ensures
        builder.dfg().values.is_prefix_of(walked_to_parent(builder, bindings, lvalue).dfg().values),
        walked_to_parent(builder, bindings, lvalue).dfg().values.is_prefix_of(
            extraction(builder, bindings, lvalue).0.dfg().values,
        ),
{
    match lvalue {
        ast::LValue::Index { array, index, element_type, location } => {
            lemma_extraction_extends(builder, bindings, *array);
            let (extracted, values, sub) = extraction(builder, bindings, *array);
            let leaf = values->Leaf_0;
            assert(values.flatten()[0] == leaf);
            lemma_lvalue_below_monotone(
                bindings,
                lvalue,
                builder.dfg().values.len(),
                extracted.dfg().values.len(),
            );
            lemma_index_step_extends(extracted, bindings, leaf, *index, element_type, location);
            let step = index_step(extracted, bindings, leaf, *index, element_type, location);
            let indexed = index_extraction(builder, bindings, *array, *index);
            assert(extraction(builder, bindings, lvalue).0 == step.0);
        },
        ast::LValue::MemberAccess { object, field_index } => {
            lemma_extraction_extends(builder, bindings, *object);
        },
        _ => {},
    }
}

/// What the array of a target that ends in an index is after a write of
/// `new` to the target: the array that the first walk recorded, with the
/// element at the recorded index set to `new`.
pub open spec fn array_after(
    builder: BuilderView,
    machine: Machine,
    other_builder: BuilderView,
    other_machine: Machine,
    bindings: Map<u32, ValuesView>,
    lvalue: ast::LValue,
    modulus: nat,
    dfg: DfgView,
    new: Seq<Data>,
) -> bool {
    lvalue matches ast::LValue::Index { array, index, element_type, location } ==> {
        let (after, current, path) = extraction(builder, bindings, lvalue);
        let ran = machine.run(modulus, dfg, emitted(builder, after));
        let (other_extracted, other_values, _) = extraction(other_builder, bindings, *array);
        let other_reached = other_machine.run(
            modulus,
            dfg,
            emitted(other_builder, other_extracted),
        );
        leaf_data(other_reached, dfg, other_values->Leaf_0) == Data::Array(
            element_written(
                ran.operand(dfg, path->old_array)->Array_0,
                flatten_type(element_type).count_leaves(),
                ran.operand(dfg, path->Index_index)->Number_0,
                new,
            ),
        )
    }
}

/// A target that is read soundly is read soundly after a write along its
/// own path. Where the variable at the root holds what [`root_written`]
/// says for some new content of the target, the older values and the length
/// of the memory are kept, and the index expressions stand for what they
/// stood for, every array on the way is an array of the length it had, and
/// holds the element at the index as before.
#[verifier::rlimit(60)]
pub proof fn lemma_sound_after(
    builder: BuilderView,
    machine: Machine,
    other_builder: BuilderView,
    other_machine: Machine,
    bindings: Map<u32, ValuesView>,
    lvalue: ast::LValue,
    modulus: nat,
    dfg: DfgView,
    new: Seq<Data>,
)
    requires
        builder.wf(),
        extractable(builder, bindings, lvalue),
        sound(machine, dfg, builder, bindings, lvalue, modulus),
        builder.dfg().values.len() + extraction_cost(lvalue) <= usize::MAX,
        extraction(builder, bindings, lvalue).0.dfg().values.is_prefix_of(dfg.values),
        other_builder.wf(),
        builder.dfg().values.len() <= other_builder.dfg().values.len(),
        other_builder.dfg().values.len() + extraction_cost(lvalue) <= usize::MAX,
        walked_to_parent(other_builder, bindings, lvalue).dfg().values.is_prefix_of(dfg.values),
        types_agree(other_builder, bindings, lvalue),
        keeps_values(other_machine, machine, builder.dfg().values.len()),
        other_machine.memory.len() == machine.memory.len(),
        indices_agree(machine, other_machine, dfg, bindings, lvalue),
        forall|index: ast::Expression|
            index_of(lvalue, index) ==> expression_readable(
                other_machine,
                dfg,
                bindings,
                index,
                builder.dfg().values.len(),
            ),
        root_ok(
            other_machine,
            dfg,
            root_bindings(bindings, lvalue),
            other_builder.dfg().values.len(),
        ),
        ({
            let (after, current, path) = extraction(builder, bindings, lvalue);
            let ran = machine.run(modulus, dfg, emitted(builder, after));
            &&& new.len() == width(after, path)
            &&& tree_data(other_machine, dfg, root_bindings(bindings, lvalue)) == root_written(
                ran,
                dfg,
                after,
                path,
                new,
            )
        }),
    ensures
        sound(other_machine, dfg, other_builder, bindings, lvalue, modulus),
        array_after(
            builder,
            machine,
            other_builder,
            other_machine,
            bindings,
            lvalue,
            modulus,
            dfg,
            new,
        ),
    decreases lvalue,
{
    let count = builder.dfg().values.len();
    let (after, current, path) = extraction(builder, bindings, lvalue);
    let ran = machine.run(modulus, dfg, emitted(builder, after));
    lemma_sound_types(machine, dfg, builder, bindings, lvalue, modulus);
    lemma_sound_below(machine, dfg, builder, bindings, lvalue, modulus);
    lemma_extraction(builder, bindings, lvalue, modulus, machine, dfg);
    match lvalue {
        ast::LValue::Index { array, index, element_type, location } => {
            let size = flatten_type(element_type).count_leaves();
            let (extracted, values, sub) = extraction(builder, bindings, *array);
            let reached = machine.run(modulus, dfg, emitted(builder, extracted));
            assert(index_recorded(machine, dfg, builder, bindings, lvalue, modulus));
            assert(extracted.dfg().values.is_prefix_of(dfg.values)) by {
                assert(extracted.dfg().values.is_prefix_of(after.dfg().values));
            }
            lemma_extraction(builder, bindings, *array, modulus, machine, dfg);
            lemma_path_kept(reached, ran, dfg, extracted, after, sub, modulus);
            let elements = ran.operand(dfg, path->old_array)->Array_0;
            let place = ran.operand(dfg, path->Index_index)->Number_0;
            let written = seq![Data::Array(element_written(elements, size, place, new))];
            assert(root_written(ran, dfg, after, path, new) == root_written(
                ran,
                dfg,
                after,
                sub,
                written,
            ));
            // The other walk, as far as the array.
            lemma_extractable_kept(builder, other_builder, bindings, lvalue);
            lemma_lvalue_below_monotone(
                bindings,
                lvalue,
                count,
                other_builder.dfg().values.len(),
            );
            lemma_extraction_extends(other_builder, bindings, *array);
            let (other_extracted, other_values, other_sub) = extraction(
                other_builder,
                bindings,
                *array,
            );
            let other_leaf = other_values->Leaf_0;
            assert(other_values.flatten() =~= seq![other_leaf]);
            assert(other_values.flatten()[0] == other_leaf);
            lemma_index_step_extends(
                other_extracted,
                bindings,
                other_leaf,
                *index,
                element_type,
                location,
            );
            let other_step = index_step(
                other_extracted,
                bindings,
                other_leaf,
                *index,
                element_type,
                location,
            );
            let other_indexed = index_extraction(other_builder, bindings, *array, *index);
            assert(extraction(other_builder, bindings, lvalue).0 == other_step.0);
            lemma_walked_to_parent(other_builder, bindings, *array);
            assert forall|other: ast::Expression|
                index_of(*array, other) implies expression_readable(
                other_machine,
                dfg,
                bindings,
                other,
                count,
            ) by {
                assert(index_of(lvalue, other));
            }
            lemma_sound_after(
                builder,
                machine,
                other_builder,
                other_machine,
                bindings,
                *array,
                modulus,
                dfg,
                written,
            );
            lemma_extraction(other_builder, bindings, *array, modulus, other_machine, dfg);
            let other_reached = other_machine.run(
                modulus,
                dfg,
                emitted(other_builder, other_extracted),
            );
            lemma_extractions_similar(
                builder,
                machine,
                other_builder,
                other_machine,
                bindings,
                *array,
                modulus,
                dfg,
            );
            lemma_extraction_root(builder, bindings, *array);
            lemma_extraction_root(other_builder, bindings, *array);
            let held = tree_data(other_machine, dfg, root_bindings(bindings, lvalue));
            lemma_similar_select(
                reached,
                dfg,
                extracted,
                sub,
                other_reached,
                other_extracted,
                other_sub,
                held,
            );
            lemma_select_written(reached, dfg, extracted, sub, modulus, written);
            assert(tree_data(other_reached, dfg, other_values) == written);
            assert(tree_data(other_reached, dfg, other_values)[0] == leaf_data(
                other_reached,
                dfg,
                other_leaf,
            ));
            assert(index_of(lvalue, *index));
            match *index {
                ast::Expression::Ident(ident) => {
                    assert(bindings[ident.definition->Local_0.0]->Leaf_0.below(
                        other_builder.dfg().values.len(),
                    ));
                },
                _ => {},
            }
        },
        ast::LValue::MemberAccess { object, field_index } => {
            let old_object = path->old_object;
            let written = written_from(
                tree_data(ran, dfg, old_object),
                field_start(old_object, field_index as int),
                new,
            );
            assert forall|other: ast::Expression|
                index_of(*object, other) implies expression_readable(
                other_machine,
                dfg,
                bindings,
                other,
                count,
            ) by {
                assert(index_of(lvalue, other));
            }
            lemma_extractable_kept(builder, other_builder, bindings, lvalue);
            lemma_lvalue_below_monotone(
                bindings,
                lvalue,
                count,
                other_builder.dfg().values.len(),
            );
            lemma_walked_to_parent(other_builder, bindings, *object);
            lemma_sound_after(
                builder,
                machine,
                other_builder,
                other_machine,
                bindings,
                *object,
                modulus,
                dfg,
                written,
            );
        },
        _ => {},
    }
}

/// Whether every leaf of a tree of values has, in a state of the builder,
/// the type at its place in a list of types.
pub open spec fn leaves_typed(
    builder: BuilderView,
    tree: ValuesView,
    types: Seq<TypeView>,
) -> bool {
    &&& tree.count_leaves() == types.len()
    &&& forall|k: int|
        0 <= k < tree.count_leaves() ==> leaf_type(builder, #[trigger] tree.flatten()[k])
            == types[k]
}

/// The scalars of an element that is read have the types of the leaves of
/// the element's shape.
pub proof fn lemma_elements_at_types(
    builder: BuilderView,
    shape: TreeView<TypeView>,
    array: ValueId,
    base_index: ValueId,
    field: nat,
)
    requires
        builder.wf(),
        builder.has_value(base_index),
        builder.dfg().values.len() + 3 * shape.count_leaves() <= usize::MAX,
    ensures
        ({
            let (after, elements) = elements_at(builder, shape, array, base_index, field);
            leaves_typed(after, elements, shape.flatten())
        }),
    decreases shape,
{
    let (after, elements) = elements_at(builder, shape, array, base_index, field);
    match shape {
        TreeView::Leaf(typ) => {
            assert(elements.flatten() =~= seq![elements->Leaf_0]);
        },
        TreeView::Branch(children) => {
            lemma_elements_at_all_types(builder, children, array, base_index, field);
        },
    }
}

/// [`lemma_elements_at_types`] for a list of shapes.
pub proof fn lemma_elements_at_all_types(
    builder: BuilderView,
    shapes: Seq<TreeView<TypeView>>,
    array: ValueId,
    base_index: ValueId,
    field: nat,
)
    requires
        builder.wf(),
        builder.has_value(base_index),
        builder.dfg().values.len() + 3 * TreeView::flatten_all(shapes).len() <= usize::MAX,
    ensures
        ({
            let (after, elements) = elements_at_all(builder, shapes, array, base_index, field);
            &&& TreeView::flatten_all(elements).len() == TreeView::flatten_all(shapes).len()
            &&& forall|k: int|
                0 <= k < TreeView::flatten_all(elements).len() ==> leaf_type(
                    after,
                    #[trigger] TreeView::flatten_all(elements)[k],
                ) == TreeView::flatten_all(shapes)[k]
        }),
    decreases shapes,
{
    let (after, elements) = elements_at_all(builder, shapes, array, base_index, field);
    if shapes.len() > 0 {
        let firsts = shapes.drop_last();
        let used = TreeView::flatten_all(firsts).len();
        lemma_elements_at_all_types(builder, firsts, array, base_index, field);
        crate::lvalue_laws::lemma_elements_at_all_extends(
            builder,
            firsts,
            array,
            base_index,
            field,
        );
        let (middle, first_elements) = elements_at_all(builder, firsts, array, base_index, field);
        lemma_elements_at_types(middle, shapes.last(), array, base_index, field + used);
        crate::lvalue_laws::lemma_elements_at_extends(
            middle,
            shapes.last(),
            array,
            base_index,
            field + used,
        );
        let (last_after, last_element) = elements_at(
            middle,
            shapes.last(),
            array,
            base_index,
            field + used,
        );
        assert(elements == first_elements.push(last_element));
        assert(elements.drop_last() =~= first_elements);
        assert forall|k: int| 0 <= k < TreeView::flatten_all(elements).len() implies leaf_type(
            after,
            #[trigger] TreeView::flatten_all(elements)[k],
        ) == TreeView::flatten_all(shapes)[k] by {
            if k < used {
                let leaf = TreeView::flatten_all(first_elements)[k];
                assert(TreeView::flatten_all(elements)[k] == leaf);
                assert(leaf is Normal && leaf.below(middle.dfg().values.len()));
                assert(after.dfg().values[leaf->Normal_0.0 as int]
                    == middle.dfg().values[leaf->Normal_0.0 as int]);
            } else {
                assert(TreeView::flatten_all(elements)[k] == last_element.flatten()[k - used]);
            }
        }
    } else {
        assert(elements =~= Seq::empty());
    }
}

/// What the first phase gives as the current value has the same types,
/// leaf for leaf, in a builder that has gone on.
pub proof fn lemma_extraction_types(
    builder: BuilderView,
    other: BuilderView,
    bindings: Map<u32, ValuesView>,
    lvalue: ast::LValue,
)
    requires
        builder.wf(),
        other.wf(),
        builder.dfg().values.is_prefix_of(other.dfg().values),
        extractable(builder, bindings, lvalue),
        extractable(other, bindings, lvalue),
        no_dereference(lvalue),
        lvalue_below(bindings, lvalue, builder.dfg().values.len()),
        builder.dfg().values.len() + extraction_cost(lvalue) <= usize::MAX,
        other.dfg().values.len() + extraction_cost(lvalue) <= usize::MAX,
    ensures
        ({
            let (after, current, _) = extraction(builder, bindings, lvalue);
            let (other_after, other_current, _) = extraction(other, bindings, lvalue);
            &&& current.count_leaves() == other_current.count_leaves()
            &&& forall|k: int|
                0 <= k < current.count_leaves() ==> leaf_type(
                    after,
                    #[trigger] current.flatten()[k],
                ) == leaf_type(other_after, other_current.flatten()[k])
        }),
    decreases lvalue,
{
    let (after, current, path) = extraction(builder, bindings, lvalue);
    let (other_after, other_current, other_path) = extraction(other, bindings, lvalue);
    lemma_lvalue_below_monotone(
        bindings,
        lvalue,
        builder.dfg().values.len(),
        other.dfg().values.len(),
    );
    match lvalue {
        ast::LValue::Ident(ident) => {
            assert forall|k: int| 0 <= k < current.count_leaves() implies leaf_type(
                after,
                #[trigger] current.flatten()[k],
            ) == leaf_type(other_after, other_current.flatten()[k]) by {
                let leaf = current.flatten()[k];
                assert(leaf.below(builder.dfg().values.len()));
                if leaf is Normal {
                    assert(other.dfg().values[leaf->Normal_0.0 as int]
                        == builder.dfg().values[leaf->Normal_0.0 as int]);
                }
            }
        },
        ast::LValue::Index { array, index, element_type, location } => {
            let shape = flatten_type(element_type);
            lemma_index_types(builder, bindings, *array, *index, element_type, location);
            lemma_index_types(other, bindings, *array, *index, element_type, location);
        },
        ast::LValue::MemberAccess { object, field_index } => {
            lemma_extraction_types(builder, other, bindings, *object);
            let old_object = extraction(builder, bindings, *object).1;
            let other_object = extraction(other, bindings, *object).1;
            lemma_extraction_shape(builder, other, bindings, *object);
            lemma_same_shape_field(old_object, other_object, field_index as int);
            lemma_field_leaves(old_object, field_index as int);
            lemma_field_leaves(other_object, field_index as int);
            let start = field_start(old_object, field_index as int);
            assert forall|k: int| 0 <= k < current.count_leaves() implies leaf_type(
                after,
                #[trigger] current.flatten()[k],
            ) == leaf_type(other_after, other_current.flatten()[k]) by {
                assert(current.flatten()[k] == old_object.flatten()[start + k]);
                assert(other_current.flatten()[k] == other_object.flatten()[start + k]);
            }
        },
        ast::LValue::Dereference { reference, element_type } => {},
    }
}

/// The element that an index step reads has the types of the leaves of
/// the element's type.
pub proof fn lemma_index_types(
    builder: BuilderView,
    bindings: Map<u32, ValuesView>,
    array: ast::LValue,
    index: ast::Expression,
    element_type: ast::Type,
    location: crate::ir::instruction::Location,
)
    requires
        builder.wf(),
        extractable(
            builder,
            bindings,
            ast::LValue::Index {
                array: Box::new(array),
                index: Box::new(index),
                element_type,
                location,
            },
        ),
        lvalue_below(
            bindings,
            ast::LValue::Index {
                array: Box::new(array),
                index: Box::new(index),
                element_type,
                location,
            },
            builder.dfg().values.len(),
        ),
        builder.dfg().values.len() + extraction_cost(array) + 4 + 3 * flatten_type(
            element_type,
        ).count_leaves() <= usize::MAX,
    ensures
        ({
            let (after, current, _) = extraction(
                builder,
                bindings,
                ast::LValue::Index {
                    array: Box::new(array),
                    index: Box::new(index),
                    element_type,
                    location,
                },
            );
            leaves_typed(after, current, flatten_type(element_type).flatten())
        }),
{
    let lvalue = ast::LValue::Index {
        array: Box::new(array),
        index: Box::new(index),
        element_type,
        location,
    };
    let shape = flatten_type(element_type);
    lemma_extraction_extends(builder, bindings, array);
    let (extracted, values, sub) = extraction(builder, bindings, array);
    let leaf = values->Leaf_0;
    assert(values.flatten() =~= seq![leaf]);
    assert(values.flatten()[0] == leaf);
    lemma_index_step_extends(extracted, bindings, leaf, index, element_type, location);
    let (read, old_array) = leaf.eval(extracted);
    let (evaluated, index_value) = expression_value(read, bindings, index);
    let indexed = index_extraction(builder, bindings, array, index);
    assert(indexed.0 == evaluated && indexed.1 == old_array && indexed.2 == index_value);
    let type_size = evaluated.next_value();
    let located = evaluated.field_constant(shape.count_leaves() as u128).set_location(location);
    let base_index = located.next_value();
    let multiplied = located.insert_binary(
        index_value,
        crate::ir::instruction::BinaryOp::Mul,
        type_size,
    );
    lemma_elements_at_types(multiplied, shape, old_array, base_index, 0);
}

/// The types of a target's arrays agree with the types of their elements
/// in a builder that has gone on, if they agree before.
pub proof fn lemma_types_agree_kept(
    builder: BuilderView,
    other: BuilderView,
    bindings: Map<u32, ValuesView>,
    lvalue: ast::LValue,
)
    requires
        builder.wf(),
        other.wf(),
        builder.dfg().values.is_prefix_of(other.dfg().values),
        extractable(builder, bindings, lvalue),
        no_dereference(lvalue),
        lvalue_below(bindings, lvalue, builder.dfg().values.len()),
        types_agree(builder, bindings, lvalue),
        builder.dfg().values.len() + extraction_cost(lvalue) <= usize::MAX,
        other.dfg().values.len() + extraction_cost(lvalue) <= usize::MAX,
    ensures
        types_agree(other, bindings, lvalue),
    decreases lvalue,
{
    match lvalue {
        ast::LValue::Index { array, index, element_type, location } => {
            lemma_types_agree_kept(builder, other, bindings, *array);
            lemma_extractable_kept(builder, other, bindings, *array);
            lemma_extraction_types(builder, other, bindings, *array);
            let values = extraction(builder, bindings, *array).1;
            let other_values = extraction(other, bindings, *array).1;
            lemma_extraction_shape(builder, other, bindings, *array);
            assert(values.flatten() =~= seq![values->Leaf_0]);
            assert(other_values.flatten() =~= seq![other_values->Leaf_0]);
            assert(values.flatten()[0] == values->Leaf_0);
            assert(other_values.flatten()[0] == other_values->Leaf_0);
        },
        ast::LValue::MemberAccess { object, field_index } => {
            lemma_types_agree_kept(builder, other, bindings, *object);
        },
        _ => {},
    }
}

/// What is read soundly starts from a variable that lives in slots of its
/// own.
pub proof fn lemma_sound_root(
    machine: Machine,
    dfg: DfgView,
    builder: BuilderView,
    bindings: Map<u32, ValuesView>,
    lvalue: ast::LValue,
    modulus: nat,
)
    requires
        sound(machine, dfg, builder, bindings, lvalue, modulus),
    ensures
        root_ok(machine, dfg, root_bindings(bindings, lvalue), builder.dfg().values.len()),
    decreases lvalue,
{
    match lvalue {
        ast::LValue::Index { array, index, element_type, location } => {
            lemma_sound_root(machine, dfg, builder, bindings, *array, modulus);
        },
        ast::LValue::MemberAccess { object, field_index } => {
            lemma_sound_root(machine, dfg, builder, bindings, *object, modulus);
        },
        _ => {},
    }
}

/// Whether a path is `ancestor` or goes on from it.
pub open spec fn through(path: LValueView, ancestor: LValueView) -> bool
    decreases path,
{
    path == ancestor || match path {
        LValueView::Index { old_array, index, array_lvalue } => through(*array_lvalue, ancestor),
        LValueView::MemberAccess { old_object, index, object_lvalue } => through(
            *object_lvalue,
            ancestor,
        ),
        _ => false,
    }
}

/// What a write of `new` to the target of a path writes to the target of
/// `ancestor`, through which the path goes: the tuple or the array around
/// the target with `new` in its place, step by step outwards.
pub open spec fn written_at(
    machine: Machine,
    dfg: DfgView,
    builder: BuilderView,
    path: LValueView,
    ancestor: LValueView,
    new: Seq<Data>,
) -> Seq<Data>
    decreases path,
{
    if path == ancestor {
        new
    } else {
        match path {
            LValueView::Index { old_array, index, array_lvalue } => written_at(
                machine,
                dfg,
                builder,
                *array_lvalue,
                ancestor,
                seq![
                    Data::Array(
                        element_written(
                            machine.operand(dfg, old_array)->Array_0,
                            width(builder, path),
                            machine.operand(dfg, index)->Number_0,
                            new,
                        ),
                    ),
                ],
            ),
            LValueView::MemberAccess { old_object, index, object_lvalue } => written_at(
                machine,
                dfg,
                builder,
                *object_lvalue,
                ancestor,
                written_from(
                    tree_data(machine, dfg, old_object),
                    field_start(old_object, index as int),
                    new,
                ),
            ),
            _ => new,
        }
    }
}

/// A write to the target of a path is a write to the target of each path
/// that it goes through.
pub proof fn lemma_written_at(
    machine: Machine,
    dfg: DfgView,
    builder: BuilderView,
    path: LValueView,
    ancestor: LValueView,
    modulus: nat,
    held: Seq<Data>,
    new: Seq<Data>,
)
    requires
        through(path, ancestor),
        path_ok(machine, dfg, builder, path, modulus),
        consistent(machine, dfg, builder, path, held),
        new.len() == width(builder, path),
    ensures
        path_ok(machine, dfg, builder, ancestor, modulus),
        consistent(machine, dfg, builder, ancestor, held),
        root(ancestor) == root(path),
        written_at(machine, dfg, builder, path, ancestor, new).len() == width(builder, ancestor),
        root_written(machine, dfg, builder, path, new) == root_written(
            machine,
            dfg,
            builder,
            ancestor,
            written_at(machine, dfg, builder, path, ancestor, new),
        ),
    decreases path,
{
    if path != ancestor {
        match path {
            LValueView::Index { old_array, index, array_lvalue } => {
                let written = seq![
                    Data::Array(
                        element_written(
                            machine.operand(dfg, old_array)->Array_0,
                            width(builder, path),
                            machine.operand(dfg, index)->Number_0,
                            new,
                        ),
                    ),
                ];
                lemma_written_at(
                    machine,
                    dfg,
                    builder,
                    *array_lvalue,
                    ancestor,
                    modulus,
                    held,
                    written,
                );
            },
            LValueView::MemberAccess { old_object, index, object_lvalue } => {
                let written = written_from(
                    tree_data(machine, dfg, old_object),
                    field_start(old_object, index as int),
                    new,
                );
                lemma_written_at(
                    machine,
                    dfg,
                    builder,
                    *object_lvalue,
                    ancestor,
                    modulus,
                    held,
                    written,
                );
            },
            _ => {},
        }
    }
}

/// Whether an assignment target is `prefix` or goes on from it, as
/// `a.b[i].c` goes on from `a.b[i]`.
pub open spec fn within(lvalue: ast::LValue, prefix: ast::LValue) -> bool
    decreases lvalue,
{
    lvalue == prefix || match lvalue {
        ast::LValue::Index { array, index, element_type, location } => within(*array, prefix),
        ast::LValue::MemberAccess { object, field_index } => within(*object, prefix),
        _ => false,
    }
}

/// What holds of an assignment target holds of each target that it goes on
/// from.
pub proof fn lemma_within(
    machine: Machine,
    other: Machine,
    dfg: DfgView,
    builder: BuilderView,
    bindings: Map<u32, ValuesView>,
    lvalue: ast::LValue,
    prefix: ast::LValue,
    modulus: nat,
    count: nat,
)
    requires
        within(lvalue, prefix),
    ensures
        extraction_cost(prefix) <= extraction_cost(lvalue),
        root_bindings(bindings, prefix) == root_bindings(bindings, lvalue),
        no_dereference(lvalue) ==> no_dereference(prefix),
        extractable(builder, bindings, lvalue) ==> extractable(builder, bindings, prefix),
        lvalue_below(bindings, lvalue, count) ==> lvalue_below(bindings, prefix, count),
        types_agree(builder, bindings, lvalue) ==> types_agree(builder, bindings, prefix),
        sound(machine, dfg, builder, bindings, lvalue, modulus) ==> sound(
            machine,
            dfg,
            builder,
            bindings,
            prefix,
            modulus,
        ),
        indices_agree(machine, other, dfg, bindings, lvalue) ==> indices_agree(
            machine,
            other,
            dfg,
            bindings,
            prefix,
        ),
        indices_apart(machine, dfg, bindings, root_bindings(bindings, lvalue), lvalue)
            ==> indices_apart(machine, dfg, bindings, root_bindings(bindings, lvalue), prefix),
        forall|index: ast::Expression| index_of(prefix, index) ==> index_of(lvalue, index),
    decreases lvalue,
{
    if lvalue != prefix {
        match lvalue {
            ast::LValue::Index { array, index, element_type, location } => {
                lemma_within(
                    machine,
                    other,
                    dfg,
                    builder,
                    bindings,
                    *array,
                    prefix,
                    modulus,
                    count,
                );
            },
            ast::LValue::MemberAccess { object, field_index } => {
                lemma_within(
                    machine,
                    other,
                    dfg,
                    builder,
                    bindings,
                    *object,
                    prefix,
                    modulus,
                    count,
                );
            },
            _ => {},
        }
    }
}

/// A target goes on from the target that its last step starts from.
pub proof fn lemma_within_parent(lvalue: ast::LValue, prefix: ast::LValue)
    requires
        within(lvalue, prefix),
    ensures
        prefix matches ast::LValue::Index { array, index, element_type, location } ==> within(
            lvalue,
            *array,
        ),
        prefix matches ast::LValue::MemberAccess { object, field_index } ==> within(
            lvalue,
            *object,
        ),
    decreases lvalue,
{
    if lvalue != prefix {
        match lvalue {
            ast::LValue::Index { array, index, element_type, location } => {
                lemma_within_parent(*array, prefix);
            },
            ast::LValue::MemberAccess { object, field_index } => {
                lemma_within_parent(*object, prefix);
            },
            _ => {},
        }
    } else {
        match prefix {
            ast::LValue::Index { array, index, element_type, location } => {
                assert(within(*array, *array));
            },
            ast::LValue::MemberAccess { object, field_index } => {
                assert(within(*object, *object));
            },
            _ => {},
        }
    }
}

/// The first phase on a target goes through the first phase on each target
/// that it goes on from: it extends the builder of the shorter walk, records
/// a path that goes on from the shorter path, and keeps the memory and the
/// values of the shorter walk.
pub proof fn lemma_within_walk(
    builder: BuilderView,
    bindings: Map<u32, ValuesView>,
    lvalue: ast::LValue,
    prefix: ast::LValue,
    modulus: nat,
    machine: Machine,
    dfg: DfgView,
)
    requires
        within(lvalue, prefix),
        builder.wf(),
        extractable(builder, bindings, lvalue),
        sound(machine, dfg, builder, bindings, lvalue, modulus),
        builder.dfg().values.len() + extraction_cost(lvalue) <= usize::MAX,
        extraction(builder, bindings, lvalue).0.dfg().values.is_prefix_of(dfg.values),
    ensures
        ({
            let (after, current, path) = extraction(builder, bindings, lvalue);
            let (middle, values, ancestor) = extraction(builder, bindings, prefix);
            let ran = machine.run(modulus, dfg, emitted(builder, after));
            let reached = machine.run(modulus, dfg, emitted(builder, middle));
            &&& extends(after, middle)
            &&& extends(middle, builder)
            &&& middle.dfg().values.is_prefix_of(dfg.values)
            &&& through(path, ancestor)
            &&& keeps(ran, reached, middle.dfg().values.len())
        }),
    decreases lvalue,
{
    let (after, current, path) = extraction(builder, bindings, lvalue);
    lemma_sound_below(machine, dfg, builder, bindings, lvalue, modulus);
    lemma_extraction_extends(builder, bindings, lvalue);
    if lvalue != prefix {
        match lvalue {
            ast::LValue::Index { array, index, element_type, location } => {
                let (extracted, values, sub) = extraction(builder, bindings, *array);
                lemma_extraction(builder, bindings, lvalue, modulus, machine, dfg);
                assert(index_recorded(machine, dfg, builder, bindings, lvalue, modulus));
                assert(extracted.dfg().values.is_prefix_of(dfg.values)) by {
                    assert(extracted.dfg().values.is_prefix_of(after.dfg().values));
                }
                lemma_within_walk(builder, bindings, *array, prefix, modulus, machine, dfg);
                let middle = extraction(builder, bindings, prefix).0;
                lemma_emitted_in_stages(middle, extracted, after);
            },
            ast::LValue::MemberAccess { object, field_index } => {
                lemma_within_walk(builder, bindings, *object, prefix, modulus, machine, dfg);
            },
            _ => {},
        }
    }
}

/// What a write to an assignment target asks of the state before it, with
/// the values of `dfg`.
///
/// The target can be extracted and is read soundly; `prepared` is the
/// builder when the second phase begins, after the first phase and after
/// whatever has been inserted since to evaluate the new value, which has
/// stored nothing; the new value can be assigned along the recorded path,
/// has as many scalars as the target and is made of plain values; no index
/// expression names a variable that lives in a slot of the variable
/// assigned to; and the values that the walks add can be counted in a
/// machine word.
pub open spec fn write_premises(
    builder: BuilderView,
    bindings: Map<u32, ValuesView>,
    lvalue: ast::LValue,
    prepared: BuilderView,
    new_value: ValuesView,
    modulus: nat,
    machine: Machine,
    dfg: DfgView,
) -> bool {
    let (extracted, current, path) = extraction(builder, bindings, lvalue);
    let before = machine.run(modulus, dfg, emitted(builder, extracted));
    let ready = machine.run(modulus, dfg, emitted(builder, prepared));
    &&& builder.wf()
    &&& extractable(builder, bindings, lvalue)
    &&& sound(machine, dfg, builder, bindings, lvalue, modulus)
    &&& indices_apart(machine, dfg, bindings, root_bindings(bindings, lvalue), lvalue)
    &&& extends(prepared, extracted)
    &&& keeps(ready, before, extracted.dfg().values.len())
    &&& tree_plain(new_value, prepared.dfg().values.len())
    &&& assignable(prepared, path, new_value)
    &&& new_value.count_leaves() == width(prepared, path)
    &&& builder.dfg().values.len() + extraction_cost(lvalue) <= usize::MAX
    &&& prepared.dfg().values.len() + cost(path, new_value.count_leaves()) + extraction_cost(
        lvalue,
    ) <= usize::MAX
}

/// The first two phases of an assignment only add to the builder, and the
/// target can be extracted again after them.
pub proof fn lemma_write_extends(
    builder: BuilderView,
    bindings: Map<u32, ValuesView>,
    lvalue: ast::LValue,
    prepared: BuilderView,
    new_value: ValuesView,
    modulus: nat,
    machine: Machine,
    dfg: DfgView,
)
    requires
        write_premises(builder, bindings, lvalue, prepared, new_value, modulus, machine, dfg),
    ensures
        ({
            let (extracted, current, path) = extraction(builder, bindings, lvalue);
            let assigned = reassignment(prepared, path, new_value);
            &&& no_dereference(lvalue)
            &&& extends(extracted, builder)
            &&& extends(prepared, builder)
            &&& extends(assigned, prepared)
            &&& extends(assigned, extracted)
            &&& extends(assigned, builder)
            &&& width(prepared, path) == width(extracted, path)
            &&& extracted.dfg().values.len() <= builder.dfg().values.len() + extraction_cost(
                lvalue,
            )
            &&& assigned.dfg().values.len() <= prepared.dfg().values.len() + cost(
                path,
                new_value.count_leaves(),
            )
            &&& extractable(assigned, bindings, lvalue)
            &&& lvalue_below(bindings, lvalue, builder.dfg().values.len())
            &&& lvalue_below(bindings, lvalue, assigned.dfg().values.len())
            &&& types_agree(assigned, bindings, lvalue)
        }),
{
    let count = builder.dfg().values.len();
    let (extracted, current, path) = extraction(builder, bindings, lvalue);
    let assigned = reassignment(prepared, path, new_value);
    lemma_sound_below(machine, dfg, builder, bindings, lvalue, modulus);
    lemma_sound_types(machine, dfg, builder, bindings, lvalue, modulus);
    lemma_extraction_extends(builder, bindings, lvalue);
    lemma_extraction_widths(builder, bindings, lvalue);
    lemma_widths_kept(extracted, prepared, path);
    lemma_reassignment_extends(prepared, path, new_value);
    lemma_extractable_kept(builder, assigned, bindings, lvalue);
    lemma_lvalue_below_monotone(bindings, lvalue, count, assigned.dfg().values.len());
    lemma_emitted_in_stages(builder, extracted, prepared);
    lemma_emitted_in_stages(builder, prepared, assigned);
    lemma_emitted_in_stages(extracted, prepared, assigned);
    lemma_types_agree_kept(builder, assigned, bindings, lvalue);
}

/// What the premises of a write give for the state after it: the variable
/// holds what it held with the new value at the target; each target that
/// the target goes on from is read soundly again; the index expressions
/// stand for what they stood for; and every slot that is none of the
/// variable's holds what it held.
#[verifier::rlimit(80)]
pub proof fn lemma_written_state(
    builder: BuilderView,
    bindings: Map<u32, ValuesView>,
    lvalue: ast::LValue,
    prefix: ast::LValue,
    prepared: BuilderView,
    new_value: ValuesView,
    modulus: nat,
    machine: Machine,
    dfg: DfgView,
)
    requires
        write_premises(builder, bindings, lvalue, prepared, new_value, modulus, machine, dfg),
        within(lvalue, prefix),
        ({
            let (extracted, current, path) = extraction(builder, bindings, lvalue);
            let assigned = reassignment(prepared, path, new_value);
            walked_to_parent(assigned, bindings, prefix).dfg().values.is_prefix_of(dfg.values)
        }),
    ensures
        ({
            let (extracted, current, path) = extraction(builder, bindings, lvalue);
            let assigned = reassignment(prepared, path, new_value);
            let before = machine.run(modulus, dfg, emitted(builder, extracted));
            let ready = machine.run(modulus, dfg, emitted(builder, prepared));
            let written = machine.run(modulus, dfg, emitted(builder, assigned));
            let new = tree_data(ready, dfg, new_value);
            &&& tree_data(written, dfg, root(path)) == root_written(
                before,
                dfg,
                extracted,
                path,
                new,
            )
            &&& sound(written, dfg, assigned, bindings, prefix, modulus)
            &&& array_after(
                builder,
                machine,
                assigned,
                written,
                bindings,
                prefix,
                modulus,
                dfg,
                written_at(
                    before,
                    dfg,
                    extracted,
                    path,
                    extraction(builder, bindings, prefix).2,
                    new,
                ),
            )
            &&& indices_agree(machine, written, dfg, bindings, lvalue)
            &&& keeps_values(written, machine, builder.dfg().values.len())
            &&& written.memory.len() == machine.memory.len()
            &&& forall|slot: int|
                0 <= slot < machine.memory.len() && (forall|k: int|
                    0 <= k < root_bindings(bindings, lvalue).count_leaves() ==> target_slot(
                        machine,
                        dfg,
                        #[trigger] root_bindings(bindings, lvalue).flatten()[k],
                    ) != slot) ==> #[trigger] written.memory[slot] == machine.memory[slot]
        }),
{
    let count = builder.dfg().values.len();
    let (extracted, current, path) = extraction(builder, bindings, lvalue);
    let assigned = reassignment(prepared, path, new_value);
    let ran1 = machine.run(modulus, dfg, emitted(builder, extracted));
    let ready = machine.run(modulus, dfg, emitted(builder, prepared));
    let written = machine.run(modulus, dfg, emitted(builder, assigned));
    let variable = root_bindings(bindings, lvalue);
    let (middle, values, ancestor) = extraction(builder, bindings, prefix);
    lemma_write_extends(builder, bindings, lvalue, prepared, new_value, modulus, machine, dfg);
    lemma_sound_root(machine, dfg, builder, bindings, lvalue, modulus);
    lemma_sound_indices(machine, dfg, builder, bindings, lvalue, modulus);
    lemma_extraction_root(builder, bindings, lvalue);
    lemma_within(machine, written, dfg, builder, bindings, lvalue, prefix, modulus, count);
    lemma_within(
        machine,
        written,
        dfg,
        assigned,
        bindings,
        lvalue,
        prefix,
        modulus,
        assigned.dfg().values.len(),
    );
    lemma_walked_to_parent(assigned, bindings, prefix);
    assert(assigned.dfg().values.is_prefix_of(dfg.values));
    assert(prepared.dfg().values.is_prefix_of(dfg.values));
    assert(extracted.dfg().values.is_prefix_of(dfg.values));
    // The first phase, and what has been inserted since.
    lemma_extraction(builder, bindings, lvalue, modulus, machine, dfg);
    let held = tree_data(machine, dfg, root(path));
    lemma_path_kept(ran1, ready, dfg, extracted, prepared, path, modulus);
    lemma_keeps_transitive(machine, ran1, ready, count, extracted.dfg().values.len());
    assert(tree_readable(ready, dfg, new_value, prepared.dfg().values.len()));
    assert(aligned(new_value, path, prepared.dfg().values.len()));
    // The second phase.
    let new = tree_data(ready, dfg, new_value);
    lemma_reassignment(prepared, path, new_value, modulus, ready, dfg);
    lemma_emitted_in_stages(builder, prepared, assigned);
    lemma_run_concat(
        machine,
        modulus,
        dfg,
        emitted(builder, prepared),
        emitted(prepared, assigned),
    );
    assert(written == ready.run(modulus, dfg, emitted(prepared, assigned)));
    assert(keeps_values(written, machine, count));
    assert(root_written(ready, dfg, prepared, path, new) == root_written(
        ran1,
        dfg,
        extracted,
        path,
        new,
    ));
    assert forall|k: int| 0 <= k < variable.count_leaves() implies target_slot(
        ready,
        dfg,
        #[trigger] variable.flatten()[k],
    ) == target_slot(machine, dfg, variable.flatten()[k]) && target_slot(
        written,
        dfg,
        variable.flatten()[k],
    ) == target_slot(machine, dfg, variable.flatten()[k]) by {
        assert(variable.flatten()[k].below(count));
    }
    assert forall|slot: int|
        0 <= slot < machine.memory.len() && (forall|k: int|
            0 <= k < variable.count_leaves() ==> target_slot(
                machine,
                dfg,
                #[trigger] variable.flatten()[k],
            ) != slot) implies #[trigger] written.memory[slot] == machine.memory[slot] by {
        assert forall|k: int| 0 <= k < variable.count_leaves() implies target_slot(
            ready,
            dfg,
            #[trigger] variable.flatten()[k],
        ) != slot by {
            assert(target_slot(machine, dfg, variable.flatten()[k]) != slot);
        }
        assert(written.memory[slot] == ready.memory[slot]);
    }
    lemma_indices_agree(machine, written, dfg, bindings, variable, lvalue, count);
    assert(root_ok(written, dfg, variable, assigned.dfg().values.len())) by {
        assert forall|k: int| 0 <= k < variable.count_leaves() implies {
            &&& (#[trigger] variable.flatten()[k]) is Mutable
            &&& variable.flatten()[k].below(assigned.dfg().values.len())
            &&& written.operand(dfg, variable.flatten()[k].eval_reference()) is Reference
            &&& written.operand(dfg, variable.flatten()[k].eval_reference())->Reference_0
                < written.memory.len()
        } by {
            assert(variable.flatten()[k].below(count));
            assert(written.operand(dfg, variable.flatten()[k].eval_reference())
                == machine.operand(dfg, variable.flatten()[k].eval_reference()));
        }
        assert forall|j: int, k: int| 0 <= j < k < variable.count_leaves() implies written.operand(
            dfg,
            (#[trigger] variable.flatten()[j]).eval_reference(),
        ) != written.operand(dfg, (#[trigger] variable.flatten()[k]).eval_reference()) by {
            assert(variable.flatten()[j].below(count));
            assert(variable.flatten()[k].below(count));
        }
    }
    // What is written to the target that the target goes on from.
    let reached = machine.run(modulus, dfg, emitted(builder, middle));
    lemma_within_walk(builder, bindings, lvalue, prefix, modulus, machine, dfg);
    lemma_written_at(ran1, dfg, extracted, path, ancestor, modulus, held, new);
    let part = written_at(ran1, dfg, extracted, path, ancestor, new);
    lemma_extraction(builder, bindings, prefix, modulus, machine, dfg);
    lemma_path_kept(reached, ran1, dfg, middle, extracted, ancestor, modulus);
    assert(root_written(ran1, dfg, extracted, ancestor, part) == root_written(
        reached,
        dfg,
        middle,
        ancestor,
        part,
    ));
    assert forall|index: ast::Expression| index_of(prefix, index) implies expression_readable(
        written,
        dfg,
        bindings,
        index,
        count,
    ) by {
        assert(index_of(lvalue, index));
    }
    lemma_sound_after(builder, machine, assigned, written, bindings, prefix, modulus, dfg, part);
}

/// Reading a target after a write to it, with the values of `dfg`: what
/// is read is what the new value stood for when the second phase began.
pub proof fn lemma_read_after_write(
    builder: BuilderView,
    bindings: Map<u32, ValuesView>,
    lvalue: ast::LValue,
    prepared: BuilderView,
    new_value: ValuesView,
    modulus: nat,
    machine: Machine,
    dfg: DfgView,
)
    requires
        write_premises(builder, bindings, lvalue, prepared, new_value, modulus, machine, dfg),
        ({
            let (extracted, current, path) = extraction(builder, bindings, lvalue);
            let assigned = reassignment(prepared, path, new_value);
            extraction(assigned, bindings, lvalue).0.dfg().values.is_prefix_of(dfg.values)
        }),
    ensures
        ({
            let (extracted, current, path) = extraction(builder, bindings, lvalue);
            let assigned = reassignment(prepared, path, new_value);
            let (after, read, _) = extraction(assigned, bindings, lvalue);
            let ready = machine.run(modulus, dfg, emitted(builder, prepared));
            let ran = machine.run(modulus, dfg, emitted(builder, after));
            &&& tree_data(ran, dfg, read) == tree_data(ready, dfg, new_value)
            &&& ran.memory.len() == machine.memory.len()
            &&& forall|slot: int|
                0 <= slot < machine.memory.len() && (forall|k: int|
                    0 <= k < root_bindings(bindings, lvalue).count_leaves() ==> target_slot(
                        machine,
                        dfg,
                        #[trigger] root_bindings(bindings, lvalue).flatten()[k],
                    ) != slot) ==> #[trigger] ran.memory[slot] == machine.memory[slot]
        }),
{
    let (extracted, current, path) = extraction(builder, bindings, lvalue);
    let assigned = reassignment(prepared, path, new_value);
    let (after, read, path2) = extraction(assigned, bindings, lvalue);
    let ran1 = machine.run(modulus, dfg, emitted(builder, extracted));
    let ready = machine.run(modulus, dfg, emitted(builder, prepared));
    let written = machine.run(modulus, dfg, emitted(builder, assigned));
    let new = tree_data(ready, dfg, new_value);
    lemma_write_extends(builder, bindings, lvalue, prepared, new_value, modulus, machine, dfg);
    lemma_extraction_extends(assigned, bindings, lvalue);
    lemma_walked_to_parent(assigned, bindings, lvalue);
    assert(within(lvalue, lvalue));
    lemma_written_state(
        builder,
        bindings,
        lvalue,
        lvalue,
        prepared,
        new_value,
        modulus,
        machine,
        dfg,
    );
    lemma_emitted_in_stages(builder, assigned, after);
    // What the path selects of what has been written.
    lemma_extraction(builder, bindings, lvalue, modulus, machine, dfg);
    lemma_select_written(ran1, dfg, extracted, path, modulus, new);
    // The first phase once more.
    lemma_extraction(assigned, bindings, lvalue, modulus, written, dfg);
    lemma_run_concat(machine, modulus, dfg, emitted(builder, assigned), emitted(assigned, after));
    let ran = machine.run(modulus, dfg, emitted(builder, after));
    lemma_extractions_similar(
        builder,
        machine,
        assigned,
        written,
        bindings,
        lvalue,
        modulus,
        dfg,
    );
    lemma_similar_select(
        ran1,
        dfg,
        extracted,
        path,
        ran,
        after,
        path2,
        tree_data(written, dfg, root(path)),
    );
}

/// What the round trip asks of the state before the assignment: what a
/// write asks, with the values that the three walks add.
pub open spec fn round_trip_premises(
    builder: BuilderView,
    bindings: Map<u32, ValuesView>,
    lvalue: ast::LValue,
    prepared: BuilderView,
    new_value: ValuesView,
    modulus: nat,
    machine: Machine,
) -> bool {
    let (extracted, current, path) = extraction(builder, bindings, lvalue);
    let assigned = reassignment(prepared, path, new_value);
    let (after, read, _) = extraction(assigned, bindings, lvalue);
    write_premises(builder, bindings, lvalue, prepared, new_value, modulus, machine, after.dfg())
}

/// An assignment round-trips through the instructions. For every
/// assignment target that goes through fields and elements of a variable
/// that lives in slots, such as `a.b[i].c`, and for every new value made of
/// plain values: when the first phase has run, then whatever evaluates the
/// new value without storing anything, then the second phase with the new
/// value, and then the first phase once more to read the target, what has
/// been read is what the new value stood for when the second phase began,
/// and every slot that is none of the variable's holds what it held.
///
/// All that is asked is asked of the states before the second phase.
pub proof fn lemma_lvalue_round_trip(
    builder: BuilderView,
    bindings: Map<u32, ValuesView>,
    lvalue: ast::LValue,
    prepared: BuilderView,
    new_value: ValuesView,
    modulus: nat,
    machine: Machine,
)
    requires
        round_trip_premises(builder, bindings, lvalue, prepared, new_value, modulus, machine),
    ensures
        ({
            let (extracted, current, path) = extraction(builder, bindings, lvalue);
            let assigned = reassignment(prepared, path, new_value);
            let (after, read, _) = extraction(assigned, bindings, lvalue);
            let dfg = after.dfg();
            let ready = machine.run(modulus, dfg, emitted(builder, prepared));
            let ran = machine.run(modulus, dfg, emitted(builder, after));
            &&& tree_data(ran, dfg, read) == tree_data(ready, dfg, new_value)
            &&& ran.memory.len() == machine.memory.len()
            &&& forall|slot: int|
                0 <= slot < machine.memory.len() && (forall|k: int|
                    0 <= k < root_bindings(bindings, lvalue).count_leaves() ==> target_slot(
                        machine,
                        dfg,
                        #[trigger] root_bindings(bindings, lvalue).flatten()[k],
                    ) != slot) ==> #[trigger] ran.memory[slot] == machine.memory[slot]
        }),
{
    let (extracted, current, path) = extraction(builder, bindings, lvalue);
    let assigned = reassignment(prepared, path, new_value);
    let after = extraction(assigned, bindings, lvalue).0;
    lemma_read_after_write(
        builder,
        bindings,
        lvalue,
        prepared,
        new_value,
        modulus,
        machine,
        after.dfg(),
    );
}

/// An assignment leaves the other fields as they are, through the
/// instructions. For a target that goes through a field of a tuple or ends
/// in it, such as `a.b[i].c`, which goes through `a.b`, and another field of
/// the same tuple, such as `a.d`: when the first phase has run on the
/// target, then the second phase with the new value, and then the first
/// phase on the other field to read it, what has been read is what that
/// field held before the second phase.
#[verifier::rlimit(80)]
pub proof fn lemma_sibling_field_reads_as_before(
    builder: BuilderView,
    bindings: Map<u32, ValuesView>,
    lvalue: ast::LValue,
    prepared: BuilderView,
    object: ast::LValue,
    field_index: usize,
    other_field: usize,
    new_value: ValuesView,
    modulus: nat,
    machine: Machine,
)
    requires
        within(lvalue, ast::LValue::MemberAccess { object: Box::new(object), field_index }),
        ({
            let sibling = ast::LValue::MemberAccess {
                object: Box::new(object),
                field_index: other_field,
            };
            let (extracted, current, path) = extraction(builder, bindings, lvalue);
            let assigned = reassignment(prepared, path, new_value);
            let dfg = extraction(assigned, bindings, sibling).0.dfg();
            write_premises(
                builder,
                bindings,
                lvalue,
                prepared,
                new_value,
                modulus,
                machine,
                dfg,
            )
        }),
        other_field != field_index,
        extraction(builder, bindings, object).1.has_field(other_field as int),
    ensures
        ({
            let sibling = ast::LValue::MemberAccess {
                object: Box::new(object),
                field_index: other_field,
            };
            let (extracted, current, path) = extraction(builder, bindings, lvalue);
            let assigned = reassignment(prepared, path, new_value);
            let (after, read, _) = extraction(assigned, bindings, sibling);
            let dfg = after.dfg();
            let before = machine.run(modulus, dfg, emitted(builder, extracted));
            let ran = machine.run(modulus, dfg, emitted(builder, after));
            tree_data(ran, dfg, read) == tree_data(
                before,
                dfg,
                extraction(builder, bindings, sibling).1,
            )
        }),
{
    let target = ast::LValue::MemberAccess { object: Box::new(object), field_index };
    let sibling = ast::LValue::MemberAccess { object: Box::new(object), field_index: other_field };
    let count = builder.dfg().values.len();
    let (extracted, current, path) = extraction(builder, bindings, lvalue);
    let assigned = reassignment(prepared, path, new_value);
    let (after, read, path2) = extraction(assigned, bindings, sibling);
    let dfg = after.dfg();
    let ran1 = machine.run(modulus, dfg, emitted(builder, extracted));
    let written = machine.run(modulus, dfg, emitted(builder, assigned));
    let (middle, values, ancestor) = extraction(builder, bindings, target);
    let reached = machine.run(modulus, dfg, emitted(builder, middle));
    let old_object = ancestor->old_object;
    let sub = *ancestor->object_lvalue;
    let held = tree_data(machine, dfg, root(path));
    let ready = machine.run(modulus, dfg, emitted(builder, prepared));
    let new = tree_data(ready, dfg, new_value);
    let part = written_at(ran1, dfg, extracted, path, ancestor, new);
    // The two phases of the write only add to the builder.
    lemma_write_extends(builder, bindings, lvalue, prepared, new_value, modulus, machine, dfg);
    lemma_within_parent(lvalue, target);
    lemma_within(machine, written, dfg, builder, bindings, lvalue, target, modulus, count);
    lemma_within(
        machine,
        written,
        dfg,
        assigned,
        bindings,
        lvalue,
        target,
        modulus,
        assigned.dfg().values.len(),
    );
    lemma_sound_types(machine, dfg, builder, bindings, lvalue, modulus);
    lemma_extraction_shape(builder, assigned, bindings, object);
    lemma_same_shape_field(
        extraction(builder, bindings, object).1,
        extraction(assigned, bindings, object).1,
        other_field as int,
    );
    lemma_extraction_extends(assigned, bindings, sibling);
    assert(walked_to_parent(assigned, bindings, target) == after);
    lemma_emitted_in_stages(builder, assigned, after);
    lemma_written_state(
        builder,
        bindings,
        lvalue,
        target,
        prepared,
        new_value,
        modulus,
        machine,
        dfg,
    );
    // The first phase on the target.
    lemma_extraction(builder, bindings, lvalue, modulus, machine, dfg);
    lemma_within_walk(builder, bindings, lvalue, target, modulus, machine, dfg);
    lemma_written_at(ran1, dfg, extracted, path, ancestor, modulus, held, new);
    // The first phase on the other field.
    lemma_extraction(assigned, bindings, sibling, modulus, written, dfg);
    lemma_run_concat(machine, modulus, dfg, emitted(builder, assigned), emitted(assigned, after));
    let ran = machine.run(modulus, dfg, emitted(builder, after));
    lemma_extraction(builder, bindings, object, modulus, machine, dfg);
    lemma_extractions_similar(
        builder,
        machine,
        assigned,
        written,
        bindings,
        object,
        modulus,
        dfg,
    );
    lemma_similar_kept(
        reached,
        ran1,
        dfg,
        middle,
        extracted,
        sub,
        modulus,
        ran,
        after,
        *path2->object_lvalue,
    );
    let recorded_sibling = LValueView::MemberAccess {
        old_object,
        index: other_field,
        object_lvalue: Box::new(sub),
    };
    let held_after = tree_data(written, dfg, root(path));
    lemma_similar_select(ran1, dfg, extracted, recorded_sibling, ran, after, path2, held_after);
    crate::path_laws::lemma_sibling_field_unchanged(
        ran1,
        dfg,
        extracted,
        ancestor,
        modulus,
        held,
        part,
        other_field,
    );
    // What the other field held before.
    lemma_field_leaves(old_object, other_field as int);
    let start = field_start(old_object, other_field as int);
    let before_read = extraction(builder, bindings, sibling).1;
    assert forall|k: int| 0 <= k < before_read.count_leaves() implies before_read.flatten()[k]
        == #[trigger] old_object.flatten()[start + k] by {}
    assert(tree_data(ran1, dfg, before_read) =~= tree_data(ran1, dfg, old_object).subrange(
        start as int,
        (start + field_size(old_object, other_field as int)) as int,
    ));
}

/// An assignment leaves the other elements as they are, through the
/// instructions. For a target that goes through an element of an array or
/// ends in it, such as `a.b[i].c`, which goes through `a.b[i]`, and another
/// index into the same array that stands for another number and lies
/// within the array: when the first phase has run on the target, then the
/// second phase with the new value, and then the first phase on the other
/// element to read it, what has been read is that element of the array as
/// it was before the assignment.
#[verifier::rlimit(80)]
pub proof fn lemma_sibling_element_reads_as_before(
    builder: BuilderView,
    bindings: Map<u32, ValuesView>,
    lvalue: ast::LValue,
    prepared: BuilderView,
    array: ast::LValue,
    index: ast::Expression,
    other_index: ast::Expression,
    element_type: ast::Type,
    location: crate::ir::instruction::Location,
    other_location: crate::ir::instruction::Location,
    new_value: ValuesView,
    modulus: nat,
    machine: Machine,
)
    requires
        within(
            lvalue,
            ast::LValue::Index {
                array: Box::new(array),
                index: Box::new(index),
                element_type,
                location,
            },
        ),
        ({
            let sibling = ast::LValue::Index {
                array: Box::new(array),
                index: Box::new(other_index),
                element_type,
                location: other_location,
            };
            let (extracted, current, path) = extraction(builder, bindings, lvalue);
            let assigned = reassignment(prepared, path, new_value);
            let dfg = extraction(assigned, bindings, sibling).0.dfg();
            &&& write_premises(
                builder,
                bindings,
                lvalue,
                prepared,
                new_value,
                modulus,
                machine,
                dfg,
            )
            &&& extractable(builder, bindings, sibling)
            &&& sound(machine, dfg, builder, bindings, sibling, modulus)
            &&& indices_apart(machine, dfg, bindings, root_bindings(bindings, lvalue), sibling)
            &&& expression_data(machine, dfg, bindings, other_index) != expression_data(
                machine,
                dfg,
                bindings,
                index,
            )
        }),
    ensures
        ({
            let sibling = ast::LValue::Index {
                array: Box::new(array),
                index: Box::new(other_index),
                element_type,
                location: other_location,
            };
            let (extracted, current, path) = extraction(builder, bindings, lvalue);
            let assigned = reassignment(prepared, path, new_value);
            let (after, read, _) = extraction(assigned, bindings, sibling);
            let dfg = after.dfg();
            let ran = machine.run(modulus, dfg, emitted(builder, after));
            let (parent, values, _) = extraction(builder, bindings, array);
            let reached = machine.run(modulus, dfg, emitted(builder, parent));
            tree_data(ran, dfg, read) == element_read(
                leaf_data(reached, dfg, values->Leaf_0)->Array_0,
                flatten_type(element_type).count_leaves(),
                expression_data(machine, dfg, bindings, other_index)->Number_0,
            )
        }),
{
    let target = ast::LValue::Index {
        array: Box::new(array),
        index: Box::new(index),
        element_type,
        location,
    };
    let sibling = ast::LValue::Index {
        array: Box::new(array),
        index: Box::new(other_index),
        element_type,
        location: other_location,
    };
    let count = builder.dfg().values.len();
    let size = flatten_type(element_type).count_leaves();
    let variable = root_bindings(bindings, lvalue);
    let (parent, values, sub) = extraction(builder, bindings, array);
    let leaf = values->Leaf_0;
    let (middle, element, ancestor) = extraction(builder, bindings, target);
    let (extracted, current, path) = extraction(builder, bindings, lvalue);
    let assigned = reassignment(prepared, path, new_value);
    let (after, read, path2) = extraction(assigned, bindings, sibling);
    let dfg = after.dfg();
    let reached = machine.run(modulus, dfg, emitted(builder, parent));
    let indexed = machine.run(modulus, dfg, emitted(builder, middle));
    let ran1 = machine.run(modulus, dfg, emitted(builder, extracted));
    let written = machine.run(modulus, dfg, emitted(builder, assigned));
    let place = expression_data(machine, dfg, bindings, index)->Number_0;
    let other = expression_data(machine, dfg, bindings, other_index)->Number_0;
    let ready = machine.run(modulus, dfg, emitted(builder, prepared));
    let new = tree_data(ready, dfg, new_value);
    let held = tree_data(machine, dfg, root(path));
    let part = written_at(ran1, dfg, extracted, path, ancestor, new);
    // The two phases of the write only add to the builder.
    lemma_write_extends(builder, bindings, lvalue, prepared, new_value, modulus, machine, dfg);
    lemma_within(machine, written, dfg, builder, bindings, lvalue, target, modulus, count);
    lemma_extractable_kept(builder, assigned, bindings, sibling);
    lemma_sound_below(machine, dfg, builder, bindings, sibling, modulus);
    lemma_lvalue_below_monotone(bindings, sibling, count, assigned.dfg().values.len());
    assert(extraction_cost(sibling) == extraction_cost(target));
    lemma_extraction_extends(assigned, bindings, sibling);
    lemma_walked_to_parent(assigned, bindings, sibling);
    assert(walked_to_parent(assigned, bindings, target) == walked_to_parent(
        assigned,
        bindings,
        sibling,
    ));
    lemma_emitted_in_stages(builder, assigned, after);
    lemma_written_state(
        builder,
        bindings,
        lvalue,
        target,
        prepared,
        new_value,
        modulus,
        machine,
        dfg,
    );
    // What is written to the element that the target goes through.
    lemma_extraction(builder, bindings, lvalue, modulus, machine, dfg);
    lemma_within_walk(builder, bindings, lvalue, target, modulus, machine, dfg);
    lemma_written_at(ran1, dfg, extracted, path, ancestor, modulus, held, new);
    // The array before the write.
    lemma_extraction(builder, bindings, target, modulus, machine, dfg);
    assert(index_recorded(machine, dfg, builder, bindings, target, modulus));
    lemma_path_kept(indexed, ran1, dfg, middle, extracted, ancestor, modulus);
    assert(parent.dfg().values.is_prefix_of(dfg.values)) by {
        assert(parent.dfg().values.is_prefix_of(middle.dfg().values));
    }
    lemma_extraction(builder, bindings, array, modulus, machine, dfg);
    lemma_path_kept(reached, indexed, dfg, parent, middle, sub, modulus);
    assert(values.flatten() =~= seq![leaf]);
    assert(tree_data(reached, dfg, values)[0] == leaf_data(reached, dfg, leaf));
    let elements = indexed.operand(dfg, ancestor->old_array)->Array_0;
    assert(select(indexed, dfg, middle, sub, held) == seq![
        indexed.operand(dfg, ancestor->old_array),
    ]);
    assert(leaf_data(reached, dfg, leaf) == indexed.operand(dfg, ancestor->old_array));
    assert(indexed.operand(dfg, ancestor->Index_index)->Number_0 == place);
    // The other index after the write.
    lemma_sound_indices(machine, dfg, builder, bindings, sibling, modulus);
    lemma_indices_agree(machine, written, dfg, bindings, variable, sibling, count);
    assert(index_of(sibling, other_index));
    assert(expression_readable(written, dfg, bindings, other_index, count));
    assert(expression_data(written, dfg, bindings, other_index) == expression_data(
        machine,
        dfg,
        bindings,
        other_index,
    ));
    // The array after the write.
    let (parent2, values2, sub2) = extraction(assigned, bindings, array);
    let leaf2 = values2->Leaf_0;
    let reached2 = written.run(modulus, dfg, emitted(assigned, parent2));
    let after_write = element_written(elements, size, place, part);
    assert(leaf_data(reached2, dfg, leaf2) == Data::Array(after_write));
    assert(after_write.len() == elements.len());
    assert(sound(written, dfg, assigned, bindings, sibling, modulus));
    // The first phase on the other element.
    lemma_extraction(assigned, bindings, sibling, modulus, written, dfg);
    lemma_run_concat(machine, modulus, dfg, emitted(builder, assigned), emitted(assigned, after));
    let ran = machine.run(modulus, dfg, emitted(builder, after));
    assert(ran == written.run(modulus, dfg, emitted(assigned, after)));
    assert(index_recorded(written, dfg, assigned, bindings, sibling, modulus));
    assert(parent2.dfg().values.is_prefix_of(dfg.values));
    lemma_extraction(assigned, bindings, array, modulus, written, dfg);
    lemma_path_kept(reached2, ran, dfg, parent2, after, sub2, modulus);
    let held2 = tree_data(written, dfg, root(path2));
    assert(values2.flatten() =~= seq![leaf2]);
    assert(tree_data(reached2, dfg, values2)[0] == leaf_data(reached2, dfg, leaf2));
    assert(select(ran, dfg, after, sub2, held2)[0] == Data::Array(after_write));
    assert(ran.operand(dfg, path2->Index_index)->Number_0 == other);
    assert(tree_data(ran, dfg, read) == element_read(after_write, size, other));
    assert(part.len() == size);
    lemma_element_round_trip(elements, size, place, part, other);
}

/// An assignment to an element where the first phase has not read the
/// element, through the instructions. For a target that ends in an index,
/// such as `a.b[i]`, and an index into the same array that lies within it,
/// such as `a.b[j]`: when the first phase has run on the target in the form
/// that records the last step without reading it, then whatever evaluates
/// the new value without storing anything, then the second phase with the
/// new value, and then the first phase on the other index to read the
/// element there, what has been read is what the new value stood for when
/// the second phase began, if the two indices stand for the same number,
/// and else that element of the array as it was before the assignment.
#[verifier::rlimit(100)]
pub proof fn lemma_unread_element_write(
    builder: BuilderView,
    bindings: Map<u32, ValuesView>,
    array: ast::LValue,
    index: ast::Expression,
    other_index: ast::Expression,
    element_type: ast::Type,
    location: crate::ir::instruction::Location,
    other_location: crate::ir::instruction::Location,
    prepared: BuilderView,
    new_value: ValuesView,
    modulus: nat,
    machine: Machine,
)
    requires
        ({
            let lvalue = ast::LValue::Index {
                array: Box::new(array),
                index: Box::new(index),
                element_type,
                location,
            };
            let sibling = ast::LValue::Index {
                array: Box::new(array),
                index: Box::new(other_index),
                element_type,
                location: other_location,
            };
            let (started, path) = current_value_path(builder, bindings, lvalue);
            let assigned = reassignment(prepared, path, new_value);
            let dfg = extraction(assigned, bindings, sibling).0.dfg();
            let began = machine.run(modulus, dfg, emitted(builder, started));
            let ready = machine.run(modulus, dfg, emitted(builder, prepared));
            &&& builder.wf()
            &&& extractable(builder, bindings, lvalue)
            &&& sound(machine, dfg, builder, bindings, lvalue, modulus)
            &&& indices_apart(machine, dfg, bindings, root_bindings(bindings, lvalue), lvalue)
            &&& extractable(builder, bindings, sibling)
            &&& sound(machine, dfg, builder, bindings, sibling, modulus)
            &&& indices_apart(machine, dfg, bindings, root_bindings(bindings, lvalue), sibling)
            &&& extends(prepared, started)
            &&& keeps(ready, began, started.dfg().values.len())
            &&& tree_plain(new_value, prepared.dfg().values.len())
            &&& assignable(prepared, path, new_value)
            &&& new_value.count_leaves() == width(prepared, path)
            &&& builder.dfg().values.len() + extraction_cost(lvalue) <= usize::MAX
            &&& prepared.dfg().values.len() + cost(path, new_value.count_leaves())
                + extraction_cost(lvalue) <= usize::MAX
        }),
    ensures
        ({
            let lvalue = ast::LValue::Index {
                array: Box::new(array),
                index: Box::new(index),
                element_type,
                location,
            };
            let sibling = ast::LValue::Index {
                array: Box::new(array),
                index: Box::new(other_index),
                element_type,
                location: other_location,
            };
            let (started, path) = current_value_path(builder, bindings, lvalue);
            let assigned = reassignment(prepared, path, new_value);
            let (after, read, _) = extraction(assigned, bindings, sibling);
            let dfg = after.dfg();
            let ready = machine.run(modulus, dfg, emitted(builder, prepared));
            let ran = machine.run(modulus, dfg, emitted(builder, after));
            let (parent, values, _) = extraction(builder, bindings, array);
            let reached = machine.run(modulus, dfg, emitted(builder, parent));
            tree_data(ran, dfg, read) == if expression_data(machine, dfg, bindings, other_index)
                == expression_data(machine, dfg, bindings, index) {
                tree_data(ready, dfg, new_value)
            } else {
                element_read(
                    leaf_data(reached, dfg, values->Leaf_0)->Array_0,
                    flatten_type(element_type).count_leaves(),
                    expression_data(machine, dfg, bindings, other_index)->Number_0,
                )
            }
        }),
{
    let lvalue = ast::LValue::Index {
        array: Box::new(array),
        index: Box::new(index),
        element_type,
        location,
    };
    let sibling = ast::LValue::Index {
        array: Box::new(array),
        index: Box::new(other_index),
        element_type,
        location: other_location,
    };
    let count = builder.dfg().values.len();
    let size = flatten_type(element_type).count_leaves();
    let variable = root_bindings(bindings, lvalue);
    let (parent, values, sub) = extraction(builder, bindings, array);
    let leaf = values->Leaf_0;
    let (loaded, old_array) = leaf.eval(parent);
    let (started, index_value) = expression_value(loaded, bindings, index);
    let path = LValueView::Index { old_array, index: index_value, array_lvalue: Box::new(sub) };
    let indexed = index_extraction(builder, bindings, array, index);
    assert(current_value_path(builder, bindings, lvalue) == (started, path));
    let (set, array_value) = element_assignment(prepared, old_array, index_value, new_value);
    let new_leaf = TreeView::Leaf(ValueView::Normal(array_value));
    let old_leaf = TreeView::Leaf(ValueView::Normal(old_array));
    let assigned = reassignment(prepared, path, new_value);
    assert(assigned == reassignment(set, sub, new_leaf));
    let (after, read, path2) = extraction(assigned, bindings, sibling);
    let dfg = after.dfg();
    let reached = machine.run(modulus, dfg, emitted(builder, parent));
    let began = machine.run(modulus, dfg, emitted(builder, started));
    let ready = machine.run(modulus, dfg, emitted(builder, prepared));
    let ready_set = machine.run(modulus, dfg, emitted(builder, set));
    let written = machine.run(modulus, dfg, emitted(builder, assigned));
    let elements = leaf_data(reached, dfg, leaf)->Array_0;
    let place = expression_data(machine, dfg, bindings, index)->Number_0;
    let other = expression_data(machine, dfg, bindings, other_index)->Number_0;
    let new = tree_data(ready, dfg, new_value);
    // Every step only adds to the builder.
    lemma_sound_below(machine, dfg, builder, bindings, lvalue, modulus);
    lemma_sound_types(machine, dfg, builder, bindings, lvalue, modulus);
    lemma_extraction_extends(builder, bindings, array);
    lemma_extraction_widths(builder, bindings, array);
    assert(values.flatten() =~= seq![leaf]);
    assert(values.flatten()[0] == leaf);
    lemma_index_step_extends(parent, bindings, leaf, index, element_type, location);
    lemma_emitted_in_stages(parent, loaded, started);
    lemma_emitted_in_stages(parent, started, prepared);
    lemma_emitted_in_stages(builder, parent, prepared);
    assert(prepared.dfg().values[old_array.0 as int] == loaded.dfg().values[old_array.0 as int]);
    lemma_element_assignment_extends(prepared, old_array, index_value, new_value);
    lemma_emitted_in_stages(parent, prepared, set);
    lemma_emitted_in_stages(builder, parent, set);
    lemma_widths_kept(parent, set, sub);
    lemma_same_shape_reflexive(new_leaf);
    assert(old_leaf.same_shape(new_leaf));
    lemma_assignable_kept(prepared, set, sub, old_leaf, new_leaf);
    lemma_reassignment_extends(set, sub, new_leaf);
    lemma_emitted_in_stages(builder, set, assigned);
    lemma_extractable_kept(builder, assigned, bindings, lvalue);
    lemma_extractable_kept(builder, assigned, bindings, sibling);
    lemma_lvalue_below_monotone(bindings, lvalue, count, assigned.dfg().values.len());
    lemma_sound_below(machine, dfg, builder, bindings, sibling, modulus);
    lemma_lvalue_below_monotone(bindings, sibling, count, assigned.dfg().values.len());
    assert(extraction_cost(sibling) == extraction_cost(lvalue));
    lemma_extraction_extends(assigned, bindings, sibling);
    lemma_walked_to_parent(assigned, bindings, sibling);
    lemma_emitted_in_stages(builder, assigned, after);
    lemma_types_agree_kept(builder, assigned, bindings, lvalue);
    assert(set.dfg().values.is_prefix_of(dfg.values));
    assert(prepared.dfg().values.is_prefix_of(dfg.values));
    assert(started.dfg().values.is_prefix_of(dfg.values));
    assert(loaded.dfg().values.is_prefix_of(dfg.values));
    assert(parent.dfg().values.is_prefix_of(dfg.values));
    // The first phase as far as the index.
    lemma_extraction(builder, bindings, array, modulus, machine, dfg);
    match index {
        ast::Expression::Ident(ident) => {
            lemma_leaf_kept(
                machine,
                reached,
                dfg,
                bindings[ident.definition->Local_0.0]->Leaf_0,
                count,
            );
        },
        _ => {},
    }
    lemma_eval(parent, leaf, modulus, reached, dfg);
    let read_array = reached.run(modulus, dfg, emitted(parent, loaded));
    match index {
        ast::Expression::Ident(ident) => {
            lemma_leaf_kept(
                reached,
                read_array,
                dfg,
                bindings[ident.definition->Local_0.0]->Leaf_0,
                parent.dfg().values.len(),
            );
        },
        _ => {},
    }
    lemma_expression(loaded, bindings, index, modulus, read_array, dfg);
    lemma_run_concat(reached, modulus, dfg, emitted(parent, loaded), emitted(loaded, started));
    lemma_emitted_in_stages(builder, parent, started);
    lemma_run_concat(machine, modulus, dfg, emitted(builder, parent), emitted(parent, started));
    assert(began == read_array.run(modulus, dfg, emitted(loaded, started)));
    lemma_keeps_transitive(
        reached,
        read_array,
        began,
        parent.dfg().values.len(),
        loaded.dfg().values.len(),
    );
    lemma_keeps_transitive(
        reached,
        began,
        ready,
        parent.dfg().values.len(),
        started.dfg().values.len(),
    );
    assert(ready.operand(dfg, old_array) == Data::Array(elements));
    assert(ready.operand(dfg, index_value) == Data::Number(place));
    // The element is set into the array.
    assert(new_value.count_leaves() == size);
    assert(place * size + size < modulus);
    lemma_element_assignment(
        prepared,
        old_array,
        index_value,
        new_value,
        modulus,
        ready,
        dfg,
        elements,
        place,
    );
    lemma_emitted_in_stages(builder, prepared, set);
    lemma_run_concat(machine, modulus, dfg, emitted(builder, prepared), emitted(prepared, set));
    lemma_keeps_transitive(
        reached,
        ready,
        ready_set,
        parent.dfg().values.len(),
        prepared.dfg().values.len(),
    );
    let after_write = element_written(elements, size, place, new);
    assert(tree_data(ready_set, dfg, new_leaf) =~= seq![Data::Array(after_write)]);
    // The array is written to what is indexed, and read from it again.
    assert(write_premises(builder, bindings, array, set, new_leaf, modulus, machine, dfg));
    assert(within(array, array));
    lemma_walked_to_parent(assigned, bindings, array);
    lemma_written_state(builder, bindings, array, array, set, new_leaf, modulus, machine, dfg);
    lemma_read_after_write(builder, bindings, array, set, new_leaf, modulus, machine, dfg);
    let (parent2, values2, sub2) = extraction(assigned, bindings, array);
    let leaf2 = values2->Leaf_0;
    let reached2 = written.run(modulus, dfg, emitted(assigned, parent2));
    lemma_extraction_extends(assigned, bindings, array);
    lemma_emitted_in_stages(builder, assigned, parent2);
    lemma_run_concat(
        machine,
        modulus,
        dfg,
        emitted(builder, assigned),
        emitted(assigned, parent2),
    );
    lemma_extraction_shape(builder, assigned, bindings, array);
    assert(values2.flatten() =~= seq![leaf2]);
    assert(tree_data(reached2, dfg, values2)[0] == leaf_data(reached2, dfg, leaf2));
    assert(leaf_data(reached2, dfg, leaf2) == Data::Array(after_write));
    // The other index after the write.
    lemma_sound_indices(machine, dfg, builder, bindings, sibling, modulus);
    lemma_indices_agree(machine, written, dfg, bindings, variable, sibling, count);
    assert(index_of(sibling, other_index));
    assert(expression_readable(written, dfg, bindings, other_index, count));
    assert(after_write.len() == elements.len());
    assert(sound(written, dfg, assigned, bindings, sibling, modulus));
    // The first phase on the other index.
    lemma_extraction(assigned, bindings, sibling, modulus, written, dfg);
    lemma_run_concat(machine, modulus, dfg, emitted(builder, assigned), emitted(assigned, after));
    let ran = machine.run(modulus, dfg, emitted(builder, after));
    assert(index_recorded(written, dfg, assigned, bindings, sibling, modulus));
    lemma_extraction(assigned, bindings, array, modulus, written, dfg);
    lemma_path_kept(reached2, ran, dfg, parent2, after, sub2, modulus);
    let held2 = tree_data(written, dfg, root(path2));
    assert(select(ran, dfg, after, sub2, held2)[0] == Data::Array(after_write));
    assert(ran.operand(dfg, path2->Index_index)->Number_0 == other);
    assert(tree_data(ran, dfg, read) == element_read(after_write, size, other));
    lemma_element_round_trip(elements, size, place, new, other);
}

/// An assignment to an element round-trips through the instructions also
/// where the first phase has not read the element. For a target that ends
/// in an index, such as `a.b[i]`: when the first phase has run in the form
/// that records the last step without reading it, then whatever evaluates
/// the new value without storing anything, then the second phase with the
/// new value, and then the first phase to read the target, what has been
/// read is what the new value stood for when the second phase began.
pub proof fn lemma_unread_element_round_trip(
    builder: BuilderView,
    bindings: Map<u32, ValuesView>,
    array: ast::LValue,
    index: ast::Expression,
    element_type: ast::Type,
    location: crate::ir::instruction::Location,
    prepared: BuilderView,
    new_value: ValuesView,
    modulus: nat,
    machine: Machine,
)
    requires
        ({
            let lvalue = ast::LValue::Index {
                array: Box::new(array),
                index: Box::new(index),
                element_type,
                location,
            };
            let (started, path) = current_value_path(builder, bindings, lvalue);
            let assigned = reassignment(prepared, path, new_value);
            let dfg = extraction(assigned, bindings, lvalue).0.dfg();
            let began = machine.run(modulus, dfg, emitted(builder, started));
            let ready = machine.run(modulus, dfg, emitted(builder, prepared));
            &&& builder.wf()
            &&& extractable(builder, bindings, lvalue)
            &&& sound(machine, dfg, builder, bindings, lvalue, modulus)
            &&& indices_apart(machine, dfg, bindings, root_bindings(bindings, lvalue), lvalue)
            &&& extends(prepared, started)
            &&& keeps(ready, began, started.dfg().values.len())
            &&& tree_plain(new_value, prepared.dfg().values.len())
            &&& assignable(prepared, path, new_value)
            &&& new_value.count_leaves() == width(prepared, path)
            &&& builder.dfg().values.len() + extraction_cost(lvalue) <= usize::MAX
            &&& prepared.dfg().values.len() + cost(path, new_value.count_leaves())
                + extraction_cost(lvalue) <= usize::MAX
        }),
    ensures
        ({
            let lvalue = ast::LValue::Index {
                array: Box::new(array),
                index: Box::new(index),
                element_type,
                location,
            };
            let (started, path) = current_value_path(builder, bindings, lvalue);
            let assigned = reassignment(prepared, path, new_value);
            let (after, read, _) = extraction(assigned, bindings, lvalue);
            let dfg = after.dfg();
            let ready = machine.run(modulus, dfg, emitted(builder, prepared));
            let ran = machine.run(modulus, dfg, emitted(builder, after));
            tree_data(ran, dfg, read) == tree_data(ready, dfg, new_value)
        }),
{
    lemma_unread_element_write(
        builder,
        bindings,
        array,
        index,
        index,
        element_type,
        location,
        location,
        prepared,
        new_value,
        modulus,
        machine,
    );
}

/// For a target that is a variable or ends in a field, such as `a.b[i].c`,
/// the first phase in the form that does not read the target itself is the
/// first phase in the form that does: the same instructions and the same
/// path. So the round trip holds of either form.
pub proof fn lemma_current_value_path_of_field(
    builder: BuilderView,
    bindings: Map<u32, ValuesView>,
    lvalue: ast::LValue,
)
    requires
        lvalue is Ident || lvalue is MemberAccess,
    ensures
        current_value_path(builder, bindings, lvalue) == (
            extraction(builder, bindings, lvalue).0,
            extraction(builder, bindings, lvalue).2,
        ),
{
}

} // verus!
