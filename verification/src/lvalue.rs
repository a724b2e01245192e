use vstd::prelude::*;
use crate::ast;
use crate::errors::InternalError;
use crate::ir::builder::{BuilderView, lemma_continues_transitive};
use crate::ir::instruction::{BinaryOp, Location};
use crate::ir::types::{Type, TypeView};
use crate::ir::value::ValueId;
use crate::context::{
    FunctionContext, lemma_definitions_below_monotone, lemma_flatten_all_prefix, offset_address,
};
use crate::flatten::{flatten_type, is_scalar, scalar_type};
use crate::value::{
    lemma_below_monotone, lemma_flatten_all_covers, lemma_flatten_all_take, lemma_view_branch,
    Tree, TreeView, Value, ValueView, Values, ValuesView, view_trees,
};

verus! {

/// Storing `rhs` into `lhs`, leaf by leaf from left to right: each leaf of
/// `rhs` is read, and what was read is stored to the slot that the leaf of
/// `lhs` at the same place stands for.
pub open spec fn assignment(builder: BuilderView, lhs: ValuesView, rhs: ValuesView) -> BuilderView
    decreases lhs,
{
    match (lhs, rhs) {
        (TreeView::Leaf(target), TreeView::Leaf(source)) => {
            let (read, value) = source.eval(builder);
            read.insert_store(target.eval_reference(), value)
        },
        (TreeView::Branch(targets), TreeView::Branch(sources)) => assignment_all(
            builder,
            targets,
            sources,
        ),
        _ => builder,
    }
}

/// [`assignment`] for each pair of trees in turn.
pub open spec fn assignment_all(
    builder: BuilderView,
    targets: Seq<ValuesView>,
    sources: Seq<ValuesView>,
) -> BuilderView
    decreases targets,
{
    if targets.len() == 0 {
        builder
    } else {
        assignment(
            assignment_all(builder, targets.drop_last(), sources.drop_last()),
            targets.last(),
            sources.last(),
        )
    }
}

/// Reading through references, leaf by leaf from left to right: each leaf of
/// `values` is read, which gives a reference, and a value of the type at the
/// same place in `types` is loaded from it. Gives the new state and the
/// values loaded, in the shape of `values`.
pub open spec fn dereferencing(
    builder: BuilderView,
    values: ValuesView,
    types: TreeView<TypeView>,
) -> (BuilderView, ValuesView)
    decreases values,
{
    match (values, types) {
        (TreeView::Leaf(value), TreeView::Leaf(typ)) => {
            let (read, reference) = value.eval(builder);
            (
                read.insert_load(reference, typ),
                TreeView::Leaf(ValueView::Normal(read.next_value())),
            )
        },
        (TreeView::Branch(children), TreeView::Branch(child_types)) => {
            let (after, loaded) = dereferencing_all(builder, children, child_types);
            (after, TreeView::Branch(loaded))
        },
        _ => (builder, values),
    }
}

/// [`dereferencing`] for each pair of trees in turn.
pub open spec fn dereferencing_all(
    builder: BuilderView,
    values: Seq<ValuesView>,
    types: Seq<TreeView<TypeView>>,
) -> (BuilderView, Seq<ValuesView>)
    decreases values,
{
    if values.len() == 0 {
        (builder, Seq::empty())
    } else {
        let (before, firsts) = dereferencing_all(builder, values.drop_last(), types.drop_last());
        let (after, last) = dereferencing(before, values.last(), types.last());
        (after, firsts.push(last))
    }
}

/// The number of scalars that one element of an array or a slice is made of.
pub open spec fn element_count(typ: TypeView) -> nat {
    match typ {
        TypeView::Array(elements, _) => elements.len(),
        TypeView::Slice(elements) => elements.len(),
        _ => 0,
    }
}

/// Whether an expression can be evaluated to a single value: a name stands
/// for a local variable that is bound to a single leaf, and an integer
/// literal has a type that is represented by a single leaf.
pub open spec fn expression_ok(
    bindings: Map<u32, ValuesView>,
    expression: ast::Expression,
) -> bool {
    match expression {
        ast::Expression::Ident(ident) => {
            &&& ident.definition matches ast::Definition::Local(id)
            &&& bindings.contains_key(id.0)
            &&& bindings[id.0] is Leaf
        },
        ast::Expression::Literal(ast::Literal::Integer(_, typ)) => is_scalar(typ),
        ast::Expression::Literal(ast::Literal::Bool(_)) => true,
    }
}

/// The number that a boolean literal stands for.
pub open spec fn bool_constant(value: bool) -> u128 {
    if value {
        1
    } else {
        0
    }
}

/// Evaluating an expression: a name reads what the variable is bound to, a
/// literal adds a constant. Gives the new state and the value.
pub open spec fn expression_value(
    builder: BuilderView,
    bindings: Map<u32, ValuesView>,
    expression: ast::Expression,
) -> (BuilderView, ValueId) {
    match expression {
        ast::Expression::Ident(ident) => bindings[ident.definition->Local_0.0]->Leaf_0.eval(
            builder,
        ),
        ast::Expression::Literal(ast::Literal::Integer(value, typ)) => (
            builder.numeric_constant(value, scalar_type(typ)),
            builder.next_value(),
        ),
        ast::Expression::Literal(ast::Literal::Bool(value)) => (
            builder.numeric_constant(bool_constant(value), TypeView::bool()),
            builder.next_value(),
        ),
    }
}

/// Whether evaluating the expression inserts an instruction: it names a
/// variable that lives in a slot.
pub open spec fn expression_emits(
    bindings: Map<u32, ValuesView>,
    expression: ast::Expression,
) -> bool {
    expression matches ast::Expression::Ident(ident) && bindings[ident.definition->Local_0.0]
        ->Leaf_0 is Mutable
}

/// Reading the scalars of one array element: the scalar at place `field` of
/// the element is read at `base_index` moved on by `field`, for every leaf
/// of `shape` from left to right, the first leaf being at place `field`.
pub open spec fn elements_at(
    builder: BuilderView,
    shape: TreeView<TypeView>,
    array: ValueId,
    base_index: ValueId,
    field: nat,
) -> (BuilderView, ValuesView)
    decreases shape,
{
    match shape {
        TreeView::Leaf(typ) => {
            let (moved, offset) = offset_address(builder, base_index, field as u128);
            (
                moved.insert_array_get(array, offset, typ),
                TreeView::Leaf(ValueView::Normal(moved.next_value())),
            )
        },
        TreeView::Branch(children) => {
            let (after, elements) = elements_at_all(builder, children, array, base_index, field);
            (after, TreeView::Branch(elements))
        },
    }
}

/// [`elements_at`] for each shape in turn, each starting at the place where
/// the one before it stopped.
pub open spec fn elements_at_all(
    builder: BuilderView,
    shapes: Seq<TreeView<TypeView>>,
    array: ValueId,
    base_index: ValueId,
    field: nat,
) -> (BuilderView, Seq<ValuesView>)
    decreases shapes,
{
    if shapes.len() == 0 {
        (builder, Seq::empty())
    } else {
        let (before, firsts) = elements_at_all(
            builder,
            shapes.drop_last(),
            array,
            base_index,
            field,
        );
        let (after, last) = elements_at(
            before,
            shapes.last(),
            array,
            base_index,
            field + TreeView::flatten_all(shapes.drop_last()).len(),
        );
        (after, firsts.push(last))
    }
}

/// Reading the element at `index` of an array whose elements have the
/// surface type `element_type`: the index is multiplied by the number of
/// scalars of one element, which gives the place of the element's first
/// scalar, and the scalars are read from there on.
pub open spec fn array_index(
    builder: BuilderView,
    array: ValueId,
    index: ValueId,
    element_type: ast::Type,
    location: Location,
) -> (BuilderView, ValuesView) {
    let shape = flatten_type(element_type);
    let type_size = builder.next_value();
    let b = builder.field_constant(shape.count_leaves() as u128).set_location(location);
    let base_index = b.next_value();
    elements_at(b.insert_binary(index, BinaryOp::Mul, type_size), shape, array, base_index, 0)
}

/// What is remembered of each step of resolving an assignment target, for
/// the assignment that follows.
#[derive(Debug)]
#[allow(inconsistent_fields)]
pub enum LValue {
    /// A variable: what it is bound to.
    Ident(Values),
    /// An element of an array: the array as it is now, the index, and the
    /// target that the array itself comes from.
    Index { old_array: ValueId, index: ValueId, array_lvalue: Box<LValue> },
    /// A field of a tuple: the tuple as it is now, the place of the field,
    /// and the target that the tuple itself comes from.
    MemberAccess { old_object: Values, index: usize, object_lvalue: Box<LValue> },
    /// What a reference refers to: the reference.
    Dereference { reference: Values },
}

/// The mathematical value of an [`LValue`].
#[allow(inconsistent_fields)]
pub enum LValueView {
    Ident(ValuesView),
    Index { old_array: ValueId, index: ValueId, array_lvalue: Box<LValueView> },
    MemberAccess { old_object: ValuesView, index: usize, object_lvalue: Box<LValueView> },
    Dereference { reference: ValuesView },
}

impl LValue {
    /// The path with every tree replaced by its view.
    pub open spec fn to_view(&self) -> LValueView
        decreases self,
    {
        match self {
            LValue::Ident(values) => LValueView::Ident(values@),
            LValue::Index { old_array, index, array_lvalue } => LValueView::Index {
                old_array: *old_array,
                index: *index,
                array_lvalue: Box::new(array_lvalue.to_view()),
            },
            LValue::MemberAccess { old_object, index, object_lvalue } => LValueView::MemberAccess {
                old_object: old_object@,
                index: *index,
                object_lvalue: Box::new(object_lvalue.to_view()),
            },
            LValue::Dereference { reference } => LValueView::Dereference { reference: reference@ },
        }
    }
}

impl View for LValue {
    type V = LValueView;

    open spec fn view(&self) -> LValueView {
        self.to_view()
    }
}

impl LValueView {
    /// Whether the path speaks only of the first `count` values of a
    /// function.
    pub open spec fn below(self, count: nat) -> bool
        decreases self,
    {
        match self {
            LValueView::Ident(values) => values.below(count),
            LValueView::Index { old_array, index, array_lvalue } => {
                &&& old_array.0 < count
                &&& index.0 < count
                &&& array_lvalue.below(count)
            },
            LValueView::MemberAccess { old_object, index, object_lvalue } => {
                &&& old_object.below(count)
                &&& object_lvalue.below(count)
            },
            LValueView::Dereference { reference } => reference.below(count),
        }
    }
}

/// A path that speaks only of the first `count` values speaks only of the
/// first `more`, if `more` is no less.
pub proof fn lemma_lvalue_below_monotone(lvalue: LValueView, count: nat, more: nat)
    requires
        lvalue.below(count),
        count <= more,
    ensures
        lvalue.below(more),
    decreases lvalue,
{
    match lvalue {
        LValueView::Ident(values) => {
            lemma_below_monotone(values, count, more);
        },
        LValueView::Index { old_array, index, array_lvalue } => {
            lemma_lvalue_below_monotone(*array_lvalue, count, more);
        },
        LValueView::MemberAccess { old_object, index, object_lvalue } => {
            lemma_below_monotone(old_object, count, more);
            lemma_lvalue_below_monotone(*object_lvalue, count, more);
        },
        LValueView::Dereference { reference } => {
            lemma_below_monotone(reference, count, more);
        },
    }
}

/// Whether the current value of an assignment target can be extracted:
/// every name stands for a defined local variable, what is indexed is a
/// single value and its index can be evaluated, what a field is taken of is
/// a tuple that has the field, and what is dereferenced branches like the
/// type it refers to.
pub open spec fn extractable(
    builder: BuilderView,
    bindings: Map<u32, ValuesView>,
    lvalue: ast::LValue,
) -> bool
    decreases lvalue,
{
    match lvalue {
        ast::LValue::Ident(ident) => {
            &&& ident.definition matches ast::Definition::Local(id)
            &&& bindings.contains_key(id.0)
        },
        ast::LValue::Index { array, index, element_type, location } => {
            &&& extractable(builder, bindings, *array)
            &&& extraction(builder, bindings, *array).1 is Leaf
            &&& expression_ok(bindings, *index)
        },
        ast::LValue::MemberAccess { object, field_index } => {
            &&& extractable(builder, bindings, *object)
            &&& extraction(builder, bindings, *object).1.has_field(field_index as int)
        },
        ast::LValue::Dereference { reference, element_type } => {
            &&& extractable(builder, bindings, *reference)
            &&& extraction(builder, bindings, *reference).1.same_shape(flatten_type(element_type))
        },
    }
}

/// The first phase of an assignment, for an array that is indexed: the
/// current value of the array is extracted and read, and the index is
/// evaluated. Gives the new state, the array, the index and the path.
pub open spec fn index_extraction(
    builder: BuilderView,
    bindings: Map<u32, ValuesView>,
    array: ast::LValue,
    index: ast::Expression,
) -> (BuilderView, ValueId, ValueId, LValueView)
    decreases array, 1nat,
{
    let (extracted, array_values, array_lvalue) = extraction(builder, bindings, array);
    let (read, old_array) = array_values->Leaf_0.eval(extracted);
    let (evaluated, index_value) = expression_value(read, bindings, index);
    (
        evaluated,
        old_array,
        index_value,
        LValueView::Index { old_array, index: index_value, array_lvalue: Box::new(array_lvalue) },
    )
}

/// The first phase of an assignment: the target is walked from the variable
/// at its root to the place assigned to, and only what is needed to read the
/// current value at each step is evaluated. Gives the new state, the current
/// value of the target, and the path that records each step.
pub open spec fn extraction(
    builder: BuilderView,
    bindings: Map<u32, ValuesView>,
    lvalue: ast::LValue,
) -> (BuilderView, ValuesView, LValueView)
    decreases lvalue, 0nat,
{
    match lvalue {
        ast::LValue::Ident(ident) => {
            let variable = bindings[ident.definition->Local_0.0];
            (builder, variable, LValueView::Ident(variable))
        },
        ast::LValue::Index { array, index, element_type, location } => {
            let (indexed, old_array, index_value, path) = index_extraction(
                builder,
                bindings,
                *array,
                *index,
            );
            let (after, element) = array_index(
                indexed,
                old_array,
                index_value,
                element_type,
                location,
            );
            (after, element, path)
        },
        ast::LValue::MemberAccess { object, field_index } => {
            let (after, old_object, object_lvalue) = extraction(builder, bindings, *object);
            (
                after,
                old_object.field(field_index as int),
                LValueView::MemberAccess {
                    old_object,
                    index: field_index,
                    object_lvalue: Box::new(object_lvalue),
                },
            )
        },
        ast::LValue::Dereference { reference, element_type } => {
            let (extracted, reference_values, _) = extraction(builder, bindings, *reference);
            let (after, dereferenced) = dereferencing(
                extracted,
                reference_values,
                flatten_type(element_type),
            );
            (after, dereferenced, LValueView::Dereference { reference: reference_values })
        },
    }
}

/// The first phase of an assignment where the current value of the target
/// itself is not wanted: like [`extraction`], but the last step is recorded
/// without being read. Gives the new state and the path.
pub open spec fn current_value_path(
    builder: BuilderView,
    bindings: Map<u32, ValuesView>,
    lvalue: ast::LValue,
) -> (BuilderView, LValueView) {
    match lvalue {
        ast::LValue::Ident(ident) => (
            builder,
            LValueView::Ident(bindings[ident.definition->Local_0.0]),
        ),
        ast::LValue::Index { array, index, element_type, location } => {
            let indexed = index_extraction(builder, bindings, *array, *index);
            (indexed.0, indexed.3)
        },
        ast::LValue::MemberAccess { object, field_index } => {
            let (after, old_object, object_lvalue) = extraction(builder, bindings, *object);
            (
                after,
                LValueView::MemberAccess {
                    old_object,
                    index: field_index,
                    object_lvalue: Box::new(object_lvalue),
                },
            )
        },
        ast::LValue::Dereference { reference, element_type } => {
            let (after, reference_values, _) = extraction(builder, bindings, *reference);
            (after, LValueView::Dereference { reference: reference_values })
        },
    }
}

/// Writing the scalars of one array element: each leaf of `values`, from
/// left to right, is read and set into the array at the current index, which
/// gives a new array, and the index moves on by one. Gives the new state, the
/// last array and the last index.
pub open spec fn elements_set(
    builder: BuilderView,
    values: ValuesView,
    array: ValueId,
    index: ValueId,
    one: ValueId,
) -> (BuilderView, ValueId, ValueId)
    decreases values,
{
    match values {
        TreeView::Leaf(value) => {
            let (read, scalar) = value.eval(builder);
            let set = read.insert_array_set(array, index, scalar);
            (set.insert_binary(index, BinaryOp::Add, one), read.next_value(), set.next_value())
        },
        TreeView::Branch(children) => elements_set_all(builder, children, array, index, one),
    }
}

/// [`elements_set`] for each tree in turn, each going on with the array and
/// the index that the one before it gave.
pub open spec fn elements_set_all(
    builder: BuilderView,
    values: Seq<ValuesView>,
    array: ValueId,
    index: ValueId,
    one: ValueId,
) -> (BuilderView, ValueId, ValueId)
    decreases values,
{
    if values.len() == 0 {
        (builder, array, index)
    } else {
        let (before, set, moved) = elements_set_all(builder, values.drop_last(), array, index, one);
        elements_set(before, values.last(), set, moved, one)
    }
}

/// Assigning to the element at `index` of an array: the index is
/// multiplied by the number of scalars of one element, and the scalars of
/// the new value are set into the array from there on. Gives the new state
/// and the array that results.
pub open spec fn element_assignment(
    builder: BuilderView,
    old_array: ValueId,
    index: ValueId,
    new_value: ValuesView,
) -> (BuilderView, ValueId) {
    let element_size = builder.next_value();
    let b = builder.field_constant(element_count(builder.type_of_value(old_array)) as u128);
    let base_index = b.next_value();
    let b = b.insert_binary(index, BinaryOp::Mul, element_size);
    let one = b.next_value();
    let b = b.field_constant(1);
    let (b, array, _) = elements_set(b, new_value, old_array, base_index, one);
    (b, array)
}

/// The second phase of an assignment: the recorded path is walked back from
/// the place assigned to, to the variable at its root, with the new value.
///
/// At a variable or a reference the new value is stored and the walk ends.
/// At a field the new value takes the field's place in the recorded tuple,
/// and the walk goes on with the tuple. At an index the scalars of the new
/// value are set into the recorded array from the index times the number of
/// scalars of one element on, and the walk goes on with the array that this
/// gives.
pub open spec fn reassignment(
    builder: BuilderView,
    lvalue: LValueView,
    new_value: ValuesView,
) -> BuilderView
    decreases lvalue,
{
    match lvalue {
        LValueView::Ident(references) => assignment(builder, references, new_value),
        LValueView::Index { old_array, index, array_lvalue } => {
            let (b, array) = element_assignment(builder, old_array, index, new_value);
            reassignment(b, *array_lvalue, TreeView::Leaf(ValueView::Normal(array)))
        },
        LValueView::MemberAccess { old_object, index, object_lvalue } => reassignment(
            builder,
            *object_lvalue,
            old_object.with_field(index as int, new_value),
        ),
        LValueView::Dereference { reference } => assignment(builder, reference, new_value),
    }
}

/// Whether a new value can be assigned along a recorded path: what is
/// stored to branches like the new value, what is indexed is a known array
/// or slice with a known index, and what a field is replaced in is a tuple
/// that has the field.
pub open spec fn assignable(builder: BuilderView, lvalue: LValueView, new_value: ValuesView) -> bool
    decreases lvalue,
{
    match lvalue {
        LValueView::Ident(references) => references.same_shape(new_value),
        LValueView::Index { old_array, index, array_lvalue } => {
            &&& builder.has_value(old_array)
            &&& builder.has_value(index)
            &&& builder.type_of_value(old_array) is Array || builder.type_of_value(
                old_array,
            ) is Slice
            &&& assignable(builder, *array_lvalue, TreeView::Leaf(ValueView::Normal(old_array)))
        },
        LValueView::MemberAccess { old_object, index, object_lvalue } => {
            &&& old_object.has_field(index as int)
            &&& assignable(builder, *object_lvalue, old_object.with_field(index as int, new_value))
        },
        LValueView::Dereference { reference } => reference.same_shape(new_value),
    }
}

/// Whether assigning along the path inserts an instruction: an index always
/// does, a store does if there is a scalar to store.
pub open spec fn reassignment_emits(lvalue: LValueView, new_value: ValuesView) -> bool
    decreases lvalue,
{
    match lvalue {
        LValueView::Ident(references) => references.count_leaves() > 0,
        LValueView::Index { old_array, index, array_lvalue } => true,
        LValueView::MemberAccess { old_object, index, object_lvalue } => reassignment_emits(
            *object_lvalue,
            old_object.with_field(index as int, new_value),
        ),
        LValueView::Dereference { reference } => reference.count_leaves() > 0,
    }
}

/// Every tree branches like itself.
pub proof fn lemma_same_shape_reflexive<V>(tree: TreeView<V>)
    ensures
        tree.same_shape(tree),
    decreases tree,
{
    match tree {
        TreeView::Leaf(_) => {},
        TreeView::Branch(children) => {
            assert forall|i: int| 0 <= i < children.len() implies (
            #[trigger] children[i]).same_shape(children[i]) by {
                lemma_same_shape_reflexive(children[i]);
            }
        },
    }
}

/// Trees that branch like a third branch like each other.
pub proof fn lemma_same_shape_transitive<U, V, W>(
    first: TreeView<U>,
    second: TreeView<V>,
    third: TreeView<W>,
)
    requires
        first.same_shape(second),
        second.same_shape(third),
    ensures
        first.same_shape(third),
    decreases first,
{
    match (first, second, third) {
        (TreeView::Branch(a), TreeView::Branch(b), TreeView::Branch(c)) => {
            assert forall|i: int| 0 <= i < a.len() implies (#[trigger] a[i]).same_shape(c[i]) by {
                assert(a[i].same_shape(b[i]));
                assert(b[i].same_shape(c[i]));
                lemma_same_shape_transitive(a[i], b[i], c[i]);
            }
        },
        _ => {},
    }
}

/// A tuple with a field replaced branches like the tuple with that field
/// replaced by anything that branches like the replacement.
pub proof fn lemma_with_field_same_shape(
    tuple: ValuesView,
    index: int,
    child: ValuesView,
    other: ValuesView,
)
    requires
        tuple.has_field(index),
        child.same_shape(other),
    ensures
        tuple.with_field(index, child).same_shape(tuple.with_field(index, other)),
{
    let children = tuple->Branch_0;
    let left = children.update(index, child);
    let right = children.update(index, other);
    assert forall|i: int| 0 <= i < left.len() implies (#[trigger] left[i]).same_shape(right[i]) by {
        if i != index {
            lemma_same_shape_reflexive(children[i]);
        }
    }
}

/// What can be assigned along a path can still be assigned after the
/// builder has gone on, and so can everything that branches like it.
pub proof fn lemma_assignable_stable(
    earlier: BuilderView,
    later: BuilderView,
    lvalue: LValueView,
    new_value: ValuesView,
    other: ValuesView,
)
    requires
        later.continues(earlier),
        assignable(earlier, lvalue, new_value),
        new_value.same_shape(other),
    ensures
        assignable(later, lvalue, other),
    decreases lvalue,
{
    match lvalue {
        LValueView::Ident(references) => {
            lemma_same_shape_transitive(references, new_value, other);
        },
        LValueView::Index { old_array, index, array_lvalue } => {
            let leaf = TreeView::Leaf(ValueView::Normal(old_array));
            lemma_assignable_stable(earlier, later, *array_lvalue, leaf, leaf);
        },
        LValueView::MemberAccess { old_object, index, object_lvalue } => {
            lemma_with_field_same_shape(old_object, index as int, new_value, other);
            lemma_assignable_stable(
                earlier,
                later,
                *object_lvalue,
                old_object.with_field(index as int, new_value),
                old_object.with_field(index as int, other),
            );
        },
        LValueView::Dereference { reference } => {
            lemma_same_shape_transitive(reference, new_value, other);
        },
    }
}

/// Whether the walk of [`extraction`] inserts an instruction.
pub open spec fn extraction_emits(
    builder: BuilderView,
    bindings: Map<u32, ValuesView>,
    lvalue: ast::LValue,
) -> bool
    decreases lvalue,
{
    match lvalue {
        ast::LValue::Ident(_) => false,
        ast::LValue::Index { array, index, element_type, location } => true,
        ast::LValue::MemberAccess { object, field_index } => extraction_emits(
            builder,
            bindings,
            *object,
        ),
        ast::LValue::Dereference { reference, element_type } => {
            ||| extraction_emits(builder, bindings, *reference)
            ||| extraction(builder, bindings, *reference).1.count_leaves() > 0
        },
    }
}

/// Whether the walk of [`index_extraction`] inserts an instruction.
pub open spec fn index_extraction_emits(
    builder: BuilderView,
    bindings: Map<u32, ValuesView>,
    array: ast::LValue,
    index: ast::Expression,
) -> bool {
    ||| extraction_emits(builder, bindings, array)
    ||| extraction(builder, bindings, array).1->Leaf_0 is Mutable
    ||| expression_emits(bindings, index)
}

/// Whether the walk of [`current_value_path`] inserts an instruction.
pub open spec fn current_value_path_emits(
    builder: BuilderView,
    bindings: Map<u32, ValuesView>,
    lvalue: ast::LValue,
) -> bool {
    match lvalue {
        ast::LValue::Ident(_) => false,
        ast::LValue::Index { array, index, element_type, location } => index_extraction_emits(
            builder,
            bindings,
            *array,
            *index,
        ),
        ast::LValue::MemberAccess { object, field_index } => extraction_emits(
            builder,
            bindings,
            *object,
        ),
        ast::LValue::Dereference { reference, element_type } => extraction_emits(
            builder,
            bindings,
            *reference,
        ),
    }
}

impl FunctionContext {
    /// The number of scalars that one element of the given array or slice is
    /// made of.
    pub fn element_size(&self, array: ValueId) -> (size: u128)
        requires
            self.builder@.has_value(array),
            self.builder@.type_of_value(array) is Array || self.builder@.type_of_value(
                array,
            ) is Slice,
        ensures
            size == element_count(self.builder@.type_of_value(array)),
    {
        match self.builder.current_function.dfg.type_of_value(array) {
            Type::Array(elements, length) => {
                proof {
                    crate::ir::types::lemma_view_array(*elements, *length);
                }
                elements.len() as u128
            },
            Type::Slice(elements) => {
                proof {
                    crate::ir::types::lemma_view_slice(*elements);
                }
                elements.len() as u128
            },
            _ => unreached(),
        }
    }

    /// Given an `lhs` that holds only references, stores each value of `rhs`
    /// through the reference at the same place in `lhs`. The two trees branch
    /// alike.
    pub fn assign(&mut self, lhs: &Values, rhs: &Values) -> (result: Result<(), InternalError>)
        requires
            old(self).wf(),
            lhs@.same_shape(rhs@),
        ensures
            final(self).wf(),
            final(self).definitions == old(self).definitions,
            final(self).builder@.continues(old(self).builder@),
            result is Err <==> old(self).builder@.terminated() && lhs@.count_leaves() > 0,
            match result {
                Ok(_) => final(self).builder@ == assignment(old(self).builder@, lhs@, rhs@),
                Err(error) => error == old(self).builder@.terminated_error(),
            },
        decreases lhs,
    {
        broadcast use lemma_definitions_below_monotone;

        match (lhs, rhs) {
            (Tree::Branch(targets), Tree::Branch(sources)) => {
                proof {
                    lemma_view_branch(*targets);
                    lemma_view_branch(*sources);
                }
                let ghost target_views = view_trees(targets@);
                let ghost source_views = view_trees(sources@);
                let mut i: usize = 0;
                assert(target_views.take(0) =~= Seq::empty());
                while i < targets.len()
                    invariant
                        i <= targets.len(),
                        targets.len() == sources.len(),
                        target_views == view_trees(targets@),
                        source_views == view_trees(sources@),
                        lhs@ == TreeView::Branch(target_views),
                        rhs@ == TreeView::Branch(source_views),
                        lhs@.same_shape(rhs@),
                        old(self).wf(),
                        self.wf(),
                        self.definitions == old(self).definitions,
                        self.builder@.continues(old(self).builder@),
                        self.builder@ == assignment_all(
                            old(self).builder@,
                            target_views.take(i as int),
                            source_views.take(i as int),
                        ),
                        old(self).builder@.terminated() ==> TreeView::flatten_all(
                            target_views.take(i as int),
                        ).len() == 0,
                        decreases_to!(lhs => targets),
                    decreases targets.len() - i,
                {
                    let ghost before = self.builder@;
                    proof {
                        lemma_flatten_all_take(target_views, i as int);
                        lemma_flatten_all_covers(target_views, i as int);
                        assert(target_views.take(i + 1).drop_last() =~= target_views.take(
                            i as int,
                        ));
                        assert(source_views.take(i + 1).drop_last() =~= source_views.take(
                            i as int,
                        ));
                        assert(target_views[i as int].same_shape(source_views[i as int]));
                    }
                    self.assign(&targets[i], &sources[i])?;
                    proof {
                        lemma_continues_transitive(old(self).builder@, before, self.builder@);
                    }
                    i += 1;
                }
                proof {
                    assert(target_views.take(i as int) =~= target_views);
                    assert(source_views.take(i as int) =~= source_views);
                }
                Ok(())
            },
            (Tree::Leaf(target), Tree::Leaf(source)) => {
                let ghost before = self.builder@;
                let value = source.eval(&mut self.builder)?;
                self.builder.insert_store(target.eval_reference(), value)?;
                proof {
                    lemma_continues_transitive(old(self).builder@, before, self.builder@);
                }
                Ok(())
            },
            (Tree::Branch(targets), Tree::Leaf(_)) => {
                proof {
                    lemma_view_branch(*targets);
                }
                unreached()
            },
            (Tree::Leaf(_), Tree::Branch(sources)) => {
                proof {
                    lemma_view_branch(*sources);
                }
                unreached()
            },
        }
    }

    /// Loads what the references in `values` refer to, given the surface
    /// type of that: one load for each scalar. `values` branches like the
    /// type.
    pub fn dereference(&mut self, values: &Values, element_type: &ast::Type) -> (result: Result<
        Values,
        InternalError,
    >)
        requires
            old(self).wf(),
            values@.same_shape(flatten_type(*element_type)),
        ensures
            final(self).wf(),
            final(self).definitions == old(self).definitions,
            final(self).builder@.continues(old(self).builder@),
            result is Err <==> old(self).builder@.terminated() && values@.count_leaves() > 0,
            match result {
                Ok(loaded) => {
                    &&& final(self).builder@ == dereferencing(
                        old(self).builder@,
                        values@,
                        flatten_type(*element_type),
                    ).0
                    &&& loaded@ == dereferencing(
                        old(self).builder@,
                        values@,
                        flatten_type(*element_type),
                    ).1
                    &&& loaded@.below(final(self).builder@.dfg().values.len())
                    &&& loaded@.same_shape(values@)
                },
                Err(error) => error == old(self).builder@.terminated_error(),
            },
    {
        let element_types = Self::convert_type(element_type);
        self.load_each(values, &element_types)
    }

    /// Loads a value of the type at the same place in `types` through each
    /// reference in `values`.
    fn load_each(&mut self, values: &Values, types: &Tree<Type>) -> (result: Result<
        Values,
        InternalError,
    >)
        requires
            old(self).wf(),
            values@.same_shape(types@),
        ensures
            final(self).wf(),
            final(self).definitions == old(self).definitions,
            final(self).builder@.continues(old(self).builder@),
            result is Err <==> old(self).builder@.terminated() && values@.count_leaves() > 0,
            match result {
                Ok(loaded) => {
                    &&& final(self).builder@ == dereferencing(
                        old(self).builder@,
                        values@,
                        types@,
                    ).0
                    &&& loaded@ == dereferencing(old(self).builder@, values@, types@).1
                    &&& loaded@.below(final(self).builder@.dfg().values.len())
                    &&& loaded@.same_shape(values@)
                },
                Err(error) => error == old(self).builder@.terminated_error(),
            },
        decreases values,
    {
        broadcast use lemma_definitions_below_monotone;

        match (values, types) {
            (Tree::Branch(children), Tree::Branch(child_types)) => {
                proof {
                    lemma_view_branch(*children);
                    lemma_view_branch(*child_types);
                }
                let ghost child_views = view_trees(children@);
                let ghost type_views = view_trees(child_types@);
                let mut loaded: Vec<Values> = Vec::new();
                let mut i: usize = 0;
                assert(child_views.take(0) =~= Seq::empty());
                assert(view_trees(loaded@) =~= Seq::empty());
                while i < children.len()
                    invariant
                        i <= children.len(),
                        children.len() == child_types.len(),
                        loaded.len() == i,
                        child_views == view_trees(children@),
                        type_views == view_trees(child_types@),
                        values@ == TreeView::Branch(child_views),
                        types@ == TreeView::Branch(type_views),
                        values@.same_shape(types@),
                        old(self).wf(),
                        self.wf(),
                        self.definitions == old(self).definitions,
                        self.builder@.continues(old(self).builder@),
                        (self.builder@, view_trees(loaded@)) == dereferencing_all(
                            old(self).builder@,
                            child_views.take(i as int),
                            type_views.take(i as int),
                        ),
                        old(self).builder@.terminated() ==> TreeView::flatten_all(
                            child_views.take(i as int),
                        ).len() == 0,
                        forall|j: int|
                            0 <= j < i ==> (#[trigger] loaded[j])@.below(
                                self.builder@.dfg().values.len(),
                            ),
                        forall|j: int|
                            0 <= j < i ==> (#[trigger] loaded[j])@.same_shape(child_views[j]),
                        decreases_to!(values => children),
                    decreases children.len() - i,
                {
                    let ghost before = self.builder@;
                    let ghost loaded_before = view_trees(loaded@);
                    proof {
                        lemma_flatten_all_take(child_views, i as int);
                        lemma_flatten_all_covers(child_views, i as int);
                        assert(child_views.take(i + 1).drop_last() =~= child_views.take(i as int));
                        assert(type_views.take(i + 1).drop_last() =~= type_views.take(i as int));
                        assert(child_views[i as int].same_shape(type_views[i as int]));
                    }
                    let child = self.load_each(&children[i], &child_types[i])?;
                    proof {
                        lemma_continues_transitive(old(self).builder@, before, self.builder@);
                        assert forall|j: int| 0 <= j < i implies (#[trigger] loaded[j])@.below(
                            self.builder@.dfg().values.len(),
                        ) by {
                            crate::value::lemma_below_monotone(
                                loaded[j]@,
                                before.dfg().values.len(),
                                self.builder@.dfg().values.len(),
                            );
                        }
                    }
                    loaded.push(child);
                    proof {
                        assert(view_trees(loaded@) =~= loaded_before.push(child@));
                    }
                    i += 1;
                }
                proof {
                    assert(child_views.take(i as int) =~= child_views);
                    assert(type_views.take(i as int) =~= type_views);
                    lemma_view_branch(loaded);
                }
                Ok(Tree::Branch(loaded))
            },
            (Tree::Leaf(value), Tree::Leaf(typ)) => {
                let ghost before = self.builder@;
                let reference = value.eval(&mut self.builder)?;
                let loaded = self.builder.insert_load(reference, typ.duplicate())?;
                proof {
                    lemma_continues_transitive(old(self).builder@, before, self.builder@);
                }
                Ok(Tree::Leaf(Value::Normal(loaded)))
            },
            (Tree::Branch(children), Tree::Leaf(_)) => {
                proof {
                    lemma_view_branch(*children);
                }
                unreached()
            },
            (Tree::Leaf(_), Tree::Branch(child_types)) => {
                proof {
                    lemma_view_branch(*child_types);
                }
                unreached()
            },
        }
    }

    /// Evaluates an expression to a single value.
    pub fn codegen_non_tuple_expression(&mut self, expression: &ast::Expression) -> (result: Result<
        ValueId,
        InternalError,
    >)
        requires
            old(self).wf(),
            expression_ok(old(self).bindings(), *expression),
        ensures
            final(self).wf(),
            final(self).definitions == old(self).definitions,
            final(self).builder@.continues(old(self).builder@),
            result is Err <==> old(self).builder@.terminated() && expression_emits(
                old(self).bindings(),
                *expression,
            ),
            match result {
                Ok(value) => {
                    &&& final(self).builder@ == expression_value(
                        old(self).builder@,
                        old(self).bindings(),
                        *expression,
                    ).0
                    &&& value == expression_value(
                        old(self).builder@,
                        old(self).bindings(),
                        *expression,
                    ).1
                    &&& final(self).builder@.has_value(value)
                },
                Err(error) => error == old(self).builder@.terminated_error(),
            },
    {
        broadcast use lemma_definitions_below_monotone;

        match expression {
            ast::Expression::Ident(ident) => {
                let variable = self.ident_lvalue(ident).into_leaf();
                variable.eval(&mut self.builder)
            },
            ast::Expression::Literal(ast::Literal::Integer(value, typ)) => {
                let typ = Self::convert_non_tuple_type(typ);
                Ok(self.builder.numeric_constant(*value, typ))
            },
            ast::Expression::Literal(ast::Literal::Bool(value)) => {
                let constant: u128 = if *value {
                    1
                } else {
                    0
                };
                Ok(self.builder.numeric_constant(constant, Type::bool()))
            },
        }
    }

    /// Reads the scalars of one array element, the first of them at
    /// `base_index` moved on by `field`.
    fn read_elements(
        &mut self,
        shape: &Tree<Type>,
        array: ValueId,
        base_index: ValueId,
        field: usize,
    ) -> (result: Result<Values, InternalError>)
        requires
            old(self).wf(),
            old(self).builder@.has_value(base_index),
            field + shape@.count_leaves() <= usize::MAX,
        ensures
            final(self).wf(),
            final(self).definitions == old(self).definitions,
            final(self).builder@.continues(old(self).builder@),
            result is Err <==> old(self).builder@.terminated() && shape@.count_leaves() > 0,
            match result {
                Ok(elements) => {
                    &&& final(self).builder@ == elements_at(
                        old(self).builder@,
                        shape@,
                        array,
                        base_index,
                        field as nat,
                    ).0
                    &&& elements@ == elements_at(
                        old(self).builder@,
                        shape@,
                        array,
                        base_index,
                        field as nat,
                    ).1
                    &&& elements@.below(final(self).builder@.dfg().values.len())
                },
                Err(error) => error == old(self).builder@.terminated_error(),
            },
        decreases shape,
    {
        broadcast use lemma_definitions_below_monotone;

        match shape {
            Tree::Leaf(typ) => {
                let ghost before = self.builder@;
                let offset = self.make_offset(base_index, field as u128)?;
                let ghost moved = self.builder@;
                let element = self.builder.insert_array_get(array, offset, typ.duplicate())?;
                proof {
                    lemma_continues_transitive(before, moved, self.builder@);
                }
                Ok(Tree::Leaf(Value::Normal(element)))
            },
            Tree::Branch(children) => {
                proof {
                    lemma_view_branch(*children);
                }
                let ghost shapes = view_trees(children@);
                let mut elements: Vec<Values> = Vec::new();
                let mut next: usize = field;
                let mut i: usize = 0;
                assert(shapes.take(0) =~= Seq::empty());
                assert(view_trees(elements@) =~= Seq::empty());
                while i < children.len()
                    invariant
                        i <= children.len(),
                        elements.len() == i,
                        shapes == view_trees(children@),
                        shape@ == TreeView::Branch(shapes),
                        field + shape@.count_leaves() <= usize::MAX,
                        next == field + TreeView::flatten_all(shapes.take(i as int)).len(),
                        old(self).wf(),
                        old(self).builder@.has_value(base_index),
                        self.wf(),
                        self.definitions == old(self).definitions,
                        self.builder@.continues(old(self).builder@),
                        (self.builder@, view_trees(elements@)) == elements_at_all(
                            old(self).builder@,
                            shapes.take(i as int),
                            array,
                            base_index,
                            field as nat,
                        ),
                        old(self).builder@.terminated() ==> TreeView::flatten_all(
                            shapes.take(i as int),
                        ).len() == 0,
                        forall|j: int|
                            0 <= j < i ==> (#[trigger] elements[j])@.below(
                                self.builder@.dfg().values.len(),
                            ),
                        decreases_to!(shape => children),
                    decreases children.len() - i,
                {
                    let ghost before = self.builder@;
                    let ghost elements_before = view_trees(elements@);
                    proof {
                        lemma_flatten_all_take(shapes, i as int);
                        lemma_flatten_all_covers(shapes, i as int);
                        lemma_flatten_all_prefix(shapes, i + 1);
                        assert(shapes.take(i + 1).drop_last() =~= shapes.take(i as int));
                    }
                    let child = self.read_elements(&children[i], array, base_index, next)?;
                    proof {
                        lemma_continues_transitive(old(self).builder@, before, self.builder@);
                        assert forall|j: int| 0 <= j < i implies (#[trigger] elements[j])@.below(
                            self.builder@.dfg().values.len(),
                        ) by {
                            lemma_below_monotone(
                                elements[j]@,
                                before.dfg().values.len(),
                                self.builder@.dfg().values.len(),
                            );
                        }
                    }
                    next = next + count_leaves(&children[i]);
                    elements.push(child);
                    proof {
                        assert(view_trees(elements@) =~= elements_before.push(child@));
                    }
                    i += 1;
                }
                proof {
                    assert(shapes.take(i as int) =~= shapes);
                    lemma_view_branch(elements);
                }
                Ok(Tree::Branch(elements))
            },
        }
    }

    /// Reads the element at `index` of `array`, whose elements have the
    /// surface type `element_type`: one read for each scalar of the element.
    pub fn codegen_array_index(
        &mut self,
        array: ValueId,
        index: ValueId,
        element_type: &ast::Type,
        location: Location,
    ) -> (result: Result<Values, InternalError>)
        requires
            old(self).wf(),
            old(self).builder@.has_value(index),
        ensures
            final(self).wf(),
            final(self).definitions == old(self).definitions,
            final(self).builder@.continues(old(self).builder@),
            result is Ok <==> !old(self).builder@.terminated(),
            match result {
                Ok(element) => {
                    &&& final(self).builder@ == array_index(
                        old(self).builder@,
                        array,
                        index,
                        *element_type,
                        location,
                    ).0
                    &&& element@ == array_index(
                        old(self).builder@,
                        array,
                        index,
                        *element_type,
                        location,
                    ).1
                    &&& element@.below(final(self).builder@.dfg().values.len())
                },
                Err(error) => error == old(self).builder@.terminated_error(),
            },
    {
        broadcast use lemma_definitions_below_monotone;

        let shape = Self::convert_type(element_type);
        let type_size = Self::convert_type(element_type).flatten().len();
        let type_size = self.builder.field_constant(type_size as u128);
        self.builder.set_location(location);
        let ghost located = self.builder@;
        let base_index = self.builder.insert_binary(index, BinaryOp::Mul, type_size)?;
        let ghost multiplied = self.builder@;
        let elements = self.read_elements(&shape, array, base_index, 0)?;
        proof {
            lemma_continues_transitive(located, multiplied, self.builder@);
            lemma_continues_transitive(old(self).builder@, located, self.builder@);
        }
        Ok(elements)
    }

    /// Resolves `array[index]` as an assignment target: extracts the current
    /// value of the array and evaluates the index. Returns the array, the
    /// index and the path, which records both for `assign_new_value`.
    pub fn index_lvalue(&mut self, array: &ast::LValue, index: &ast::Expression) -> (result: Result<
        (ValueId, ValueId, LValue),
        InternalError,
    >)
        requires
            old(self).wf(),
            extractable(old(self).builder@, old(self).bindings(), *array),
            extraction(old(self).builder@, old(self).bindings(), *array).1 is Leaf,
            expression_ok(old(self).bindings(), *index),
        ensures
            final(self).wf(),
            final(self).definitions == old(self).definitions,
            final(self).builder@.continues(old(self).builder@),
            result is Err <==> old(self).builder@.terminated() && index_extraction_emits(
                old(self).builder@,
                old(self).bindings(),
                *array,
                *index,
            ),
            match result {
                Ok((old_array, index_value, lvalue)) => {
                    &&& (final(self).builder@, old_array, index_value, lvalue@)
                        == index_extraction(
                        old(self).builder@,
                        old(self).bindings(),
                        *array,
                        *index,
                    )
                    &&& lvalue@.below(final(self).builder@.dfg().values.len())
                },
                Err(error) => error == old(self).builder@.terminated_error(),
            },
        decreases array, 1nat,
    {
        broadcast use lemma_definitions_below_monotone;

        let (old_array, array_lvalue) = self.extract_current_value_recursive(array)?;
        let ghost extracted = self.builder@;
        let old_array = old_array.into_leaf().eval(&mut self.builder)?;
        let ghost read = self.builder@;
        assert(self.bindings() == old(self).bindings());
        let index = self.codegen_non_tuple_expression(index)?;
        proof {
            lemma_continues_transitive(old(self).builder@, extracted, read);
            lemma_continues_transitive(old(self).builder@, read, self.builder@);
            lemma_lvalue_below_monotone(
                array_lvalue@,
                extracted.dfg().values.len(),
                self.builder@.dfg().values.len(),
            );
        }
        let lvalue = LValue::Index { old_array, index, array_lvalue: Box::new(array_lvalue) };
        Ok((old_array, index, lvalue))
    }

    /// The first phase of an assignment to `lvalue`. Returns the current
    /// value of the target and the path.
    pub fn extract_current_value_recursive(&mut self, lvalue: &ast::LValue) -> (result: Result<
        (Values, LValue),
        InternalError,
    >)
        requires
            old(self).wf(),
            extractable(old(self).builder@, old(self).bindings(), *lvalue),
        ensures
            final(self).wf(),
            final(self).definitions == old(self).definitions,
            final(self).builder@.continues(old(self).builder@),
            result is Err <==> old(self).builder@.terminated() && extraction_emits(
                old(self).builder@,
                old(self).bindings(),
                *lvalue,
            ),
            match result {
                Ok((current, path)) => {
                    &&& (final(self).builder@, current@, path@) == extraction(
                        old(self).builder@,
                        old(self).bindings(),
                        *lvalue,
                    )
                    &&& current@.below(final(self).builder@.dfg().values.len())
                    &&& path@.below(final(self).builder@.dfg().values.len())
                },
                Err(error) => error == old(self).builder@.terminated_error(),
            },
        decreases lvalue, 0nat,
    {
        broadcast use lemma_definitions_below_monotone;

        match lvalue {
            ast::LValue::Ident(ident) => {
                let variable = self.ident_lvalue(ident);
                let current = self.ident_lvalue(ident);
                Ok((current, LValue::Ident(variable)))
            },
            ast::LValue::Index { array, index, element_type, location } => {
                let (old_array, index, index_lvalue) = self.index_lvalue(array, index)?;
                let ghost indexed = self.builder@;
                let element = self.codegen_array_index(old_array, index, element_type, *location)?;
                proof {
                    lemma_continues_transitive(old(self).builder@, indexed, self.builder@);
                    lemma_lvalue_below_monotone(
                        index_lvalue@,
                        indexed.dfg().values.len(),
                        self.builder@.dfg().values.len(),
                    );
                }
                Ok((element, index_lvalue))
            },
            ast::LValue::MemberAccess { object, field_index } => {
                let (old_object, object_lvalue) = self.extract_current_value_recursive(object)?;
                let element = crate::value::duplicate_values(
                    Self::get_field_ref(&old_object, *field_index),
                );
                Ok(
                    (
                        element,
                        LValue::MemberAccess {
                            old_object,
                            object_lvalue: Box::new(object_lvalue),
                            index: *field_index,
                        },
                    ),
                )
            },
            ast::LValue::Dereference { reference, element_type } => {
                let (reference, _) = self.extract_current_value_recursive(reference)?;
                let ghost extracted = self.builder@;
                let dereferenced = self.dereference(&reference, element_type)?;
                proof {
                    lemma_continues_transitive(old(self).builder@, extracted, self.builder@);
                    lemma_below_monotone(
                        reference@,
                        extracted.dfg().values.len(),
                        self.builder@.dfg().values.len(),
                    );
                }
                Ok((dereferenced, LValue::Dereference { reference }))
            },
        }
    }

    /// The first phase of an assignment to `lvalue`, such as
    /// `foo.bar[i1].baz[i2] = e`: the value that each step of the target has
    /// now is extracted, down to the step before the place assigned to.
    ///
    /// ```text
    /// v0 = foo.bar                 ; the slot of bar
    /// v1 = load v0                 ; the bar array
    /// v2 = add i1, baz_index       ; the place of field baz at index i1
    /// v3 = array_get v1, index v2  ; foo.bar[i1].baz
    /// ```
    ///
    /// The path returned records the value at each step. `assign_new_value`
    /// walks it back to build the larger values, because assigning to an
    /// array makes a new array, until it can store to a slot.
    ///
    /// This does what `extract_current_value_recursive` does, but does not
    /// read the target itself, which only the walk inwards needs.
    pub fn extract_current_value(&mut self, lvalue: &ast::LValue) -> (result: Result<
        LValue,
        InternalError,
    >)
        requires
            old(self).wf(),
            extractable(old(self).builder@, old(self).bindings(), *lvalue),
        ensures
            final(self).wf(),
            final(self).definitions == old(self).definitions,
            final(self).builder@.continues(old(self).builder@),
            result is Err <==> old(self).builder@.terminated() && current_value_path_emits(
                old(self).builder@,
                old(self).bindings(),
                *lvalue,
            ),
            match result {
                Ok(path) => {
                    &&& (final(self).builder@, path@) == current_value_path(
                        old(self).builder@,
                        old(self).bindings(),
                        *lvalue,
                    )
                    &&& path@.below(final(self).builder@.dfg().values.len())
                },
                Err(error) => error == old(self).builder@.terminated_error(),
            },
    {
        match lvalue {
            ast::LValue::Ident(ident) => Ok(LValue::Ident(self.ident_lvalue(ident))),
            ast::LValue::Index { array, index, element_type, location } => {
                let indexed = self.index_lvalue(array, index)?;
                Ok(indexed.2)
            },
            ast::LValue::MemberAccess { object, field_index } => {
                let (old_object, object_lvalue) = self.extract_current_value_recursive(object)?;
                Ok(
                    LValue::MemberAccess {
                        old_object,
                        object_lvalue: Box::new(object_lvalue),
                        index: *field_index,
                    },
                )
            },
            ast::LValue::Dereference { reference, element_type } => {
                let (reference, _) = self.extract_current_value_recursive(reference)?;
                Ok(LValue::Dereference { reference })
            },
        }
    }

    /// Sets the scalars of `values` into `array` from `index` on.
    fn set_elements(
        &mut self,
        values: &Values,
        array: ValueId,
        index: ValueId,
        one: ValueId,
    ) -> (result: Result<(ValueId, ValueId), InternalError>)
        requires
            old(self).wf(),
            old(self).builder@.has_value(array),
            old(self).builder@.has_value(index),
        ensures
            final(self).wf(),
            final(self).definitions == old(self).definitions,
            final(self).builder@.continues(old(self).builder@),
            result is Err <==> old(self).builder@.terminated() && values@.count_leaves() > 0,
            match result {
                Ok((set, moved)) => {
                    &&& (final(self).builder@, set, moved) == elements_set(
                        old(self).builder@,
                        values@,
                        array,
                        index,
                        one,
                    )
                    &&& final(self).builder@.has_value(set)
                    &&& final(self).builder@.has_value(moved)
                    &&& final(self).builder@.type_of_value(set) == old(self).builder@.type_of_value(
                        array,
                    )
                },
                Err(error) => error == old(self).builder@.terminated_error(),
            },
        decreases values,
    {
        broadcast use lemma_definitions_below_monotone;

        match values {
            Tree::Leaf(value) => {
                let ghost before = self.builder@;
                let scalar = value.eval(&mut self.builder)?;
                let ghost read = self.builder@;
                let set = self.builder.insert_array_set(array, index, scalar)?;
                let ghost updated = self.builder@;
                let moved = self.builder.insert_binary(index, BinaryOp::Add, one)?;
                proof {
                    lemma_continues_transitive(before, read, updated);
                    lemma_continues_transitive(before, updated, self.builder@);
                }
                Ok((set, moved))
            },
            Tree::Branch(children) => {
                proof {
                    lemma_view_branch(*children);
                }
                let ghost child_views = view_trees(children@);
                let mut array = array;
                let mut index = index;
                let ghost first_array = array;
                let ghost first_index = index;
                let mut i: usize = 0;
                assert(child_views.take(0) =~= Seq::empty());
                while i < children.len()
                    invariant
                        i <= children.len(),
                        child_views == view_trees(children@),
                        values@ == TreeView::Branch(child_views),
                        old(self).wf(),
                        self.wf(),
                        self.definitions == old(self).definitions,
                        self.builder@.continues(old(self).builder@),
                        self.builder@.has_value(array),
                        self.builder@.has_value(index),
                        self.builder@.type_of_value(array) == old(self).builder@.type_of_value(
                            first_array,
                        ),
                        (self.builder@, array, index) == elements_set_all(
                            old(self).builder@,
                            child_views.take(i as int),
                            first_array,
                            first_index,
                            one,
                        ),
                        old(self).builder@.terminated() ==> TreeView::flatten_all(
                            child_views.take(i as int),
                        ).len() == 0,
                        decreases_to!(values => children),
                    decreases children.len() - i,
                {
                    let ghost before = self.builder@;
                    proof {
                        lemma_flatten_all_take(child_views, i as int);
                        lemma_flatten_all_covers(child_views, i as int);
                        assert(child_views.take(i + 1).drop_last() =~= child_views.take(i as int));
                    }
                    let (set, moved) = self.set_elements(&children[i], array, index, one)?;
                    array = set;
                    index = moved;
                    proof {
                        lemma_continues_transitive(old(self).builder@, before, self.builder@);
                    }
                    i += 1;
                }
                proof {
                    assert(child_views.take(i as int) =~= child_views);
                }
                Ok((array, index))
            },
        }
    }

    /// The second phase of an assignment: assigns `new_value` along the path
    /// that `extract_current_value` recorded, building the larger values that
    /// the target is part of until the result can be stored to a slot.
    ///
    /// ```text
    /// v4 = array_set v3, index i2, e   ; a new array that holds the value
    /// v5 = array_set v1, index v2, v4  ; the new bar array
    /// store v5 in v0                   ; stored to the only slot
    /// ```
    pub fn assign_new_value(&mut self, lvalue: LValue, new_value: Values) -> (result: Result<
        (),
        InternalError,
    >)
        requires
            old(self).wf(),
            assignable(old(self).builder@, lvalue@, new_value@),
        ensures
            final(self).wf(),
            final(self).definitions == old(self).definitions,
            final(self).builder@.continues(old(self).builder@),
            result is Err <==> old(self).builder@.terminated() && reassignment_emits(
                lvalue@,
                new_value@,
            ),
            match result {
                Ok(_) => final(self).builder@ == reassignment(
                    old(self).builder@,
                    lvalue@,
                    new_value@,
                ),
                Err(error) => error == old(self).builder@.terminated_error(),
            },
        decreases lvalue,
    {
        broadcast use lemma_definitions_below_monotone;

        match lvalue {
            LValue::Ident(references) => self.assign(&references, &new_value),
            LValue::Index { old_array, index, array_lvalue } => {
                let element_size = self.element_size(old_array);
                let element_size = self.builder.field_constant(element_size);
                let ghost sized = self.builder@;
                let index = self.builder.insert_binary(index, BinaryOp::Mul, element_size)?;
                let one = self.builder.field_constant(1u128);
                let ghost prepared = self.builder@;
                let (array, _) = self.set_elements(&new_value, old_array, index, one)?;
                let ghost set = self.builder@;
                proof {
                    lemma_continues_transitive(old(self).builder@, sized, prepared);
                    lemma_continues_transitive(old(self).builder@, prepared, set);
                    lemma_assignable_stable(
                        old(self).builder@,
                        set,
                        array_lvalue@,
                        TreeView::Leaf(ValueView::Normal(old_array)),
                        TreeView::Leaf(ValueView::Normal(array)),
                    );
                }
                let result = self.assign_new_value(*array_lvalue, Tree::Leaf(Value::Normal(array)));
                proof {
                    lemma_continues_transitive(old(self).builder@, set, self.builder@);
                }
                result
            },
            LValue::MemberAccess { old_object, index, object_lvalue } => {
                let new_object = Self::replace_field(old_object, index, new_value);
                self.assign_new_value(*object_lvalue, new_object)
            },
            LValue::Dereference { reference } => self.assign(&reference, &new_value),
        }
    }

    /// What the variable that `ident` names is bound to. The name stands for
    /// a local variable that has been defined.
    pub fn ident_lvalue(&self, ident: &ast::Ident) -> (variable: Values)
        requires
            self.wf(),
            ident.definition matches ast::Definition::Local(id) && self.bindings().contains_key(
                id.0,
            ),
        ensures
            variable@ == self.bindings()[ident.definition->Local_0.0],
            variable@.below(self.builder@.dfg().values.len()),
    {
        match &ident.definition {
            ast::Definition::Local(id) => self.lookup(*id),
            _ => unreached(),
        }
    }
}

/// The number of leaves of a tree of types.
fn count_leaves(shape: &Tree<Type>) -> (count: usize)
    requires
        shape@.count_leaves() <= usize::MAX,
    ensures
        count == shape@.count_leaves(),
    decreases shape,
{
    match shape {
        Tree::Leaf(_) => 1,
        Tree::Branch(children) => {
            proof {
                lemma_view_branch(*children);
            }
            let ghost shapes = view_trees(children@);
            let mut count: usize = 0;
            let mut i: usize = 0;
            assert(shapes.take(0) =~= Seq::empty());
            while i < children.len()
                invariant
                    i <= children.len(),
                    shapes == view_trees(children@),
                    shape@ == TreeView::Branch(shapes),
                    shape@.count_leaves() <= usize::MAX,
                    count == TreeView::flatten_all(shapes.take(i as int)).len(),
                    decreases_to!(shape => children),
                decreases children.len() - i,
            {
                proof {
                    lemma_flatten_all_take(shapes, i as int);
                    lemma_flatten_all_covers(shapes, i as int);
                    lemma_flatten_all_prefix(shapes, i + 1);
                }
                count = count + count_leaves(&children[i]);
                i += 1;
            }
            proof {
                assert(shapes.take(i as int) =~= shapes);
            }
            count
        },
    }
}

} // verus!
