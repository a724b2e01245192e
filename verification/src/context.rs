use std::collections::HashMap;
use vstd::prelude::*;
use crate::ast;
use crate::ast::{BinaryOpKind, FuncId, LocalId};
use crate::errors::InternalError;
use crate::ir::basic_block::BasicBlockId;
use crate::ir::builder::{
    BuilderView, FunctionBuilder, lemma_continues_keeps_values, lemma_continues_transitive,
};
use crate::ir::function::{FunctionId, RuntimeType};
use crate::ir::instruction::{BinaryOp, Location};
use crate::ir::types::{Type, TypeView};
use crate::ir::value::ValueId;
use crate::flatten::flatten_type;
use crate::operators::{
    base_operator, convert_operator, max_bit_size_fits, max_bit_size_to_truncate,
    operator_requires_not, operator_requires_swapped_operands,
    operator_result_max_bit_size_to_truncate, requires_not, requires_swapped_operands,
};
use crate::shared::SharedContext;
use crate::value::{
    duplicate_values, lemma_below_monotone, lemma_flatten_all_covers, lemma_flatten_all_take,
    lemma_view_branch, Tree, TreeView, Value, ValueView, Values, ValuesView, view_leaves,
    view_trees,
};

verus! {

/// The state of the translation of one function: what each local variable
/// is bound to, and the builder that the function's instructions go to.
///
/// One context can translate any number of functions one after another, if
/// `new_function` is called between them. Nothing in it is shared: where
/// functions are translated side by side, each translator has a context of
/// its own.
pub struct FunctionContext {
    /// The bindings of the local variables, by the number of the variable.
    pub definitions: HashMap<u32, Values>,
    pub builder: FunctionBuilder,
}

/// Whether every binding speaks only of the first `count` values of a
/// function.
pub open spec fn definitions_below(definitions: Map<u32, Values>, count: nat) -> bool {
    forall|id: u32| definitions.contains_key(id) ==> (#[trigger] definitions[id])@.below(count)
}

/// Bindings that speak only of the first `count` values speak only of the
/// first `more`, if `more` is no less.
pub broadcast proof fn lemma_definitions_below_monotone(
    definitions: Map<u32, Values>,
    count: nat,
    more: nat,
)
    requires
        #[trigger] definitions_below(definitions, count),
        count <= more,
    ensures
        #[trigger] definitions_below(definitions, more),
{
    assert forall|id: u32| definitions.contains_key(id) implies (#[trigger] definitions[id])@.below(
        more,
    ) by {
        lemma_below_monotone(definitions[id]@, count, more);
    }
}

/// The binding that a new mutable variable gets when it starts out as
/// `value`: a slot is allocated and `value` stored into it.
pub open spec fn mutable_variable(builder: BuilderView, value: ValueId) -> (
    BuilderView,
    ValueView,
) {
    let address = builder.next_value();
    (
        builder.insert_allocate().insert_store(address, value),
        ValueView::Mutable(address, builder.type_of_value(value)),
    )
}

/// An address moved on by a known number of slots: nothing is inserted where
/// the number is zero.
pub open spec fn offset_address(builder: BuilderView, address: ValueId, offset: u128) -> (
    BuilderView,
    ValueId,
) {
    if offset == 0 {
        (builder, address)
    } else {
        let constant = builder.next_value();
        let with_constant = builder.field_constant(offset);
        (with_constant.insert_binary(address, BinaryOp::Add, constant), with_constant.next_value())
    }
}

/// Whether `==` or `!=` on the arrays `lhs` and `rhs` can be lowered: both
/// are arrays of the same length, whose elements are single scalars of the
/// same type.
pub open spec fn array_equality_operands(builder: BuilderView, lhs: ValueId, rhs: ValueId) -> bool {
    &&& builder.has_value(lhs)
    &&& builder.has_value(rhs)
    &&& builder.type_of_value(lhs) matches TypeView::Array(lhs_elements, lhs_length)
    &&& builder.type_of_value(rhs) matches TypeView::Array(rhs_elements, rhs_length)
    &&& lhs_elements.len() == 1
    &&& rhs_elements.len() == 1
    &&& lhs_elements[0] == rhs_elements[0]
    &&& lhs_length == rhs_length
}

/// The first part of the lowering of an array comparison, in the current
/// block: a boolean is allocated, true is stored into it, and the block ends
/// with a jump to `loop_start` with index zero. Gives the new state and the
/// address of the boolean.
pub open spec fn equality_setup(
    builder: BuilderView,
    loop_start: BasicBlockId,
    location: Location,
) -> (BuilderView, ValueId) {
    let b = builder.set_location(location);
    let result_alloc = b.next_value();
    let b = b.insert_allocate();
    let true_value = b.next_value();
    let b = b.numeric_constant(1, TypeView::bool());
    let b = b.insert_store(result_alloc, true_value);
    let zero = b.next_value();
    let b = b.field_constant(0);
    (b.terminate_with_jmp(loop_start, seq![zero]), result_alloc)
}

/// The head of the loop: `loop_start` takes the index as its parameter and
/// goes on to `loop_body` while the index is below `length`, to `loop_end`
/// after that. Gives the new state and the index.
pub open spec fn equality_loop_start(
    builder: BuilderView,
    loop_start: BasicBlockId,
    loop_body: BasicBlockId,
    loop_end: BasicBlockId,
    length: usize,
) -> (BuilderView, ValueId) {
    let b = builder.switch_to_block(loop_start);
    let i = b.next_value();
    let b = b.add_block_parameter(loop_start, TypeView::field());
    let array_length = b.next_value();
    let b = b.field_constant(length as u128);
    let v0 = b.next_value();
    let b = b.insert_binary(i, BinaryOp::Lt, array_length);
    (b.terminate_with_jmpif(v0, loop_body, loop_end), i)
}

/// The body of the loop: `loop_body` reads both arrays at index `i`,
/// compares the two elements, stores the conjunction of the boolean and the
/// comparison, and jumps back to `loop_start` with the index plus one.
pub open spec fn equality_loop_body(
    builder: BuilderView,
    loop_start: BasicBlockId,
    loop_body: BasicBlockId,
    lhs: ValueId,
    rhs: ValueId,
    i: ValueId,
    element_type: TypeView,
    result_alloc: ValueId,
) -> BuilderView {
    let b = builder.switch_to_block(loop_body);
    let v1 = b.next_value();
    let b = b.insert_array_get(lhs, i, element_type);
    let v2 = b.next_value();
    let b = b.insert_array_get(rhs, i, element_type);
    let v3 = b.next_value();
    let b = b.insert_binary(v1, BinaryOp::Eq, v2);
    let v4 = b.next_value();
    let b = b.insert_load(result_alloc, TypeView::bool());
    let v5 = b.next_value();
    let b = b.insert_binary(v4, BinaryOp::And, v3);
    let b = b.insert_store(result_alloc, v5);
    let one = b.next_value();
    let b = b.field_constant(1);
    let v6 = b.next_value();
    let b = b.insert_binary(i, BinaryOp::Add, one);
    b.terminate_with_jmp(loop_start, seq![v6])
}

/// The end of the lowering: `loop_end` becomes the current block and loads
/// the boolean, which is negated if `negate` holds. Gives the new state and
/// the result of the comparison.
pub open spec fn equality_loop_end(
    builder: BuilderView,
    loop_end: BasicBlockId,
    result_alloc: ValueId,
    negate: bool,
) -> (BuilderView, ValueId) {
    let b = builder.switch_to_block(loop_end);
    let result = b.next_value();
    let b = b.insert_load(result_alloc, TypeView::bool());
    if negate {
        (b.insert_not(result), b.next_value())
    } else {
        (b, result)
    }
}

/// The lowering of `==` and `!=` on arrays: a loop over the index that
/// compares element by element.
///
/// Three blocks are added, `loop_start`, `loop_body` and `loop_end`. Then
/// come [`equality_setup`] in the current block, [`equality_loop_start`],
/// [`equality_loop_body`] and [`equality_loop_end`], which negates the
/// result for `!=`. `loop_end` is the current block afterwards.
pub open spec fn array_equality_lowering(
    builder: BuilderView,
    lhs: ValueId,
    op: BinaryOpKind,
    rhs: ValueId,
    location: Location,
) -> (BuilderView, ValueId) {
    let length = builder.type_of_value(lhs)->Array_1;
    let element_type = builder.type_of_value(lhs)->Array_0[0];
    let loop_start = builder.next_block();
    let b = builder.insert_block();
    let loop_body = b.next_block();
    let b = b.insert_block();
    let loop_end = b.next_block();
    let b = b.insert_block();
    let (b, result_alloc) = equality_setup(b, loop_start, location);
    let (b, i) = equality_loop_start(b, loop_start, loop_body, loop_end, length);
    let b = equality_loop_body(b, loop_start, loop_body, lhs, rhs, i, element_type, result_alloc);
    equality_loop_end(b, loop_end, result_alloc, requires_not(op))
}

/// Whether `later` differs from `earlier` in the current block and in the
/// values added, and in nothing else.
pub open spec fn only_current_block_changed(later: BuilderView, earlier: BuilderView) -> bool {
    &&& later.wf()
    &&& later.current_block == earlier.current_block
    &&& later.function.entry_block == earlier.function.entry_block
    &&& later.dfg().blocks.len() == earlier.dfg().blocks.len()
    &&& earlier.dfg().values.is_prefix_of(later.dfg().values)
    &&& forall|block: int|
        0 <= block < earlier.dfg().blocks.len() && block != earlier.current_block.0
            ==> #[trigger] later.dfg().blocks[block] == earlier.dfg().blocks[block]
}

fn insert_equality_setup(
    builder: &mut FunctionBuilder,
    loop_start: BasicBlockId,
    location: Location,
) -> (result: Result<ValueId, InternalError>)
    requires
        old(builder)@.wf(),
    ensures
        final(builder)@.wf(),
        result is Ok <==> !old(builder)@.terminated(),
        match result {
            Ok(result_alloc) => {
                &&& final(builder)@ == equality_setup(old(builder)@, loop_start, location).0
                &&& result_alloc == equality_setup(old(builder)@, loop_start, location).1
                &&& only_current_block_changed(final(builder)@, old(builder)@)
                &&& final(builder)@.has_value(result_alloc)
            },
            Err(error) => {
                &&& error == old(builder)@.terminated_error()
                &&& final(builder)@.dfg() == old(builder)@.dfg()
            },
        },
{
    builder.set_location(location);
    let result_alloc = builder.insert_allocate()?;
    let true_value = builder.numeric_constant(1u128, Type::bool());
    builder.insert_store(result_alloc, true_value)?;
    let zero = builder.field_constant(0u128);
    let mut arguments: Vec<ValueId> = Vec::new();
    arguments.push(zero);
    assert(arguments@ =~= seq![zero]);
    builder.terminate_with_jmp(loop_start, arguments);
    Ok(result_alloc)
}

fn insert_equality_loop_start(
    builder: &mut FunctionBuilder,
    loop_start: BasicBlockId,
    loop_body: BasicBlockId,
    loop_end: BasicBlockId,
    length: usize,
) -> (i: ValueId)
    requires
        old(builder)@.wf(),
        old(builder)@.dfg().has_block(loop_start),
        old(builder)@.dfg().block(loop_start).terminator is None,
    ensures
        final(builder)@ == equality_loop_start(
            old(builder)@,
            loop_start,
            loop_body,
            loop_end,
            length,
        ).0,
        i == equality_loop_start(old(builder)@, loop_start, loop_body, loop_end, length).1,
        only_current_block_changed(final(builder)@, old(builder)@.switch_to_block(loop_start)),
        final(builder)@.has_value(i),
{
    builder.switch_to_block(loop_start);
    let i = builder.add_block_parameter(loop_start, Type::field());
    let array_length = builder.field_constant(length as u128);
    let v0 = match builder.insert_binary(i, BinaryOp::Lt, array_length) {
        Ok(value) => value,
        Err(_) => unreached(),
    };
    builder.terminate_with_jmpif(v0, loop_body, loop_end);
    i
}

fn insert_equality_loop_body(
    builder: &mut FunctionBuilder,
    loop_start: BasicBlockId,
    loop_body: BasicBlockId,
    lhs: ValueId,
    rhs: ValueId,
    i: ValueId,
    element_type: Type,
    result_alloc: ValueId,
)
    requires
        old(builder)@.wf(),
        old(builder)@.dfg().has_block(loop_body),
        old(builder)@.dfg().block(loop_body).terminator is None,
        old(builder)@.has_value(i),
    ensures
        final(builder)@ == equality_loop_body(
            old(builder)@,
            loop_start,
            loop_body,
            lhs,
            rhs,
            i,
            element_type@,
            result_alloc,
        ),
        only_current_block_changed(final(builder)@, old(builder)@.switch_to_block(loop_body)),
{
    builder.switch_to_block(loop_body);
    let v1 = match builder.insert_array_get(lhs, i, element_type.duplicate()) {
        Ok(value) => value,
        Err(_) => unreached(),
    };
    let v2 = match builder.insert_array_get(rhs, i, element_type) {
        Ok(value) => value,
        Err(_) => unreached(),
    };
    let v3 = match builder.insert_binary(v1, BinaryOp::Eq, v2) {
        Ok(value) => value,
        Err(_) => unreached(),
    };
    let v4 = match builder.insert_load(result_alloc, Type::bool()) {
        Ok(value) => value,
        Err(_) => unreached(),
    };
    let v5 = match builder.insert_binary(v4, BinaryOp::And, v3) {
        Ok(value) => value,
        Err(_) => unreached(),
    };
    match builder.insert_store(result_alloc, v5) {
        Ok(_) => {},
        Err(_) => unreached(),
    }
    let one = builder.field_constant(1u128);
    let v6 = match builder.insert_binary(i, BinaryOp::Add, one) {
        Ok(value) => value,
        Err(_) => unreached(),
    };
    let mut arguments: Vec<ValueId> = Vec::new();
    arguments.push(v6);
    assert(arguments@ =~= seq![v6]);
    builder.terminate_with_jmp(loop_start, arguments);
}

fn insert_equality_loop_end(
    builder: &mut FunctionBuilder,
    loop_end: BasicBlockId,
    result_alloc: ValueId,
    negate: bool,
) -> (result: ValueId)
    requires
        old(builder)@.wf(),
        old(builder)@.dfg().has_block(loop_end),
        old(builder)@.dfg().block(loop_end).terminator is None,
    ensures
        final(builder)@ == equality_loop_end(old(builder)@, loop_end, result_alloc, negate).0,
        result == equality_loop_end(old(builder)@, loop_end, result_alloc, negate).1,
        only_current_block_changed(final(builder)@, old(builder)@.switch_to_block(loop_end)),
        final(builder)@.has_value(result),
        !final(builder)@.terminated(),
{
    builder.switch_to_block(loop_end);
    let mut result = match builder.insert_load(result_alloc, Type::bool()) {
        Ok(value) => value,
        Err(_) => unreached(),
    };
    if negate {
        result = match builder.insert_not(result) {
            Ok(value) => value,
            Err(_) => unreached(),
        };
    }
    result
}

/// The lowering of a binary operation on two scalars, in this order: the
/// operands change places if the operator asks for it; the base instruction
/// is inserted; its result is truncated to its declared width if both
/// operands are integers and the result may occupy more bits than that; and
/// the result is negated if the operator asks for it.
pub open spec fn scalar_binary_lowering(
    builder: BuilderView,
    lhs: ValueId,
    op: BinaryOpKind,
    rhs: ValueId,
    location: Location,
) -> (BuilderView, ValueId) {
    let (first, second) = if requires_swapped_operands(op) {
        (rhs, lhs)
    } else {
        (lhs, rhs)
    };
    let base = builder.next_value();
    let b = builder.set_location(location).insert_binary(first, base_operator(op), second);
    let (b, value) = match truncation(b, base, op, first, second) {
        Some((bit_size, max_bit_size)) => (
            b.insert_truncate(base, bit_size, max_bit_size),
            b.next_value(),
        ),
        None => (b, base),
    };
    if requires_not(op) {
        (b.insert_not(value), b.next_value())
    } else {
        (b, value)
    }
}

/// The truncation that the result `base` of an operation on `first` and
/// `second` needs: the declared width of the result and the bits it may
/// occupy, where the second exceeds the first.
pub open spec fn truncation(
    builder: BuilderView,
    base: ValueId,
    op: BinaryOpKind,
    first: ValueId,
    second: ValueId,
) -> Option<(u32, u32)> {
    match (
        max_bit_size_to_truncate(
            op,
            builder.type_of_value(first),
            builder.type_of_value(second),
            builder.dfg().get_numeric_constant(second),
        ),
        builder.type_of_value(base).bit_size(),
    ) {
        (Some(max_bit_size), Some(bit_size)) => if max_bit_size > bit_size {
            Some((bit_size, max_bit_size as u32))
        } else {
            None
        },
        _ => None,
    }
}

/// Whether the arithmetic on widths that the lowering of `op` needs stays
/// within 32 bits.
pub open spec fn binary_widths_fit(
    builder: BuilderView,
    lhs: ValueId,
    op: BinaryOpKind,
    rhs: ValueId,
) -> bool {
    max_bit_size_fits(
        op,
        builder.type_of_value(lhs),
        builder.type_of_value(rhs),
        builder.dfg().get_numeric_constant(rhs),
    )
}

/// The lowering of a binary operation: the loop of [`array_equality_lowering`]
/// for `==` and `!=` on arrays, [`scalar_binary_lowering`] for everything
/// else.
pub open spec fn binary_lowering(
    builder: BuilderView,
    lhs: ValueId,
    op: BinaryOpKind,
    rhs: ValueId,
    location: Location,
) -> (BuilderView, ValueId) {
    if base_operator(op) is Eq && builder.type_of_value(lhs) is Array {
        array_equality_lowering(builder, lhs, op, rhs, location)
    } else {
        scalar_binary_lowering(builder, lhs, op, rhs, location)
    }
}

/// The tree of the given shape whose leaves are, from left to right, the
/// values of `results` from position `start` on: each value is used once.
pub open spec fn unflatten<V>(shape: TreeView<V>, results: Seq<ValueId>, start: int) -> ValuesView
    decreases shape,
{
    match shape {
        TreeView::Leaf(_) => TreeView::Leaf(ValueView::Normal(results[start])),
        TreeView::Branch(children) => TreeView::Branch(unflatten_all(children, results, start)),
    }
}

/// [`unflatten`] for each shape in turn, each starting where the one before
/// it stopped.
pub open spec fn unflatten_all<V>(
    shapes: Seq<TreeView<V>>,
    results: Seq<ValueId>,
    start: int,
) -> Seq<ValuesView>
    decreases shapes,
{
    if shapes.len() == 0 {
        Seq::empty()
    } else {
        unflatten_all(shapes.drop_last(), results, start).push(
            unflatten(
                shapes.last(),
                results,
                start + TreeView::flatten_all(shapes.drop_last()).len(),
            ),
        )
    }
}

/// The lowering of a call whose result has the surface type `result_type`:
/// the call defines one value for each scalar of that type, and the values
/// are put back into the shape of the type.
pub open spec fn call_lowering(
    builder: BuilderView,
    function: ValueId,
    arguments: Seq<ValueId>,
    result_type: ast::Type,
    location: Location,
) -> (BuilderView, ValuesView) {
    let located = builder.set_location(location);
    let shape = flatten_type(result_type);
    (
        located.insert_call(function, arguments, shape.flatten()),
        unflatten(shape, located.call_results(shape.flatten()), 0),
    )
}

/// Puts the values of `results` from position `start` on into the given
/// shape. Returns the tree and the position after the last value used.
fn reshape(
    shape: &Tree<Type>,
    results: &Vec<ValueId>,
    start: usize,
    Ghost(count): Ghost<nat>,
) -> (reshaped: (Values, usize))
    requires
        start + shape@.count_leaves() <= results.len(),
        forall|i: int| 0 <= i < results.len() ==> (#[trigger] results[i]).0 < count,
    ensures
        reshaped.0@ == unflatten(shape@, results@, start as int),
        reshaped.1 == start + shape@.count_leaves(),
        reshaped.0@.below(count),
    decreases shape,
{
    match shape {
        Tree::Leaf(_) => (Tree::Leaf(Value::Normal(results[start])), start + 1),
        Tree::Branch(children) => {
            proof {
                lemma_view_branch(*children);
            }
            let ghost shapes = view_trees(children@);
            let mut reshaped: Vec<Values> = Vec::new();
            let mut next: usize = start;
            let mut i: usize = 0;
            assert(shapes.take(0) =~= Seq::empty());
            assert(view_trees(reshaped@) =~= Seq::empty());
            while i < children.len()
                invariant
                    i <= children.len(),
                    reshaped.len() == i,
                    shapes == view_trees(children@),
                    shape@ == TreeView::Branch(shapes),
                    start + shape@.count_leaves() <= results.len(),
                    next == start + TreeView::flatten_all(shapes.take(i as int)).len(),
                    view_trees(reshaped@) == unflatten_all(
                        shapes.take(i as int),
                        results@,
                        start as int,
                    ),
                    forall|i: int| 0 <= i < results.len() ==> (#[trigger] results[i]).0 < count,
                    forall|j: int| 0 <= j < i ==> (#[trigger] reshaped[j])@.below(count),
                    decreases_to!(shape => children),
                decreases children.len() - i,
            {
                let ghost before = view_trees(reshaped@);
                proof {
                    lemma_flatten_all_take(shapes, i as int);
                    lemma_flatten_all_prefix(shapes, i + 1);
                    assert(shapes.take(i + 1).drop_last() =~= shapes.take(i as int));
                }
                let (child, after) = reshape(&children[i], results, next, Ghost(count));
                reshaped.push(child);
                next = after;
                proof {
                    assert(view_trees(reshaped@) =~= before.push(child@));
                }
                i += 1;
            }
            proof {
                assert(shapes.take(i as int) =~= shapes);
                lemma_view_branch(reshaped);
            }
            (Tree::Branch(reshaped), next)
        },
    }
}

/// The first trees of a list have no more leaves than the whole list.
pub proof fn lemma_flatten_all_prefix<V>(trees: Seq<TreeView<V>>, count: int)
    requires
        0 <= count <= trees.len(),
    ensures
        TreeView::flatten_all(trees.take(count)).len() <= TreeView::flatten_all(trees).len(),
    decreases trees.len() - count,
{
    if count < trees.len() {
        lemma_flatten_all_take(trees, count);
        lemma_flatten_all_prefix(trees, count + 1);
    } else {
        assert(trees.take(count) =~= trees);
    }
}

/// The binding of a parameter of the given shape: the function gets one
/// parameter for each scalar, from left to right, and the binding is that
/// parameter, or, for a mutable parameter, a slot that starts out holding it.
pub open spec fn parameter_binding(
    builder: BuilderView,
    shape: TreeView<TypeView>,
    mutable: bool,
) -> (BuilderView, ValuesView)
    decreases shape,
{
    match shape {
        TreeView::Leaf(typ) => {
            let value = builder.next_value();
            let added = builder.add_parameter(typ);
            if mutable {
                let (stored, variable) = mutable_variable(added, value);
                (stored, TreeView::Leaf(variable))
            } else {
                (added, TreeView::Leaf(ValueView::Normal(value)))
            }
        },
        TreeView::Branch(children) => {
            let (after, bound) = parameter_binding_all(builder, children, mutable);
            (after, TreeView::Branch(bound))
        },
    }
}

/// [`parameter_binding`] for each shape in turn.
pub open spec fn parameter_binding_all(
    builder: BuilderView,
    shapes: Seq<TreeView<TypeView>>,
    mutable: bool,
) -> (BuilderView, Seq<ValuesView>)
    decreases shapes,
{
    if shapes.len() == 0 {
        (builder, Seq::empty())
    } else {
        let (before, firsts) = parameter_binding_all(builder, shapes.drop_last(), mutable);
        let (after, last) = parameter_binding(before, shapes.last(), mutable);
        (after, firsts.push(last))
    }
}

/// The state and the bindings after every parameter has been bound, in
/// order. A later parameter with the number of an earlier one replaces it.
pub open spec fn parameters_binding(
    builder: BuilderView,
    bindings: Map<u32, ValuesView>,
    parameters: Seq<ast::Parameter>,
) -> (BuilderView, Map<u32, ValuesView>)
    decreases parameters.len(),
{
    if parameters.len() == 0 {
        (builder, bindings)
    } else {
        let (before, bound) = parameters_binding(builder, bindings, parameters.drop_last());
        let parameter = parameters.last();
        let (after, values) = parameter_binding(
            before,
            flatten_type(parameter.typ),
            parameter.mutable,
        );
        (after, bound.insert(parameter.id.0, values))
    }
}

/// Whether binding the parameter inserts an instruction: it is mutable and
/// has at least one scalar.
pub open spec fn needs_slot(parameter: ast::Parameter) -> bool {
    parameter.mutable && flatten_type(parameter.typ).count_leaves() > 0
}

/// The kind of function that a surface function becomes.
pub open spec fn runtime_of(unconstrained: bool) -> RuntimeType {
    if unconstrained {
        RuntimeType::Brillig
    } else {
        RuntimeType::Acir
    }
}

impl FunctionContext {
    /// What each defined variable is bound to.
    pub open spec fn bindings(&self) -> Map<u32, ValuesView> {
        Map::new(|id: u32| self.definitions@.contains_key(id), |id: u32| self.definitions@[id]@)
    }

    /// The builder is well formed, and the bindings speak only of values
    /// that the current function has.
    pub open spec fn wf(&self) -> bool {
        &&& self.builder@.wf()
        &&& definitions_below(self.definitions@, self.builder@.dfg().values.len())
    }

    /// Returns the unit value, which is an empty tree.
    pub fn unit_value() -> (unit: Values)
        ensures
            unit@ == ValuesView::empty(),
    {
        Values::empty()
    }

    /// Allocates a single slot of memory and stores into it the given initial
    /// value of the variable. The binding returned is the slot.
    pub fn new_mutable_variable(&mut self, value_to_store: ValueId) -> (result: Result<
        Value,
        InternalError,
    >)
        requires
            old(self).wf(),
            old(self).builder@.has_value(value_to_store),
        ensures
            final(self).wf(),
            final(self).definitions == old(self).definitions,
            final(self).builder@.continues(old(self).builder@),
            result is Ok <==> !old(self).builder@.terminated(),
            match result {
                Ok(variable) => {
                    &&& final(self).builder@ == mutable_variable(
                        old(self).builder@,
                        value_to_store,
                    ).0
                    &&& variable@ == mutable_variable(old(self).builder@, value_to_store).1
                    &&& variable@.below(final(self).builder@.dfg().values.len())
                },
                Err(error) => error == old(self).builder@.terminated_error(),
            },
    {
        broadcast use lemma_definitions_below_monotone;

        let alloc = self.builder.insert_allocate()?;
        self.builder.insert_store(alloc, value_to_store)?;
        let typ = self.builder.type_of_value(value_to_store);
        Ok(Value::Mutable(alloc, typ))
    }

    /// Creates an address moved on by a known number of slots, for a read or
    /// a write of an array.
    pub fn make_offset(&mut self, address: ValueId, offset: u128) -> (result: Result<
        ValueId,
        InternalError,
    >)
        requires
            old(self).wf(),
            old(self).builder@.has_value(address),
        ensures
            final(self).wf(),
            final(self).definitions == old(self).definitions,
            final(self).builder@.continues(old(self).builder@),
            result is Err <==> offset != 0 && old(self).builder@.terminated(),
            match result {
                Ok(moved) => {
                    &&& final(self).builder@ == offset_address(
                        old(self).builder@,
                        address,
                        offset,
                    ).0
                    &&& moved == offset_address(old(self).builder@, address, offset).1
                    &&& final(self).builder@.has_value(moved)
                },
                Err(error) => error == old(self).builder@.terminated_error(),
            },
    {
        broadcast use lemma_definitions_below_monotone;

        let mut address = address;
        if offset != 0 {
            let constant = self.builder.field_constant(offset);
            address = self.builder.insert_binary(address, BinaryOp::Add, constant)?;
        }
        Ok(address)
    }

    /// Defines a local variable to be some values that `lookup` retrieves
    /// later. A variable is defined once.
    pub fn define(&mut self, id: LocalId, value: Values)
        requires
            old(self).wf(),
            !old(self).definitions@.contains_key(id.0),
            value@.below(old(self).builder@.dfg().values.len()),
        ensures
            final(self).wf(),
            final(self).builder == old(self).builder,
            final(self).definitions@ == old(self).definitions@.insert(id.0, value),
            final(self).bindings() == old(self).bindings().insert(id.0, value@),
    {
        broadcast use vstd::std_specs::hash::group_hash_axioms;

        let existing = self.definitions.insert(id.0, value);
        assert(final(self).bindings() =~= old(self).bindings().insert(id.0, value@));
    }

    /// Whether the variable has been defined.
    pub fn is_defined(&self, id: LocalId) -> (defined: bool)
        ensures
            defined == self.definitions@.contains_key(id.0),
            defined == self.bindings().contains_key(id.0),
    {
        broadcast use vstd::std_specs::hash::group_hash_axioms;

        self.definitions.contains_key(&id.0)
    }

    /// Looks up what a local variable is bound to. The variable has been
    /// defined.
    pub fn lookup(&self, id: LocalId) -> (value: Values)
        requires
            self.wf(),
            self.definitions@.contains_key(id.0),
        ensures
            value@ == self.definitions@[id.0]@,
            value@ == self.bindings()[id.0],
            value@.below(self.builder@.dfg().values.len()),
    {
        broadcast use vstd::std_specs::hash::group_hash_axioms;

        match self.definitions.get(&id.0) {
            Some(value) => duplicate_values(value),
            None => unreached(),
        }
    }

    /// Inserts a binary operation at the end of the current block, in the
    /// form that the representation has for it: `a <= b`, for one, is
    /// `!(b < a)`. Returns the result as a single leaf.
    pub fn insert_binary(
        &mut self,
        lhs: ValueId,
        operator: BinaryOpKind,
        rhs: ValueId,
        location: Location,
    ) -> (result: Result<Values, InternalError>)
        requires
            old(self).wf(),
            old(self).builder@.has_value(lhs),
            old(self).builder@.has_value(rhs),
            base_operator(operator) is Eq && old(self).builder@.type_of_value(lhs) is Array
                ==> array_equality_operands(old(self).builder@, lhs, rhs),
            binary_widths_fit(old(self).builder@, lhs, operator, rhs),
        ensures
            final(self).wf(),
            final(self).definitions == old(self).definitions,
            result is Ok <==> !old(self).builder@.terminated(),
            match result {
                Ok(values) => {
                    &&& final(self).builder@ == binary_lowering(
                        old(self).builder@,
                        lhs,
                        operator,
                        rhs,
                        location,
                    ).0
                    &&& values@ == ValuesView::Leaf(
                        ValueView::Normal(
                            binary_lowering(old(self).builder@, lhs, operator, rhs, location).1,
                        ),
                    )
                    &&& values@.below(final(self).builder@.dfg().values.len())
                },
                Err(error) => error == old(self).builder@.terminated_error(),
            },
    {
        broadcast use lemma_definitions_below_monotone;

        let op = convert_operator(operator);
        let lhs_type = self.builder.type_of_value(lhs);
        if matches!(op, BinaryOp::Eq) && lhs_type.is_array() {
            return self.insert_array_equality(lhs, operator, rhs, location);
        }
        let mut first = lhs;
        let mut second = rhs;
        if operator_requires_swapped_operands(operator) {
            first = rhs;
            second = lhs;
        }
        self.builder.set_location(location);
        let ghost before = self.builder@;
        let mut result = self.builder.insert_binary(first, op, second)?;
        proof {
            lemma_continues_keeps_values(before, self.builder@, first);
            lemma_continues_keeps_values(before, self.builder@, second);
        }
        let max_bit_size = operator_result_max_bit_size_to_truncate(
            operator,
            first,
            second,
            &self.builder.current_function.dfg,
        );
        if let Some(max_bit_size) = max_bit_size {
            let result_type = self.builder.type_of_value(result);
            let bit_size = match result_type.bit_size() {
                Some(bit_size) => bit_size,
                None => unreached(),
            };
            if max_bit_size > bit_size {
                result = self.builder.insert_truncate(result, bit_size, max_bit_size)?;
            }
        }
        if operator_requires_not(operator) {
            result = self.builder.insert_not(result)?;
        }
        Ok(Tree::Leaf(Value::Normal(result)))
    }

    /// Lowers `==` and `!=` on two arrays. The comparing instruction of the
    /// representation is for scalars only, so a whole loop over the elements
    /// is inserted:
    ///
    /// ```text
    ///   ...
    ///   result_alloc = allocate
    ///   store u1 1 in result_alloc
    ///   jmp loop_start(0)
    /// loop_start(i: Field):
    ///   v0 = lt i, array_len
    ///   jmpif v0, then: loop_body, else: loop_end
    /// loop_body():
    ///   v1 = array_get lhs, index i
    ///   v2 = array_get rhs, index i
    ///   v3 = eq v1, v2
    ///   v4 = load result_alloc
    ///   v5 = and v4, v3
    ///   store v5 in result_alloc
    ///   v6 = add i, Field 1
    ///   jmp loop_start(v6)
    /// loop_end():
    ///   result = load result_alloc
    /// ```
    pub fn insert_array_equality(
        &mut self,
        lhs: ValueId,
        operator: BinaryOpKind,
        rhs: ValueId,
        location: Location,
    ) -> (result: Result<Values, InternalError>)
        requires
            old(self).wf(),
            array_equality_operands(old(self).builder@, lhs, rhs),
        ensures
            final(self).wf(),
            final(self).definitions == old(self).definitions,
            result is Ok <==> !old(self).builder@.terminated(),
            match result {
                Ok(values) => {
                    &&& final(self).builder@ == array_equality_lowering(
                        old(self).builder@,
                        lhs,
                        operator,
                        rhs,
                        location,
                    ).0
                    &&& values@ == ValuesView::Leaf(
                        ValueView::Normal(
                            array_equality_lowering(
                                old(self).builder@,
                                lhs,
                                operator,
                                rhs,
                                location,
                            ).1,
                        ),
                    )
                    &&& values@.below(final(self).builder@.dfg().values.len())
                },
                Err(error) => error == old(self).builder@.terminated_error(),
            },
    {
        broadcast use lemma_definitions_below_monotone;

        let lhs_type = self.builder.type_of_value(lhs);
        let (array_length, element_type) = match lhs_type {
            Type::Array(mut element_types, length) => {
                proof {
                    crate::ir::types::lemma_view_array(element_types, length);
                }
                match element_types.pop() {
                    Some(element_type) => (length, element_type),
                    None => unreached(),
                }
            },
            _ => unreached(),
        };
        let loop_start = self.builder.insert_block();
        let loop_body = self.builder.insert_block();
        let loop_end = self.builder.insert_block();
        let result_alloc = insert_equality_setup(&mut self.builder, loop_start, location)?;
        let i = insert_equality_loop_start(
            &mut self.builder,
            loop_start,
            loop_body,
            loop_end,
            array_length,
        );
        insert_equality_loop_body(
            &mut self.builder,
            loop_start,
            loop_body,
            lhs,
            rhs,
            i,
            element_type,
            result_alloc,
        );
        let result = insert_equality_loop_end(
            &mut self.builder,
            loop_end,
            result_alloc,
            operator_requires_not(operator),
        );
        Ok(Tree::Leaf(Value::Normal(result)))
    }

    /// Inserts a call at the end of the current block and returns its
    /// results, put back into the shape of the surface type of the result.
    pub fn insert_call(
        &mut self,
        function: ValueId,
        arguments: Vec<ValueId>,
        result_type: &ast::Type,
        location: Location,
    ) -> (result: Result<Values, InternalError>)
        requires
            old(self).wf(),
        ensures
            final(self).wf(),
            final(self).definitions == old(self).definitions,
            final(self).builder@.continues(old(self).builder@),
            result is Ok <==> !old(self).builder@.terminated(),
            match result {
                Ok(values) => {
                    &&& final(self).builder@ == call_lowering(
                        old(self).builder@,
                        function,
                        arguments@,
                        *result_type,
                        location,
                    ).0
                    &&& values@ == call_lowering(
                        old(self).builder@,
                        function,
                        arguments@,
                        *result_type,
                        location,
                    ).1
                    &&& values@.below(final(self).builder@.dfg().values.len())
                },
                Err(error) => error == old(self).builder@.terminated_error(),
            },
    {
        broadcast use lemma_definitions_below_monotone;

        let result_types = Self::convert_type(result_type).flatten();
        assert(crate::ir::types::view_types(result_types@) =~= view_leaves(result_types@));
        self.builder.set_location(location);
        let ghost located = self.builder@;
        let results = self.builder.insert_call(function, arguments, result_types)?;
        let shape = Self::convert_type(result_type);
        proof {
            assert forall|i: int| 0 <= i < results.len() implies (#[trigger] results[i]).0
                < self.builder@.dfg().values.len() by {
                assert(results[i] == ValueId((located.next_value().0 + i) as usize));
            }
        }
        let (values, used) = reshape(
            &shape,
            &results,
            0,
            Ghost(self.builder@.dfg().values.len()),
        );
        Ok(values)
    }

    /// Takes the field at `field_index` out of a tuple.
    pub fn get_field(tuple: Values, field_index: usize) -> (field: Values)
        requires
            tuple@.has_field(field_index as int),
        ensures
            field@ == tuple@.field(field_index as int),
    {
        tuple.get_field(field_index)
    }

    /// The field at `field_index` of a tuple.
    pub fn get_field_ref(tuple: &Values, field_index: usize) -> (field: &Values)
        requires
            tuple@.has_field(field_index as int),
        ensures
            field@ == tuple@.field(field_index as int),
    {
        tuple.get_field_ref(field_index)
    }

    /// Replaces the field at `field_index` of a tuple with a new one.
    pub fn replace_field(tuple: Values, field_index: usize, new_value: Values) -> (replaced: Values)
        requires
            tuple@.has_field(field_index as int),
        ensures
            replaced@ == tuple@.with_field(field_index as int, new_value@),
    {
        tuple.replace_field(field_index, new_value)
    }

    /// Adds one function parameter for each scalar of `shape` and returns
    /// their bindings in that shape.
    fn bind_parameter(&mut self, shape: &Tree<Type>, mutable: bool) -> (result: Result<
        Values,
        InternalError,
    >)
        requires
            old(self).wf(),
        ensures
            final(self).wf(),
            final(self).definitions == old(self).definitions,
            final(self).builder@.continues(old(self).builder@),
            result is Err <==> old(self).builder@.terminated() && mutable && shape@.count_leaves()
                > 0,
            match result {
                Ok(values) => {
                    &&& final(self).builder@ == parameter_binding(
                        old(self).builder@,
                        shape@,
                        mutable,
                    ).0
                    &&& values@ == parameter_binding(old(self).builder@, shape@, mutable).1
                    &&& values@.below(final(self).builder@.dfg().values.len())
                },
                Err(error) => error == old(self).builder@.terminated_error(),
            },
        decreases shape,
    {
        broadcast use lemma_definitions_below_monotone;

        match shape {
            Tree::Leaf(typ) => {
                let ghost before = self.builder@;
                let value = self.builder.add_parameter(typ.duplicate());
                let ghost added = self.builder@;
                if mutable {
                    let variable = self.new_mutable_variable(value)?;
                    proof {
                        lemma_continues_transitive(before, added, self.builder@);
                    }
                    Ok(Tree::Leaf(variable))
                } else {
                    Ok(Tree::Leaf(Value::Normal(value)))
                }
            },
            Tree::Branch(children) => {
                proof {
                    lemma_view_branch(*children);
                }
                let ghost shapes = view_trees(children@);
                let mut bound: Vec<Values> = Vec::new();
                let mut i: usize = 0;
                assert(shapes.take(0) =~= Seq::empty());
                assert(view_trees(bound@) =~= Seq::empty());
                while i < children.len()
                    invariant
                        i <= children.len(),
                        bound.len() == i,
                        shapes == view_trees(children@),
                        shape@ == TreeView::Branch(shapes),
                        old(self).wf(),
                        self.wf(),
                        self.definitions == old(self).definitions,
                        self.builder@.continues(old(self).builder@),
                        (self.builder@, view_trees(bound@)) == parameter_binding_all(
                            old(self).builder@,
                            shapes.take(i as int),
                            mutable,
                        ),
                        old(self).builder@.terminated() && mutable ==> TreeView::flatten_all(
                            shapes.take(i as int),
                        ).len() == 0,
                        forall|j: int|
                            0 <= j < i ==> (#[trigger] bound[j])@.below(
                                self.builder@.dfg().values.len(),
                            ),
                        decreases_to!(shape => children),
                    decreases children.len() - i,
                {
                    let ghost before = self.builder@;
                    let ghost bound_before = view_trees(bound@);
                    proof {
                        lemma_flatten_all_take(shapes, i as int);
                        lemma_flatten_all_covers(shapes, i as int);
                        assert(shapes.take(i + 1).drop_last() =~= shapes.take(i as int));
                    }
                    let child = self.bind_parameter(&children[i], mutable)?;
                    proof {
                        lemma_continues_transitive(old(self).builder@, before, self.builder@);
                        assert forall|j: int| 0 <= j < i implies (#[trigger] bound[j])@.below(
                            self.builder@.dfg().values.len(),
                        ) by {
                            lemma_below_monotone(
                                bound[j]@,
                                before.dfg().values.len(),
                                self.builder@.dfg().values.len(),
                            );
                        }
                    }
                    bound.push(child);
                    proof {
                        assert(view_trees(bound@) =~= bound_before.push(child@));
                    }
                    i += 1;
                }
                proof {
                    assert(shapes.take(i as int) =~= shapes);
                    lemma_view_branch(bound);
                }
                Ok(Tree::Branch(bound))
            },
        }
    }

    /// Adds a "single" parameter to the scope. A parameter of a tuple type
    /// becomes one function parameter for each of its scalars.
    pub fn add_parameter_to_scope(
        &mut self,
        parameter_id: LocalId,
        parameter_type: &ast::Type,
        mutable: bool,
    ) -> (result: Result<(), InternalError>)
        requires
            old(self).wf(),
        ensures
            final(self).wf(),
            final(self).builder@.continues(old(self).builder@),
            result is Err <==> old(self).builder@.terminated() && mutable && flatten_type(
                *parameter_type,
            ).count_leaves() > 0,
            match result {
                Ok(_) => {
                    &&& final(self).builder@ == parameter_binding(
                        old(self).builder@,
                        flatten_type(*parameter_type),
                        mutable,
                    ).0
                    &&& final(self).bindings() == old(self).bindings().insert(
                        parameter_id.0,
                        parameter_binding(
                            old(self).builder@,
                            flatten_type(*parameter_type),
                            mutable,
                        ).1,
                    )
                },
                Err(error) => {
                    &&& error == old(self).builder@.terminated_error()
                    &&& final(self).definitions == old(self).definitions
                },
            },
    {
        broadcast use vstd::std_specs::hash::group_hash_axioms;
        broadcast use lemma_definitions_below_monotone;

        let shape = Self::convert_type(parameter_type);
        let parameter_value = self.bind_parameter(&shape, mutable)?;
        self.definitions.insert(parameter_id.0, parameter_value);
        assert(final(self).bindings() =~= old(self).bindings().insert(
            parameter_id.0,
            parameter_value@,
        ));
        Ok(())
    }

    /// Adds each parameter to the current scope.
    pub fn add_parameters_to_scope(&mut self, parameters: &Vec<ast::Parameter>) -> (result: Result<
        (),
        InternalError,
    >)
        requires
            old(self).wf(),
        ensures
            final(self).wf(),
            final(self).builder@.continues(old(self).builder@),
            result is Err <==> old(self).builder@.terminated() && exists|i: int|
                0 <= i < parameters.len() && needs_slot(#[trigger] parameters[i]),
            match result {
                Ok(_) => {
                    &&& final(self).builder@ == parameters_binding(
                        old(self).builder@,
                        old(self).bindings(),
                        parameters@,
                    ).0
                    &&& final(self).bindings() == parameters_binding(
                        old(self).builder@,
                        old(self).bindings(),
                        parameters@,
                    ).1
                },
                Err(error) => error == old(self).builder@.terminated_error(),
            },
    {
        let mut i: usize = 0;
        assert(parameters@.take(0) =~= Seq::empty());
        while i < parameters.len()
            invariant
                i <= parameters.len(),
                old(self).wf(),
                self.wf(),
                self.builder@.continues(old(self).builder@),
                self.builder@ == parameters_binding(
                    old(self).builder@,
                    old(self).bindings(),
                    parameters@.take(i as int),
                ).0,
                self.bindings() == parameters_binding(
                    old(self).builder@,
                    old(self).bindings(),
                    parameters@.take(i as int),
                ).1,
                old(self).builder@.terminated() ==> forall|j: int|
                    0 <= j < i ==> !needs_slot(#[trigger] parameters[j]),
            decreases parameters.len() - i,
        {
            let ghost before = self.builder@;
            proof {
                assert(parameters@.take(i + 1).drop_last() =~= parameters@.take(i as int));
                assert(parameters@.take(i + 1).last() == parameters[i as int]);
            }
            let parameter = &parameters[i];
            self.add_parameter_to_scope(parameter.id, &parameter.typ, parameter.mutable)?;
            proof {
                lemma_continues_transitive(old(self).builder@, before, self.builder@);
            }
            i += 1;
        }
        assert(parameters@.take(i as int) =~= parameters@);
        Ok(())
    }

    /// Creates a context to translate the function that waits first in the
    /// shared queue, and binds its parameters. A function waits:
    /// `get_or_queue_function` has been called on the shared state for the
    /// function to translate.
    ///
    /// `function_name` and `parameters` are the name and the parameters of
    /// that function.
    pub fn new(
        function_name: String,
        parameters: &Vec<ast::Parameter>,
        runtime: RuntimeType,
        shared_context: &mut SharedContext,
    ) -> (result: Result<FunctionContext, InternalError>)
        requires
            old(shared_context)@.wf(),
            old(shared_context)@.queue.len() > 0,
        ensures
            final(shared_context)@ == old(shared_context)@.pop().0,
            final(shared_context)@.wf(),
            final(shared_context).program == old(shared_context).program,
            result is Ok,
            result->Ok_0.wf(),
            !result->Ok_0.builder@.terminated(),
            result->Ok_0.builder@ == parameters_binding(
                BuilderView::new(function_name@, old(shared_context)@.queue.last().1, runtime),
                Map::empty(),
                parameters@,
            ).0,
            result->Ok_0.bindings() == parameters_binding(
                BuilderView::new(function_name@, old(shared_context)@.queue.last().1, runtime),
                Map::empty(),
                parameters@,
            ).1,
    {
        let function_id = match shared_context.pop_next_function_in_queue() {
            Some(entry) => entry.1,
            None => unreached(),
        };
        let builder = FunctionBuilder::new(function_name, function_id, runtime);
        let mut this = FunctionContext { definitions: HashMap::new(), builder };
        assert(this.bindings() =~= Map::empty());
        match this.add_parameters_to_scope(parameters) {
            Ok(_) => Ok(this),
            Err(_) => unreached(),
        }
    }

    /// Finishes the current function and switches to a new one with the
    /// given identity, whose name, kind and parameters are those of `func`.
    /// The bindings of the finished function are dropped, and it cannot be
    /// resumed.
    pub fn new_function(&mut self, id: FunctionId, func: &ast::Function) -> (result: Result<
        (),
        InternalError,
    >)
        ensures
            result is Ok,
            final(self).wf(),
            !final(self).builder@.terminated(),
            final(self).builder@ == parameters_binding(
                old(self).builder@.new_function(func.name@, id, runtime_of(func.unconstrained)),
                Map::empty(),
                func.parameters@,
            ).0,
            final(self).bindings() == parameters_binding(
                old(self).builder@.new_function(func.name@, id, runtime_of(func.unconstrained)),
                Map::empty(),
                func.parameters@,
            ).1,
    {
        self.definitions.clear();
        if func.unconstrained {
            self.builder.new_brillig_function(func.name.clone(), id);
        } else {
            self.builder.new_function(func.name.clone(), id);
        }
        assert(self.bindings() =~= Map::empty());
        match self.add_parameters_to_scope(&func.parameters) {
            Ok(_) => Ok(()),
            Err(_) => unreached(),
        }
    }

    /// Retrieves the given function as a value of the current function,
    /// adding it to the queue of functions to translate if it is not known
    /// yet.
    pub fn get_or_queue_function(
        &mut self,
        shared_context: &mut SharedContext,
        id: FuncId,
    ) -> (function: Values)
        requires
            old(self).wf(),
            old(shared_context)@.wf(),
            old(shared_context)@.knows(id) || old(shared_context)@.counter < usize::MAX,
        ensures
            final(self).wf(),
            final(self).definitions == old(self).definitions,
            final(self).builder@.continues(old(self).builder@),
            final(shared_context)@ == old(shared_context)@.get_or_queue(id).0,
            final(shared_context)@.wf(),
            final(shared_context).program == old(shared_context).program,
            final(self).builder@ == old(self).builder@.import_function(
                old(shared_context)@.get_or_queue(id).1,
            ),
            function@ == ValuesView::Leaf(ValueView::Normal(old(self).builder@.next_value())),
            function@.below(final(self).builder@.dfg().values.len()),
    {
        broadcast use lemma_definitions_below_monotone;

        let function = shared_context.get_or_queue_function(id);
        Tree::Leaf(Value::Normal(self.builder.import_function(function)))
    }
}

} // verus!
