use vstd::prelude::*;
use vstd::arithmetic::div_mod::lemma_small_mod;
use vstd::arithmetic::power2::{lemma_pow2_pos, pow2};
use crate::ast::BinaryOpKind;
use crate::ir::builder::BuilderView;
use crate::ir::instruction::{InstructionView, Location};
use crate::ir::semantics::{binary_value, lemma_run_one, lemma_run_push, Data, Machine, truth};
use crate::ir::types::{NumericType, TypeView};
use crate::ir::value::ValueId;
use crate::ast;
use crate::context::{
    binary_widths_fit, scalar_binary_lowering, truncation, unflatten, unflatten_all,
};
use crate::flatten::{flatten_type, lemma_with_leaves_branch};
use crate::operators::{
    base_operator, comparison, lemma_lowered_comparison, lemma_max_bit_size_is_enough,
    max_bit_size, requires_not, requires_swapped_operands, wide_result,
};
use crate::value::{TreeView, ValueView, ValuesView};

verus! {

/// The instructions that `later` has in its current block beyond those that
/// `earlier` has there.
pub open spec fn emitted(earlier: BuilderView, later: BuilderView) -> Seq<InstructionView> {
    later.current_instructions().skip(earlier.current_instructions().len() as int)
}

/// The lowering of a comparison is the base instruction on the operands,
/// exchanged if the operator asks for it, followed by a negation if the
/// operator asks for it, and nothing else.
pub proof fn lemma_comparison_instructions(
    builder: BuilderView,
    lhs: ValueId,
    op: BinaryOpKind,
    rhs: ValueId,
    location: Location,
)
    requires
        builder.wf(),
        builder.has_value(lhs),
        builder.has_value(rhs),
        base_operator(op) is Eq || base_operator(op) is Lt,
    ensures
        ({
            let (after, result) = scalar_binary_lowering(builder, lhs, op, rhs, location);
            let base = builder.next_value();
            let (first, second) = if requires_swapped_operands(op) {
                (rhs, lhs)
            } else {
                (lhs, rhs)
            };
            let compare = InstructionView::Binary {
                lhs: first,
                operator: base_operator(op),
                rhs: second,
                result: base,
            };
            if requires_not(op) {
                &&& emitted(builder, after) == seq![
                    compare,
                    InstructionView::Not { value: base, result },
                ]
                &&& result == ValueId((base.0 + 1) as usize)
            } else {
                &&& emitted(builder, after) == seq![compare]
                &&& result == base
            }
        }),
{
    let (after, result) = scalar_binary_lowering(builder, lhs, op, rhs, location);
    let base = builder.next_value();
    let (first, second) = if requires_swapped_operands(op) {
        (rhs, lhs)
    } else {
        (lhs, rhs)
    };
    let compared = builder.set_location(location).insert_binary(first, base_operator(op), second);
    assert(truncation(compared, base, op, first, second) is None);
    let compare = InstructionView::Binary {
        lhs: first,
        operator: base_operator(op),
        rhs: second,
        result: base,
    };
    assert(compared.current_instructions() == builder.current_instructions().push(compare));
    if requires_not(op) {
        assert(after == compared.insert_not(base));
        assert(after.current_instructions() == compared.current_instructions().push(
            InstructionView::Not { value: base, result },
        ));
        assert(emitted(builder, after) =~= seq![
            compare,
            InstructionView::Not { value: base, result },
        ]);
    } else {
        assert(emitted(builder, after) =~= seq![compare]);
    }
}

/// A comparison is lowered faithfully: whatever numbers the two operands
/// are, running the instructions that the lowering inserts leaves in the
/// result the truth value of the comparison. This holds of `>`, `>=`, `<=`
/// and `!=`, which have no instruction of their own, as of `<` and `==`.
pub proof fn lemma_comparison_is_faithful(
    builder: BuilderView,
    lhs: ValueId,
    op: BinaryOpKind,
    rhs: ValueId,
    location: Location,
    modulus: nat,
    machine: Machine,
    left: nat,
    right: nat,
)
    requires
        builder.wf(),
        builder.has_value(lhs),
        builder.has_value(rhs),
        base_operator(op) is Eq || base_operator(op) is Lt,
        scalar_binary_lowering(builder, lhs, op, rhs, location).0.wf(),
        machine.operand(builder.dfg(), lhs) == Data::Number(left),
        machine.operand(builder.dfg(), rhs) == Data::Number(right),
    ensures
        ({
            let (after, result) = scalar_binary_lowering(builder, lhs, op, rhs, location);
            machine.run(modulus, after.dfg(), emitted(builder, after)).operand(after.dfg(), result)
                == Data::Number(truth(comparison(op, left as int, right as int)))
        }),
{
    let (after, result) = scalar_binary_lowering(builder, lhs, op, rhs, location);
    let base = builder.next_value();
    let (first, second) = if requires_swapped_operands(op) {
        (rhs, lhs)
    } else {
        (lhs, rhs)
    };
    let compare = InstructionView::Binary {
        lhs: first,
        operator: base_operator(op),
        rhs: second,
        result: base,
    };
    lemma_comparison_instructions(builder, lhs, op, rhs, location);
    lemma_lowered_comparison(op, left as int, right as int);
    lemma_run_one(machine, modulus, after.dfg(), compare);
    assert(machine.operand(after.dfg(), lhs) == machine.operand(builder.dfg(), lhs));
    assert(machine.operand(after.dfg(), rhs) == machine.operand(builder.dfg(), rhs));
    assert(after.dfg().get_numeric_constant(base) is None);
    if requires_not(op) {
        let negate = InstructionView::Not { value: base, result };
        assert(seq![compare, negate] =~= seq![compare].push(negate));
        lemma_run_push(machine, modulus, after.dfg(), seq![compare], negate);
        assert(after.dfg().get_numeric_constant(result) is None);
    }
}

/// An operation on unsigned integers is truncated where it has to be: the
/// lowering of an addition, of a multiplication, or of a subtraction that
/// stays above zero, on operands that fit their declared widths, leaves in
/// the result the exact sum, product or difference modulo two to the
/// declared width of the left operand. The field is large enough for the
/// bits that the operation may occupy.
pub proof fn lemma_arithmetic_is_truncated(
    builder: BuilderView,
    lhs: ValueId,
    op: BinaryOpKind,
    rhs: ValueId,
    location: Location,
    modulus: nat,
    machine: Machine,
    left: nat,
    right: nat,
)
    requires
        builder.wf(),
        builder.has_value(lhs),
        builder.has_value(rhs),
        scalar_binary_lowering(builder, lhs, op, rhs, location).0.wf(),
        machine.operand(builder.dfg(), lhs) == Data::Number(left),
        machine.operand(builder.dfg(), rhs) == Data::Number(right),
        op is Add || op is Multiply || (op is Subtract && left >= right),
        builder.type_of_value(lhs) matches TypeView::Numeric(
            NumericType::Unsigned { bit_size: lhs_bits },
        ) && left < pow2(lhs_bits as nat),
        builder.type_of_value(rhs) matches TypeView::Numeric(
            NumericType::Unsigned { bit_size: rhs_bits },
        ) && right < pow2(rhs_bits as nat),
        binary_widths_fit(builder, lhs, op, rhs),
        pow2(
            max_bit_size(
                op,
                builder.type_of_value(lhs).bit_size()->Some_0,
                builder.type_of_value(rhs).bit_size()->Some_0,
                None,
            )->Some_0 as nat,
        ) <= modulus,
    ensures
        ({
            let (after, result) = scalar_binary_lowering(builder, lhs, op, rhs, location);
            let bits = builder.type_of_value(lhs).bit_size()->Some_0;
            machine.run(modulus, after.dfg(), emitted(builder, after)).operand(after.dfg(), result)
                == Data::Number(wide_result(op, left, right, 0) % pow2(bits as nat))
        }),
{
    let (after, result) = scalar_binary_lowering(builder, lhs, op, rhs, location);
    let lhs_bits = builder.type_of_value(lhs).bit_size()->Some_0;
    let rhs_bits = builder.type_of_value(rhs).bit_size()->Some_0;
    let base = builder.next_value();
    let computed = builder.set_location(location).insert_binary(lhs, base_operator(op), rhs);
    let compute = InstructionView::Binary {
        lhs,
        operator: base_operator(op),
        rhs,
        result: base,
    };
    let wide = wide_result(op, left, right, 0);
    let bound = max_bit_size(op, lhs_bits, rhs_bits, None)->Some_0;
    lemma_max_bit_size_is_enough(op, left, right, lhs_bits, rhs_bits, 0);
    assert(max_bit_size(op, lhs_bits, rhs_bits, Some(0u128)) == max_bit_size(
        op,
        lhs_bits,
        rhs_bits,
        None,
    ));
    assert(wide < modulus);
    lemma_small_mod(wide, modulus);
    if op is Subtract {
        assert((left + modulus - right) % (modulus as int) == wide) by {
            vstd::arithmetic::div_mod::lemma_mod_add_multiples_vanish(
                wide as int,
                modulus as int,
            );
        }
    }
    assert(binary_value(modulus, base_operator(op), left, right) == Some(wide));
    assert(computed.current_instructions() == builder.current_instructions().push(compute));
    assert(computed.type_of_value(base) == builder.type_of_value(lhs));
    assert(computed.type_of_value(lhs) == builder.type_of_value(lhs));
    assert(computed.type_of_value(rhs) == builder.type_of_value(rhs));
    assert(machine.operand(after.dfg(), lhs) == machine.operand(builder.dfg(), lhs));
    assert(machine.operand(after.dfg(), rhs) == machine.operand(builder.dfg(), rhs));
    assert(after.dfg().get_numeric_constant(base) is None);
    assert(after.dfg().get_numeric_constant(result) is None);
    lemma_run_one(machine, modulus, after.dfg(), compute);
    lemma_pow2_pos(lhs_bits as nat);
    match truncation(computed, base, op, lhs, rhs) {
        Some((bit_size, max_bits)) => {
            let reduce = InstructionView::Truncate {
                value: base,
                bit_size,
                max_bit_size: max_bits,
                result,
            };
            assert(after == computed.insert_truncate(base, bit_size, max_bits));
            assert(after.current_instructions() == computed.current_instructions().push(reduce));
            assert(emitted(builder, after) =~= seq![compute].push(reduce));
            lemma_run_push(machine, modulus, after.dfg(), seq![compute], reduce);
        },
        None => {
            assert(emitted(builder, after) =~= seq![compute]);
            assert(bound <= lhs_bits);
            if bound < lhs_bits {
                vstd::arithmetic::power2::lemma_pow2_strictly_increases(
                    bound as nat,
                    lhs_bits as nat,
                );
            }
            lemma_small_mod(wide, pow2(lhs_bits as nat));
        },
    }
}

/// Defining a variable and looking it up gives back exactly what was
/// stored, and the bindings of all other variables stay as they were.
pub proof fn lemma_define_then_lookup(
    bindings: Map<u32, ValuesView>,
    id: u32,
    value: ValuesView,
    other: u32,
)
    ensures
        bindings.insert(id, value).contains_key(id),
        bindings.insert(id, value)[id] == value,
        other != id ==> bindings.insert(id, value).contains_key(other) == bindings.contains_key(
            other,
        ),
        other != id && bindings.contains_key(other) ==> bindings.insert(id, value)[other]
            == bindings[other],
{
}

/// The scalars of different elements of an array never share a place: with
/// `size` scalars to the element, the place of scalar `field` of element
/// `index` is `index * size + field`, and two such places are the same only
/// for the same element and the same scalar. So writing one element leaves
/// every other element as it was.
pub proof fn lemma_elements_do_not_overlap(
    size: nat,
    index: nat,
    field: nat,
    other_index: nat,
    other_field: nat,
)
    requires
        field < size,
        other_field < size,
        index * size + field == other_index * size + other_field,
    ensures
        index == other_index,
        field == other_field,
{
    if index < other_index {
        assert(other_index * size >= (index + 1) * size) by (nonlinear_arith)
            requires
                index < other_index,
        ;
        assert((index + 1) * size == index * size + size) by (nonlinear_arith);
    } else if other_index < index {
        assert(index * size >= (other_index + 1) * size) by (nonlinear_arith)
            requires
                other_index < index,
        ;
        assert((other_index + 1) * size == other_index * size + size) by (nonlinear_arith);
    }
}

/// The scalars of element `index` of an array that keeps `size` scalars for
/// each element, one element after the other.
pub open spec fn element_read<D>(array: Seq<D>, size: nat, index: nat) -> Seq<D> {
    array.subrange((index * size) as int, (index * size + size) as int)
}

/// The array after the scalars of element `index` have been set to
/// `element`, one after the other from place `index * size` on.
pub open spec fn element_written<D>(array: Seq<D>, size: nat, index: nat, element: Seq<D>) -> Seq<
    D,
> {
    Seq::new(
        array.len(),
        |place: int|
            if index * size <= place < index * size + size {
                element[place - index * size]
            } else {
                array[place]
            },
    )
}

/// Writing an element and reading it gives back what was written, and every
/// other element reads as before.
pub proof fn lemma_element_round_trip<D>(
    array: Seq<D>,
    size: nat,
    index: nat,
    element: Seq<D>,
    other: nat,
)
    requires
        element.len() == size,
        index * size + size <= array.len(),
        other * size + size <= array.len(),
    ensures
        element_read(element_written(array, size, index, element), size, index) == element,
        other != index ==> element_read(element_written(array, size, index, element), size, other)
            == element_read(array, size, other),
{
    let written = element_written(array, size, index, element);
    assert(element_read(written, size, index) =~= element);
    if other != index {
        let left = element_read(written, size, other);
        let right = element_read(array, size, other);
        assert forall|k: int| 0 <= k < size implies #[trigger] left[k] == right[k] by {
            let place = other * size + k;
            if index * size <= place < index * size + size {
                lemma_elements_do_not_overlap(
                    size,
                    index,
                    (place - index * size) as nat,
                    other,
                    k as nat,
                );
            }
        }
        assert(element_read(written, size, other) =~= element_read(array, size, other));
    }
}

/// The values from position `start` on, as many as `count`, each as the
/// binding of itself.
pub open spec fn bound_results(results: Seq<ValueId>, start: int, count: nat) -> Seq<ValueView> {
    Seq::new(count, |i: int| ValueView::Normal(results[start + i]))
}

/// Putting the results of a call back into shape uses every result once and
/// in order: the leaves of the tree, from left to right, are the results
/// from the starting position on, as many as the shape has leaves.
pub proof fn lemma_unflatten_uses_each_result_once<V>(
    shape: TreeView<V>,
    results: Seq<ValueId>,
    start: int,
)
    ensures
        unflatten(shape, results, start).flatten() == bound_results(
            results,
            start,
            shape.count_leaves(),
        ),
    decreases shape,
{
    match shape {
        TreeView::Leaf(_) => {
            assert(unflatten(shape, results, start).flatten() =~= bound_results(
                results,
                start,
                1,
            ));
        },
        TreeView::Branch(children) => {
            lemma_unflatten_all_uses_each_result_once(children, results, start);
        },
    }
}

/// [`lemma_unflatten_uses_each_result_once`] for a list of shapes.
pub proof fn lemma_unflatten_all_uses_each_result_once<V>(
    shapes: Seq<TreeView<V>>,
    results: Seq<ValueId>,
    start: int,
)
    ensures
        unflatten_all(shapes, results, start).len() == shapes.len(),
        TreeView::flatten_all(unflatten_all(shapes, results, start)) == bound_results(
            results,
            start,
            TreeView::flatten_all(shapes).len(),
        ),
    decreases shapes,
{
    if shapes.len() > 0 {
        let firsts = shapes.drop_last();
        let used = TreeView::flatten_all(firsts).len();
        lemma_unflatten_all_uses_each_result_once(firsts, results, start);
        lemma_unflatten_uses_each_result_once(shapes.last(), results, start + used);
        let reshaped = unflatten_all(shapes, results, start);
        assert(reshaped.drop_last() =~= unflatten_all(firsts, results, start));
        assert(reshaped.last() == unflatten(shapes.last(), results, start + used));
        assert(TreeView::flatten_all(reshaped) =~= bound_results(
            results,
            start,
            TreeView::flatten_all(shapes).len(),
        ));
    } else {
        assert(TreeView::flatten_all(unflatten_all(shapes, results, start)) =~= bound_results(
            results,
            start,
            0,
        ));
    }
}

/// Relabelling keeps the number of leaves and makes every leaf the label.
pub proof fn lemma_with_leaves_flatten<V, W>(tree: TreeView<V>, leaf: W)
    ensures
        tree.with_leaves(leaf).flatten() == Seq::new(tree.count_leaves(), |i: int| leaf),
    decreases tree,
{
    match tree {
        TreeView::Leaf(_) => {
            assert(tree.with_leaves(leaf).flatten() =~= Seq::new(1, |i: int| leaf));
        },
        TreeView::Branch(children) => {
            lemma_with_leaves_branch(children, leaf);
            let relabelled = Seq::new(children.len(), |i: int| children[i].with_leaves(leaf));
            lemma_with_leaves_flatten_all(children, leaf, children.len() as int);
            assert(relabelled.take(children.len() as int) =~= relabelled);
            assert(children.take(children.len() as int) =~= children);
        },
    }
}

/// [`lemma_with_leaves_flatten`] for the first `count` trees of a list.
pub proof fn lemma_with_leaves_flatten_all<V, W>(trees: Seq<TreeView<V>>, leaf: W, count: int)
    requires
        0 <= count <= trees.len(),
    ensures
        TreeView::flatten_all(
            Seq::new(trees.len(), |i: int| trees[i].with_leaves(leaf)).take(count),
        ) == Seq::new(TreeView::flatten_all(trees.take(count)).len(), |i: int| leaf),
    decreases trees, count,
{
    let relabelled = Seq::new(trees.len(), |i: int| trees[i].with_leaves(leaf));
    if count == 0 {
        assert(relabelled.take(0) =~= Seq::empty());
        assert(trees.take(0) =~= Seq::empty());
        assert(TreeView::flatten_all(relabelled.take(0)) =~= Seq::new(0, |i: int| leaf));
    } else {
        lemma_with_leaves_flatten_all(trees, leaf, count - 1);
        lemma_with_leaves_flatten(trees[count - 1], leaf);
        crate::value::lemma_flatten_all_take(relabelled, count - 1);
        crate::value::lemma_flatten_all_take(trees, count - 1);
        assert(TreeView::flatten_all(relabelled.take(count)) =~= Seq::new(
            TreeView::flatten_all(trees.take(count)).len(),
            |i: int| leaf,
        ));
    }
}

/// A mutable reference to a composite is one reference for each scalar of
/// the composite, never a single reference to the whole.
pub proof fn lemma_reference_for_each_scalar(element: ast::Type)
    ensures
        flatten_type(ast::Type::MutableReference(Box::new(element))).flatten() == Seq::new(
            flatten_type(element).count_leaves(),
            |i: int| TypeView::Reference,
        ),
{
    lemma_with_leaves_flatten(flatten_type(element), TypeView::Reference);
}

} // verus!
