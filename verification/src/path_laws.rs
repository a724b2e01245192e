use vstd::prelude::*;
use crate::ir::builder::BuilderView;
use crate::ir::dfg::DfgView;
use crate::ir::semantics::{Data, Machine};

use crate::laws::{element_read, element_written, lemma_element_round_trip};
use crate::ir::semantics::lemma_run_concat;
use crate::laws::emitted;
use crate::lvalue::{assignable, element_assignment, element_count, LValueView, reassignment};
use crate::lvalue_laws::{
    assignment_flat, extends, keeps, keeps_values, leaf_data, lemma_assignment_flat,
    lemma_assignment_is_flat, lemma_element_assignment, lemma_emitted_in_stages, lemma_leaf_kept,
    lemma_tree_kept, readable, storable, target_slot, tree_data, tree_readable,
    written_from,
};
use crate::value::{lemma_flatten_all_take, TreeView, ValueView, ValuesView};

verus! {

/// The place, among the leaves of a branch, where the leaves of its child
/// at `index` start.
pub open spec fn field_start<V>(tree: TreeView<V>, index: int) -> nat {
    TreeView::flatten_all(tree->Branch_0.take(index)).len()
}

/// The number of leaves of the child at `index` of a branch.
pub open spec fn field_size<V>(tree: TreeView<V>, index: int) -> nat {
    tree->Branch_0[index].count_leaves()
}

/// The leaves of the first `count` trees of a list are the first leaves of
/// the list.
pub proof fn lemma_flatten_all_prefix_of<V>(trees: Seq<TreeView<V>>, count: int)
    requires
        0 <= count <= trees.len(),
    ensures
        TreeView::flatten_all(trees.take(count)).is_prefix_of(TreeView::flatten_all(trees)),
    decreases trees.len() - count,
{
    if count < trees.len() {
        lemma_flatten_all_take(trees, count);
        lemma_flatten_all_prefix_of(trees, count + 1);
    } else {
        assert(trees.take(count) =~= trees);
    }
}

/// The leaves of a child of a branch lie among the leaves of the branch,
/// from the place where the child starts on.
pub proof fn lemma_field_leaves<V>(tree: TreeView<V>, index: int)
    requires
        tree.has_field(index),
    ensures
        field_start(tree, index) + field_size(tree, index) <= tree.count_leaves(),
        tree.flatten().subrange(
            field_start(tree, index) as int,
            (field_start(tree, index) + field_size(tree, index)) as int,
        ) == tree.field(index).flatten(),
{
    let children = tree->Branch_0;
    lemma_flatten_all_take(children, index);
    lemma_flatten_all_prefix_of(children, index + 1);
    let start = field_start(tree, index) as int;
    let first = TreeView::flatten_all(children.take(index + 1));
    assert(first.len() == start + field_size(tree, index));
    assert forall|k: int| 0 <= k < field_size(tree, index) implies tree.flatten()[start + k]
        == #[trigger] tree.field(index).flatten()[k] by {
        assert(tree.flatten()[start + k] == first[start + k]);
    }
    assert(tree.flatten().subrange(
        field_start(tree, index) as int,
        (field_start(tree, index) + field_size(tree, index)) as int,
    ) =~= tree.field(index).flatten());
}

/// The leaves of a branch with a child replaced by one of as many leaves
/// are the leaves of the branch with those of the new child written over
/// those of the old.
pub proof fn lemma_with_field_leaves(tree: ValuesView, index: int, child: ValuesView)
    requires
        tree.has_field(index),
        child.count_leaves() == field_size(tree, index),
    ensures
        tree.with_field(index, child).count_leaves() == tree.count_leaves(),
        tree.with_field(index, child).flatten() == Seq::new(
            tree.count_leaves(),
            |place: int|
                if field_start(tree, index) <= place < field_start(tree, index)
                    + child.count_leaves() {
                    child.flatten()[place - field_start(tree, index)]
                } else {
                    tree.flatten()[place]
                },
        ),
{
    lemma_update_leaves(tree->Branch_0, index, child);
}

/// [`lemma_with_field_leaves`] on the list of children.
pub proof fn lemma_update_leaves(children: Seq<ValuesView>, index: int, child: ValuesView)
    requires
        0 <= index < children.len(),
        child.count_leaves() == children[index].count_leaves(),
    ensures
        TreeView::flatten_all(children.update(index, child)).len() == TreeView::flatten_all(
            children,
        ).len(),
        TreeView::flatten_all(children.update(index, child)) == Seq::new(
            TreeView::flatten_all(children).len(),
            |place: int|
                if TreeView::flatten_all(children.take(index)).len() <= place
                    < TreeView::flatten_all(children.take(index)).len() + child.count_leaves() {
                    child.flatten()[place - TreeView::flatten_all(children.take(index)).len()]
                } else {
                    TreeView::flatten_all(children)[place]
                },
        ),
    decreases children.len(),
{
    let updated = children.update(index, child);
    let start = TreeView::flatten_all(children.take(index)).len();
    let expected = Seq::new(
        TreeView::flatten_all(children).len(),
        |place: int|
            if start <= place < start + child.count_leaves() {
                child.flatten()[place - start]
            } else {
                TreeView::flatten_all(children)[place]
            },
    );
    if index == children.len() - 1 {
        assert(updated.drop_last() =~= children.drop_last());
        assert(children.take(index) =~= children.drop_last());
        assert(TreeView::flatten_all(updated) =~= expected);
    } else {
        let firsts = children.drop_last();
        lemma_update_leaves(firsts, index, child);
        assert(updated.drop_last() =~= firsts.update(index, child));
        assert(firsts.take(index) =~= children.take(index));
        lemma_flatten_all_prefix_of(firsts, index + 1);
        lemma_flatten_all_take(firsts, index);
        assert(TreeView::flatten_all(updated) =~= expected);
    }
}

/// The bindings of the variable that a path starts from.
pub open spec fn root(path: LValueView) -> ValuesView
    decreases path,
{
    match path {
        LValueView::Ident(values) => values,
        LValueView::Index { old_array, index, array_lvalue } => root(*array_lvalue),
        LValueView::MemberAccess { old_object, index, object_lvalue } => root(*object_lvalue),
        LValueView::Dereference { reference } => reference,
    }
}

/// The number of scalars of the target of a path.
pub open spec fn width(builder: BuilderView, path: LValueView) -> nat {
    match path {
        LValueView::Ident(values) => values.count_leaves(),
        LValueView::Index { old_array, index, array_lvalue } => element_count(
            builder.type_of_value(old_array),
        ),
        LValueView::MemberAccess { old_object, index, object_lvalue } => field_size(
            old_object,
            index as int,
        ),
        LValueView::Dereference { reference } => reference.count_leaves(),
    }
}

/// The bindings that a path has recorded for its target, where the target
/// is the variable or a field of it: nothing for an element of an array,
/// which is read into new values.
pub open spec fn recorded(path: LValueView) -> Seq<ValueView> {
    match path {
        LValueView::Ident(values) => values.flatten(),
        LValueView::MemberAccess { old_object, index, object_lvalue } => old_object.field(
            index as int,
        ).flatten(),
        _ => Seq::empty(),
    }
}

/// Whether every leaf of `value` is a plain value older than the value with
/// the number `count`, or the very binding that the path has recorded at
/// its place.
pub open spec fn aligned(value: ValuesView, path: LValueView, count: nat) -> bool {
    forall|k: int|
        0 <= k < value.count_leaves() ==> {
            ||| (#[trigger] value.flatten()[k]) is Normal && value.flatten()[k].below(count)
            ||| k < recorded(path).len() && value.flatten()[k] == recorded(path)[k]
        }
}

/// What the variable at the root of a path holds once `new` has been
/// written to the target of the path: an element takes its place in the
/// recorded array, a field takes its place among the scalars of the
/// recorded tuple, and so on outwards.
pub open spec fn root_written(
    machine: Machine,
    dfg: DfgView,
    builder: BuilderView,
    path: LValueView,
    new: Seq<Data>,
) -> Seq<Data>
    decreases path,
{
    match path {
        LValueView::Ident(values) => new,
        LValueView::Index { old_array, index, array_lvalue } => root_written(
            machine,
            dfg,
            builder,
            *array_lvalue,
            seq![
                Data::Array(
                    element_written(
                        machine.operand(dfg, old_array)->Array_0,
                        width(builder, path),
                        machine.operand(dfg, index)->Number_0,
                        new,
                    ),
                ),
            ],
        ),
        LValueView::MemberAccess { old_object, index, object_lvalue } => root_written(
            machine,
            dfg,
            builder,
            *object_lvalue,
            written_from(
                tree_data(machine, dfg, old_object),
                field_start(old_object, index as int),
                new,
            ),
        ),
        LValueView::Dereference { reference } => new,
    }
}

/// What the target of a path holds when the variable at the root of the
/// path holds `held`: the path is followed inwards through the fields and
/// elements that it has recorded.
pub open spec fn select(
    machine: Machine,
    dfg: DfgView,
    builder: BuilderView,
    path: LValueView,
    held: Seq<Data>,
) -> Seq<Data>
    decreases path,
{
    match path {
        LValueView::Ident(values) => held,
        LValueView::Index { old_array, index, array_lvalue } => element_read(
            select(machine, dfg, builder, *array_lvalue, held)[0]->Array_0,
            width(builder, path),
            machine.operand(dfg, index)->Number_0,
        ),
        LValueView::MemberAccess { old_object, index, object_lvalue } => select(
            machine,
            dfg,
            builder,
            *object_lvalue,
            held,
        ).subrange(
            field_start(old_object, index as int) as int,
            (field_start(old_object, index as int) + field_size(old_object, index as int)) as int,
        ),
        LValueView::Dereference { reference } => held,
    }
}

/// Whether the root of a path is a variable that lives in slots: every
/// binding is a slot that exists, and no two bindings share a slot.
pub open spec fn root_ok(machine: Machine, dfg: DfgView, values: ValuesView, count: nat) -> bool {
    &&& forall|k: int|
        0 <= k < values.count_leaves() ==> {
            &&& (#[trigger] values.flatten()[k]) is Mutable
            &&& values.flatten()[k].below(count)
            &&& machine.operand(dfg, values.flatten()[k].eval_reference()) is Reference
            &&& machine.operand(dfg, values.flatten()[k].eval_reference())->Reference_0
                < machine.memory.len()
        }
    &&& forall|j: int, k: int|
        0 <= j < k < values.count_leaves() ==> machine.operand(
            dfg,
            (#[trigger] values.flatten()[j]).eval_reference(),
        ) != machine.operand(dfg, (#[trigger] values.flatten()[k]).eval_reference())
}

/// Whether a path can be assigned along in a state of the machine: its root
/// is a variable that lives in slots of its own; what it has recorded of a
/// tuple can be read and is plain or the recorded binding of the step
/// before; what it has recorded of an array is an array that holds the
/// element at the recorded index; and no step goes through a reference.
pub open spec fn path_ok(
    machine: Machine,
    dfg: DfgView,
    builder: BuilderView,
    path: LValueView,
    modulus: nat,
) -> bool
    decreases path,
{
    match path {
        LValueView::Ident(values) => root_ok(machine, dfg, values, builder.dfg().values.len()),
        LValueView::Index { old_array, index, array_lvalue } => {
            &&& path_ok(machine, dfg, builder, *array_lvalue, modulus)
            &&& builder.has_value(old_array)
            &&& builder.has_value(index)
            &&& machine.operand(dfg, old_array) is Array
            &&& machine.operand(dfg, index) is Number
            &&& machine.operand(dfg, index)->Number_0 * width(builder, path) + width(
                builder,
                path,
            ) <= machine.operand(dfg, old_array)->Array_0.len()
            &&& machine.operand(dfg, old_array)->Array_0.len() < modulus
            &&& width(builder, path) <= u128::MAX
            &&& width(builder, *array_lvalue) == 1
        },
        LValueView::MemberAccess { old_object, index, object_lvalue } => {
            &&& path_ok(machine, dfg, builder, *object_lvalue, modulus)
            &&& old_object.has_field(index as int)
            &&& old_object.count_leaves() == width(builder, *object_lvalue)
            &&& tree_readable(machine, dfg, old_object, builder.dfg().values.len())
            &&& aligned(old_object, *object_lvalue, builder.dfg().values.len())
        },
        LValueView::Dereference { reference } => false,
    }
}

/// Writing to the target of a path and then following the path inwards
/// gives back what was written.
pub proof fn lemma_select_written(
    machine: Machine,
    dfg: DfgView,
    builder: BuilderView,
    path: LValueView,
    modulus: nat,
    new: Seq<Data>,
)
    requires
        path_ok(machine, dfg, builder, path, modulus),
        new.len() == width(builder, path),
    ensures
        root_written(machine, dfg, builder, path, new).len() == root(path).count_leaves(),
        select(machine, dfg, builder, path, root_written(machine, dfg, builder, path, new))
            == new,
    decreases path,
{
    match path {
        LValueView::Ident(values) => {},
        LValueView::Index { old_array, index, array_lvalue } => {
            let elements = machine.operand(dfg, old_array)->Array_0;
            let place = machine.operand(dfg, index)->Number_0;
            let written = seq![
                Data::Array(element_written(elements, width(builder, path), place, new)),
            ];
            lemma_select_written(machine, dfg, builder, *array_lvalue, modulus, written);
            lemma_element_round_trip(elements, width(builder, path), place, new, place);
        },
        LValueView::MemberAccess { old_object, index, object_lvalue } => {
            let start = field_start(old_object, index as int);
            let written = written_from(tree_data(machine, dfg, old_object), start, new);
            lemma_field_leaves(old_object, index as int);
            lemma_select_written(machine, dfg, builder, *object_lvalue, modulus, written);
            assert(written.subrange(start as int, (start + new.len()) as int) =~= new);
        },
        LValueView::Dereference { reference } => {},
    }
}

/// A path that can be assigned along can still be assigned along after a
/// run that has kept the memory and the older values, in a builder that has
/// gone on; and it writes and selects as before.
pub proof fn lemma_path_kept(
    earlier: Machine,
    later: Machine,
    dfg: DfgView,
    builder: BuilderView,
    extended: BuilderView,
    path: LValueView,
    modulus: nat,
)
    requires
        path_ok(earlier, dfg, builder, path, modulus),
        keeps(later, earlier, builder.dfg().values.len()),
        extends(extended, builder),
    ensures
        path_ok(later, dfg, extended, path, modulus),
        width(extended, path) == width(builder, path),
        forall|new: Seq<Data>|
            #[trigger] root_written(later, dfg, extended, path, new) == root_written(
                earlier,
                dfg,
                builder,
                path,
                new,
            ),
        forall|held: Seq<Data>|
            #[trigger] select(later, dfg, extended, path, held) == select(
                earlier,
                dfg,
                builder,
                path,
                held,
            ),
        tree_data(later, dfg, root(path)) == tree_data(earlier, dfg, root(path)),
    decreases path,
{
    let count = builder.dfg().values.len();
    let more = extended.dfg().values.len();
    match path {
        LValueView::Ident(values) => {
            assert forall|k: int| 0 <= k < values.count_leaves() implies leaf_data(
                later,
                dfg,
                #[trigger] values.flatten()[k],
            ) == leaf_data(earlier, dfg, values.flatten()[k]) by {
                lemma_leaf_kept(earlier, later, dfg, values.flatten()[k], count);
            }
            assert(tree_data(later, dfg, values) =~= tree_data(earlier, dfg, values));
        },
        LValueView::Index { old_array, index, array_lvalue } => {
            lemma_path_kept(earlier, later, dfg, builder, extended, *array_lvalue, modulus);
            assert(extended.dfg().values[old_array.0 as int]
                == builder.dfg().values[old_array.0 as int]);
            assert(width(extended, path) == width(builder, path));
            assert(later.operand(dfg, old_array) == earlier.operand(dfg, old_array));
            assert(later.operand(dfg, index) == earlier.operand(dfg, index));
            assert forall|new: Seq<Data>|
                #[trigger] root_written(later, dfg, extended, path, new) == root_written(
                    earlier,
                    dfg,
                    builder,
                    path,
                    new,
                ) by {
                let written = seq![
                    Data::Array(
                        element_written(
                            earlier.operand(dfg, old_array)->Array_0,
                            width(builder, path),
                            earlier.operand(dfg, index)->Number_0,
                            new,
                        ),
                    ),
                ];
                assert(root_written(later, dfg, extended, *array_lvalue, written)
                    == root_written(earlier, dfg, builder, *array_lvalue, written));
            }
            assert forall|held: Seq<Data>|
                #[trigger] select(later, dfg, extended, path, held) == select(
                    earlier,
                    dfg,
                    builder,
                    path,
                    held,
                ) by {
                assert(select(later, dfg, extended, *array_lvalue, held) == select(
                    earlier,
                    dfg,
                    builder,
                    *array_lvalue,
                    held,
                ));
            }
        },
        LValueView::MemberAccess { old_object, index, object_lvalue } => {
            lemma_path_kept(earlier, later, dfg, builder, extended, *object_lvalue, modulus);
            lemma_tree_kept(earlier, later, dfg, old_object, count, more);
            assert forall|new: Seq<Data>|
                #[trigger] root_written(later, dfg, extended, path, new) == root_written(
                    earlier,
                    dfg,
                    builder,
                    path,
                    new,
                ) by {
                let written = written_from(
                    tree_data(earlier, dfg, old_object),
                    field_start(old_object, index as int),
                    new,
                );
                assert(root_written(later, dfg, extended, *object_lvalue, written)
                    == root_written(earlier, dfg, builder, *object_lvalue, written));
            }
            assert forall|held: Seq<Data>|
                #[trigger] select(later, dfg, extended, path, held) == select(
                    earlier,
                    dfg,
                    builder,
                    path,
                    held,
                ) by {
                assert(select(later, dfg, extended, *object_lvalue, held) == select(
                    earlier,
                    dfg,
                    builder,
                    *object_lvalue,
                    held,
                ));
            }
        },
        LValueView::Dereference { reference } => {},
    }
}

/// The variable at the root of a path that can be assigned along lives in
/// slots of its own.
pub proof fn lemma_root_ok(
    machine: Machine,
    dfg: DfgView,
    builder: BuilderView,
    path: LValueView,
    modulus: nat,
)
    requires
        path_ok(machine, dfg, builder, path, modulus),
    ensures
        root_ok(machine, dfg, root(path), builder.dfg().values.len()),
    decreases path,
{
    match path {
        LValueView::Index { old_array, index, array_lvalue } => {
            lemma_root_ok(machine, dfg, builder, *array_lvalue, modulus);
        },
        LValueView::MemberAccess { old_object, index, object_lvalue } => {
            lemma_root_ok(machine, dfg, builder, *object_lvalue, modulus);
        },
        _ => {},
    }
}

/// An upper bound on the values that an assignment of `leaves` scalars
/// along a path adds.
pub open spec fn cost(path: LValueView, leaves: nat) -> nat
    decreases path,
{
    match path {
        LValueView::Ident(values) => leaves,
        LValueView::Index { old_array, index, array_lvalue } => 3 + 3 * leaves + cost(
            *array_lvalue,
            1,
        ),
        LValueView::MemberAccess { old_object, index, object_lvalue } => cost(
            *object_lvalue,
            old_object.count_leaves(),
        ),
        LValueView::Dereference { reference } => leaves,
    }
}

/// The second phase of an assignment, semantically: running the
/// instructions that the assignment of a new value along a path appends
/// leaves the variable at the root of the path holding what
/// [`root_written`] says, every slot that is none of the variable's as it
/// was, and every older value as it was.
pub proof fn lemma_reassignment(
    builder: BuilderView,
    path: LValueView,
    new_value: ValuesView,
    modulus: nat,
    machine: Machine,
    dfg: DfgView,
)
    requires
        builder.wf(),
        path_ok(machine, dfg, builder, path, modulus),
        assignable(builder, path, new_value),
        new_value.count_leaves() == width(builder, path),
        aligned(new_value, path, builder.dfg().values.len()),
        tree_readable(machine, dfg, new_value, builder.dfg().values.len()),
        builder.dfg().values.len() + cost(path, new_value.count_leaves()) <= usize::MAX,
        reassignment(builder, path, new_value).dfg().values.is_prefix_of(dfg.values),
    ensures
        ({
            let after = reassignment(builder, path, new_value);
            let ran = machine.run(modulus, dfg, emitted(builder, after));
            &&& extends(after, builder)
            &&& after.dfg().values.len() <= builder.dfg().values.len() + cost(
                path,
                new_value.count_leaves(),
            )
            &&& tree_data(ran, dfg, root(path)) == root_written(
                machine,
                dfg,
                builder,
                path,
                tree_data(machine, dfg, new_value),
            )
            &&& keeps_values(ran, machine, builder.dfg().values.len())
            &&& ran.memory.len() == machine.memory.len()
            &&& forall|slot: int|
                0 <= slot < machine.memory.len() && (forall|k: int|
                    0 <= k < root(path).count_leaves() ==> target_slot(
                        machine,
                        dfg,
                        #[trigger] root(path).flatten()[k],
                    ) != slot) ==> #[trigger] ran.memory[slot] == machine.memory[slot]
        }),
    decreases path,
{
    let count = builder.dfg().values.len();
    let after = reassignment(builder, path, new_value);
    match path {
        LValueView::Ident(values) => {
            lemma_assignment_is_flat(builder, values, new_value);
            let targets = values.flatten();
            let sources = new_value.flatten();
            assert(storable(machine, dfg, targets, sources, count)) by {
                assert forall|k: int| 0 <= k < sources.len() implies (
                #[trigger] sources[k]).below(count) && readable(machine, dfg, sources[k]) by {
                    assert(readable(machine, dfg, new_value.flatten()[k]));
                }
                assert forall|j: int, k: int|
                    0 <= j < k < targets.len() && (
                    #[trigger] sources[k]) is Mutable implies target_slot(
                    machine,
                    dfg,
                    #[trigger] targets[j],
                ) != target_slot(machine, dfg, sources[k]) by {
                    assert(new_value.flatten()[k] == recorded(path)[k]);
                }
            }
            lemma_assignment_flat(builder, targets, sources, modulus, machine, dfg);
            let ran = machine.run(modulus, dfg, emitted(builder, after));
            assert(tree_data(ran, dfg, values) =~= tree_data(machine, dfg, new_value)) by {
                assert forall|k: int| 0 <= k < values.count_leaves() implies leaf_data(
                    ran,
                    dfg,
                    #[trigger] values.flatten()[k],
                ) == leaf_data(machine, dfg, new_value.flatten()[k]) by {
                    assert(ran.memory[target_slot(machine, dfg, targets[k]) as int] == leaf_data(
                        machine,
                        dfg,
                        sources[k],
                    ));
                    assert(ran.operand(dfg, targets[k].eval_reference()) == machine.operand(
                        dfg,
                        targets[k].eval_reference(),
                    ));
                }
            }
        },
        LValueView::Index { old_array, index, array_lvalue } => {
            let elements = machine.operand(dfg, old_array)->Array_0;
            let place = machine.operand(dfg, index)->Number_0;
            let size = new_value.count_leaves();
            let (assigned, array) = element_assignment(builder, old_array, index, new_value);
            let leaf = TreeView::Leaf(ValueView::Normal(array));
            crate::lvalue_laws::lemma_element_assignment_extends(
                builder,
                old_array,
                index,
                new_value,
            );
            lemma_assignable_kept(
                builder,
                assigned,
                *array_lvalue,
                TreeView::Leaf(ValueView::Normal(old_array)),
                leaf,
            );
            lemma_path_ok_widths(machine, dfg, builder, path, modulus);
            lemma_widths_kept(builder, assigned, *array_lvalue);
            lemma_reassignment_extends(assigned, *array_lvalue, leaf);
            assert(assigned.dfg().values.is_prefix_of(dfg.values)) by {
                assert(assigned.dfg().values.is_prefix_of(after.dfg().values));
            }
            lemma_element_assignment(
                builder,
                old_array,
                index,
                new_value,
                modulus,
                machine,
                dfg,
                elements,
                place,
            );
            let halfway = machine.run(modulus, dfg, emitted(builder, assigned));
            lemma_path_kept(machine, halfway, dfg, builder, assigned, *array_lvalue, modulus);
            assert(leaf.flatten() =~= seq![ValueView::Normal(array)]);
            assert(aligned(leaf, *array_lvalue, assigned.dfg().values.len()));
            assert(tree_readable(halfway, dfg, leaf, assigned.dfg().values.len()));
            lemma_reassignment(assigned, *array_lvalue, leaf, modulus, halfway, dfg);
            lemma_emitted_in_stages(builder, assigned, after);
            lemma_run_concat(
                machine,
                modulus,
                dfg,
                emitted(builder, assigned),
                emitted(assigned, after),
            );
            assert(tree_data(halfway, dfg, leaf) =~= seq![
                Data::Array(
                    element_written(elements, size, place, tree_data(machine, dfg, new_value)),
                ),
            ]);
            let ran = machine.run(modulus, dfg, emitted(builder, after));
            lemma_root_ok(machine, dfg, builder, path, modulus);
            assert forall|slot: int|
                0 <= slot < machine.memory.len() && (forall|k: int|
                    0 <= k < root(path).count_leaves() ==> target_slot(
                        machine,
                        dfg,
                        #[trigger] root(path).flatten()[k],
                    ) != slot) implies #[trigger] ran.memory[slot] == machine.memory[slot] by {
                assert forall|k: int| 0 <= k < root(path).count_leaves() implies target_slot(
                    halfway,
                    dfg,
                    #[trigger] root(path).flatten()[k],
                ) != slot by {
                    assert(target_slot(machine, dfg, root(path).flatten()[k]) != slot);
                    assert(halfway.operand(dfg, root(path).flatten()[k].eval_reference())
                        == machine.operand(dfg, root(path).flatten()[k].eval_reference()));
                }
                assert(ran.memory[slot] == halfway.memory[slot]);
            }
        },
        LValueView::MemberAccess { old_object, index, object_lvalue } => {
            let replaced = old_object.with_field(index as int, new_value);
            let start = field_start(old_object, index as int);
            lemma_with_field_leaves(old_object, index as int, new_value);
            lemma_field_leaves(old_object, index as int);
            assert(aligned(replaced, *object_lvalue, count)) by {
                assert forall|k: int| 0 <= k < replaced.count_leaves() implies {
                    ||| (#[trigger] replaced.flatten()[k]) is Normal && replaced.flatten()[k].below(
                        count,
                    )
                    ||| k < recorded(*object_lvalue).len() && replaced.flatten()[k] == recorded(
                        *object_lvalue,
                    )[k]
                } by {
                    if start <= k < start + new_value.count_leaves() {
                        let inner = k - start;
                        assert(replaced.flatten()[k] == new_value.flatten()[inner]);
                        if !(new_value.flatten()[inner] is Normal) {
                            assert(new_value.flatten()[inner] == recorded(path)[inner]);
                            assert(recorded(path)[inner] == old_object.flatten()[k]);
                        }
                    } else {
                        assert(replaced.flatten()[k] == old_object.flatten()[k]);
                    }
                }
            }
            assert(tree_readable(machine, dfg, replaced, count)) by {
                assert forall|k: int| 0 <= k < replaced.count_leaves() implies readable(
                    machine,
                    dfg,
                    #[trigger] replaced.flatten()[k],
                ) && replaced.flatten()[k].below(count) by {
                    if start <= k < start + new_value.count_leaves() {
                        assert(replaced.flatten()[k] == new_value.flatten()[k - start]);
                    } else {
                        assert(replaced.flatten()[k] == old_object.flatten()[k]);
                    }
                }
            }
            lemma_reassignment(builder, *object_lvalue, replaced, modulus, machine, dfg);
            assert(tree_data(machine, dfg, replaced) =~= written_from(
                tree_data(machine, dfg, old_object),
                start,
                tree_data(machine, dfg, new_value),
            ));
        },
        LValueView::Dereference { reference } => {},
    }
}

/// What can be assigned along a path can still be assigned after the
/// builder has added values, and so can everything that branches like it.
pub proof fn lemma_assignable_kept(
    earlier: BuilderView,
    later: BuilderView,
    lvalue: LValueView,
    new_value: ValuesView,
    other: ValuesView,
)
    requires
        earlier.dfg().values.is_prefix_of(later.dfg().values),
        assignable(earlier, lvalue, new_value),
        new_value.same_shape(other),
    ensures
        assignable(later, lvalue, other),
    decreases lvalue,
{
    match lvalue {
        LValueView::Ident(references) => {
            crate::lvalue::lemma_same_shape_transitive(references, new_value, other);
        },
        LValueView::Index { old_array, index, array_lvalue } => {
            let leaf = TreeView::Leaf(ValueView::Normal(old_array));
            lemma_assignable_kept(earlier, later, *array_lvalue, leaf, leaf);
            assert(later.dfg().values[old_array.0 as int]
                == earlier.dfg().values[old_array.0 as int]);
        },
        LValueView::MemberAccess { old_object, index, object_lvalue } => {
            crate::lvalue::lemma_with_field_same_shape(old_object, index as int, new_value, other);
            lemma_assignable_kept(
                earlier,
                later,
                *object_lvalue,
                old_object.with_field(index as int, new_value),
                old_object.with_field(index as int, other),
            );
        },
        LValueView::Dereference { reference } => {
            crate::lvalue::lemma_same_shape_transitive(reference, new_value, other);
        },
    }
}

/// Whether each step of a path has recorded as many scalars as the step
/// before it targets.
pub open spec fn widths_ok(builder: BuilderView, path: LValueView) -> bool
    decreases path,
{
    match path {
        LValueView::Index { old_array, index, array_lvalue } => {
            &&& width(builder, *array_lvalue) == 1
            &&& builder.has_value(old_array)
            &&& widths_ok(builder, *array_lvalue)
        },
        LValueView::MemberAccess { old_object, index, object_lvalue } => {
            &&& old_object.has_field(index as int)
            &&& old_object.count_leaves() == width(builder, *object_lvalue)
            &&& widths_ok(builder, *object_lvalue)
        },
        _ => true,
    }
}

/// A path that can be assigned along has consistent widths.
pub proof fn lemma_path_ok_widths(
    machine: Machine,
    dfg: DfgView,
    builder: BuilderView,
    path: LValueView,
    modulus: nat,
)
    requires
        path_ok(machine, dfg, builder, path, modulus),
    ensures
        widths_ok(builder, path),
    decreases path,
{
    match path {
        LValueView::Index { old_array, index, array_lvalue } => {
            lemma_path_ok_widths(machine, dfg, builder, *array_lvalue, modulus);
        },
        LValueView::MemberAccess { old_object, index, object_lvalue } => {
            lemma_path_ok_widths(machine, dfg, builder, *object_lvalue, modulus);
        },
        _ => {},
    }
}

/// The widths of a path stay what they are when the builder goes on.
pub proof fn lemma_widths_kept(builder: BuilderView, extended: BuilderView, path: LValueView)
    requires
        widths_ok(builder, path),
        extends(extended, builder),
    ensures
        widths_ok(extended, path),
        width(extended, path) == width(builder, path),
    decreases path,
{
    match path {
        LValueView::Index { old_array, index, array_lvalue } => {
            lemma_widths_kept(builder, extended, *array_lvalue);
            assert(extended.dfg().values[old_array.0 as int]
                == builder.dfg().values[old_array.0 as int]);
        },
        LValueView::MemberAccess { old_object, index, object_lvalue } => {
            lemma_widths_kept(builder, extended, *object_lvalue);
        },
        _ => {},
    }
}

/// Storing leaf by leaf only adds values and appends instructions: at most
/// one value for each leaf.
pub proof fn lemma_assignment_flat_extends(
    builder: BuilderView,
    targets: Seq<ValueView>,
    sources: Seq<ValueView>,
)
    requires
        builder.wf(),
        targets.len() == sources.len(),
        builder.dfg().values.len() + targets.len() <= usize::MAX,
    ensures
        extends(assignment_flat(builder, targets, sources), builder),
        assignment_flat(builder, targets, sources).dfg().values.len() <= builder.dfg().values.len()
            + targets.len(),
    decreases targets.len(),
{
    if targets.len() > 0 {
        lemma_assignment_flat_extends(builder, targets.drop_last(), sources.drop_last());
        let before = assignment_flat(builder, targets.drop_last(), sources.drop_last());
        let after = assignment_flat(builder, targets, sources);
        assert(extends(after, before));
        lemma_emitted_in_stages(builder, before, after);
    }
}

/// Assigning along a path only adds values and appends instructions.
pub proof fn lemma_reassignment_extends(
    builder: BuilderView,
    path: LValueView,
    new_value: ValuesView,
)
    requires
        builder.wf(),
        assignable(builder, path, new_value),
        widths_ok(builder, path),
        new_value.count_leaves() == width(builder, path),
        builder.dfg().values.len() + cost(path, new_value.count_leaves()) <= usize::MAX,
    ensures
        extends(reassignment(builder, path, new_value), builder),
        reassignment(builder, path, new_value).dfg().values.len() <= builder.dfg().values.len()
            + cost(path, new_value.count_leaves()),
    decreases path,
{
    match path {
        LValueView::Ident(values) => {
            lemma_assignment_is_flat(builder, values, new_value);
            lemma_assignment_flat_extends(builder, values.flatten(), new_value.flatten());
        },
        LValueView::Index { old_array, index, array_lvalue } => {
            let (assigned, array) = element_assignment(builder, old_array, index, new_value);
            let leaf = TreeView::Leaf(ValueView::Normal(array));
            crate::lvalue_laws::lemma_element_assignment_extends(
                builder,
                old_array,
                index,
                new_value,
            );
            lemma_assignable_kept(
                builder,
                assigned,
                *array_lvalue,
                TreeView::Leaf(ValueView::Normal(old_array)),
                leaf,
            );
            assert(leaf.flatten() =~= seq![ValueView::Normal(array)]);
            lemma_widths_kept(builder, assigned, *array_lvalue);
            lemma_reassignment_extends(assigned, *array_lvalue, leaf);
            lemma_emitted_in_stages(
                builder,
                assigned,
                reassignment(assigned, *array_lvalue, leaf),
            );
        },
        LValueView::MemberAccess { old_object, index, object_lvalue } => {
            let replaced = old_object.with_field(index as int, new_value);
            lemma_with_field_leaves(old_object, index as int, new_value);
            lemma_reassignment_extends(builder, *object_lvalue, replaced);
        },
        LValueView::Dereference { reference } => {
            lemma_assignment_is_flat(builder, reference, new_value);
            lemma_assignment_flat_extends(builder, reference.flatten(), new_value.flatten());
        },
    }
}

/// An assignment along a path round-trips: after the instructions that
/// assign a new value along a path have run, what the variable at the root
/// of the path holds, followed inwards along the path to its target, is
/// what the new value stood for. Every slot that is none of the variable's
/// is as it was.
pub proof fn lemma_assignment_round_trip(
    builder: BuilderView,
    path: LValueView,
    new_value: ValuesView,
    modulus: nat,
    machine: Machine,
    dfg: DfgView,
)
    requires
        builder.wf(),
        path_ok(machine, dfg, builder, path, modulus),
        assignable(builder, path, new_value),
        new_value.count_leaves() == width(builder, path),
        aligned(new_value, path, builder.dfg().values.len()),
        tree_readable(machine, dfg, new_value, builder.dfg().values.len()),
        builder.dfg().values.len() + cost(path, new_value.count_leaves()) <= usize::MAX,
        reassignment(builder, path, new_value).dfg().values.is_prefix_of(dfg.values),
    ensures
        ({
            let after = reassignment(builder, path, new_value);
            let ran = machine.run(modulus, dfg, emitted(builder, after));
            &&& select(machine, dfg, builder, path, tree_data(ran, dfg, root(path))) == tree_data(
                machine,
                dfg,
                new_value,
            )
            &&& ran.memory.len() == machine.memory.len()
            &&& forall|slot: int|
                0 <= slot < machine.memory.len() && (forall|k: int|
                    0 <= k < root(path).count_leaves() ==> target_slot(
                        machine,
                        dfg,
                        #[trigger] root(path).flatten()[k],
                    ) != slot) ==> #[trigger] ran.memory[slot] == machine.memory[slot]
        }),
{
    lemma_reassignment(builder, path, new_value, modulus, machine, dfg);
    lemma_select_written(machine, dfg, builder, path, modulus, tree_data(machine, dfg, new_value));
}

/// Whether what a path has recorded is what the variable at its root holds
/// when it holds `held`: the recorded tuple of each field step and the
/// recorded array of each index step are what following the path up to that
/// step selects.
pub open spec fn consistent(
    machine: Machine,
    dfg: DfgView,
    builder: BuilderView,
    path: LValueView,
    held: Seq<Data>,
) -> bool
    decreases path,
{
    match path {
        LValueView::Index { old_array, index, array_lvalue } => {
            &&& consistent(machine, dfg, builder, *array_lvalue, held)
            &&& select(machine, dfg, builder, *array_lvalue, held) == seq![
                machine.operand(dfg, old_array),
            ]
        },
        LValueView::MemberAccess { old_object, index, object_lvalue } => {
            &&& consistent(machine, dfg, builder, *object_lvalue, held)
            &&& select(machine, dfg, builder, *object_lvalue, held) == tree_data(
                machine,
                dfg,
                old_object,
            )
        },
        _ => true,
    }
}

/// Writing to the target of a path what the target holds already leaves
/// the variable at the root holding what it holds.
pub proof fn lemma_written_back(
    machine: Machine,
    dfg: DfgView,
    builder: BuilderView,
    path: LValueView,
    modulus: nat,
    held: Seq<Data>,
)
    requires
        path_ok(machine, dfg, builder, path, modulus),
        consistent(machine, dfg, builder, path, held),
        held.len() == root(path).count_leaves(),
    ensures
        root_written(
            machine,
            dfg,
            builder,
            path,
            select(machine, dfg, builder, path, held),
        ) == held,
        select(machine, dfg, builder, path, held).len() == width(builder, path),
    decreases path,
{
    match path {
        LValueView::Index { old_array, index, array_lvalue } => {
            let elements = machine.operand(dfg, old_array)->Array_0;
            let place = machine.operand(dfg, index)->Number_0;
            let size = width(builder, path);
            lemma_written_back(machine, dfg, builder, *array_lvalue, modulus, held);
            assert(place * size + size <= elements.len());
            assert(element_written(elements, size, place, element_read(elements, size, place))
                =~= elements);
            assert(seq![Data::Array(elements)] =~= select(
                machine,
                dfg,
                builder,
                *array_lvalue,
                held,
            ));
        },
        LValueView::MemberAccess { old_object, index, object_lvalue } => {
            let start = field_start(old_object, index as int);
            let data = tree_data(machine, dfg, old_object);
            lemma_field_leaves(old_object, index as int);
            lemma_written_back(machine, dfg, builder, *object_lvalue, modulus, held);
            assert(written_from(
                data,
                start,
                data.subrange(start as int, (start + field_size(old_object, index as int)) as int),
            ) =~= data);
        },
        _ => {},
    }
}

/// An assignment to a field leaves the other fields of the tuple as they
/// are: after the write, following the path to another field of the same
/// tuple selects what that field held before.
pub proof fn lemma_sibling_field_unchanged(
    machine: Machine,
    dfg: DfgView,
    builder: BuilderView,
    path: LValueView,
    modulus: nat,
    held: Seq<Data>,
    new: Seq<Data>,
    other: usize,
)
    requires
        path is MemberAccess,
        path_ok(machine, dfg, builder, path, modulus),
        consistent(machine, dfg, builder, path, held),
        held.len() == root(path).count_leaves(),
        new.len() == width(builder, path),
        path->old_object.has_field(other as int),
        other != path->MemberAccess_index,
    ensures
        ({
            let sibling = LValueView::MemberAccess {
                old_object: path->old_object,
                index: other,
                object_lvalue: path->object_lvalue,
            };
            select(
                machine,
                dfg,
                builder,
                sibling,
                root_written(machine, dfg, builder, path, new),
            ) == select(machine, dfg, builder, sibling, held)
        }),
{
    let old_object = path->old_object;
    let index = path->MemberAccess_index as int;
    let sub = *path->object_lvalue;
    let data = tree_data(machine, dfg, old_object);
    let start = field_start(old_object, index);
    let written = written_from(data, start, new);
    lemma_field_leaves(old_object, index);
    lemma_field_leaves(old_object, other as int);
    lemma_select_written(machine, dfg, builder, sub, modulus, written);
    lemma_fields_apart(old_object, index, other as int);
    let other_start = field_start(old_object, other as int);
    let other_size = field_size(old_object, other as int);
    assert(written.subrange(other_start as int, (other_start + other_size) as int)
        =~= data.subrange(other_start as int, (other_start + other_size) as int));
}

/// The leaves of two different children of a branch do not overlap.
pub proof fn lemma_fields_apart<V>(tree: TreeView<V>, index: int, other: int)
    requires
        tree.has_field(index),
        tree.has_field(other),
        index != other,
    ensures
        field_start(tree, index) + field_size(tree, index) <= field_start(tree, other)
            || field_start(tree, other) + field_size(tree, other) <= field_start(tree, index),
{
    let children = tree->Branch_0;
    if index < other {
        lemma_flatten_all_take(children, index);
        lemma_flatten_all_prefix_of(children.take(other), index + 1);
        assert(children.take(other).take(index + 1) =~= children.take(index + 1));
    } else {
        lemma_flatten_all_take(children, other);
        lemma_flatten_all_prefix_of(children.take(index), other + 1);
        assert(children.take(index).take(other + 1) =~= children.take(other + 1));
    }
}

/// An assignment to an element leaves the other elements of the array as
/// they are: after the write, following the path to another place of the
/// same array selects what the array held there before.
pub proof fn lemma_sibling_element_unchanged(
    machine: Machine,
    dfg: DfgView,
    builder: BuilderView,
    path: LValueView,
    modulus: nat,
    held: Seq<Data>,
    new: Seq<Data>,
    other: nat,
)
    requires
        path is Index,
        path_ok(machine, dfg, builder, path, modulus),
        consistent(machine, dfg, builder, path, held),
        held.len() == root(path).count_leaves(),
        new.len() == width(builder, path),
        other != machine.operand(dfg, path->Index_index)->Number_0,
        other * width(builder, path) + width(builder, path) <= machine.operand(
            dfg,
            path->old_array,
        )->Array_0.len(),
    ensures
        element_read(
            select(
                machine,
                dfg,
                builder,
                *path->array_lvalue,
                root_written(machine, dfg, builder, path, new),
            )[0]->Array_0,
            width(builder, path),
            other,
        ) == element_read(
            select(machine, dfg, builder, *path->array_lvalue, held)[0]->Array_0,
            width(builder, path),
            other,
        ),
{
    let elements = machine.operand(dfg, path->old_array)->Array_0;
    let place = machine.operand(dfg, path->Index_index)->Number_0;
    let size = width(builder, path);
    let written = seq![Data::Array(element_written(elements, size, place, new))];
    lemma_select_written(machine, dfg, builder, *path->array_lvalue, modulus, written);
    lemma_element_round_trip(elements, size, place, new, other);
}

} // verus!
