use vstd::prelude::*;
use vstd::arithmetic::div_mod::lemma_small_mod;
use crate::ir::builder::BuilderView;
use crate::ir::dfg::DfgView;
use crate::ir::instruction::{BinaryOp, InstructionView};
use crate::ir::semantics::{Data, lemma_run_concat, lemma_run_one, lemma_run_push, Machine};
use crate::ir::value::ValueId;
use crate::ast;
use crate::flatten::flatten_type;
use crate::ir::instruction::Location;
use crate::laws::{element_read, element_written, emitted, lemma_element_round_trip};
use crate::ir::types::TypeView;
use crate::lvalue::{
    array_index, assignment, assignment_all, element_assignment, element_count, elements_at,
    elements_at_all, elements_set, elements_set_all,
};
use crate::value::{TreeView, ValueView, ValuesView};

verus! {

/// Whether `later` has come from `earlier` by adding values and by
/// appending instructions to the current block, and is well formed.
pub open spec fn extends(later: BuilderView, earlier: BuilderView) -> bool {
    &&& later.wf()
    &&& later.current_block == earlier.current_block
    &&& earlier.dfg().values.is_prefix_of(later.dfg().values)
    &&& earlier.current_instructions().is_prefix_of(later.current_instructions())
}

/// What is appended in two stages is what is appended in the first stage
/// followed by what is appended in the second.
pub proof fn lemma_emitted_in_stages(first: BuilderView, second: BuilderView, third: BuilderView)
    requires
        extends(second, first),
        extends(third, second),
    ensures
        extends(third, first),
        emitted(first, third) == emitted(first, second) + emitted(second, third),
{
    assert(emitted(first, third) =~= emitted(first, second) + emitted(second, third));
}

/// What a binding stands for in a state of the machine: the value itself,
/// or what its slot holds.
pub open spec fn leaf_data(machine: Machine, dfg: DfgView, leaf: ValueView) -> Data {
    match leaf {
        ValueView::Normal(value) => machine.operand(dfg, value),
        ValueView::Mutable(address, _) => machine.memory[machine.operand(
            dfg,
            address,
        )->Reference_0 as int],
    }
}

/// Whether a binding can be read: its slot, if it has one, exists.
pub open spec fn readable(machine: Machine, dfg: DfgView, leaf: ValueView) -> bool {
    match leaf {
        ValueView::Normal(_) => true,
        ValueView::Mutable(address, _) => machine.operand(dfg, address) matches Data::Reference(
            slot,
        ) && slot < machine.memory.len(),
    }
}

/// What the bindings of a tree stand for, from left to right.
pub open spec fn tree_data(machine: Machine, dfg: DfgView, tree: ValuesView) -> Seq<Data> {
    Seq::new(tree.count_leaves(), |i: int| leaf_data(machine, dfg, tree.flatten()[i]))
}

/// Whether every binding of a tree can be read and is older than the value
/// with the number `count`.
pub open spec fn tree_readable(
    machine: Machine,
    dfg: DfgView,
    tree: ValuesView,
    count: nat,
) -> bool {
    forall|i: int|
        0 <= i < tree.count_leaves() ==> readable(machine, dfg, #[trigger] tree.flatten()[i])
            && tree.flatten()[i].below(count)
}

/// The array after the places from `start` on have been set to `written`,
/// one after the other.
pub open spec fn written_from(array: Seq<Data>, start: nat, written: Seq<Data>) -> Seq<Data> {
    Seq::new(
        array.len(),
        |place: int|
            if start <= place < start + written.len() {
                written[place - start]
            } else {
                array[place]
            },
    )
}

/// Whether the values older than the one with the number `count`, and the
/// memory, are in `later` what they are in `earlier`.
pub open spec fn keeps(later: Machine, earlier: Machine, count: nat) -> bool {
    &&& later.memory == earlier.memory
    &&& forall|value: ValueId| value.0 < count ==> later.values[value] == earlier.values[value]
}

/// What the bindings of a list of trees stand for, from left to right.
pub open spec fn trees_data(machine: Machine, dfg: DfgView, trees: Seq<ValuesView>) -> Seq<Data> {
    Seq::new(
        TreeView::flatten_all(trees).len(),
        |i: int| leaf_data(machine, dfg, TreeView::flatten_all(trees)[i]),
    )
}

/// Whether every binding of a list of trees can be read and is older than
/// the value with the number `count`.
pub open spec fn trees_readable(
    machine: Machine,
    dfg: DfgView,
    trees: Seq<ValuesView>,
    count: nat,
) -> bool {
    forall|i: int|
        0 <= i < TreeView::flatten_all(trees).len() ==> readable(
            machine,
            dfg,
            #[trigger] TreeView::flatten_all(trees)[i],
        ) && TreeView::flatten_all(trees)[i].below(count)
}

/// A binding that is older than what a run has defined stands after the run
/// for what it stood for before, and can be read as before.
pub proof fn lemma_leaf_kept(
    earlier: Machine,
    later: Machine,
    dfg: DfgView,
    leaf: ValueView,
    count: nat,
)
    requires
        keeps(later, earlier, count),
        leaf.below(count),
    ensures
        leaf_data(later, dfg, leaf) == leaf_data(earlier, dfg, leaf),
        readable(later, dfg, leaf) == readable(earlier, dfg, leaf),
{
}

/// Setting one scalar into an array: the scalar is read, a new array holds
/// it at the index, and the index moves on by one.
proof fn lemma_set_leaf(
    builder: BuilderView,
    leaf: ValueView,
    array: ValueId,
    index: ValueId,
    one: ValueId,
    modulus: nat,
    machine: Machine,
    dfg: DfgView,
    elements: Seq<Data>,
    place: nat,
)
    requires
        builder.wf(),
        builder.has_value(array),
        builder.has_value(index),
        builder.has_value(one),
        leaf.below(builder.dfg().values.len()),
        builder.dfg().values.len() + 3 <= usize::MAX,
        elements_set(builder, TreeView::Leaf(leaf), array, index, one).0.dfg().values.is_prefix_of(
            dfg.values,
        ),
        readable(machine, dfg, leaf),
        machine.operand(dfg, array) == Data::Array(elements),
        machine.operand(dfg, index) == Data::Number(place),
        machine.operand(dfg, one) == Data::Number(1),
        place < elements.len(),
        place + 1 < modulus,
    ensures
        ({
            let (after, set, moved) = elements_set(
                builder,
                TreeView::Leaf(leaf),
                array,
                index,
                one,
            );
            let ran = machine.run(modulus, dfg, emitted(builder, after));
            &&& extends(after, builder)
            &&& after.has_value(set)
            &&& after.has_value(moved)
            &&& after.dfg().values.len() <= builder.dfg().values.len() + 3
            &&& ran.operand(dfg, set) == Data::Array(
                elements.update(place as int, leaf_data(machine, dfg, leaf)),
            )
            &&& ran.operand(dfg, moved) == Data::Number(place + 1)
            &&& keeps(ran, machine, builder.dfg().values.len())
        }),
{
    let (after, set, moved) = elements_set(builder, TreeView::Leaf(leaf), array, index, one);
    let (read, scalar) = leaf.eval(builder);
    let updated = read.insert_array_set(array, index, scalar);
    let store = InstructionView::ArraySet { array, index, value: scalar, result: set };
    let advance = InstructionView::Binary {
        lhs: index,
        operator: BinaryOp::Add,
        rhs: one,
        result: moved,
    };
    lemma_small_mod(place + 1, modulus);
    let ran = machine.run(modulus, dfg, emitted(builder, after));
    assert(dfg.values[set.0 as int] == after.dfg().values[set.0 as int]);
    assert(dfg.values[moved.0 as int] == after.dfg().values[moved.0 as int]);
    match leaf {
        ValueView::Normal(value) => {
            assert(emitted(builder, after) =~= seq![store].push(advance));
            lemma_run_one(machine, modulus, dfg, store);
            lemma_run_push(machine, modulus, dfg, seq![store], advance);
            let stored = machine.execute(modulus, dfg, store);
            assert(ran == stored.execute(modulus, dfg, advance));
            assert(stored.operand(dfg, index) == Data::Number(place));
            assert(ran.values[set] == stored.values[set]);
        },
        ValueView::Mutable(address, typ) => {
            let load = InstructionView::Load { address, result: scalar };
            assert(dfg.values[scalar.0 as int] == after.dfg().values[scalar.0 as int]);
            assert(emitted(builder, after) =~= seq![load].push(store).push(advance));
            lemma_run_one(machine, modulus, dfg, load);
            lemma_run_push(machine, modulus, dfg, seq![load], store);
            lemma_run_push(machine, modulus, dfg, seq![load].push(store), advance);
            let loaded = machine.execute(modulus, dfg, load);
            let stored = loaded.execute(modulus, dfg, store);
            assert(ran == stored.execute(modulus, dfg, advance));
            assert(loaded.operand(dfg, scalar) == leaf_data(machine, dfg, leaf));
            assert(loaded.operand(dfg, array) == Data::Array(elements));
            assert(loaded.operand(dfg, index) == Data::Number(place));
            assert(stored.operand(dfg, index) == Data::Number(place));
            assert(stored.operand(dfg, one) == Data::Number(1));
            assert(ran.values[set] == stored.values[set]);
        },
    }
    assert(ran.operand(dfg, set) == Data::Array(
        elements.update(place as int, leaf_data(machine, dfg, leaf)),
    ));
    assert(ran.operand(dfg, moved) == Data::Number(place + 1));
    assert(keeps(ran, machine, builder.dfg().values.len()));
    assert(extends(after, builder));
}

/// Setting the scalars of a tree into an array only adds values and
/// appends instructions: at most three values for each scalar.
pub proof fn lemma_elements_set_extends(
    builder: BuilderView,
    values: ValuesView,
    array: ValueId,
    index: ValueId,
    one: ValueId,
)
    requires
        builder.wf(),
        builder.has_value(array),
        builder.has_value(index),
        builder.dfg().values.len() + 3 * values.count_leaves() <= usize::MAX,
    ensures
        ({
            let (after, set, moved) = elements_set(builder, values, array, index, one);
            &&& extends(after, builder)
            &&& after.has_value(set)
            &&& after.has_value(moved)
            &&& after.dfg().values.len() <= builder.dfg().values.len() + 3 * values.count_leaves()
        }),
    decreases values,
{
    match values {
        TreeView::Leaf(leaf) => {
            let (after, set, moved) = elements_set(builder, values, array, index, one);
            assert(extends(after, builder));
        },
        TreeView::Branch(children) => {
            lemma_elements_set_all_extends(builder, children, array, index, one);
        },
    }
}

/// [`lemma_elements_set_extends`] for a list of trees.
pub proof fn lemma_elements_set_all_extends(
    builder: BuilderView,
    trees: Seq<ValuesView>,
    array: ValueId,
    index: ValueId,
    one: ValueId,
)
    requires
        builder.wf(),
        builder.has_value(array),
        builder.has_value(index),
        builder.dfg().values.len() + 3 * TreeView::flatten_all(trees).len() <= usize::MAX,
    ensures
        ({
            let (after, set, moved) = elements_set_all(builder, trees, array, index, one);
            &&& extends(after, builder)
            &&& after.has_value(set)
            &&& after.has_value(moved)
            &&& after.dfg().values.len() <= builder.dfg().values.len() + 3
                * TreeView::flatten_all(trees).len()
        }),
    decreases trees,
{
    if trees.len() > 0 {
        let firsts = trees.drop_last();
        lemma_elements_set_all_extends(builder, firsts, array, index, one);
        let (middle, set, moved) = elements_set_all(builder, firsts, array, index, one);
        lemma_elements_set_extends(middle, trees.last(), set, moved, one);
        let (after, _, _) = elements_set(middle, trees.last(), set, moved, one);
        lemma_emitted_in_stages(builder, middle, after);
    }
}

/// Setting first `first` from `start` on and then `second` from where
/// `first` ends is setting the two together from `start` on.
pub proof fn lemma_written_in_stages(
    array: Seq<Data>,
    start: nat,
    first: Seq<Data>,
    second: Seq<Data>,
)
    ensures
        written_from(written_from(array, start, first), start + first.len(), second)
            == written_from(array, start, first + second),
{
    assert(written_from(written_from(array, start, first), start + first.len(), second)
        =~= written_from(array, start, first + second));
}

/// What a list of trees stands for is what its first trees stand for
/// followed by what its last tree stands for.
pub proof fn lemma_trees_data_last(machine: Machine, dfg: DfgView, trees: Seq<ValuesView>)
    requires
        trees.len() > 0,
    ensures
        trees_data(machine, dfg, trees) == trees_data(machine, dfg, trees.drop_last()) + tree_data(
            machine,
            dfg,
            trees.last(),
        ),
{
    assert(trees_data(machine, dfg, trees) =~= trees_data(machine, dfg, trees.drop_last())
        + tree_data(machine, dfg, trees.last()));
}

/// Setting the scalars of a tree into an array, semantically: running the
/// instructions that this appends leaves, as the last array, the array with
/// the places from the index on set to what the bindings of the tree stand
/// for, and as the last index the index moved on by the number of scalars.
/// The memory and the older values are untouched.
pub proof fn lemma_elements_set(
    builder: BuilderView,
    values: ValuesView,
    array: ValueId,
    index: ValueId,
    one: ValueId,
    modulus: nat,
    machine: Machine,
    dfg: DfgView,
    elements: Seq<Data>,
    place: nat,
)
    requires
        builder.wf(),
        builder.has_value(array),
        builder.has_value(index),
        builder.has_value(one),
        builder.dfg().values.len() + 3 * values.count_leaves() <= usize::MAX,
        elements_set(builder, values, array, index, one).0.dfg().values.is_prefix_of(dfg.values),
        tree_readable(machine, dfg, values, builder.dfg().values.len()),
        machine.operand(dfg, array) == Data::Array(elements),
        machine.operand(dfg, index) == Data::Number(place),
        machine.operand(dfg, one) == Data::Number(1),
        place + values.count_leaves() <= elements.len(),
        place + values.count_leaves() < modulus,
    ensures
        ({
            let (after, set, moved) = elements_set(builder, values, array, index, one);
            let ran = machine.run(modulus, dfg, emitted(builder, after));
            &&& ran.operand(dfg, set) == Data::Array(
                written_from(elements, place, tree_data(machine, dfg, values)),
            )
            &&& ran.operand(dfg, moved) == Data::Number(place + values.count_leaves())
            &&& keeps(ran, machine, builder.dfg().values.len())
        }),
    decreases values,
{
    match values {
        TreeView::Leaf(leaf) => {
            assert(values.flatten()[0] == leaf);
            lemma_set_leaf(
                builder,
                leaf,
                array,
                index,
                one,
                modulus,
                machine,
                dfg,
                elements,
                place,
            );
            assert(tree_data(machine, dfg, values) =~= seq![leaf_data(machine, dfg, leaf)]);
            assert(written_from(elements, place, tree_data(machine, dfg, values))
                =~= elements.update(place as int, leaf_data(machine, dfg, leaf)));
        },
        TreeView::Branch(children) => {
            lemma_elements_set_all(
                builder,
                children,
                array,
                index,
                one,
                modulus,
                machine,
                dfg,
                elements,
                place,
            );
            assert(tree_data(machine, dfg, values) =~= trees_data(machine, dfg, children));
        },
    }
}

/// [`lemma_elements_set`] for a list of trees.
pub proof fn lemma_elements_set_all(
    builder: BuilderView,
    trees: Seq<ValuesView>,
    array: ValueId,
    index: ValueId,
    one: ValueId,
    modulus: nat,
    machine: Machine,
    dfg: DfgView,
    elements: Seq<Data>,
    place: nat,
)
    requires
        builder.wf(),
        builder.has_value(array),
        builder.has_value(index),
        builder.has_value(one),
        builder.dfg().values.len() + 3 * TreeView::flatten_all(trees).len() <= usize::MAX,
        elements_set_all(builder, trees, array, index, one).0.dfg().values.is_prefix_of(
            dfg.values,
        ),
        trees_readable(machine, dfg, trees, builder.dfg().values.len()),
        machine.operand(dfg, array) == Data::Array(elements),
        machine.operand(dfg, index) == Data::Number(place),
        machine.operand(dfg, one) == Data::Number(1),
        place + TreeView::flatten_all(trees).len() <= elements.len(),
        place + TreeView::flatten_all(trees).len() < modulus,
    ensures
        ({
            let (after, set, moved) = elements_set_all(builder, trees, array, index, one);
            let ran = machine.run(modulus, dfg, emitted(builder, after));
            &&& ran.operand(dfg, set) == Data::Array(
                written_from(elements, place, trees_data(machine, dfg, trees)),
            )
            &&& ran.operand(dfg, moved) == Data::Number(
                place + TreeView::flatten_all(trees).len(),
            )
            &&& keeps(ran, machine, builder.dfg().values.len())
        }),
    decreases trees,
{
    if trees.len() == 0 {
        let (after, set, moved) = elements_set_all(builder, trees, array, index, one);
        assert(emitted(builder, after) =~= Seq::empty());
        assert(written_from(elements, place, trees_data(machine, dfg, trees)) =~= elements);
    } else {
        let firsts = trees.drop_last();
        let last = trees.last();
        let used = TreeView::flatten_all(firsts).len();
        let count = builder.dfg().values.len();
        lemma_elements_set_all_extends(builder, firsts, array, index, one);
        let (middle, set, moved) = elements_set_all(builder, firsts, array, index, one);
        lemma_elements_set_extends(middle, last, set, moved, one);
        let (after, last_set, last_moved) = elements_set(middle, last, set, moved, one);
        lemma_emitted_in_stages(builder, middle, after);
        assert forall|i: int| 0 <= i < used implies readable(
            machine,
            dfg,
            #[trigger] TreeView::flatten_all(firsts)[i],
        ) && TreeView::flatten_all(firsts)[i].below(count) by {
            assert(TreeView::flatten_all(firsts)[i] == TreeView::flatten_all(trees)[i]);
        }
        lemma_elements_set_all(
            builder,
            firsts,
            array,
            index,
            one,
            modulus,
            machine,
            dfg,
            elements,
            place,
        );
        let halfway = machine.run(modulus, dfg, emitted(builder, middle));
        assert forall|i: int| 0 <= i < last.count_leaves() implies readable(
            halfway,
            dfg,
            #[trigger] last.flatten()[i],
        ) && last.flatten()[i].below(middle.dfg().values.len()) by {
            assert(last.flatten()[i] == TreeView::flatten_all(trees)[used + i]);
            lemma_leaf_kept(machine, halfway, dfg, last.flatten()[i], count);
        }
        assert(halfway.operand(dfg, one) == machine.operand(dfg, one));
        lemma_elements_set(
            middle,
            last,
            set,
            moved,
            one,
            modulus,
            halfway,
            dfg,
            written_from(elements, place, trees_data(machine, dfg, firsts)),
            place + used,
        );
        lemma_run_concat(
            machine,
            modulus,
            dfg,
            emitted(builder, middle),
            emitted(middle, after),
        );
        assert(tree_data(halfway, dfg, last) =~= tree_data(machine, dfg, last)) by {
            assert forall|i: int| 0 <= i < last.count_leaves() implies leaf_data(
                halfway,
                dfg,
                #[trigger] last.flatten()[i],
            ) == leaf_data(machine, dfg, last.flatten()[i]) by {
                assert(last.flatten()[i] == TreeView::flatten_all(trees)[used + i]);
                lemma_leaf_kept(machine, halfway, dfg, last.flatten()[i], count);
            }
        }
        lemma_trees_data_last(machine, dfg, trees);
        lemma_written_in_stages(
            elements,
            place,
            trees_data(machine, dfg, firsts),
            tree_data(machine, dfg, last),
        );
    }
}

/// Whether every binding of a tree is a plain value older than the value
/// with the number `count`.
pub open spec fn tree_plain(tree: ValuesView, count: nat) -> bool {
    forall|i: int|
        0 <= i < tree.count_leaves() ==> (#[trigger] tree.flatten()[i]) is Normal
            && tree.flatten()[i].below(count)
}

/// [`tree_plain`] for a list of trees.
pub open spec fn trees_plain(trees: Seq<ValuesView>, count: nat) -> bool {
    forall|i: int|
        0 <= i < TreeView::flatten_all(trees).len() ==> (#[trigger] TreeView::flatten_all(
            trees,
        )[i]) is Normal && TreeView::flatten_all(trees)[i].below(count)
}

/// Reading the scalars of an element only adds values and appends
/// instructions: at most three values for each scalar, and as many plain
/// values as the shape has leaves.
pub proof fn lemma_elements_at_extends(
    builder: BuilderView,
    shape: TreeView<TypeView>,
    array: ValueId,
    base_index: ValueId,
    field: nat,
)
    requires
        builder.wf(),
        builder.has_value(base_index),
        builder.dfg().values.len() + 3 * shape.count_leaves() <= usize::MAX,
    ensures
        ({
            let (after, elements) = elements_at(builder, shape, array, base_index, field);
            &&& extends(after, builder)
            &&& elements.count_leaves() == shape.count_leaves()
            &&& tree_plain(elements, after.dfg().values.len())
            &&& after.dfg().values.len() <= builder.dfg().values.len() + 3 * shape.count_leaves()
        }),
    decreases shape,
{
    match shape {
        TreeView::Leaf(typ) => {
            let (after, elements) = elements_at(builder, shape, array, base_index, field);
            assert(extends(after, builder));
            assert(elements.flatten() =~= seq![elements->Leaf_0]);
        },
        TreeView::Branch(children) => {
            lemma_elements_at_all_extends(builder, children, array, base_index, field);
        },
    }
}

/// [`lemma_elements_at_extends`] for a list of shapes.
pub proof fn lemma_elements_at_all_extends(
    builder: BuilderView,
    shapes: Seq<TreeView<TypeView>>,
    array: ValueId,
    base_index: ValueId,
    field: nat,
)
    requires
        builder.wf(),
        builder.has_value(base_index),
        builder.dfg().values.len() + 3 * TreeView::flatten_all(shapes).len() <= usize::MAX,
    ensures
        ({
            let (after, elements) = elements_at_all(builder, shapes, array, base_index, field);
            &&& extends(after, builder)
            &&& elements.len() == shapes.len()
            &&& TreeView::flatten_all(elements).len() == TreeView::flatten_all(shapes).len()
            &&& trees_plain(elements, after.dfg().values.len())
            &&& after.dfg().values.len() <= builder.dfg().values.len() + 3
                * TreeView::flatten_all(shapes).len()
        }),
    decreases shapes,
{
    if shapes.len() > 0 {
        let firsts = shapes.drop_last();
        let used = TreeView::flatten_all(firsts).len();
        lemma_elements_at_all_extends(builder, firsts, array, base_index, field);
        let (middle, first_elements) = elements_at_all(builder, firsts, array, base_index, field);
        lemma_elements_at_extends(middle, shapes.last(), array, base_index, field + used);
        let (after, last_element) = elements_at(
            middle,
            shapes.last(),
            array,
            base_index,
            field + used,
        );
        lemma_emitted_in_stages(builder, middle, after);
        let elements = first_elements.push(last_element);
        assert(elements.drop_last() =~= first_elements);
        assert forall|i: int| 0 <= i < TreeView::flatten_all(elements).len() implies (
        #[trigger] TreeView::flatten_all(elements)[i]) is Normal && TreeView::flatten_all(
            elements,
        )[i].below(after.dfg().values.len()) by {
            if i < used {
                assert(TreeView::flatten_all(elements)[i] == TreeView::flatten_all(
                    first_elements,
                )[i]);
            } else {
                assert(TreeView::flatten_all(elements)[i] == last_element.flatten()[i - used]);
            }
        }
    } else {
        let (after, elements) = elements_at_all(builder, shapes, array, base_index, field);
        assert(elements =~= Seq::empty());
    }
}

/// Reading one scalar of an element: the place is the base moved on by the
/// number of the scalar, and the value read is what the array holds there.
proof fn lemma_read_leaf(
    builder: BuilderView,
    typ: TypeView,
    array: ValueId,
    base_index: ValueId,
    field: nat,
    modulus: nat,
    machine: Machine,
    dfg: DfgView,
    elements: Seq<Data>,
    base: nat,
)
    requires
        builder.wf(),
        builder.has_value(array),
        builder.has_value(base_index),
        builder.dfg().values.len() + 3 <= usize::MAX,
        elements_at(
            builder,
            TreeView::Leaf(typ),
            array,
            base_index,
            field,
        ).0.dfg().values.is_prefix_of(dfg.values),
        machine.operand(dfg, array) == Data::Array(elements),
        machine.operand(dfg, base_index) == Data::Number(base),
        base + field < elements.len(),
        base + field < modulus,
        field <= u128::MAX,
    ensures
        ({
            let (after, read) = elements_at(
                builder,
                TreeView::Leaf(typ),
                array,
                base_index,
                field,
            );
            let ran = machine.run(modulus, dfg, emitted(builder, after));
            &&& leaf_data(ran, dfg, read->Leaf_0) == elements[(base + field) as int]
            &&& keeps(ran, machine, builder.dfg().values.len())
        }),
{
    let (after, read) = elements_at(builder, TreeView::Leaf(typ), array, base_index, field);
    let result = read->Leaf_0->Normal_0;
    let ran = machine.run(modulus, dfg, emitted(builder, after));
    assert(dfg.values[result.0 as int] == after.dfg().values[result.0 as int]);
    lemma_small_mod(base + field, modulus);
    if field == 0 {
        let get = InstructionView::ArrayGet { array, index: base_index, result };
        assert(emitted(builder, after) =~= seq![get]);
        lemma_run_one(machine, modulus, dfg, get);
    } else {
        let constant = builder.next_value();
        let offset = builder.field_constant(field as u128).next_value();
        assert(dfg.values[constant.0 as int] == after.dfg().values[constant.0 as int]);
        assert(dfg.values[offset.0 as int] == after.dfg().values[offset.0 as int]);
        let add = InstructionView::Binary {
            lhs: base_index,
            operator: BinaryOp::Add,
            rhs: constant,
            result: offset,
        };
        let get = InstructionView::ArrayGet { array, index: offset, result };
        assert(emitted(builder, after) =~= seq![add].push(get));
        lemma_run_one(machine, modulus, dfg, add);
        lemma_run_push(machine, modulus, dfg, seq![add], get);
        let added = machine.execute(modulus, dfg, add);
        assert(machine.operand(dfg, constant) == Data::Number(field));
        assert(added.operand(dfg, offset) == Data::Number(base + field));
        assert(added.operand(dfg, array) == Data::Array(elements));
        assert(ran == added.execute(modulus, dfg, get));
    }
}

/// Reading the scalars of an element, semantically: running the
/// instructions that this appends defines, as the values read, what the
/// array holds from the base moved on by `field` on, as many scalars as the
/// shape has leaves. The memory and the older values are untouched.
pub proof fn lemma_elements_at(
    builder: BuilderView,
    shape: TreeView<TypeView>,
    array: ValueId,
    base_index: ValueId,
    field: nat,
    modulus: nat,
    machine: Machine,
    dfg: DfgView,
    elements: Seq<Data>,
    base: nat,
)
    requires
        builder.wf(),
        builder.has_value(array),
        builder.has_value(base_index),
        builder.dfg().values.len() + 3 * shape.count_leaves() <= usize::MAX,
        elements_at(builder, shape, array, base_index, field).0.dfg().values.is_prefix_of(
            dfg.values,
        ),
        machine.operand(dfg, array) == Data::Array(elements),
        machine.operand(dfg, base_index) == Data::Number(base),
        base + field + shape.count_leaves() <= elements.len(),
        base + field + shape.count_leaves() < modulus,
        field + shape.count_leaves() <= u128::MAX,
    ensures
        ({
            let (after, read) = elements_at(builder, shape, array, base_index, field);
            let ran = machine.run(modulus, dfg, emitted(builder, after));
            &&& tree_data(ran, dfg, read) == elements.subrange(
                (base + field) as int,
                (base + field + shape.count_leaves()) as int,
            )
            &&& keeps(ran, machine, builder.dfg().values.len())
        }),
    decreases shape,
{
    match shape {
        TreeView::Leaf(typ) => {
            lemma_read_leaf(
                builder,
                typ,
                array,
                base_index,
                field,
                modulus,
                machine,
                dfg,
                elements,
                base,
            );
            let (after, read) = elements_at(builder, shape, array, base_index, field);
            let ran = machine.run(modulus, dfg, emitted(builder, after));
            assert(read.flatten() =~= seq![read->Leaf_0]);
            assert(tree_data(ran, dfg, read) =~= elements.subrange(
                (base + field) as int,
                (base + field + 1) as int,
            ));
        },
        TreeView::Branch(children) => {
            lemma_elements_at_all(
                builder,
                children,
                array,
                base_index,
                field,
                modulus,
                machine,
                dfg,
                elements,
                base,
            );
            let (after, read) = elements_at(builder, shape, array, base_index, field);
            let ran = machine.run(modulus, dfg, emitted(builder, after));
            assert(tree_data(ran, dfg, read) =~= trees_data(ran, dfg, read->Branch_0));
        },
    }
}

/// [`lemma_elements_at`] for a list of shapes.
pub proof fn lemma_elements_at_all(
    builder: BuilderView,
    shapes: Seq<TreeView<TypeView>>,
    array: ValueId,
    base_index: ValueId,
    field: nat,
    modulus: nat,
    machine: Machine,
    dfg: DfgView,
    elements: Seq<Data>,
    base: nat,
)
    requires
        builder.wf(),
        builder.has_value(array),
        builder.has_value(base_index),
        builder.dfg().values.len() + 3 * TreeView::flatten_all(shapes).len() <= usize::MAX,
        elements_at_all(builder, shapes, array, base_index, field).0.dfg().values.is_prefix_of(
            dfg.values,
        ),
        machine.operand(dfg, array) == Data::Array(elements),
        machine.operand(dfg, base_index) == Data::Number(base),
        base + field + TreeView::flatten_all(shapes).len() <= elements.len(),
        base + field + TreeView::flatten_all(shapes).len() < modulus,
        field + TreeView::flatten_all(shapes).len() <= u128::MAX,
    ensures
        ({
            let (after, read) = elements_at_all(builder, shapes, array, base_index, field);
            let ran = machine.run(modulus, dfg, emitted(builder, after));
            &&& trees_data(ran, dfg, read) == elements.subrange(
                (base + field) as int,
                (base + field + TreeView::flatten_all(shapes).len()) as int,
            )
            &&& keeps(ran, machine, builder.dfg().values.len())
        }),
    decreases shapes,
{
    if shapes.len() == 0 {
        let (after, read) = elements_at_all(builder, shapes, array, base_index, field);
        let ran = machine.run(modulus, dfg, emitted(builder, after));
        assert(emitted(builder, after) =~= Seq::empty());
        assert(read =~= Seq::empty());
        assert(trees_data(ran, dfg, read) =~= elements.subrange(
            (base + field) as int,
            (base + field) as int,
        ));
    } else {
        let firsts = shapes.drop_last();
        let last = shapes.last();
        let used = TreeView::flatten_all(firsts).len();
        let count = builder.dfg().values.len();
        lemma_elements_at_all_extends(builder, firsts, array, base_index, field);
        let (middle, first_read) = elements_at_all(builder, firsts, array, base_index, field);
        lemma_elements_at_extends(middle, last, array, base_index, field + used);
        let (after, last_read) = elements_at(middle, last, array, base_index, field + used);
        lemma_emitted_in_stages(builder, middle, after);
        lemma_elements_at_all(
            builder,
            firsts,
            array,
            base_index,
            field,
            modulus,
            machine,
            dfg,
            elements,
            base,
        );
        let halfway = machine.run(modulus, dfg, emitted(builder, middle));
        lemma_elements_at(
            middle,
            last,
            array,
            base_index,
            field + used,
            modulus,
            halfway,
            dfg,
            elements,
            base,
        );
        lemma_run_concat(
            machine,
            modulus,
            dfg,
            emitted(builder, middle),
            emitted(middle, after),
        );
        let ran = machine.run(modulus, dfg, emitted(builder, after));
        let read = first_read.push(last_read);
        assert(read.drop_last() =~= first_read);
        lemma_trees_data_last(ran, dfg, read);
        assert(trees_data(ran, dfg, first_read) =~= trees_data(halfway, dfg, first_read)) by {
            assert forall|i: int|
                0 <= i < TreeView::flatten_all(first_read).len() implies leaf_data(
                ran,
                dfg,
                #[trigger] TreeView::flatten_all(first_read)[i],
            ) == leaf_data(halfway, dfg, TreeView::flatten_all(first_read)[i]) by {
                lemma_leaf_kept(
                    halfway,
                    ran,
                    dfg,
                    TreeView::flatten_all(first_read)[i],
                    middle.dfg().values.len(),
                );
            }
        }
        assert(trees_data(ran, dfg, read) =~= elements.subrange(
            (base + field) as int,
            (base + field + TreeView::flatten_all(shapes).len()) as int,
        ));
    }
}

/// What a tree stands for is the same after a run that has kept what the
/// tree is made of, and it can be read as before.
pub proof fn lemma_tree_kept(
    earlier: Machine,
    later: Machine,
    dfg: DfgView,
    tree: ValuesView,
    count: nat,
    more: nat,
)
    requires
        keeps(later, earlier, count),
        tree_readable(earlier, dfg, tree, count),
        count <= more,
    ensures
        tree_data(later, dfg, tree) == tree_data(earlier, dfg, tree),
        tree_readable(later, dfg, tree, more),
{
    assert forall|i: int| 0 <= i < tree.count_leaves() implies leaf_data(
        later,
        dfg,
        #[trigger] tree.flatten()[i],
    ) == leaf_data(earlier, dfg, tree.flatten()[i]) && readable(later, dfg, tree.flatten()[i])
        && tree.flatten()[i].below(more) by {
        lemma_leaf_kept(earlier, later, dfg, tree.flatten()[i], count);
    }
    assert(tree_data(later, dfg, tree) =~= tree_data(earlier, dfg, tree));
}

/// Assigning to an element of an array, semantically: running the
/// instructions that this appends leaves, as the resulting array, the array
/// with the scalars of the element at the index set to what the new value
/// stands for. The memory and the older values are untouched.
pub proof fn lemma_element_assignment(
    builder: BuilderView,
    old_array: ValueId,
    index: ValueId,
    new_value: ValuesView,
    modulus: nat,
    machine: Machine,
    dfg: DfgView,
    elements: Seq<Data>,
    place: nat,
)
    requires
        builder.wf(),
        builder.has_value(old_array),
        builder.has_value(index),
        new_value.count_leaves() == element_count(builder.type_of_value(old_array)),
        builder.dfg().values.len() + 3 + 3 * new_value.count_leaves() <= usize::MAX,
        element_assignment(builder, old_array, index, new_value).0.dfg().values.is_prefix_of(
            dfg.values,
        ),
        tree_readable(machine, dfg, new_value, builder.dfg().values.len()),
        machine.operand(dfg, old_array) == Data::Array(elements),
        machine.operand(dfg, index) == Data::Number(place),
        place * new_value.count_leaves() + new_value.count_leaves() <= elements.len(),
        place * new_value.count_leaves() + new_value.count_leaves() < modulus,
        new_value.count_leaves() <= u128::MAX,
    ensures
        ({
            let (after, array) = element_assignment(builder, old_array, index, new_value);
            let ran = machine.run(modulus, dfg, emitted(builder, after));
            &&& extends(after, builder)
            &&& after.has_value(array)
            &&& after.dfg().values.len() <= builder.dfg().values.len() + 3 + 3
                * new_value.count_leaves()
            &&& ran.operand(dfg, array) == Data::Array(
                element_written(
                    elements,
                    new_value.count_leaves(),
                    place,
                    tree_data(machine, dfg, new_value),
                ),
            )
            &&& keeps(ran, machine, builder.dfg().values.len())
        }),
{
    let size = new_value.count_leaves();
    let count = builder.dfg().values.len();
    let element_size = builder.next_value();
    let sized = builder.field_constant(size as u128);
    let base_index = sized.next_value();
    let multiplied = sized.insert_binary(index, BinaryOp::Mul, element_size);
    let one = multiplied.next_value();
    let prepared = multiplied.field_constant(1);
    lemma_elements_set_extends(prepared, new_value, old_array, base_index, one);
    let (after, array, moved) = elements_set(prepared, new_value, old_array, base_index, one);
    assert(extends(prepared, builder));
    lemma_emitted_in_stages(builder, prepared, after);
    let multiply = InstructionView::Binary {
        lhs: index,
        operator: BinaryOp::Mul,
        rhs: element_size,
        result: base_index,
    };
    assert(emitted(builder, prepared) =~= seq![multiply]);
    lemma_run_one(machine, modulus, dfg, multiply);
    let started = machine.execute(modulus, dfg, multiply);
    assert(place * size < modulus) by (nonlinear_arith)
        requires
            place * size + size < modulus,
    ;
    lemma_small_mod(place * size, modulus);
    assert(dfg.values[element_size.0 as int] == after.dfg().values[element_size.0 as int]);
    assert(dfg.values[base_index.0 as int] == after.dfg().values[base_index.0 as int]);
    assert(dfg.values[one.0 as int] == after.dfg().values[one.0 as int]);
    assert(after.dfg().values[element_size.0 as int]
        == prepared.dfg().values[element_size.0 as int]);
    assert(after.dfg().values[base_index.0 as int] == prepared.dfg().values[base_index.0 as int]);
    assert(after.dfg().values[one.0 as int] == prepared.dfg().values[one.0 as int]);
    assert(dfg.get_numeric_constant(element_size) == Some(size as u128));
    assert(machine.operand(dfg, element_size) == Data::Number(size));
    assert(started.operand(dfg, base_index) == Data::Number(place * size));
    assert(started.operand(dfg, one) == Data::Number(1));
    assert(keeps(started, machine, count));
    lemma_tree_kept(machine, started, dfg, new_value, count, prepared.dfg().values.len());
    lemma_elements_set(
        prepared,
        new_value,
        old_array,
        base_index,
        one,
        modulus,
        started,
        dfg,
        elements,
        place * size,
    );
    lemma_run_concat(machine, modulus, dfg, emitted(builder, prepared), emitted(prepared, after));
    assert(written_from(elements, place * size, tree_data(machine, dfg, new_value))
        =~= element_written(elements, size, place, tree_data(machine, dfg, new_value)));
}

/// Reading the element at an index of an array, semantically: running the
/// instructions that this appends defines, as the values read, the scalars
/// of the element at the index. The memory and the older values are
/// untouched.
pub proof fn lemma_array_index(
    builder: BuilderView,
    array: ValueId,
    index: ValueId,
    element_type: ast::Type,
    location: Location,
    modulus: nat,
    machine: Machine,
    dfg: DfgView,
    elements: Seq<Data>,
    place: nat,
)
    requires
        builder.wf(),
        builder.has_value(array),
        builder.has_value(index),
        builder.dfg().values.len() + 2 + 3 * flatten_type(element_type).count_leaves()
            <= usize::MAX,
        array_index(builder, array, index, element_type, location).0.dfg().values.is_prefix_of(
            dfg.values,
        ),
        machine.operand(dfg, array) == Data::Array(elements),
        machine.operand(dfg, index) == Data::Number(place),
        place * flatten_type(element_type).count_leaves() + flatten_type(
            element_type,
        ).count_leaves() <= elements.len(),
        place * flatten_type(element_type).count_leaves() + flatten_type(
            element_type,
        ).count_leaves() < modulus,
        flatten_type(element_type).count_leaves() <= u128::MAX,
    ensures
        ({
            let (after, read) = array_index(builder, array, index, element_type, location);
            let ran = machine.run(modulus, dfg, emitted(builder, after));
            &&& extends(after, builder)
            &&& read.count_leaves() == flatten_type(element_type).count_leaves()
            &&& tree_plain(read, after.dfg().values.len())
            &&& after.dfg().values.len() <= builder.dfg().values.len() + 2 + 3 * flatten_type(
                element_type,
            ).count_leaves()
            &&& tree_data(ran, dfg, read) == element_read(
                elements,
                flatten_type(element_type).count_leaves(),
                place,
            )
            &&& keeps(ran, machine, builder.dfg().values.len())
        }),
{
    let shape = flatten_type(element_type);
    let size = shape.count_leaves();
    let count = builder.dfg().values.len();
    let type_size = builder.next_value();
    let located = builder.field_constant(size as u128).set_location(location);
    let base_index = located.next_value();
    let multiplied = located.insert_binary(index, BinaryOp::Mul, type_size);
    lemma_elements_at_extends(multiplied, shape, array, base_index, 0);
    let (after, read) = elements_at(multiplied, shape, array, base_index, 0);
    assert(extends(multiplied, builder));
    lemma_emitted_in_stages(builder, multiplied, after);
    let multiply = InstructionView::Binary {
        lhs: index,
        operator: BinaryOp::Mul,
        rhs: type_size,
        result: base_index,
    };
    assert(emitted(builder, multiplied) =~= seq![multiply]);
    lemma_run_one(machine, modulus, dfg, multiply);
    let started = machine.execute(modulus, dfg, multiply);
    assert(place * size < modulus) by (nonlinear_arith)
        requires
            place * size + size < modulus,
    ;
    lemma_small_mod(place * size, modulus);
    assert(dfg.values[type_size.0 as int] == after.dfg().values[type_size.0 as int]);
    assert(dfg.values[base_index.0 as int] == after.dfg().values[base_index.0 as int]);
    assert(after.dfg().values[type_size.0 as int] == multiplied.dfg().values[type_size.0 as int]);
    assert(after.dfg().values[base_index.0 as int] == multiplied.dfg().values[base_index.0 as int]);
    assert(dfg.get_numeric_constant(type_size) == Some(size as u128));
    assert(machine.operand(dfg, type_size) == Data::Number(size));
    assert(started.operand(dfg, base_index) == Data::Number(place * size));
    assert(keeps(started, machine, count));
    lemma_elements_at(
        multiplied,
        shape,
        array,
        base_index,
        0,
        modulus,
        started,
        dfg,
        elements,
        place * size,
    );
    lemma_run_concat(
        machine,
        modulus,
        dfg,
        emitted(builder, multiplied),
        emitted(multiplied, after),
    );
}

/// An assignment to an element of an array round-trips through the
/// instructions: after the element at `place` has been assigned, reading the
/// element at `place` of the resulting array gives what was assigned, and
/// reading any other element gives what the array held there before.
pub proof fn lemma_array_round_trip(
    builder: BuilderView,
    old_array: ValueId,
    index: ValueId,
    new_value: ValuesView,
    read_index: ValueId,
    element_type: ast::Type,
    location: Location,
    modulus: nat,
    machine: Machine,
    elements: Seq<Data>,
    place: nat,
    read_place: nat,
)
    requires
        builder.wf(),
        builder.has_value(old_array),
        builder.has_value(index),
        builder.has_value(read_index),
        new_value.count_leaves() == element_count(builder.type_of_value(old_array)),
        new_value.count_leaves() == flatten_type(element_type).count_leaves(),
        builder.dfg().values.len() + 5 + 6 * new_value.count_leaves() <= usize::MAX,
        new_value.count_leaves() <= u128::MAX,
        ({
            let (assigned, array) = element_assignment(builder, old_array, index, new_value);
            let (after, read) = array_index(assigned, array, read_index, element_type, location);
            &&& tree_readable(machine, after.dfg(), new_value, builder.dfg().values.len())
            &&& machine.operand(after.dfg(), old_array) == Data::Array(elements)
            &&& machine.operand(after.dfg(), index) == Data::Number(place)
            &&& machine.operand(after.dfg(), read_index) == Data::Number(read_place)
        }),
        place * new_value.count_leaves() + new_value.count_leaves() <= elements.len(),
        read_place * new_value.count_leaves() + new_value.count_leaves() <= elements.len(),
        elements.len() < modulus,
    ensures
        ({
            let (assigned, array) = element_assignment(builder, old_array, index, new_value);
            let (after, read) = array_index(assigned, array, read_index, element_type, location);
            let ran = machine.run(modulus, after.dfg(), emitted(builder, after));
            &&& tree_data(ran, after.dfg(), read) == if read_place == place {
                tree_data(machine, after.dfg(), new_value)
            } else {
                element_read(elements, new_value.count_leaves(), read_place)
            }
            &&& ran.memory == machine.memory
        }),
{
    let size = new_value.count_leaves();
    let (assigned, array) = element_assignment(builder, old_array, index, new_value);
    let (after, read) = array_index(assigned, array, read_index, element_type, location);
    let dfg = after.dfg();
    let written = element_written(elements, size, place, tree_data(machine, dfg, new_value));
    // The structure first: both steps only add to the builder.
    lemma_element_assignment_extends(builder, old_array, index, new_value);
    lemma_array_index_extends(assigned, array, read_index, element_type, location);
    lemma_emitted_in_stages(builder, assigned, after);
    lemma_element_assignment(
        builder,
        old_array,
        index,
        new_value,
        modulus,
        machine,
        dfg,
        elements,
        place,
    );
    let halfway = machine.run(modulus, dfg, emitted(builder, assigned));
    assert(halfway.operand(dfg, read_index) == Data::Number(read_place));
    lemma_array_index(
        assigned,
        array,
        read_index,
        element_type,
        location,
        modulus,
        halfway,
        dfg,
        written,
        read_place,
    );
    lemma_run_concat(machine, modulus, dfg, emitted(builder, assigned), emitted(assigned, after));
    lemma_element_round_trip(
        elements,
        size,
        place,
        tree_data(machine, dfg, new_value),
        read_place,
    );
}

/// Assigning to an element of an array only adds values and appends
/// instructions.
pub proof fn lemma_element_assignment_extends(
    builder: BuilderView,
    old_array: ValueId,
    index: ValueId,
    new_value: ValuesView,
)
    requires
        builder.wf(),
        builder.has_value(old_array),
        builder.has_value(index),
        builder.dfg().values.len() + 3 + 3 * new_value.count_leaves() <= usize::MAX,
    ensures
        ({
            let (after, array) = element_assignment(builder, old_array, index, new_value);
            &&& extends(after, builder)
            &&& after.has_value(array)
            &&& after.dfg().values.len() <= builder.dfg().values.len() + 3 + 3
                * new_value.count_leaves()
        }),
{
    let element_size = builder.next_value();
    let sized = builder.field_constant(
        element_count(builder.type_of_value(old_array)) as u128,
    );
    let base_index = sized.next_value();
    let multiplied = sized.insert_binary(index, BinaryOp::Mul, element_size);
    let one = multiplied.next_value();
    let prepared = multiplied.field_constant(1);
    lemma_elements_set_extends(prepared, new_value, old_array, base_index, one);
    let (after, array, moved) = elements_set(prepared, new_value, old_array, base_index, one);
    assert(extends(prepared, builder));
    lemma_emitted_in_stages(builder, prepared, after);
}

/// Reading an element of an array only adds values and appends
/// instructions, and gives as many plain values as the element has scalars.
pub proof fn lemma_array_index_extends(
    builder: BuilderView,
    array: ValueId,
    index: ValueId,
    element_type: ast::Type,
    location: Location,
)
    requires
        builder.wf(),
        builder.has_value(index),
        builder.dfg().values.len() + 2 + 3 * flatten_type(element_type).count_leaves()
            <= usize::MAX,
    ensures
        ({
            let (after, read) = array_index(builder, array, index, element_type, location);
            &&& after.wf()
            &&& after.current_block == builder.current_block
            &&& builder.dfg().values.is_prefix_of(after.dfg().values)
            &&& builder.current_instructions().is_prefix_of(after.current_instructions())
            &&& read.count_leaves() == flatten_type(element_type).count_leaves()
            &&& tree_plain(read, after.dfg().values.len())
            &&& after.dfg().values.len() <= builder.dfg().values.len() + 2 + 3 * flatten_type(
                element_type,
            ).count_leaves()
        }),
{
    let shape = flatten_type(element_type);
    let type_size = builder.next_value();
    let located = builder.field_constant(shape.count_leaves() as u128).set_location(location);
    let base_index = located.next_value();
    let multiplied = located.insert_binary(index, BinaryOp::Mul, type_size);
    lemma_elements_at_extends(multiplied, shape, array, base_index, 0);
    let (after, read) = elements_at(multiplied, shape, array, base_index, 0);
    assert(extends(multiplied, builder));
    lemma_emitted_in_stages(builder, multiplied, after);
}

/// Storing each of `sources` through the reference at the same place of
/// `targets`, from first to last.
pub open spec fn assignment_flat(
    builder: BuilderView,
    targets: Seq<ValueView>,
    sources: Seq<ValueView>,
) -> BuilderView
    decreases targets.len(),
{
    if targets.len() == 0 {
        builder
    } else {
        let before = assignment_flat(builder, targets.drop_last(), sources.drop_last());
        let (read, value) = sources.last().eval(before);
        read.insert_store(targets.last().eval_reference(), value)
    }
}

/// Storing two runs of bindings one after the other is storing the two
/// together.
pub proof fn lemma_assignment_flat_in_stages(
    builder: BuilderView,
    first_targets: Seq<ValueView>,
    first_sources: Seq<ValueView>,
    targets: Seq<ValueView>,
    sources: Seq<ValueView>,
)
    requires
        first_targets.len() == first_sources.len(),
        targets.len() == sources.len(),
    ensures
        assignment_flat(builder, first_targets + targets, first_sources + sources)
            == assignment_flat(
            assignment_flat(builder, first_targets, first_sources),
            targets,
            sources,
        ),
    decreases targets.len(),
{
    if targets.len() == 0 {
        assert(first_targets + targets =~= first_targets);
        assert(first_sources + sources =~= first_sources);
    } else {
        lemma_assignment_flat_in_stages(
            builder,
            first_targets,
            first_sources,
            targets.drop_last(),
            sources.drop_last(),
        );
        assert((first_targets + targets).drop_last() =~= first_targets + targets.drop_last());
        assert((first_sources + sources).drop_last() =~= first_sources + sources.drop_last());
        assert((first_targets + targets).last() == targets.last());
        assert((first_sources + sources).last() == sources.last());
    }
}

/// Trees that branch alike have as many leaves, and storing one through the
/// other is storing leaf by leaf, from left to right.
pub proof fn lemma_assignment_is_flat(builder: BuilderView, lhs: ValuesView, rhs: ValuesView)
    requires
        lhs.same_shape(rhs),
    ensures
        lhs.count_leaves() == rhs.count_leaves(),
        assignment(builder, lhs, rhs) == assignment_flat(builder, lhs.flatten(), rhs.flatten()),
    decreases lhs,
{
    match (lhs, rhs) {
        (TreeView::Leaf(target), TreeView::Leaf(source)) => {
            reveal_with_fuel(assignment_flat, 2);
            assert(lhs.flatten().drop_last() =~= Seq::empty());
            assert(rhs.flatten().drop_last() =~= Seq::empty());
        },
        (TreeView::Branch(targets), TreeView::Branch(sources)) => {
            lemma_assignment_all_is_flat(builder, targets, sources);
        },
        _ => {},
    }
}

/// [`lemma_assignment_is_flat`] for two lists of trees.
pub proof fn lemma_assignment_all_is_flat(
    builder: BuilderView,
    targets: Seq<ValuesView>,
    sources: Seq<ValuesView>,
)
    requires
        targets.len() == sources.len(),
        forall|i: int| 0 <= i < targets.len() ==> (#[trigger] targets[i]).same_shape(sources[i]),
    ensures
        TreeView::flatten_all(targets).len() == TreeView::flatten_all(sources).len(),
        assignment_all(builder, targets, sources) == assignment_flat(
            builder,
            TreeView::flatten_all(targets),
            TreeView::flatten_all(sources),
        ),
    decreases targets,
{
    if targets.len() > 0 {
        let first_targets = targets.drop_last();
        let first_sources = sources.drop_last();
        assert forall|i: int| 0 <= i < first_targets.len() implies (
        #[trigger] first_targets[i]).same_shape(first_sources[i]) by {
            assert(targets[i].same_shape(sources[i]));
        }
        lemma_assignment_all_is_flat(builder, first_targets, first_sources);
        let before = assignment_all(builder, first_targets, first_sources);
        assert(targets.last().same_shape(sources.last())) by {
            assert(targets[targets.len() - 1].same_shape(sources[targets.len() - 1]));
        }
        lemma_assignment_is_flat(before, targets.last(), sources.last());
        lemma_assignment_flat_in_stages(
            builder,
            TreeView::flatten_all(first_targets),
            TreeView::flatten_all(first_sources),
            targets.last().flatten(),
            sources.last().flatten(),
        );
    }
}

/// The slot that a binding is stored to.
pub open spec fn target_slot(machine: Machine, dfg: DfgView, target: ValueView) -> nat {
    machine.operand(dfg, target.eval_reference())->Reference_0
}

/// Whether `sources` can be stored through `targets` without one store
/// getting in the way of another: every target refers to a slot of its own,
/// every source can be read, and no source is read from a slot that an
/// earlier store has written.
pub open spec fn storable(
    machine: Machine,
    dfg: DfgView,
    targets: Seq<ValueView>,
    sources: Seq<ValueView>,
    count: nat,
) -> bool {
    &&& targets.len() == sources.len()
    &&& forall|k: int|
        0 <= k < targets.len() ==> {
            &&& (#[trigger] targets[k]).below(count)
            &&& machine.operand(dfg, targets[k].eval_reference()) is Reference
            &&& target_slot(machine, dfg, targets[k]) < machine.memory.len()
        }
    &&& forall|k: int|
        0 <= k < sources.len() ==> (#[trigger] sources[k]).below(count) && readable(
            machine,
            dfg,
            sources[k],
        )
    &&& forall|j: int, k: int|
        0 <= j < k < targets.len() ==> target_slot(machine, dfg, #[trigger] targets[j])
            != target_slot(machine, dfg, #[trigger] targets[k])
    &&& forall|j: int, k: int|
        0 <= j < k < targets.len() && (#[trigger] sources[k]) is Mutable ==> target_slot(
            machine,
            dfg,
            #[trigger] targets[j],
        ) != target_slot(machine, dfg, sources[k])
}

/// Whether the values older than the one with the number `count` are in
/// `later` what they are in `earlier`.
pub open spec fn keeps_values(later: Machine, earlier: Machine, count: nat) -> bool {
    forall|value: ValueId| value.0 < count ==> later.values[value] == earlier.values[value]
}

/// Storing leaf by leaf, semantically: running the instructions that this
/// appends leaves in the slot of each target what the source at the same
/// place stood for before, and every other slot and every older value as it
/// was.
pub proof fn lemma_assignment_flat(
    builder: BuilderView,
    targets: Seq<ValueView>,
    sources: Seq<ValueView>,
    modulus: nat,
    machine: Machine,
    dfg: DfgView,
)
    requires
        builder.wf(),
        builder.dfg().values.len() + targets.len() <= usize::MAX,
        assignment_flat(builder, targets, sources).dfg().values.is_prefix_of(dfg.values),
        storable(machine, dfg, targets, sources, builder.dfg().values.len()),
    ensures
        ({
            let after = assignment_flat(builder, targets, sources);
            let ran = machine.run(modulus, dfg, emitted(builder, after));
            &&& extends(after, builder)
            &&& after.dfg().values.len() <= builder.dfg().values.len() + targets.len()
            &&& ran.memory.len() == machine.memory.len()
            &&& keeps_values(ran, machine, builder.dfg().values.len())
            &&& forall|k: int|
                0 <= k < targets.len() ==> ran.memory[target_slot(
                    machine,
                    dfg,
                    #[trigger] targets[k],
                ) as int] == leaf_data(machine, dfg, sources[k])
            &&& forall|slot: int|
                0 <= slot < machine.memory.len() && (forall|k: int|
                    0 <= k < targets.len() ==> target_slot(machine, dfg, #[trigger] targets[k])
                        != slot) ==> #[trigger] ran.memory[slot] == machine.memory[slot]
        }),
    decreases targets.len(),
{
    let after = assignment_flat(builder, targets, sources);
    let count = builder.dfg().values.len();
    if targets.len() == 0 {
        assert(emitted(builder, after) =~= Seq::empty());
    } else {
        let first_targets = targets.drop_last();
        let first_sources = sources.drop_last();
        let last = targets.len() - 1;
        let target = targets.last();
        let source = sources.last();
        let before = assignment_flat(builder, first_targets, first_sources);
        let (read, value) = source.eval(before);
        assert(storable(machine, dfg, first_targets, first_sources, count)) by {
            assert forall|k: int| 0 <= k < first_targets.len() implies {
                &&& (#[trigger] first_targets[k]).below(count)
                &&& machine.operand(dfg, first_targets[k].eval_reference()) is Reference
                &&& target_slot(machine, dfg, first_targets[k]) < machine.memory.len()
            } by {
                assert(first_targets[k] == targets[k]);
            }
            assert forall|k: int| 0 <= k < first_sources.len() implies (
            #[trigger] first_sources[k]).below(count) && readable(
                machine,
                dfg,
                first_sources[k],
            ) by {
                assert(first_sources[k] == sources[k]);
            }
            assert forall|j: int, k: int| 0 <= j < k < first_targets.len() implies target_slot(
                machine,
                dfg,
                #[trigger] first_targets[j],
            ) != target_slot(machine, dfg, #[trigger] first_targets[k]) by {
                assert(first_targets[j] == targets[j]);
                assert(first_targets[k] == targets[k]);
            }
            assert forall|j: int, k: int|
                0 <= j < k < first_targets.len() && (
                #[trigger] first_sources[k]) is Mutable implies target_slot(
                machine,
                dfg,
                #[trigger] first_targets[j],
            ) != target_slot(machine, dfg, first_sources[k]) by {
                assert(first_targets[j] == targets[j]);
                assert(first_sources[k] == sources[k]);
            }
        }
        // The stores before the last one.
        assert(before.dfg().values.is_prefix_of(dfg.values)) by {
            assert(before.dfg().values.is_prefix_of(after.dfg().values));
        }
        lemma_assignment_flat(builder, first_targets, first_sources, modulus, machine, dfg);
        let halfway = machine.run(modulus, dfg, emitted(builder, before));
        assert(extends(after, before));
        lemma_emitted_in_stages(builder, before, after);
        lemma_run_concat(machine, modulus, dfg, emitted(builder, before), emitted(before, after));
        let ran = machine.run(modulus, dfg, emitted(builder, after));
        // The last store.
        let store = InstructionView::Store { address: target.eval_reference(), value };
        assert(targets[last] == target);
        assert(sources[last] == source);
        assert(halfway.operand(dfg, target.eval_reference()) == machine.operand(
            dfg,
            target.eval_reference(),
        ));
        let slot = target_slot(machine, dfg, target);
        assert(halfway.memory[slot as int] == machine.memory[slot as int]) by {
            assert forall|k: int| 0 <= k < first_targets.len() implies target_slot(
                machine,
                dfg,
                #[trigger] first_targets[k],
            ) != slot by {
                assert(first_targets[k] == targets[k]);
            }
        }
        match source {
            ValueView::Normal(plain) => {
                assert(emitted(before, after) =~= seq![store]);
                lemma_run_one(halfway, modulus, dfg, store);
                assert(halfway.operand(dfg, plain) == machine.operand(dfg, plain));
            },
            ValueView::Mutable(address, typ) => {
                let load = InstructionView::Load { address, result: value };
                assert(dfg.values[value.0 as int] == after.dfg().values[value.0 as int]);
                assert(emitted(before, after) =~= seq![load].push(store));
                lemma_run_one(halfway, modulus, dfg, load);
                lemma_run_push(halfway, modulus, dfg, seq![load], store);
                assert(halfway.operand(dfg, address) == machine.operand(dfg, address));
                let source_slot = target_slot(machine, dfg, source);
                assert(halfway.memory[source_slot as int] == machine.memory[source_slot as int])
                    by {
                    assert forall|k: int| 0 <= k < first_targets.len() implies target_slot(
                        machine,
                        dfg,
                        #[trigger] first_targets[k],
                    ) != source_slot by {
                        assert(first_targets[k] == targets[k]);
                    }
                }
                let loaded = halfway.execute(modulus, dfg, load);
                assert(loaded.operand(dfg, value) == leaf_data(machine, dfg, source));
                assert(loaded.operand(dfg, target.eval_reference()) == machine.operand(
                    dfg,
                    target.eval_reference(),
                ));
            },
        }
        assert(ran.memory == halfway.memory.update(slot as int, leaf_data(machine, dfg, source)));
        assert forall|k: int| 0 <= k < targets.len() implies ran.memory[target_slot(
            machine,
            dfg,
            #[trigger] targets[k],
        ) as int] == leaf_data(machine, dfg, sources[k]) by {
            if k < last {
                assert(first_targets[k] == targets[k]);
                assert(first_sources[k] == sources[k]);
            }
        }
        assert forall|other: int|
            0 <= other < machine.memory.len() && (forall|k: int|
                0 <= k < targets.len() ==> target_slot(machine, dfg, #[trigger] targets[k])
                    != other) implies #[trigger] ran.memory[other] == machine.memory[other] by {
            assert(target_slot(machine, dfg, targets[last]) != other);
            assert forall|k: int| 0 <= k < first_targets.len() implies target_slot(
                machine,
                dfg,
                #[trigger] first_targets[k],
            ) != other by {
                assert(first_targets[k] == targets[k]);
            }
        }
    }
}

} // verus!
