use vstd::prelude::*;
use crate::errors::InternalError;
use crate::ir::builder::{BuilderView, FunctionBuilder};
use crate::ir::types::{Type, TypeView};
use crate::ir::value::ValueId;

verus! {

/// A tree that mirrors the nesting of a surface type: a scalar is a leaf, a
/// tuple is a branch over its fields in order, and the unit value is a branch
/// without children.
#[derive(Debug)]
pub enum Tree<T> {
    Branch(Vec<Tree<T>>),
    Leaf(T),
}

/// The mathematical value of a [`Tree`].
pub enum TreeView<V> {
    Branch(Seq<TreeView<V>>),
    Leaf(V),
}

impl<T: View> Tree<T> {
    /// The tree with every leaf replaced by its view.
    pub open spec fn to_view(&self) -> TreeView<T::V>
        decreases self,
    {
        match self {
            Tree::Branch(children) => TreeView::Branch(
                Seq::new(
                    children@.len(),
                    |i: int|
                        if 0 <= i < children@.len() {
                            children@[i].to_view()
                        } else {
                            TreeView::Branch(Seq::empty())
                        },
                ),
            ),
            Tree::Leaf(leaf) => TreeView::Leaf(leaf@),
        }
    }
}

impl<T: View> View for Tree<T> {
    type V = TreeView<T::V>;

    open spec fn view(&self) -> TreeView<T::V> {
        self.to_view()
    }
}

/// The values of a sequence of trees, in order.
pub open spec fn view_trees<T: View>(trees: Seq<Tree<T>>) -> Seq<TreeView<T::V>> {
    Seq::new(trees.len(), |i: int| trees[i]@)
}

/// The values of a sequence of leaves, in order.
pub open spec fn view_leaves<T: View>(leaves: Seq<T>) -> Seq<T::V> {
    Seq::new(leaves.len(), |i: int| leaves[i]@)
}

/// The view of a branch lists the views of its children.
pub proof fn lemma_view_branch<T: View>(children: Vec<Tree<T>>)
    ensures
        Tree::Branch(children)@ == TreeView::Branch(view_trees(children@)),
{
    reveal_with_fuel(Tree::to_view, 2);
    assert(Tree::Branch(children)@->Branch_0 =~= view_trees(children@));
}

/// Whether `target` is `source` with every leaf replaced by something that
/// `f` may return for it.
pub open spec fn mapped<T, U, F: Fn(T) -> U>(source: Tree<T>, target: Tree<U>, f: F) -> bool
    decreases source,
{
    match (source, target) {
        (Tree::Leaf(leaf), Tree::Leaf(image)) => call_ensures(f, (leaf,), image),
        (Tree::Branch(children), Tree::Branch(images)) => {
            &&& children@.len() == images@.len()
            &&& forall|i: int|
                0 <= i < children@.len() ==> mapped(#[trigger] children@[i], images@[i], f)
        },
        _ => false,
    }
}

/// Whether `target` is `source` with every leaf replaced by something that
/// `f` may return for it as a success.
pub open spec fn try_mapped<T, U, E, F: Fn(T) -> Result<U, E>>(
    source: Tree<T>,
    target: Tree<U>,
    f: F,
) -> bool
    decreases source,
{
    match (source, target) {
        (Tree::Leaf(leaf), Tree::Leaf(image)) => call_ensures(f, (leaf,), Ok(image)),
        (Tree::Branch(children), Tree::Branch(images)) => {
            &&& children@.len() == images@.len()
            &&& forall|i: int|
                0 <= i < children@.len() ==> try_mapped(#[trigger] children@[i], images@[i], f)
        },
        _ => false,
    }
}

/// Whether `f` may fail with `error` on some leaf of `source`.
pub open spec fn fails_on<T, U, E, F: Fn(T) -> Result<U, E>>(
    source: Tree<T>,
    error: E,
    f: F,
) -> bool
    decreases source,
{
    match source {
        Tree::Leaf(leaf) => call_ensures(f, (leaf,), Err(error)),
        Tree::Branch(children) => exists|i: int|
            0 <= i < children@.len() && fails_on(#[trigger] children@[i], error, f),
    }
}

/// A failure on a leaf of a child is a failure on a leaf of the branch.
pub proof fn lemma_fails_on_branch<T, U, E, F: Fn(T) -> Result<U, E>>(
    children: Vec<Tree<T>>,
    index: int,
    error: E,
    f: F,
)
    requires
        0 <= index < children@.len(),
        fails_on(children@[index], error, f),
    ensures
        fails_on(Tree::Branch(children), error, f),
{
    let tree = Tree::Branch(children);
    assert(tree->Branch_0 == children);
    assert(fails_on(tree->Branch_0@[index], error, f));
    assert(fails_on(tree, error, f) == (exists|i: int|
        0 <= i < tree->Branch_0@.len() && fails_on(#[trigger] tree->Branch_0@[i], error, f)));
}

impl<T> Tree<T> {
    /// Applies `f` to every leaf, from left to right, and keeps the shape.
    pub fn map<U, F: Fn(T) -> U>(self, f: &F) -> (target: Tree<U>)
        requires
            forall|leaf: T| call_requires(*f, (leaf,)),
        ensures
            mapped(self, target, *f),
        decreases self,
    {
        match self {
            Tree::Leaf(leaf) => Tree::Leaf(f(leaf)),
            Tree::Branch(children) => {
                let ghost kids = children;
                let mut images: Vec<Tree<U>> = Vec::new();
                for child in iter: children
                    invariant
                        kids == children,
                        decreases_to!(self => kids),
                        forall|leaf: T| call_requires(*f, (leaf,)),
                        images@.len() == iter.index(),
                        forall|i: int|
                            0 <= i < iter.index() ==> mapped(#[trigger] kids@[i], images@[i], *f),
                {
                    assert(child == kids[iter.index()]);
                    assert(decreases_to!(kids => kids[iter.index()]));
                    let image = child.map(f);
                    images.push(image);
                }
                Tree::Branch(images)
            },
        }
    }

    /// Applies `f` to every leaf, from left to right, and keeps the shape,
    /// unless `f` fails on a leaf: that failure is returned and the leaves
    /// after it are not looked at.
    pub fn try_map<U, E, F: Fn(T) -> Result<U, E>>(self, f: &F) -> (result: Result<Tree<U>, E>)
        requires
            forall|leaf: T| call_requires(*f, (leaf,)),
        ensures
            match result {
                Ok(target) => try_mapped(self, target, *f),
                Err(error) => fails_on(self, error, *f),
            },
        decreases self,
    {
        match self {
            Tree::Leaf(leaf) => match f(leaf) {
                Ok(image) => Ok(Tree::Leaf(image)),
                Err(error) => Err(error),
            },
            Tree::Branch(children) => {
                let ghost kids = children;
                let mut images: Vec<Tree<U>> = Vec::new();
                for child in iter: children
                    invariant
                        kids == children,
                        self == Tree::Branch(kids),
                        decreases_to!(self => kids),
                        forall|leaf: T| call_requires(*f, (leaf,)),
                        images@.len() == iter.index(),
                        forall|i: int|
                            0 <= i < iter.index() ==> try_mapped(
                                #[trigger] kids@[i],
                                images@[i],
                                *f,
                            ),
                {
                    assert(child == kids[iter.index()]);
                    assert(decreases_to!(kids => kids[iter.index()]));
                    match child.try_map(f) {
                        Ok(image) => {
                            images.push(image);
                        },
                        Err(error) => {
                            proof {
                                lemma_fails_on_branch(kids, iter.index(), error, *f);
                            }
                            return Err(error);
                        },
                    }
                }
                Ok(Tree::Branch(images))
            },
        }
    }
}

impl<V> TreeView<V> {
    /// The tree of the unit value: a branch without children.
    pub open spec fn empty() -> TreeView<V> {
        TreeView::Branch(Seq::empty())
    }

    /// The leaves from left to right.
    pub open spec fn flatten(self) -> Seq<V>
        decreases self,
    {
        match self {
            TreeView::Branch(children) => Self::flatten_all(children),
            TreeView::Leaf(leaf) => seq![leaf],
        }
    }

    /// The leaves of a list of trees, from left to right.
    pub open spec fn flatten_all(trees: Seq<TreeView<V>>) -> Seq<V>
        decreases trees,
    {
        if trees.len() == 0 {
            Seq::empty()
        } else {
            Self::flatten_all(trees.drop_last()) + trees.last().flatten()
        }
    }

    /// The number of leaves.
    pub open spec fn count_leaves(self) -> nat {
        self.flatten().len()
    }

    /// Whether the tree is a branch with a child at `index`.
    pub open spec fn has_field(self, index: int) -> bool {
        self matches TreeView::Branch(children) && 0 <= index < children.len()
    }

    /// The child at `index` of a branch.
    pub open spec fn field(self, index: int) -> TreeView<V>
        recommends
            self.has_field(index),
    {
        self->Branch_0[index]
    }

    /// The branch with the child at `index` replaced.
    pub open spec fn with_field(self, index: int, child: TreeView<V>) -> TreeView<V>
        recommends
            self.has_field(index),
    {
        TreeView::Branch(self->Branch_0.update(index, child))
    }

    /// Whether two trees branch alike: where one has a leaf the other has a
    /// leaf, and where one has a branch the other has a branch with as many
    /// children, which again branch alike.
    pub open spec fn same_shape<W>(self, other: TreeView<W>) -> bool
        decreases self,
    {
        match (self, other) {
            (TreeView::Leaf(_), TreeView::Leaf(_)) => true,
            (TreeView::Branch(children), TreeView::Branch(others)) => {
                &&& children.len() == others.len()
                &&& forall|i: int|
                    0 <= i < children.len() ==> (#[trigger] children[i]).same_shape(others[i])
            },
            _ => false,
        }
    }
}

/// Replacing a field of a branch changes that field and no other: reading
/// the replaced field gives the new child, and every other field reads as
/// before.
pub proof fn lemma_with_field<V>(tree: TreeView<V>, index: int, child: TreeView<V>, other: int)
    requires
        tree.has_field(index),
        tree.has_field(other),
    ensures
        tree.with_field(index, child).has_field(other),
        tree.with_field(index, child).field(index) == child,
        other != index ==> tree.with_field(index, child).field(other) == tree.field(other),
        tree.with_field(index, child)->Branch_0.len() == tree->Branch_0.len(),
{
}

/// The leaves of the first `count + 1` trees are those of the first `count`
/// followed by those of the next one.
pub proof fn lemma_flatten_all_take<V>(trees: Seq<TreeView<V>>, count: int)
    requires
        0 <= count < trees.len(),
    ensures
        TreeView::flatten_all(trees.take(count + 1)) == TreeView::flatten_all(trees.take(count))
            + trees[count].flatten(),
{
    assert(trees.take(count + 1).drop_last() =~= trees.take(count));
    assert(trees.take(count + 1).last() == trees[count]);
}

/// A list of trees has at least the leaves of each of its trees.
pub proof fn lemma_flatten_all_covers<V>(trees: Seq<TreeView<V>>, index: int)
    requires
        0 <= index < trees.len(),
    ensures
        TreeView::flatten_all(trees).len() >= trees[index].flatten().len(),
    decreases trees.len(),
{
    if index < trees.len() - 1 {
        lemma_flatten_all_covers(trees.drop_last(), index);
    }
}

impl<T: View> Tree<T> {
    /// The tree of the unit value: a branch without children.
    pub fn empty() -> (tree: Tree<T>)
        ensures
            tree@ == TreeView::<T::V>::empty(),
    {
        let children: Vec<Tree<T>> = Vec::new();
        proof {
            lemma_view_branch(children);
            assert(view_trees(children@) =~= Seq::empty());
        }
        Tree::Branch(children)
    }

    /// The payload of a tree that is a single leaf.
    pub fn into_leaf(self) -> (leaf: T)
        requires
            self@ is Leaf,
        ensures
            leaf@ == self@->Leaf_0,
    {
        match self {
            Tree::Leaf(leaf) => leaf,
            Tree::Branch(children) => {
                proof {
                    lemma_view_branch(children);
                }
                unreached()
            },
        }
    }

    /// Takes the child at `index` out of a branch.
    pub fn get_field(self, index: usize) -> (child: Tree<T>)
        requires
            self@.has_field(index as int),
        ensures
            child@ == self@.field(index as int),
    {
        match self {
            Tree::Branch(mut children) => {
                proof {
                    lemma_view_branch(children);
                }
                children.remove(index)
            },
            Tree::Leaf(_) => unreached(),
        }
    }

    /// The child at `index` of a branch.
    pub fn get_field_ref(&self, index: usize) -> (child: &Tree<T>)
        requires
            self@.has_field(index as int),
        ensures
            child@ == self@.field(index as int),
    {
        match self {
            Tree::Branch(children) => {
                proof {
                    lemma_view_branch(*children);
                }
                &children[index]
            },
            Tree::Leaf(_) => unreached(),
        }
    }

    /// Replaces the child at `index` of a branch.
    pub fn replace_field(self, index: usize, child: Tree<T>) -> (replaced: Tree<T>)
        requires
            self@.has_field(index as int),
        ensures
            replaced@ == self@.with_field(index as int, child@),
    {
        match self {
            Tree::Branch(mut children) => {
                proof {
                    lemma_view_branch(children);
                }
                let ghost before = children;
                children.set(index, child);
                proof {
                    lemma_view_branch(children);
                    assert(view_trees(children@) =~= view_trees(before@).update(
                        index as int,
                        child@,
                    ));
                }
                Tree::Branch(children)
            },
            Tree::Leaf(_) => unreached(),
        }
    }

    /// The leaves from left to right.
    pub fn flatten(self) -> (leaves: Vec<T>)
        ensures
            view_leaves(leaves@) == self@.flatten(),
        decreases self,
    {
        match self {
            Tree::Leaf(leaf) => {
                let mut leaves = Vec::new();
                leaves.push(leaf);
                assert(view_leaves(leaves@) =~= seq![leaf@]);
                leaves
            },
            Tree::Branch(children) => {
                proof {
                    lemma_view_branch(children);
                }
                let ghost trees = view_trees(children@);
                let ghost kids = children;
                let mut leaves: Vec<T> = Vec::new();
                assert(trees.take(0) =~= Seq::empty());
                assert(view_leaves(leaves@) =~= Seq::empty());
                for child in iter: children
                    invariant
                        trees == view_trees(children@),
                        kids == children,
                        decreases_to!(self => kids),
                        view_leaves(leaves@) == TreeView::flatten_all(trees.take(iter.index())),
                {
                    let ghost before = view_leaves(leaves@);
                    assert(child == kids[iter.index()]);
                    assert(decreases_to!(kids => kids[iter.index()]));
                    let mut more = child.flatten();
                    leaves.append(&mut more);
                    proof {
                        let i = iter.index();
                        assert(trees.take(i + 1).drop_last() =~= trees.take(i));
                        assert(trees.take(i + 1).last() == child@);
                        assert(view_leaves(leaves@) =~= before + child@.flatten());
                    }
                }
                assert(trees.take(trees.len() as int) =~= trees);
                leaves
            },
        }
    }
}

/// What a local variable is bound to, for one scalar of its type.
#[derive(Debug)]
pub enum Value {
    /// The value itself.
    Normal(ValueId),
    /// A memory slot that holds the value: the address of the slot, and the
    /// type of what it holds. Reads load from the slot and writes store to it.
    Mutable(ValueId, Type),
}

/// The mathematical value of a [`Value`].
pub enum ValueView {
    Normal(ValueId),
    Mutable(ValueId, TypeView),
}

impl View for Value {
    type V = ValueView;

    open spec fn view(&self) -> ValueView {
        match self {
            Value::Normal(value) => ValueView::Normal(*value),
            Value::Mutable(address, typ) => ValueView::Mutable(*address, typ@),
        }
    }
}

impl ValueView {
    /// The value that identifies the binding without reading it: the value
    /// itself, or the address of its slot.
    pub open spec fn eval_reference(self) -> ValueId {
        match self {
            ValueView::Normal(value) => value,
            ValueView::Mutable(address, _) => address,
        }
    }

    /// Whether the binding speaks only of the first `count` values of a
    /// function.
    pub open spec fn below(self, count: nat) -> bool {
        self.eval_reference().0 < count
    }

    /// Reading the binding: the value itself, which needs no instruction, or
    /// what a load from its slot defines. Gives the state of the builder
    /// after the read and the value read.
    pub open spec fn eval(self, builder: BuilderView) -> (BuilderView, ValueId) {
        match self {
            ValueView::Normal(value) => (builder, value),
            ValueView::Mutable(address, typ) => (
                builder.insert_load(address, typ),
                builder.next_value(),
            ),
        }
    }
}

/// The bindings of one variable, shaped like its type.
pub type Values = Tree<Value>;

/// The mathematical value of [`Values`].
pub type ValuesView = TreeView<ValueView>;

impl TreeView<ValueView> {
    /// Whether every binding in the tree speaks only of the first `count`
    /// values of a function.
    pub open spec fn below(self, count: nat) -> bool
        decreases self,
    {
        match self {
            TreeView::Leaf(value) => value.below(count),
            TreeView::Branch(children) => forall|i: int|
                0 <= i < children.len() ==> (#[trigger] children[i]).below(count),
        }
    }
}

/// Bindings that speak only of the first `count` values speak only of the
/// first `more`, if `more` is no less.
pub proof fn lemma_below_monotone(values: ValuesView, count: nat, more: nat)
    requires
        values.below(count),
        count <= more,
    ensures
        values.below(more),
    decreases values,
{
    match values {
        TreeView::Leaf(_) => {},
        TreeView::Branch(children) => {
            assert forall|i: int| 0 <= i < children.len() implies (#[trigger] children[i]).below(
                more,
            ) by {
                lemma_below_monotone(children[i], count, more);
            }
        },
    }
}

impl Value {
    /// The value that identifies the binding without reading it: the value
    /// itself, or the address of its slot.
    pub fn eval_reference(&self) -> (value: ValueId)
        ensures
            value == self@.eval_reference(),
    {
        match self {
            Value::Normal(value) => *value,
            Value::Mutable(address, _) => *address,
        }
    }

    /// Reads the binding: gives the value itself, or inserts a load from its
    /// slot. Only the load can fail.
    pub fn eval(&self, builder: &mut FunctionBuilder) -> (result: Result<ValueId, InternalError>)
        requires
            old(builder)@.wf(),
        ensures
            final(builder)@.continues(old(builder)@),
            result is Err <==> self@ is Mutable && old(builder)@.terminated(),
            match result {
                Ok(value) => {
                    &&& final(builder)@ == self@.eval(old(builder)@).0
                    &&& value == self@.eval(old(builder)@).1
                    &&& self@.below(old(builder)@.dfg().values.len())
                        ==> final(builder)@.has_value(value)
                },
                Err(error) => {
                    &&& final(builder)@ == old(builder)@
                    &&& error == old(builder)@.terminated_error()
                },
            },
    {
        match self {
            Value::Normal(value) => Ok(*value),
            Value::Mutable(address, typ) => builder.insert_load(*address, typ.duplicate()),
        }
    }

    /// A deep copy.
    pub fn duplicate(&self) -> (copy: Value)
        ensures
            copy@ == self@,
    {
        match self {
            Value::Normal(value) => Value::Normal(*value),
            Value::Mutable(address, typ) => Value::Mutable(*address, typ.duplicate()),
        }
    }
}

/// A deep copy of the bindings of a variable.
pub fn duplicate_values(values: &Values) -> (copy: Values)
    ensures
        copy@ == values@,
    decreases values,
{
    match values {
        Tree::Leaf(value) => Tree::Leaf(value.duplicate()),
        Tree::Branch(children) => {
            let mut copies: Vec<Values> = Vec::new();
            let mut i: usize = 0;
            while i < children.len()
                invariant
                    i <= children.len(),
                    copies.len() == i,
                    forall|j: int| 0 <= j < i ==> copies[j]@ == children[j]@,
                    decreases_to!(values => children),
                decreases children.len() - i,
            {
                copies.push(duplicate_values(&children[i]));
                i += 1;
            }
            proof {
                lemma_view_branch(*children);
                lemma_view_branch(copies);
                assert(view_trees(copies@) =~= view_trees(children@));
            }
            Tree::Branch(copies)
        },
    }
}

} // verus!
