use vstd::prelude::*;
use crate::ast;
use crate::ast::Signedness;
use crate::ir::types::{lemma_view_array, lemma_view_slice, NumericType, Type, TypeView, view_types};
use crate::context::FunctionContext;
use crate::value::{
    fails_on, lemma_view_branch, mapped, Tree, TreeView, try_mapped, view_leaves, view_trees,
};

verus! {

impl<V> TreeView<V> {
    /// The tree of the same shape in which every leaf is `leaf`.
    pub open spec fn with_leaves<W>(self, leaf: W) -> TreeView<W>
        decreases self,
    {
        match self {
            TreeView::Branch(children) => TreeView::Branch(
                Seq::new(
                    children.len(),
                    |i: int|
                        if 0 <= i < children.len() {
                            children[i].with_leaves(leaf)
                        } else {
                            TreeView::Leaf(leaf)
                        },
                ),
            ),
            TreeView::Leaf(_) => TreeView::Leaf(leaf),
        }
    }
}

/// A branch is relabelled child by child.
pub proof fn lemma_with_leaves_branch<V, W>(children: Seq<TreeView<V>>, leaf: W)
    ensures
        TreeView::Branch(children).with_leaves(leaf) == TreeView::Branch(
            Seq::new(children.len(), |i: int| children[i].with_leaves(leaf)),
        ),
{
    reveal_with_fuel(TreeView::with_leaves, 2);
    assert(TreeView::Branch(children).with_leaves(leaf)->Branch_0 =~= Seq::new(
        children.len(),
        |i: int| children[i].with_leaves(leaf),
    ));
}

/// The type of a string of `length` characters: an array of that many
/// characters.
pub open spec fn string_type(length: u64) -> TypeView {
    TypeView::Array(seq![TypeView::char()], length as usize)
}

/// The shape of a surface type in the representation, which has scalars
/// only: a tuple is a branch over its fields, the unit type is a branch
/// without children, a mutable reference has the shape of what it refers to
/// with a reference at every leaf, a formatted string is the triple of its
/// message, its number of fields and its captured values, and every other
/// type is one leaf.
pub open spec fn flatten_type(typ: ast::Type) -> TreeView<TypeView>
    decreases typ, 1nat,
{
    match typ {
        ast::Type::Tuple(fields) => TreeView::Branch(
            Seq::new(
                fields@.len(),
                |i: int|
                    if 0 <= i < fields@.len() {
                        flatten_type(fields@[i])
                    } else {
                        TreeView::empty()
                    },
            ),
        ),
        ast::Type::Unit => TreeView::empty(),
        ast::Type::MutableReference(element) => flatten_type(*element).with_leaves(
            TypeView::Reference,
        ),
        ast::Type::FmtString(length, captures) => TreeView::Branch(
            seq![
                TreeView::Leaf(string_type(length)),
                TreeView::Leaf(TypeView::field()),
                flatten_type(*captures),
            ],
        ),
        other => TreeView::Leaf(scalar_type(other)),
    }
}

/// The type of the single leaf that stands for a surface type which is
/// neither a tuple, nor the unit type, nor a formatted string.
pub open spec fn scalar_type(typ: ast::Type) -> TypeView
    decreases typ, 0nat,
{
    match typ {
        ast::Type::Field => TypeView::field(),
        ast::Type::Array(length, element) => TypeView::Array(
            flatten_type(*element).flatten(),
            length as usize,
        ),
        ast::Type::Integer(Signedness::Signed, bit_size) => TypeView::Numeric(
            NumericType::Signed { bit_size },
        ),
        ast::Type::Integer(Signedness::Unsigned, bit_size) => TypeView::Numeric(
            NumericType::Unsigned { bit_size },
        ),
        ast::Type::Bool => TypeView::bool(),
        ast::Type::String(length) => string_type(length),
        ast::Type::Function(_, _) => TypeView::Function,
        ast::Type::Slice(element) => TypeView::Slice(flatten_type(*element).flatten()),
        ast::Type::MutableReference(_) => TypeView::Reference,
        _ => TypeView::Unit,
    }
}

/// Whether a surface type is represented by a single leaf: it is no tuple,
/// not the unit type and no formatted string, and if it is a mutable
/// reference, what it refers to is represented by a single leaf.
pub open spec fn is_scalar(typ: ast::Type) -> bool
    decreases typ,
{
    match typ {
        ast::Type::Tuple(_) | ast::Type::Unit | ast::Type::FmtString(_, _) => false,
        ast::Type::MutableReference(element) => is_scalar(*element),
        _ => true,
    }
}

/// The shapes of a sequence of surface types, in order.
pub open spec fn flatten_types(types: Seq<ast::Type>) -> Seq<TreeView<TypeView>> {
    Seq::new(types.len(), |i: int| flatten_type(types[i]))
}

/// The shape of a tuple lists the shapes of its fields.
pub proof fn lemma_flatten_tuple(fields: Vec<ast::Type>)
    ensures
        flatten_type(ast::Type::Tuple(fields)) == TreeView::Branch(flatten_types(fields@)),
{
    reveal_with_fuel(flatten_type, 2);
    assert(flatten_type(ast::Type::Tuple(fields))->Branch_0 =~= flatten_types(fields@));
}

/// The number of scalars that one value of a surface type is made of.
pub open spec fn scalar_count(typ: ast::Type) -> nat {
    flatten_type(typ).count_leaves()
}

/// Builds the tree of the same shape in which every leaf is a reference.
pub fn references(tree: &Tree<Type>) -> (relabelled: Tree<Type>)
    ensures
        relabelled@ == tree@.with_leaves(TypeView::Reference),
    decreases tree,
{
    match tree {
        Tree::Leaf(_) => Tree::Leaf(Type::Reference),
        Tree::Branch(children) => {
            let mut relabelled: Vec<Tree<Type>> = Vec::new();
            let mut i: usize = 0;
            while i < children.len()
                invariant
                    i <= children.len(),
                    relabelled.len() == i,
                    forall|j: int|
                        0 <= j < i ==> relabelled[j]@ == children[j]@.with_leaves(
                            TypeView::Reference,
                        ),
                    decreases_to!(tree => children),
                decreases children.len() - i,
            {
                relabelled.push(references(&children[i]));
                i += 1;
            }
            proof {
                lemma_view_branch(*children);
                lemma_view_branch(relabelled);
                lemma_with_leaves_branch(view_trees(children@), TypeView::Reference);
                assert(view_trees(relabelled@) =~= Seq::new(
                    children@.len(),
                    |i: int| view_trees(children@)[i].with_leaves(TypeView::Reference),
                ));
            }
            Tree::Branch(relabelled)
        },
    }
}

impl FunctionContext {
    /// Maps the given type to a tree of the same shape: `f` is applied to
    /// the type of each scalar, from left to right.
    pub fn map_type<T, F: Fn(Type) -> T>(typ: &ast::Type, f: &F) -> (tree: Tree<T>)
        requires
            forall|leaf: Type| call_requires(*f, (leaf,)),
        ensures
            exists|shape: Tree<Type>| shape@ == flatten_type(*typ) && mapped(shape, tree, *f),
    {
        let shape = Self::convert_type(typ);
        shape.map(f)
    }

    /// Maps the given type to a tree of the same shape: `f` is applied to
    /// the type of each scalar, from left to right, until it fails.
    pub fn try_map_type<T, E, F: Fn(Type) -> Result<T, E>>(typ: &ast::Type, f: &F) -> (result:
        Result<Tree<T>, E>)
        requires
            forall|leaf: Type| call_requires(*f, (leaf,)),
        ensures
            exists|shape: Tree<Type>|
                shape@ == flatten_type(*typ) && match result {
                    Ok(tree) => try_mapped(shape, tree, *f),
                    Err(error) => fails_on(shape, error, *f),
                },
    {
        let shape = Self::convert_type(typ);
        shape.try_map(f)
    }

    /// Converts a surface type to the types of the representation, keeping
    /// the nesting of its tuples.
    pub fn convert_type(typ: &ast::Type) -> (tree: Tree<Type>)
        ensures
            tree@ == flatten_type(*typ),
        decreases typ, 1nat,
    {
        match typ {
            ast::Type::Tuple(fields) => {
                let mut children: Vec<Tree<Type>> = Vec::new();
                let mut i: usize = 0;
                while i < fields.len()
                    invariant
                        i <= fields.len(),
                        children.len() == i,
                        forall|j: int| 0 <= j < i ==> children[j]@ == flatten_type(fields[j]),
                        decreases_to!(typ => fields),
                    decreases fields.len() - i,
                {
                    children.push(Self::convert_type(&fields[i]));
                    i += 1;
                }
                proof {
                    lemma_view_branch(children);
                    lemma_flatten_tuple(*fields);
                    assert(view_trees(children@) =~= flatten_types(fields@));
                }
                Tree::Branch(children)
            },
            ast::Type::Unit => Tree::empty(),
            ast::Type::MutableReference(element) => {
                let shape = Self::convert_type(element);
                references(&shape)
            },
            ast::Type::FmtString(length, captures) => {
                let mut characters: Vec<Type> = Vec::new();
                characters.push(Type::char());
                let message = Type::Array(characters, *length as usize);
                let mut children: Vec<Tree<Type>> = Vec::new();
                children.push(Tree::Leaf(message));
                children.push(Tree::Leaf(Type::field()));
                children.push(Self::convert_type(captures));
                proof {
                    lemma_view_array(characters, *length as usize);
                    assert(view_types(characters@) =~= seq![TypeView::char()]);
                    lemma_view_branch(children);
                    assert(view_trees(children@) =~= seq![
                        TreeView::Leaf(string_type(*length)),
                        TreeView::Leaf(TypeView::field()),
                        flatten_type(**captures),
                    ]);
                }
                Tree::Branch(children)
            },
            other => Tree::Leaf(Self::convert_non_tuple_type(other)),
        }
    }

    /// Converts a surface type that is represented by a single leaf to the
    /// type of that leaf.
    ///
    /// The representation has no tuples and so no type for them; types that
    /// may hold tuples go through `convert_type`.
    pub fn convert_non_tuple_type(typ: &ast::Type) -> (converted: Type)
        requires
            is_scalar(*typ),
        ensures
            converted@ == scalar_type(*typ),
        decreases typ, 0nat,
    {
        match typ {
            ast::Type::Field => Type::field(),
            ast::Type::Array(length, element) => {
                let element_types = Self::convert_type(element).flatten();
                proof {
                    lemma_view_array(element_types, *length as usize);
                    assert(view_types(element_types@) =~= view_leaves(element_types@));
                }
                Type::Array(element_types, *length as usize)
            },
            ast::Type::Integer(Signedness::Signed, bits) => Type::signed(*bits),
            ast::Type::Integer(Signedness::Unsigned, bits) => Type::unsigned(*bits),
            ast::Type::Bool => Type::unsigned(1),
            ast::Type::String(length) => {
                let mut characters: Vec<Type> = Vec::new();
                characters.push(Type::char());
                proof {
                    lemma_view_array(characters, *length as usize);
                    assert(view_types(characters@) =~= seq![TypeView::char()]);
                }
                Type::Array(characters, *length as usize)
            },
            ast::Type::Function(_, _) => Type::Function,
            ast::Type::Slice(element) => {
                let element_types = Self::convert_type(element).flatten();
                proof {
                    lemma_view_slice(element_types);
                    assert(view_types(element_types@) =~= view_leaves(element_types@));
                }
                Type::Slice(element_types)
            },
            ast::Type::MutableReference(_) => Type::Reference,
            _ => unreached(),
        }
    }
}

} // verus!
