use vstd::prelude::*;

verus! {

/// A numeric type of the representation. The native field counts as numeric,
/// although it has no order and no bit width of its own.
#[derive(Copy, Clone, Debug, PartialEq, Eq, Hash, Structural)]
pub enum NumericType {
    Signed { bit_size: u32 },
    Unsigned { bit_size: u32 },
    NativeField,
}

impl NumericType {
    /// The declared width of an integer type; the native field has none.
    pub open spec fn spec_bit_size(self) -> Option<u32> {
        match self {
            NumericType::Signed { bit_size } => Some(bit_size),
            NumericType::Unsigned { bit_size } => Some(bit_size),
            NumericType::NativeField => None,
        }
    }

    #[verifier::when_used_as_spec(spec_bit_size)]
    pub fn bit_size(self) -> (bits: Option<u32>)
        ensures
            bits == self.spec_bit_size(),
    {
        match self {
            NumericType::Signed { bit_size } => Some(bit_size),
            NumericType::Unsigned { bit_size } => Some(bit_size),
            NumericType::NativeField => None,
        }
    }
}

/// Every type a value of the representation can have.
///
/// Arrays and slices record the types of the scalars that make up one element,
/// so an array of pairs has two element types and occupies two slots for each
/// logical index.
#[derive(Debug)]
pub enum Type {
    /// Integers and field elements.
    Numeric(NumericType),
    /// A reference to a memory slot.
    Reference,
    /// A fixed-length array: the scalar types of one element, and the length.
    Array(Vec<Type>, usize),
    /// A slice: the scalar types of one element.
    Slice(Vec<Type>),
    /// A function that may be called directly.
    Function,
    /// The type with a single value.
    Unit,
}

/// The mathematical value of a [`Type`].
pub enum TypeView {
    Numeric(NumericType),
    Reference,
    Array(Seq<TypeView>, usize),
    Slice(Seq<TypeView>),
    Function,
    Unit,
}

impl View for Type {
    type V = TypeView;

    open spec fn view(&self) -> TypeView
        decreases self,
    {
        match self {
            Type::Numeric(numeric) => TypeView::Numeric(*numeric),
            Type::Reference => TypeView::Reference,
            Type::Array(elements, length) => TypeView::Array(
                Seq::new(
                    elements@.len(),
                    |i: int|
                        if 0 <= i < elements@.len() {
                            elements@[i].view()
                        } else {
                            TypeView::Unit
                        },
                ),
                *length,
            ),
            Type::Slice(elements) => TypeView::Slice(
                Seq::new(
                    elements@.len(),
                    |i: int|
                        if 0 <= i < elements@.len() {
                            elements@[i].view()
                        } else {
                            TypeView::Unit
                        },
                ),
            ),
            Type::Function => TypeView::Function,
            Type::Unit => TypeView::Unit,
        }
    }
}

/// The values of a sequence of types, in order.
pub open spec fn view_types(types: Seq<Type>) -> Seq<TypeView> {
    Seq::new(types.len(), |i: int| types[i]@)
}

/// The view of an array type lists the views of its element types.
pub proof fn lemma_view_array(elements: Vec<Type>, length: usize)
    ensures
        Type::Array(elements, length)@ == TypeView::Array(view_types(elements@), length),
{
    reveal_with_fuel(<Type as View>::view, 2);
    assert(Type::Array(elements, length)@->Array_0 =~= view_types(elements@));
}

/// The view of a slice type lists the views of its element types.
pub proof fn lemma_view_slice(elements: Vec<Type>)
    ensures
        Type::Slice(elements)@ == TypeView::Slice(view_types(elements@)),
{
    reveal_with_fuel(<Type as View>::view, 2);
    assert(Type::Slice(elements)@->Slice_0 =~= view_types(elements@));
}

impl TypeView {
    /// The one-bit unsigned integer that stands for a boolean.
    pub open spec fn bool() -> TypeView {
        TypeView::Numeric(NumericType::Unsigned { bit_size: 1 })
    }

    /// The native field.
    pub open spec fn field() -> TypeView {
        TypeView::Numeric(NumericType::NativeField)
    }

    /// The eight-bit unsigned integer that stands for a character.
    pub open spec fn char() -> TypeView {
        TypeView::Numeric(NumericType::Unsigned { bit_size: 8 })
    }

    /// The declared width, if this is an integer type.
    pub open spec fn bit_size(self) -> Option<u32> {
        match self {
            TypeView::Numeric(numeric) => numeric.spec_bit_size(),
            _ => None,
        }
    }
}

/// Copies a list of types element by element.
pub fn duplicate_types(types: &Vec<Type>) -> (copies: Vec<Type>)
    ensures
        view_types(copies@) == view_types(types@),
    decreases types,
{
    let mut copies: Vec<Type> = Vec::new();
    let mut i: usize = 0;
    while i < types.len()
        invariant
            i <= types.len(),
            copies.len() == i,
            forall|j: int| 0 <= j < i ==> copies[j]@ == types[j]@,
        decreases types.len() - i,
    {
        copies.push(types[i].duplicate());
        i += 1;
    }
    assert(view_types(copies@) =~= view_types(types@));
    copies
}

/// Decides whether two lists of types hold equal types at every position.
pub fn same_types(left: &Vec<Type>, right: &Vec<Type>) -> (same: bool)
    ensures
        same == (view_types(left@) == view_types(right@)),
    decreases left,
{
    if left.len() != right.len() {
        assert(view_types(left@).len() != view_types(right@).len());
        return false;
    }
    let mut i: usize = 0;
    while i < left.len()
        invariant
            i <= left.len(),
            left.len() == right.len(),
            forall|j: int| 0 <= j < i ==> left[j]@ == right[j]@,
        decreases left.len() - i,
    {
        if !left[i].same(&right[i]) {
            assert(view_types(left@)[i as int] != view_types(right@)[i as int]);
            return false;
        }
        i += 1;
    }
    assert(view_types(left@) =~= view_types(right@));
    true
}

impl Type {
    /// A signed integer of the given width.
    pub fn signed(bit_size: u32) -> (typ: Type)
        ensures
            typ@ == TypeView::Numeric(NumericType::Signed { bit_size }),
    {
        Type::Numeric(NumericType::Signed { bit_size })
    }

    /// An unsigned integer of the given width.
    pub fn unsigned(bit_size: u32) -> (typ: Type)
        ensures
            typ@ == TypeView::Numeric(NumericType::Unsigned { bit_size }),
    {
        Type::Numeric(NumericType::Unsigned { bit_size })
    }

    /// The native field.
    pub fn field() -> (typ: Type)
        ensures
            typ@ == TypeView::field(),
    {
        Type::Numeric(NumericType::NativeField)
    }

    /// The one-bit unsigned integer that stands for a boolean.
    pub fn bool() -> (typ: Type)
        ensures
            typ@ == TypeView::bool(),
    {
        Type::unsigned(1)
    }

    /// The eight-bit unsigned integer that stands for a character.
    pub fn char() -> (typ: Type)
        ensures
            typ@ == TypeView::char(),
    {
        Type::unsigned(8)
    }

    /// A deep copy.
    pub fn duplicate(&self) -> (copy: Type)
        ensures
            copy@ == self@,
        decreases self,
    {
        match self {
            Type::Numeric(numeric) => Type::Numeric(*numeric),
            Type::Reference => Type::Reference,
            Type::Array(elements, length) => {
                let copies = duplicate_types(elements);
                proof {
                    lemma_view_array(*elements, *length);
                    lemma_view_array(copies, *length);
                }
                Type::Array(copies, *length)
            },
            Type::Slice(elements) => {
                let copies = duplicate_types(elements);
                proof {
                    lemma_view_slice(*elements);
                    lemma_view_slice(copies);
                }
                Type::Slice(copies)
            },
            Type::Function => Type::Function,
            Type::Unit => Type::Unit,
        }
    }

    /// Decides whether two types are equal.
    pub fn same(&self, other: &Type) -> (same: bool)
        ensures
            same == (self@ == other@),
        decreases self,
    {
        match (self, other) {
            (Type::Numeric(left), Type::Numeric(right)) => *left == *right,
            (Type::Reference, Type::Reference) => true,
            (Type::Array(left, left_length), Type::Array(right, right_length)) => {
                proof {
                    lemma_view_array(*left, *left_length);
                    lemma_view_array(*right, *right_length);
                }
                *left_length == *right_length && same_types(left, right)
            },
            (Type::Slice(left), Type::Slice(right)) => {
                proof {
                    lemma_view_slice(*left);
                    lemma_view_slice(*right);
                }
                same_types(left, right)
            },
            (Type::Function, Type::Function) => true,
            (Type::Unit, Type::Unit) => true,
            _ => false,
        }
    }

    /// The declared width, if this is an integer type.
    pub fn bit_size(&self) -> (bits: Option<u32>)
        ensures
            bits == self@.bit_size(),
    {
        match self {
            Type::Numeric(numeric) => numeric.bit_size(),
            _ => None,
        }
    }

    /// Whether this is a fixed-length array type.
    pub fn is_array(&self) -> (array: bool)
        ensures
            array == (self@ is Array),
    {
        match self {
            Type::Array(_, _) => true,
            _ => false,
        }
    }
}

} // verus!
