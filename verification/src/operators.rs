use vstd::prelude::*;
use vstd::arithmetic::power2::{
    lemma_pow2_adds, lemma_pow2_pos, lemma_pow2_strictly_increases, lemma_pow2_unfold, pow2,
};
use vstd::bits::{lemma_u32_pow2_no_overflow, lemma_u32_shl_is_mul};
use crate::ast::BinaryOpKind;
use crate::ir::dfg::DataFlowGraph;
use crate::ir::instruction::BinaryOp;
use crate::ir::types::TypeView;
use crate::ir::value::ValueId;

verus! {

/// The instruction that a surface operator is built on. The four operators
/// without an instruction of their own borrow `Eq` or `Lt`; what else they
/// need is told by [`requires_not`] and [`requires_swapped_operands`].
pub open spec fn base_operator(op: BinaryOpKind) -> BinaryOp {
    match op {
        BinaryOpKind::Add => BinaryOp::Add,
        BinaryOpKind::Subtract => BinaryOp::Sub,
        BinaryOpKind::Multiply => BinaryOp::Mul,
        BinaryOpKind::Divide => BinaryOp::Div,
        BinaryOpKind::Modulo => BinaryOp::Mod,
        BinaryOpKind::Equal | BinaryOpKind::NotEqual => BinaryOp::Eq,
        BinaryOpKind::Less | BinaryOpKind::Greater | BinaryOpKind::LessEqual
        | BinaryOpKind::GreaterEqual => BinaryOp::Lt,
        BinaryOpKind::And => BinaryOp::And,
        BinaryOpKind::Or => BinaryOp::Or,
        BinaryOpKind::Xor => BinaryOp::Xor,
        BinaryOpKind::ShiftRight => BinaryOp::Shr,
        BinaryOpKind::ShiftLeft => BinaryOp::Shl,
    }
}

/// Whether the result of the base instruction has to be negated.
pub open spec fn requires_not(op: BinaryOpKind) -> bool {
    op is NotEqual || op is LessEqual || op is GreaterEqual
}

/// Whether the operands change places before the base instruction.
pub open spec fn requires_swapped_operands(op: BinaryOpKind) -> bool {
    op is Greater || op is LessEqual
}

/// Converts the given operator to the instruction it is built on.
///
/// The instruction alone does not represent the operator: the operands may
/// have to change places first and the result may have to be negated.
pub fn convert_operator(op: BinaryOpKind) -> (base: BinaryOp)
    ensures
        base == base_operator(op),
{
    match op {
        BinaryOpKind::Add => BinaryOp::Add,
        BinaryOpKind::Subtract => BinaryOp::Sub,
        BinaryOpKind::Multiply => BinaryOp::Mul,
        BinaryOpKind::Divide => BinaryOp::Div,
        BinaryOpKind::Modulo => BinaryOp::Mod,
        BinaryOpKind::Equal => BinaryOp::Eq,
        BinaryOpKind::NotEqual => BinaryOp::Eq,
        BinaryOpKind::Less => BinaryOp::Lt,
        BinaryOpKind::Greater => BinaryOp::Lt,
        BinaryOpKind::LessEqual => BinaryOp::Lt,
        BinaryOpKind::GreaterEqual => BinaryOp::Lt,
        BinaryOpKind::And => BinaryOp::And,
        BinaryOpKind::Or => BinaryOp::Or,
        BinaryOpKind::Xor => BinaryOp::Xor,
        BinaryOpKind::ShiftRight => BinaryOp::Shr,
        BinaryOpKind::ShiftLeft => BinaryOp::Shl,
    }
}

/// True if the given operator has no instruction of its own and is the
/// negation of one that has.
pub fn operator_requires_not(op: BinaryOpKind) -> (negate: bool)
    ensures
        negate == requires_not(op),
{
    match op {
        BinaryOpKind::NotEqual | BinaryOpKind::LessEqual | BinaryOpKind::GreaterEqual => true,
        _ => false,
    }
}

/// True if the given operator is represented with its operands exchanged:
/// `a > b` is `b < a`.
pub fn operator_requires_swapped_operands(op: BinaryOpKind) -> (swap: bool)
    ensures
        swap == requires_swapped_operands(op),
{
    match op {
        BinaryOpKind::Greater | BinaryOpKind::LessEqual => true,
        _ => false,
    }
}

/// The number of bits of an element of the native field.
pub open spec fn field_max_bits() -> u32 {
    254
}

/// Calls `acvm::FieldElement::max_num_bits`. The field is the scalar field of
/// BN254, of which that function's documentation says that 254 bits
/// represent an element.
#[verifier::external_body]
fn field_max_num_bits() -> (bits: u32)
    ensures
        bits == field_max_bits(),
{
    acvm::FieldElement::max_num_bits()
}

/// The bits that a left shift may need when the amount is not known: the
/// amount is taken to be the largest of its type, which gives
/// `lhs_bits + 2^rhs_bits - 1`. Where the power or the sum cannot be
/// computed in 32 bits, the field's width stands in.
pub open spec fn shift_left_bound(lhs_bits: u32, rhs_bits: u32, field_bits: u32) -> u32 {
    if rhs_bits >= 32 || pow2(rhs_bits as nat) + lhs_bits > u32::MAX {
        field_bits
    } else {
        (pow2(rhs_bits as nat) + lhs_bits - 1) as u32
    }
}

/// Computes [`shift_left_bound`].
pub fn shift_left_max_bit_size(lhs_bits: u32, rhs_bits: u32, field_bits: u32) -> (bits: u32)
    ensures
        bits == shift_left_bound(lhs_bits, rhs_bits, field_bits),
{
    if rhs_bits >= 32 {
        return field_bits;
    }
    proof {
        lemma_u32_pow2_no_overflow(rhs_bits as nat);
        lemma_u32_shl_is_mul(1, rhs_bits);
    }
    let power: u32 = 1u32 << rhs_bits;
    if power > u32::MAX - lhs_bits {
        return field_bits;
    }
    power + lhs_bits - 1
}

/// The bits that the result of an operation on integers of `lhs_bits` and
/// `rhs_bits` bits may occupy, for the operations that can outgrow their
/// operands. `rhs_constant` is the right operand where it is a constant; a
/// left shift by a constant `k` may occupy `lhs_bits + k` bits.
pub open spec fn max_bit_size(
    op: BinaryOpKind,
    lhs_bits: u32,
    rhs_bits: u32,
    rhs_constant: Option<u128>,
) -> Option<int> {
    match op {
        BinaryOpKind::Add | BinaryOpKind::Subtract => Some(
            if lhs_bits >= rhs_bits {
                lhs_bits + 1
            } else {
                rhs_bits + 1
            },
        ),
        BinaryOpKind::Multiply => Some(lhs_bits + rhs_bits),
        BinaryOpKind::ShiftLeft => Some(
            match rhs_constant {
                Some(amount) => lhs_bits + amount,
                None => shift_left_bound(lhs_bits, rhs_bits, field_max_bits()) as int,
            },
        ),
        _ => None,
    }
}

/// [`max_bit_size`] for operands of the given types; nothing unless both are
/// integers.
pub open spec fn max_bit_size_to_truncate(
    op: BinaryOpKind,
    lhs_type: TypeView,
    rhs_type: TypeView,
    rhs_constant: Option<u128>,
) -> Option<int> {
    match (lhs_type.bit_size(), rhs_type.bit_size()) {
        (Some(lhs_bits), Some(rhs_bits)) => max_bit_size(op, lhs_bits, rhs_bits, rhs_constant),
        _ => None,
    }
}

/// Whether [`max_bit_size_to_truncate`] can be held in 32 bits. This leaves
/// out widths near the largest 32-bit number, and left shifts by a constant
/// that together with the width of the left operand exceeds that number.
pub open spec fn max_bit_size_fits(
    op: BinaryOpKind,
    lhs_type: TypeView,
    rhs_type: TypeView,
    rhs_constant: Option<u128>,
) -> bool {
    match max_bit_size_to_truncate(op, lhs_type, rhs_type, rhs_constant) {
        Some(bits) => bits <= u32::MAX,
        None => true,
    }
}

/// If the result of the operation may occupy more bits than its operands
/// because they are integers, returns the number of bits it may occupy.
pub fn operator_result_max_bit_size_to_truncate(
    op: BinaryOpKind,
    lhs: ValueId,
    rhs: ValueId,
    dfg: &DataFlowGraph,
) -> (bits: Option<u32>)
    requires
        dfg@.has_value(lhs),
        dfg@.has_value(rhs),
        max_bit_size_fits(
            op,
            dfg@.type_of_value(lhs),
            dfg@.type_of_value(rhs),
            dfg@.get_numeric_constant(rhs),
        ),
    ensures
        match max_bit_size_to_truncate(
            op,
            dfg@.type_of_value(lhs),
            dfg@.type_of_value(rhs),
            dfg@.get_numeric_constant(rhs),
        ) {
            Some(bound) => bits == Some(bound as u32),
            None => bits is None,
        },
{
    let lhs_bit_size = match dfg.type_of_value(lhs).bit_size() {
        Some(bits) => bits,
        None => {
            return None;
        },
    };
    let rhs_bit_size = match dfg.type_of_value(rhs).bit_size() {
        Some(bits) => bits,
        None => {
            return None;
        },
    };
    match op {
        BinaryOpKind::Add | BinaryOpKind::Subtract => {
            if lhs_bit_size >= rhs_bit_size {
                Some(lhs_bit_size + 1)
            } else {
                Some(rhs_bit_size + 1)
            }
        },
        BinaryOpKind::Multiply => Some(lhs_bit_size + rhs_bit_size),
        BinaryOpKind::ShiftLeft => {
            match dfg.get_numeric_constant(rhs) {
                Some(amount) => Some(lhs_bit_size + (amount as u32)),
                None => Some(
                    shift_left_max_bit_size(lhs_bit_size, rhs_bit_size, field_max_num_bits()),
                ),
            }
        },
        _ => None,
    }
}

/// What a comparison of the surface language means on two integers.
pub open spec fn comparison(op: BinaryOpKind, lhs: int, rhs: int) -> bool
    recommends
        base_operator(op) is Eq || base_operator(op) is Lt,
{
    match op {
        BinaryOpKind::Equal => lhs == rhs,
        BinaryOpKind::NotEqual => lhs != rhs,
        BinaryOpKind::Less => lhs < rhs,
        BinaryOpKind::LessEqual => lhs <= rhs,
        BinaryOpKind::Greater => lhs > rhs,
        _ => lhs >= rhs,
    }
}

/// What the two comparing instructions mean on two integers.
pub open spec fn base_comparison(op: BinaryOp, lhs: int, rhs: int) -> bool
    recommends
        op is Eq || op is Lt,
{
    if op is Eq {
        lhs == rhs
    } else {
        lhs < rhs
    }
}

/// What the lowered form of a comparison computes: the operands change
/// places if the operator asks for it, the base instruction compares them,
/// and the result is negated if the operator asks for it.
pub open spec fn lowered_comparison(op: BinaryOpKind, lhs: int, rhs: int) -> bool {
    let base = if requires_swapped_operands(op) {
        base_comparison(base_operator(op), rhs, lhs)
    } else {
        base_comparison(base_operator(op), lhs, rhs)
    };
    if requires_not(op) {
        !base
    } else {
        base
    }
}

/// Every comparison of the surface language, on every pair of integers,
/// equals its lowered form: the swap and the negation composed over `Lt` and
/// `Eq`.
pub proof fn lemma_lowered_comparison(op: BinaryOpKind, lhs: int, rhs: int)
    requires
        base_operator(op) is Eq || base_operator(op) is Lt,
    ensures
        lowered_comparison(op, lhs, rhs) == comparison(op, lhs, rhs),
{
}

/// What an operation that can outgrow its operands computes on unbounded
/// naturals; a subtraction that would go below zero is left at zero here.
pub open spec fn wide_result(op: BinaryOpKind, lhs: nat, rhs: nat, amount: nat) -> nat {
    match op {
        BinaryOpKind::Add => lhs + rhs,
        BinaryOpKind::Subtract => if lhs >= rhs {
            (lhs - rhs) as nat
        } else {
            0
        },
        BinaryOpKind::Multiply => lhs * rhs,
        _ => lhs * pow2(amount),
    }
}

/// What a truncation to `bit_size` bits leaves of a value.
pub open spec fn truncate(value: nat, bit_size: u32) -> nat {
    value % pow2(bit_size as nat)
}

/// The width that [`max_bit_size`] gives is enough: whatever an addition, a
/// subtraction that stays above zero, a multiplication or a shift by a known
/// amount yields on unsigned operands of `lhs_bits` and `rhs_bits` bits, it
/// is below two to that width. `amount` is read for a shift alone, where it
/// is the value of the right operand.
pub proof fn lemma_max_bit_size_is_enough(
    op: BinaryOpKind,
    lhs: nat,
    rhs: nat,
    lhs_bits: u32,
    rhs_bits: u32,
    amount: u32,
)
    requires
        op is Add || op is Subtract || op is Multiply || op is ShiftLeft,
        lhs < pow2(lhs_bits as nat),
        rhs < pow2(rhs_bits as nat),
    ensures
        max_bit_size(op, lhs_bits, rhs_bits, Some(amount as u128)) is Some,
        wide_result(op, lhs, rhs, amount as nat) < pow2(
            max_bit_size(op, lhs_bits, rhs_bits, Some(amount as u128))->Some_0 as nat,
        ),
{
    let l = lhs_bits as nat;
    let r = rhs_bits as nat;
    let larger = if l >= r {
        l
    } else {
        r
    };
    lemma_pow2_pos(l);
    lemma_pow2_pos(r);
    if l < larger {
        lemma_pow2_strictly_increases(l, larger);
    }
    if r < larger {
        lemma_pow2_strictly_increases(r, larger);
    }
    lemma_pow2_unfold(larger + 1);
    if op is Multiply {
        lemma_pow2_adds(l, r);
        assert(lhs * rhs < pow2(l) * pow2(r)) by (nonlinear_arith)
            requires
                lhs < pow2(l),
                rhs < pow2(r),
        ;
    }
    if op is ShiftLeft {
        lemma_pow2_adds(l, amount as nat);
        lemma_pow2_pos(amount as nat);
        assert(lhs * pow2(amount as nat) < pow2(l) * pow2(amount as nat)) by (nonlinear_arith)
            requires
                lhs < pow2(l),
                pow2(amount as nat) > 0,
        ;
    }
}

/// A truncation to the declared width leaves the exact result modulo two to
/// that width, not the wider intermediate value.
pub proof fn lemma_truncate_is_modular(op: BinaryOpKind, lhs: nat, rhs: nat, bit_size: u32)
    requires
        op is Add || op is Multiply,
    ensures
        op is Add ==> truncate(wide_result(op, lhs, rhs, 0), bit_size) == (lhs + rhs) % pow2(
            bit_size as nat,
        ),
        op is Multiply ==> truncate(wide_result(op, lhs, rhs, 0), bit_size) == (lhs * rhs) % pow2(
            bit_size as nat,
        ),
        truncate(wide_result(op, lhs, rhs, 0), bit_size) < pow2(bit_size as nat),
{
    lemma_pow2_pos(bit_size as nat);
}

} // verus!
