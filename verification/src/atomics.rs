//! The parts of `Atomics` that are not arithmetic on numbers of the script.
use crate::text;
use vstd::prelude::*;

verus! {

/// Whether elements of this many bytes are read and written at once; four where nothing is said.
pub fn atomics_is_lock_free(size: Option<u32>) -> (r: bool)
    ensures
        r == match size {
            Some(n) => n == 1 || n == 2 || n == 4 || n == 8,
            None => true,
        },
{
    match size {
        Some(n) => n == 1 || n == 2 || n == 4 || n == 8,
        None => true,
    }
}

/// How waiting for an element ends: at once, since nobody else could change it.
pub fn atomics_wait(differs: bool) -> (r: String)
    ensures
        r@ == if differs {
            "not-equal"@
        } else {
            "ok"@
        },
{
    if differs {
        text::copy("not-equal")
    } else {
        text::copy("ok")
    }
}

/// An operation on the bits of two integers.
#[derive(Clone, Copy, PartialEq, Eq, Structural, Debug)]
pub enum BitOp {
    And,
    Or,
    Xor,
}

/// The bits of two integers combined.
pub open spec fn combined(op: BitOp, a: i64, b: i64) -> i64 {
    match op {
        BitOp::And => a & b,
        BitOp::Or => a | b,
        BitOp::Xor => a ^ b,
    }
}

/// What an element becomes by an operation on its bits.
pub fn atomics_bits(op: BitOp, a: i64, b: i64) -> (r: i64)
    ensures
        r == match op {
            BitOp::And => a & b,
            BitOp::Or => a | b,
            BitOp::Xor => a ^ b,
        },
        r == combined(op, a, b),
{
    match op {
        BitOp::And => a & b,
        BitOp::Or => a | b,
        BitOp::Xor => a ^ b,
    }
}

/// Keeping bits takes none that is not in both, setting bits loses none of either, and flipping gives
/// the bits that are set but not in both; flipping the same bits twice gives the element back.
pub proof fn bits_are_combined(a: i64, b: i64)
    ensures
        combined(BitOp::And, a, 0) == 0,
        combined(BitOp::And, a, a) == a,
        combined(BitOp::And, combined(BitOp::And, a, b), a) == combined(BitOp::And, a, b),
        combined(BitOp::And, combined(BitOp::And, a, b), b) == combined(BitOp::And, a, b),
        combined(BitOp::Or, a, 0) == a,
        combined(BitOp::And, combined(BitOp::Or, a, b), a) == a,
        combined(BitOp::And, combined(BitOp::Or, a, b), b) == b,
        combined(BitOp::Xor, combined(BitOp::And, a, b), combined(BitOp::Or, a, b)) == combined(
            BitOp::Xor,
            a,
            b,
        ),
        combined(BitOp::Xor, combined(BitOp::Xor, a, b), b) == a,
{
    assert(a & 0 == 0) by (bit_vector);
    assert(a & a == a) by (bit_vector);
    assert((a & b) & a == a & b) by (bit_vector);
    assert((a & b) & b == a & b) by (bit_vector);
    assert(a | 0 == a) by (bit_vector);
    assert((a | b) & a == a) by (bit_vector);
    assert((a | b) & b == b) by (bit_vector);
    assert((a & b) ^ (a | b) == a ^ b) by (bit_vector);
    assert((a ^ b) ^ b == a) by (bit_vector);
}

/// Flipping the same bits twice leaves an element as it was.
pub proof fn flipping_twice_is_nothing(a: i64, b: i64)
    ensures
        (a ^ b) ^ b == a,
{
    assert((a ^ b) ^ b == a) by (bit_vector);
}

} // verus!
