use vstd::prelude::*;

verus! {

/// The sign bit of a double.
pub const SIGN_BIT: u64 = 0x8000_0000_0000_0000;

/// The bits of a double below its sign bit.
pub const MAGNITUDE_BITS: u64 = 0x7fff_ffff_ffff_ffff;

/// The exponent bits of a double.
pub const EXPONENT_BITS: u64 = 0x7ff0_0000_0000_0000;

/// The fraction bits of a double.
pub const FRACTION_BITS: u64 = 0x000f_ffff_ffff_ffff;

/// How two values stand to each other.
#[derive(Clone, Copy, Debug, PartialEq, Eq, Structural)]
pub enum Order {
    Less,
    Equal,
    Greater,
}

/// Whether the double with these bits is not a number: all exponent bits are
/// set and some fraction bit is.
pub open spec fn is_nan(bits: u64) -> bool {
    bits & EXPONENT_BITS == EXPONENT_BITS && bits & FRACTION_BITS != 0
}

/// Where the double with these bits stands among the doubles: the bits below
/// the sign count its steps from zero, and the sign says to which side. Both
/// zeros stand at 0.
pub open spec fn position(bits: u64) -> int {
    if bits & SIGN_BIT != 0 {
        -((bits & MAGNITUDE_BITS) as int)
    } else {
        (bits & MAGNITUDE_BITS) as int
    }
}

/// How the doubles with these bits compare: not at all where one is not a
/// number, else as their positions do.
pub open spec fn compared(a: u64, b: u64) -> Option<Order> {
    if is_nan(a) || is_nan(b) {
        None
    } else if position(a) < position(b) {
        Some(Order::Less)
    } else if position(a) == position(b) {
        Some(Order::Equal)
    } else {
        Some(Order::Greater)
    }
}

/// The bits of the double of opposite sign.
pub open spec fn negated(bits: u64) -> u64 {
    bits ^ SIGN_BIT
}

/// Whether the double with these bits is not a number.
pub fn not_a_number(bits: u64) -> (r: bool)
    ensures
        r == is_nan(bits),
{
    bits & EXPONENT_BITS == EXPONENT_BITS && bits & FRACTION_BITS != 0
}

/// The double of opposite sign.
pub fn negate(bits: u64) -> (r: u64)
    ensures
        r == negated(bits),
{
    bits ^ SIGN_BIT
}

/// Compares two doubles by their bits.
pub fn compare(a: u64, b: u64) -> (r: Option<Order>)
    ensures
        r == compared(a, b),
{
    if not_a_number(a) || not_a_number(b) {
        return None;
    }
    let a_negative = a & SIGN_BIT != 0;
    let b_negative = b & SIGN_BIT != 0;
    let a_size = a & MAGNITUDE_BITS;
    let b_size = b & MAGNITUDE_BITS;
    if a_negative {
        if b_negative {
            if a_size > b_size {
                Some(Order::Less)
            } else if a_size == b_size {
                Some(Order::Equal)
            } else {
                Some(Order::Greater)
            }
        } else if a_size == 0 && b_size == 0 {
            Some(Order::Equal)
        } else {
            Some(Order::Less)
        }
    } else if b_negative {
        if a_size == 0 && b_size == 0 {
            Some(Order::Equal)
        } else {
            Some(Order::Greater)
        }
    } else if a_size < b_size {
        Some(Order::Less)
    } else if a_size == b_size {
        Some(Order::Equal)
    } else {
        Some(Order::Greater)
    }
}

} // verus!
