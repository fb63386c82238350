//! Equality and order of IEEE-754 binary32 values, read from their bit patterns.
use vstd::prelude::*;

verus! {

/// The bit that marks a negative value.
pub const SIGN_BIT: u32 = 0x8000_0000;

/// The bit pattern of positive infinity: every larger magnitude is a NaN.
pub const INFINITY_BITS: u32 = 0x7f80_0000;

/// The value without its sign bit.
pub open spec fn magnitude(b: u32) -> u32 {
    b % SIGN_BIT
}

pub open spec fn is_negative(b: u32) -> bool {
    b >= SIGN_BIT
}

/// All exponent bits set and a non-zero fraction.
pub open spec fn is_nan(b: u32) -> bool {
    magnitude(b) > INFINITY_BITS
}

/// The position of a non-NaN value on the number line: equal values
/// (`+0.0` and `-0.0` included) share a rank, and a larger value has a
/// larger rank.
pub open spec fn rank(b: u32) -> int {
    if is_negative(b) {
        -(magnitude(b) as int)
    } else {
        magnitude(b) as int
    }
}

/// IEEE-754 equality: a NaN equals nothing, the two zeros are equal, and
/// otherwise two values are equal exactly when their bits are.
pub open spec fn float_eq(a: u32, b: u32) -> bool {
    &&& !is_nan(a)
    &&& !is_nan(b)
    &&& (a == b || (magnitude(a) == 0 && magnitude(b) == 0))
}

/// IEEE-754 `<`: false whenever a NaN takes part.
pub open spec fn float_lt(a: u32, b: u32) -> bool {
    &&& !is_nan(a)
    &&& !is_nan(b)
    &&& rank(a) < rank(b)
}

/// `a == b` on the two values that the bit patterns encode.
pub fn same_value(a: u32, b: u32) -> (r: bool)
    ensures
        r == float_eq(a, b),
{
    let ma = a % SIGN_BIT;
    let mb = b % SIGN_BIT;
    ma <= INFINITY_BITS && mb <= INFINITY_BITS && (a == b || (ma == 0 && mb == 0))
}

/// `a < b` on the two values that the bit patterns encode.
pub fn less_than(a: u32, b: u32) -> (r: bool)
    ensures
        r == float_lt(a, b),
{
    let ma = a % SIGN_BIT;
    let mb = b % SIGN_BIT;
    if ma > INFINITY_BITS || mb > INFINITY_BITS {
        return false;
    }
    let na = a >= SIGN_BIT;
    let nb = b >= SIGN_BIT;
    if na && nb {
        mb < ma
    } else if na {
        !(ma == 0 && mb == 0)
    } else if nb {
        false
    } else {
        ma < mb
    }
}

} // verus!
