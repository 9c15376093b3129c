//! Single-precision numbers by their bits.
use vstd::prelude::*;

verus! {

/// The bits of a number without its sign.
pub open spec fn magnitude(bits: u32) -> int {
    if bits >= 0x8000_0000 {
        bits - 0x8000_0000
    } else {
        bits as int
    }
}

/// Whether bits stand for no number.
pub open spec fn is_nan(bits: u32) -> bool {
    magnitude(bits) > 0x7f80_0000
}

/// Whether the numbers behind two bit patterns are equal. The two zeros are,
/// and what is no number equals nothing.
pub open spec fn same_number(a: u32, b: u32) -> bool {
    &&& !is_nan(a)
    &&& !is_nan(b)
    &&& a == b || (magnitude(a) == 0 && magnitude(b) == 0)
}

/// Tests whether the numbers behind two bit patterns are equal.
pub fn numbers_equal(a: u32, b: u32) -> (r: bool)
    ensures
        r == same_number(a, b),
{
    let x: u32 = if a >= 0x8000_0000 {
        a - 0x8000_0000
    } else {
        a
    };
    let y: u32 = if b >= 0x8000_0000 {
        b - 0x8000_0000
    } else {
        b
    };
    x <= 0x7f80_0000 && y <= 0x7f80_0000 && (a == b || (x == 0 && y == 0))
}

/// Every number equals itself and what equals it, the zeros equal each other, and what
/// is no number equals nothing.
pub proof fn law_equality_of_numbers(a: u32, b: u32)
    ensures
        same_number(a, b) == same_number(b, a),
        same_number(a, a) <==> a <= 0x7f80_0000 || 0x8000_0000 <= a <= 0xff80_0000,
        same_number(a, b) && a != b ==> (a == 0 && b == 0x8000_0000) || (a == 0x8000_0000 && b
            == 0),
        same_number(0, 0x8000_0000),
{
}

} // verus!
