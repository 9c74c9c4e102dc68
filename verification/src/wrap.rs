//! Two's complement wrapping of mathematical integers to 32 bits.

use vstd::prelude::*;

verus! {

/// The value that the low 32 bits of `x` have as an unsigned number.
pub open spec fn wrap_u32(x: int) -> int {
    x % 0x1_0000_0000
}

/// The value that the low 32 bits of `x` have as a signed number.
pub open spec fn wrap_i32(x: int) -> int {
    let low = x % 0x1_0000_0000;
    if low >= 0x8000_0000 {
        low - 0x1_0000_0000
    } else {
        low
    }
}

/// Wrapping a sum is the same whether or not a summand was wrapped before.
pub proof fn lemma_wrap_add(x: int, y: int)
    ensures
        wrap_u32(wrap_u32(x) + y) == wrap_u32(x + y),
        wrap_u32(wrap_i32(x) + y) == wrap_u32(x + y),
        wrap_i32(wrap_i32(x) + y) == wrap_i32(x + y),
        wrap_i32(wrap_u32(x) + y) == wrap_i32(x + y),
{
}

/// A signed machine integer, reinterpreted as unsigned.
pub fn to_unsigned(x: i32) -> (r: u32)
    ensures
        r == wrap_u32(x as int),
{
    0u32.wrapping_add_signed(x)
}

} // verus!
