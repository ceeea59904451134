use vstd::prelude::*;

verus! {

/// Whether a mathematical integer is representable as an `i32`.
pub open spec fn fits_i32(x: int) -> bool {
    i32::MIN <= x <= i32::MAX
}

/// Whether a mathematical integer is representable as a `usize`.
pub open spec fn fits_usize(x: int) -> bool {
    0 <= x <= usize::MAX
}

/// Integer division rounding towards zero, as Rust's `/` on signed integers does
/// (for a positive divisor).
pub open spec fn div_trunc(a: int, b: int) -> int
    recommends
        b > 0,
{
    if a >= 0 {
        a / b
    } else {
        -((-a) / b)
    }
}

/// `a / b` on `i32` values, with the rounding of Rust's `/`.
pub fn i32_div(a: i32, b: i32) -> (r: i32)
    requires
        b > 0,
    ensures
        r == div_trunc(a as int, b as int),
{
    a / b
}

/// The larger of two `i32` values.
pub open spec fn max_i32(a: int, b: int) -> int {
    if a >= b {
        a
    } else {
        b
    }
}

/// The smaller of two `i32` values.
pub open spec fn min_i32(a: int, b: int) -> int {
    if a <= b {
        a
    } else {
        b
    }
}

/// Taking all of a sequence gives the sequence.
pub proof fn lemma_take_full<A>(s: Seq<A>)
    ensures
        s.take(s.len() as int) == s,
{
    assert(s.take(s.len() as int) =~= s);
}

/// Whether `x` fits in `i32`.
pub fn fits_i32_exec(x: i128) -> (r: bool)
    ensures
        r == fits_i32(x as int),
{
    i32::MIN as i128 <= x && x <= i32::MAX as i128
}

/// Whether `x` fits in `usize`.
pub fn fits_usize_exec(x: i128) -> (r: bool)
    ensures
        r == fits_usize(x as int),
{
    0 <= x && x <= usize::MAX as i128
}

/// `a / b` on `i128` values, with the rounding of Rust's `/`.
pub fn i128_div(a: i128, b: i128) -> (r: i128)
    requires
        b > 0,
    ensures
        r == div_trunc(a as int, b as int),
{
    a / b
}

} // verus!
