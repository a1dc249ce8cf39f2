//! Arithmetic that stays within 64 bits: by clamping, or by wrapping around.
use vstd::prelude::*;

verus! {

/// The nearest number that 64 signed bits hold.
pub open spec fn clamp64(x: int) -> i64 {
    if x > i64::MAX {
        i64::MAX
    } else if x < i64::MIN {
        i64::MIN
    } else {
        x as i64
    }
}

/// The number that 64 signed bits hold and that differs by a multiple of 2 to the power 64.
pub open spec fn wrap64(x: int) -> i64 {
    let m = x % 0x1_0000_0000_0000_0000;
    if m < 0x8000_0000_0000_0000 { m as i64 } else { (m - 0x1_0000_0000_0000_0000) as i64 }
}

/// The number that 64 unsigned bits hold and that differs by a multiple of 2 to the power 64.
pub open spec fn wrap_u64(x: int) -> u64 {
    (x % 0x1_0000_0000_0000_0000) as u64
}

/// The nearest number that 64 unsigned bits hold.
pub open spec fn clamp_u64(x: int) -> u64 {
    if x > u64::MAX {
        u64::MAX
    } else if x < 0 {
        0
    } else {
        x as u64
    }
}

/// The nearest number that 64 signed bits hold.
pub fn clamped(s: i128) -> (r: i64)
    ensures
        r == clamp64(s as int),
{
    if s > 0x7FFF_FFFF_FFFF_FFFF {
        i64::MAX
    } else if s < -0x8000_0000_0000_0000 {
        i64::MIN
    } else {
        s as i64
    }
}

/// Adds within 64 signed bits, clamping.
pub fn clamped_add(a: i64, b: i64) -> (r: i64)
    ensures
        r == clamp64(a + b),
{
    clamped(a as i128 + b as i128)
}

/// Subtracts within 64 signed bits, clamping.
pub fn clamped_sub(a: i64, b: i64) -> (r: i64)
    ensures
        r == clamp64(a - b),
{
    clamped(a as i128 - b as i128)
}

/// Adds within 64 unsigned bits, clamping.
pub fn clamped_add_u64(a: u64, b: u64) -> (r: u64)
    ensures
        r == clamp_u64(a + b),
{
    if b > u64::MAX - a { u64::MAX } else { a + b }
}

/// Adds within 64 signed bits, wrapping around.
pub fn wrapped_add(a: i64, b: i64) -> (r: i64)
    ensures
        r == wrap64(a + b),
{
    let s: i128 = a as i128 + b as i128;
    if s > 0x7FFF_FFFF_FFFF_FFFF {
        (s - 0x1_0000_0000_0000_0000) as i64
    } else if s < -0x8000_0000_0000_0000 {
        (s + 0x1_0000_0000_0000_0000) as i64
    } else {
        s as i64
    }
}

/// Adds within 64 unsigned bits, wrapping around.
pub fn wrapped_add_u64(a: u64, b: u64) -> (r: u64)
    ensures
        r == wrap_u64(a + b),
{
    let s: u128 = a as u128 + b as u128;
    if s > 0xFFFF_FFFF_FFFF_FFFF { (s - 0x1_0000_0000_0000_0000) as u64 } else { s as u64 }
}

/// Wrapping at each step comes to the same as wrapping at the end.
pub proof fn lemma_wrap64_add(a: int, b: int)
    ensures
        wrap64(wrap64(a) + b) == wrap64(a + b),
{
}

/// Wrapping at each step comes to the same as wrapping at the end.
pub proof fn lemma_wrap_u64_add(a: int, b: int)
    ensures
        wrap_u64(wrap_u64(a) + b) == wrap_u64(a + b),
{
}

/// The low 32 bits of a number.
pub open spec fn low32(n: int) -> u32 {
    (n % 0x1_0000_0000) as u32
}

/// The low 32 bits of a length and of a number below 2 to the power 32.
pub(crate) fn length32(n: usize, more: u32) -> (r: u32)
    ensures
        r == low32(n + more),
{
    let low: u64 = (n as u64) % 0x1_0000_0000;
    ((low + more as u64) % 0x1_0000_0000) as u32
}

}
