//! Branch-free conditional moves, selects and swaps.
//!
//! Every primitive here computes its result from a mask derived from the
//! condition (all zero bits or all one bits) instead of branching on it.
use vstd::prelude::*;

mod impl_bool;
mod impl_integer;
pub mod byte_swap;

verus! {

/// A value that can be conditionally selected and moved without branching
/// on the condition.
pub trait CMov: Sized + Clone {
    /// Returns the value of `a` if `cond` is false, otherwise the value of `b`.
    fn cnd_select(cond: bool, a: &Self, b: &Self) -> (r: Self)
        ensures
            r == (if cond { *b } else { *a }),
    ;

    /// If `cond` is true, copies the value of `src` into `self`.
    fn cmov(&mut self, cond: bool, src: &Self)
        ensures
            *final(self) == (if cond { *src } else { *old(self) }),
    ;

    /// If `choice` is true, copies the value of `other` into `self`.
    fn cnd_assign(&mut self, other: &Self, choice: bool)
        ensures
            *final(self) == (if choice { *other } else { *old(self) }),
    {
        self.cmov(choice, other);
    }
}

/// The all-ones mask when `cond` holds, the zero mask otherwise.
pub open spec fn mask_u64(cond: bool) -> u64 {
    if cond { 0xffff_ffff_ffff_ffffu64 } else { 0u64 }
}

/// The all-ones mask when `cond` holds, the zero mask otherwise.
pub open spec fn mask_u32(cond: bool) -> u32 {
    if cond { 0xffff_ffffu32 } else { 0u32 }
}

fn make_mask_u64(cond: bool) -> (m: u64)
    ensures
        m == mask_u64(cond),
{
    let c: u64 = cond as u64;
    let m: u64 = 0u64.wrapping_sub(c);
    assert(m == mask_u64(cond)) by (bit_vector)
        requires
            c == (if cond { 1u64 } else { 0u64 }),
            m == (if 0u64 >= c { (0u64 - c) as u64 } else { (0u64 - c + 0x1_0000_0000_0000_0000) as u64 }),
    ;
    m
}

fn make_mask_u32(cond: bool) -> (m: u32)
    ensures
        m == mask_u32(cond),
{
    let c: u32 = cond as u32;
    let m: u32 = 0u32.wrapping_sub(c);
    assert(m == mask_u32(cond)) by (bit_vector)
        requires
            c == (if cond { 1u32 } else { 0u32 }),
            m == (if 0u32 >= c { (0u32 - c) as u32 } else { (0u32 - c + 0x1_0000_0000) as u32 }),
    ;
    m
}

/// Swaps the two values when `cond` holds and leaves both in place otherwise.
pub fn cswp_u64(cond: bool, val1: &mut u64, val2: &mut u64)
    ensures
        *final(val1) == (if cond { *old(val2) } else { *old(val1) }),
        *final(val2) == (if cond { *old(val1) } else { *old(val2) }),
{
    let m = make_mask_u64(cond);
    let a = *val1;
    let b = *val2;
    let t: u64 = (a ^ b) & m;
    let na: u64 = a ^ t;
    let nb: u64 = b ^ t;
    assert(na == (if cond { b } else { a }) && nb == (if cond { a } else { b })) by (bit_vector)
        requires
            m == (if cond { 0xffff_ffff_ffff_ffffu64 } else { 0u64 }),
            t == (a ^ b) & m,
            na == a ^ t,
            nb == b ^ t,
    ;
    *val1 = na;
    *val2 = nb;
}

/// Copies `*val2` into `*val1` when `cond` holds.
fn cmov_u64(cond: bool, val1: &mut u64, val2: &u64)
    ensures
        *final(val1) == (if cond { *val2 } else { *old(val1) }),
{
    let m = make_mask_u64(cond);
    let a = *val1;
    let b = *val2;
    let r: u64 = a ^ ((a ^ b) & m);
    assert(r == (if cond { b } else { a })) by (bit_vector)
        requires
            m == (if cond { 0xffff_ffff_ffff_ffffu64 } else { 0u64 }),
            r == a ^ ((a ^ b) & m),
    ;
    *val1 = r;
}

/// Copies `*val2` into `*val1` when `cond` holds.
fn cmov_u32(cond: bool, val1: &mut u32, val2: &u32)
    ensures
        *final(val1) == (if cond { *val2 } else { *old(val1) }),
{
    let m = make_mask_u32(cond);
    let a = *val1;
    let b = *val2;
    let r: u32 = a ^ ((a ^ b) & m);
    assert(r == (if cond { b } else { a })) by (bit_vector)
        requires
            m == (if cond { 0xffff_ffffu32 } else { 0u32 }),
            r == a ^ ((a ^ b) & m),
    ;
    *val1 = r;
}

/// Copies `*val2` into `*val1` when `cond` holds, through a 32-bit move.
fn cmov_u8(cond: bool, val1: &mut u8, val2: &u8)
    ensures
        *final(val1) == (if cond { *val2 } else { *old(val1) }),
{
    let mut r1: u32 = *val1 as u32;
    let r2: u32 = *val2 as u32;
    cmov_u32(cond, &mut r1, &r2);
    let out: u8 = (r1 & 0xff) as u8;
    let a = *val1;
    let b = *val2;
    assert(out == (if cond { b } else { a })) by (bit_vector)
        requires
            r1 == (if cond { b as u32 } else { a as u32 }),
            out == (r1 & 0xff) as u8,
    ;
    *val1 = out;
}

/// Copies `*val2` into `*val1` when `cond` holds, through a 32-bit move.
fn cmov_u16(cond: bool, val1: &mut u16, val2: &u16)
    ensures
        *final(val1) == (if cond { *val2 } else { *old(val1) }),
{
    let mut r1: u32 = *val1 as u32;
    let r2: u32 = *val2 as u32;
    cmov_u32(cond, &mut r1, &r2);
    let out: u16 = (r1 & 0xffff) as u16;
    let a = *val1;
    let b = *val2;
    assert(out == (if cond { b } else { a })) by (bit_vector)
        requires
            r1 == (if cond { b as u32 } else { a as u32 }),
            out == (r1 & 0xffff) as u16,
    ;
    *val1 = out;
}

/// Copies `*val2` into `*val1` when `cond` holds, through a 32-bit move.
fn cmov_bool(cond: bool, val1: &mut bool, val2: &bool)
    ensures
        *final(val1) == (if cond { *val2 } else { *old(val1) }),
{
    let mut r1: u32 = *val1 as u32;
    let r2: u32 = *val2 as u32;
    cmov_u32(cond, &mut r1, &r2);
    *val1 = r1 != 0;
}

/// Swaps the two values when `cond` holds and leaves both in place otherwise.
pub fn cnd_swap_copy<T: Copy + CMov>(cond: bool, val1: &mut T, val2: &mut T)
    ensures
        *final(val1) == (if cond { *old(val2) } else { *old(val1) }),
        *final(val2) == (if cond { *old(val1) } else { *old(val2) }),
{
    let c = *val1;
    val1.cmov(cond, &*val2);
    val2.cmov(cond, &c);
}

} // verus!
