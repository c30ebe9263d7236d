use vstd::prelude::*;
use super::CMov;
use super::{cmov_u8, cmov_u16, cmov_u32, cmov_u64};

verus! {

impl CMov for u8 {
    fn cnd_select(cond: bool, a: &Self, b: &Self) -> (r: Self) {
        let mut res = *a;
        cmov_u8(cond, &mut res, b);
        res
    }

    fn cmov(&mut self, cond: bool, src: &Self) {
        cmov_u8(cond, self, src);
    }
}

impl CMov for u16 {
    fn cnd_select(cond: bool, a: &Self, b: &Self) -> (r: Self) {
        let mut res = *a;
        cmov_u16(cond, &mut res, b);
        res
    }

    fn cmov(&mut self, cond: bool, src: &Self) {
        cmov_u16(cond, self, src);
    }
}

impl CMov for u32 {
    fn cnd_select(cond: bool, a: &Self, b: &Self) -> (r: Self) {
        let mut res = *a;
        cmov_u32(cond, &mut res, b);
        res
    }

    fn cmov(&mut self, cond: bool, src: &Self) {
        cmov_u32(cond, self, src);
    }
}

impl CMov for u64 {
    fn cnd_select(cond: bool, a: &Self, b: &Self) -> (r: Self) {
        let mut res = *a;
        cmov_u64(cond, &mut res, b);
        res
    }

    fn cmov(&mut self, cond: bool, src: &Self) {
        cmov_u64(cond, self, src);
    }
}

/// Converting a `usize` to `u64` and back gives the value itself.
proof fn lemma_usize_through_u64(x: usize) by (bit_vector)
    ensures
        ((x as u64) as usize) == x,
{
}

impl CMov for usize {
    fn cnd_select(cond: bool, a: &Self, b: &Self) -> (r: Self) {
        let mut res: u64 = *a as u64;
        cmov_u64(cond, &mut res, &(*b as u64));
        proof {
            lemma_usize_through_u64(*a);
            lemma_usize_through_u64(*b);
        }
        res as usize
    }

    fn cmov(&mut self, cond: bool, src: &Self) {
        let mut res: u64 = *self as u64;
        cmov_u64(cond, &mut res, &(*src as u64));
        proof {
            lemma_usize_through_u64(*self);
            lemma_usize_through_u64(*src);
        }
        *self = res as usize;
    }
}

/// Converting a `i8` to `u8` and back gives the value itself.
proof fn lemma_i8_through_u8(x: i8) by (bit_vector)
    ensures
        ((x as u8) as i8) == x,
{
}

impl CMov for i8 {
    fn cnd_select(cond: bool, a: &Self, b: &Self) -> (r: Self) {
        let mut res: u8 = *a as u8;
        cmov_u8(cond, &mut res, &(*b as u8));
        proof {
            lemma_i8_through_u8(*a);
            lemma_i8_through_u8(*b);
        }
        res as i8
    }

    fn cmov(&mut self, cond: bool, src: &Self) {
        let mut res: u8 = *self as u8;
        cmov_u8(cond, &mut res, &(*src as u8));
        proof {
            lemma_i8_through_u8(*self);
            lemma_i8_through_u8(*src);
        }
        *self = res as i8;
    }
}

/// Converting a `i16` to `u16` and back gives the value itself.
proof fn lemma_i16_through_u16(x: i16) by (bit_vector)
    ensures
        ((x as u16) as i16) == x,
{
}

impl CMov for i16 {
    fn cnd_select(cond: bool, a: &Self, b: &Self) -> (r: Self) {
        let mut res: u16 = *a as u16;
        cmov_u16(cond, &mut res, &(*b as u16));
        proof {
            lemma_i16_through_u16(*a);
            lemma_i16_through_u16(*b);
        }
        res as i16
    }

    fn cmov(&mut self, cond: bool, src: &Self) {
        let mut res: u16 = *self as u16;
        cmov_u16(cond, &mut res, &(*src as u16));
        proof {
            lemma_i16_through_u16(*self);
            lemma_i16_through_u16(*src);
        }
        *self = res as i16;
    }
}

/// Converting a `i32` to `u32` and back gives the value itself.
proof fn lemma_i32_through_u32(x: i32) by (bit_vector)
    ensures
        ((x as u32) as i32) == x,
{
}

impl CMov for i32 {
    fn cnd_select(cond: bool, a: &Self, b: &Self) -> (r: Self) {
        let mut res: u32 = *a as u32;
        cmov_u32(cond, &mut res, &(*b as u32));
        proof {
            lemma_i32_through_u32(*a);
            lemma_i32_through_u32(*b);
        }
        res as i32
    }

    fn cmov(&mut self, cond: bool, src: &Self) {
        let mut res: u32 = *self as u32;
        cmov_u32(cond, &mut res, &(*src as u32));
        proof {
            lemma_i32_through_u32(*self);
            lemma_i32_through_u32(*src);
        }
        *self = res as i32;
    }
}

/// Converting a `i64` to `u64` and back gives the value itself.
proof fn lemma_i64_through_u64(x: i64) by (bit_vector)
    ensures
        ((x as u64) as i64) == x,
{
}

impl CMov for i64 {
    fn cnd_select(cond: bool, a: &Self, b: &Self) -> (r: Self) {
        let mut res: u64 = *a as u64;
        cmov_u64(cond, &mut res, &(*b as u64));
        proof {
            lemma_i64_through_u64(*a);
            lemma_i64_through_u64(*b);
        }
        res as i64
    }

    fn cmov(&mut self, cond: bool, src: &Self) {
        let mut res: u64 = *self as u64;
        cmov_u64(cond, &mut res, &(*src as u64));
        proof {
            lemma_i64_through_u64(*self);
            lemma_i64_through_u64(*src);
        }
        *self = res as i64;
    }
}

/// Converting a `isize` to `u64` and back gives the value itself.
proof fn lemma_isize_through_u64(x: isize) by (bit_vector)
    ensures
        ((x as u64) as isize) == x,
{
}

impl CMov for isize {
    fn cnd_select(cond: bool, a: &Self, b: &Self) -> (r: Self) {
        let mut res: u64 = *a as u64;
        cmov_u64(cond, &mut res, &(*b as u64));
        proof {
            lemma_isize_through_u64(*a);
            lemma_isize_through_u64(*b);
        }
        res as isize
    }

    fn cmov(&mut self, cond: bool, src: &Self) {
        let mut res: u64 = *self as u64;
        cmov_u64(cond, &mut res, &(*src as u64));
        proof {
            lemma_isize_through_u64(*self);
            lemma_isize_through_u64(*src);
        }
        *self = res as isize;
    }
}

} // verus!
