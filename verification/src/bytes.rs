//! Little-endian byte encodings of integers.
use vstd::prelude::*;
use vstd::arithmetic::power::{pow, lemma_pow0, lemma_pow_positive};
use vstd::arithmetic::div_mod::lemma_div_denominator;

verus! {

/// Byte `i` of the little-endian encoding of `x`.
pub open spec fn le_byte(x: int, i: nat) -> int {
    (x / pow(256, i)) % 256
}

/// The little-endian encoding of `x` in the width of `usize`.
pub open spec fn usize_le_seq(x: usize) -> Seq<u8> {
    Seq::new((usize::BITS / 8) as nat, |i: int| le_byte(x as int, i as nat) as u8)
}

/// The little-endian bytes of `x`, as many as `usize` is wide.
pub fn usize_le_bytes(x: usize) -> (bytes: Vec<u8>)
    ensures
        bytes@ == usize_le_seq(x),
{
    let n: usize = (usize::BITS / 8) as usize;
    let mut bytes: Vec<u8> = Vec::with_capacity(n);
    let mut v: usize = x;
    let mut i: usize = 0;
    proof {
        lemma_pow0(256);
    }
    while i < n
        invariant
            n == usize::BITS / 8,
            i <= n,
            bytes@.len() == i,
            v as int == x as int / pow(256, i as nat),
            forall|k: int| 0 <= k < i ==> #[trigger] bytes@[k] == le_byte(x as int, k as nat),
        decreases n - i,
    {
        proof {
            lemma_pow_positive(256, i as nat);
            lemma_div_denominator(x as int, pow(256, i as nat), 256);
            assert(pow(256, (i + 1) as nat) == 256 * pow(256, i as nat)) by {
                reveal(pow);
            }
            assert(pow(256, i as nat) * 256 == 256 * pow(256, i as nat)) by (nonlinear_arith);
        }
        bytes.push((v % 256) as u8);
        v = v / 256;
        i = i + 1;
    }
    proof {
        assert forall|k: int| 0 <= k < bytes@.len() implies #[trigger] bytes@[k] == usize_le_seq(x)[k] by {
            assert(0 <= le_byte(x as int, k as nat) < 256);
        }
        assert(bytes@ =~= usize_le_seq(x));
    }
    bytes
}

} // verus!
