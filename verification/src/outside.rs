//! The calls this library makes into outside crates, each with the contract
//! that the crate's source gives it.
use vstd::prelude::*;
use byteorder::ByteOrder;
use rand::Rng;
use rand::SeedableRng;
use rand::rngs::SmallRng;

verus! {

/// `rand`'s small, fast generator, carried opaquely.
#[verifier::external_type_specification]
#[verifier::external_body]
pub struct ExSmallRng(SmallRng);

/// The XXH3 64-bit digest (default secret, seed 0) of a byte string.
pub uninterp spec fn xxh3_64_of(bytes: Seq<u8>) -> u64;

/// Hashes `bytes` with `xxhash_rust::xxh3::Xxh3` (`new`, one `update`,
/// `digest`). The digest is a fixed function of the bytes; the contract
/// names it and states nothing more of it.
#[verifier::external_body]
pub(crate) fn xxh3_digest(bytes: &[u8]) -> (h: u64)
    ensures
        h == xxh3_64_of(bytes@),
{
    let mut hasher = xxhash_rust::xxh3::Xxh3::new();
    hasher.update(bytes);
    hasher.digest()
}

/// Seeds a `SmallRng` from the operating system (`SeedableRng::from_entropy`).
/// The seed depends on the machine; nothing is stated of it.
#[verifier::external_body]
pub(crate) fn small_rng_from_entropy() -> SmallRng {
    SmallRng::from_entropy()
}

/// Draws a value from `0..=tail` with `Rng::gen_range` on `rng`. Which value
/// comes out depends on the generator's state; only the range is stated.
#[verifier::external_body]
pub(crate) fn small_rng_index(rng: &mut SmallRng, tail: usize) -> (r: usize)
    ensures
        r <= tail,
{
    rng.gen_range(0..=tail)
}

/// Draws a value from `0..n` with `Rng::gen_range` on `rand::thread_rng()`.
/// `gen_range` panics on an empty range, hence `n > 0`. Which value comes out
/// depends on the thread's generator; only the range is stated.
#[verifier::external_body]
pub(crate) fn thread_rng_below(n: usize) -> (r: usize)
    requires
        n > 0,
    ensures
        r < n,
{
    rand::thread_rng().gen_range(0..n)
}

/// The unsigned 32-bit number whose little-endian bytes are the first four
/// of `s`.
pub open spec fn le_u32(s: Seq<u8>) -> int {
    s[0] + 256 * s[1] + 65536 * s[2] + 16777216 * s[3]
}

/// Reads a little-endian `u32` from the first four bytes of `buf` with
/// `byteorder::LittleEndian::read_u32`, which panics on fewer than four bytes.
#[verifier::external_body]
pub(crate) fn read_le_u32(buf: &[u8]) -> (r: u32)
    requires
        buf@.len() >= 4,
    ensures
        r == le_u32(buf@),
{
    byteorder::LittleEndian::read_u32(buf)
}

} // verus!
