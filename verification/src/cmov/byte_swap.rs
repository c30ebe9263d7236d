//! Conditional exchange of two byte buffers of equal length.
use vstd::prelude::*;
use super::cnd_swap_copy;

verus! {

/// Whether `new` is `old` with bytes `[lo, hi)` replaced by those of `other`
/// when `cond` holds; every byte outside the range is that of `old`.
pub open spec fn exchanged_range(cond: bool, new: Seq<u8>, old: Seq<u8>, other: Seq<u8>, lo: int, hi: int) -> bool {
    &&& new.len() == old.len()
    &&& forall|i: int| 0 <= i < new.len() ==> #[trigger] new[i] == (if cond && lo <= i < hi { other[i] } else { old[i] })
}

/// Exchanges bytes `[start, start + len)` of the two buffers when `cond`
/// holds, one masked byte exchange at a time.
fn exchange_block(cond: bool, vec1: &mut [u8], vec2: &mut [u8], start: usize, len: usize)
    requires
        old(vec1)@.len() == old(vec2)@.len(),
        start + len <= old(vec1)@.len(),
    ensures
        exchanged_range(cond, final(vec1)@, old(vec1)@, old(vec2)@, start as int, start + len),
        exchanged_range(cond, final(vec2)@, old(vec2)@, old(vec1)@, start as int, start + len),
{
    let ghost a0 = vec1@;
    let ghost b0 = vec2@;
    let n = vec1.len();
    let mut k: usize = 0;
    while k < len
        invariant
            k <= len,
            n == a0.len(),
            start + len <= a0.len(),
            a0.len() == b0.len(),
            exchanged_range(cond, vec1@, a0, b0, start as int, start + k),
            exchanged_range(cond, vec2@, b0, a0, start as int, start + k),
        decreases len - k,
    {
        let i = start + k;
        let mut x: u8 = vec1[i];
        let mut y: u8 = vec2[i];
        cnd_swap_copy(cond, &mut x, &mut y);
        vec1[i] = x;
        vec2[i] = y;
        k = k + 1;
    }
}

/// Exchanging `[lo, mid)` and then `[mid, hi)` exchanges `[lo, hi)`.
proof fn lemma_exchange_extend(
    cond: bool,
    a0: Seq<u8>, b0: Seq<u8>,
    a1: Seq<u8>, b1: Seq<u8>,
    a2: Seq<u8>, b2: Seq<u8>,
    lo: int, mid: int, hi: int,
)
    requires
        lo <= mid <= hi,
        a0.len() == b0.len(),
        exchanged_range(cond, a1, a0, b0, lo, mid),
        exchanged_range(cond, b1, b0, a0, lo, mid),
        exchanged_range(cond, a2, a1, b1, mid, hi),
        exchanged_range(cond, b2, b1, a1, mid, hi),
    ensures
        exchanged_range(cond, a2, a0, b0, lo, hi),
        exchanged_range(cond, b2, b0, a0, lo, hi),
{
    // Naming `a1[i]` and `b1[i]` brings in the first exchange at `i`.
    assert forall|i: int| 0 <= i < a2.len() implies #[trigger] a2[i] == (if cond && lo <= i < hi { b0[i] } else { a0[i] }) by {
        assert(a1[i] == a1[i] && b1[i] == b1[i]);
    }
    assert forall|i: int| 0 <= i < b2.len() implies #[trigger] b2[i] == (if cond && lo <= i < hi { a0[i] } else { b0[i] }) by {
        assert(a1[i] == a1[i] && b1[i] == b1[i]);
    }
}

/// Exchanges the block `[offset + done, offset + done + width)` when `take`
/// holds, and returns the length exchanged from `offset` so far.
fn exchange_step(
    cond: bool,
    vec1: &mut [u8],
    vec2: &mut [u8],
    offset: usize,
    done: usize,
    width: usize,
    take: bool,
    Ghost(a0): Ghost<Seq<u8>>,
    Ghost(b0): Ghost<Seq<u8>>,
) -> (next: usize)
    requires
        a0.len() == b0.len(),
        take ==> offset + done + width <= a0.len(),
        offset + done <= a0.len(),
        exchanged_range(cond, old(vec1)@, a0, b0, offset as int, offset + done),
        exchanged_range(cond, old(vec2)@, b0, a0, offset as int, offset + done),
    ensures
        next == (if take { done + width } else { done as int }),
        exchanged_range(cond, final(vec1)@, a0, b0, offset as int, offset + next),
        exchanged_range(cond, final(vec2)@, b0, a0, offset as int, offset + next),
{
    let n = vec1.len();
    assert(n == a0.len());
    if take {
        let ghost a1 = vec1@;
        let ghost b1 = vec2@;
        exchange_block(cond, vec1, vec2, offset + done, width);
        proof {
            lemma_exchange_extend(cond, a0, b0, a1, b1, vec1@, vec2@, offset as int, offset + done, offset + done + width);
        }
        done + width
    } else {
        done
    }
}

/// Exchanges bytes `[offset, offset + sz)` of the two buffers when `cond`
/// holds, for a block of at most 64 bytes. The block is split as a vector
/// unit would take it: a 32-byte lane, then 16, 8, 4, 2 and 1 bytes.
#[verifier::rlimit(40)]
pub fn cxchg_internal(cond: bool, vec1: &mut [u8], vec2: &mut [u8], offset: usize, sz: usize)
    requires
        sz <= 64,
        old(vec1)@.len() == old(vec2)@.len(),
        offset + sz <= old(vec1)@.len(),
    ensures
        exchanged_range(cond, final(vec1)@, old(vec1)@, old(vec2)@, offset as int, offset + sz),
        exchanged_range(cond, final(vec2)@, old(vec2)@, old(vec1)@, offset as int, offset + sz),
    decreases sz,
{
    let ghost a0 = vec1@;
    let ghost b0 = vec2@;
    let n = vec1.len();
    assert(offset + sz <= n);
    if sz == 64 {
        cxchg_internal(cond, vec1, vec2, offset, 32);
        let ghost a1 = vec1@;
        let ghost b1 = vec2@;
        cxchg_internal(cond, vec1, vec2, offset + 32, 32);
        proof {
            lemma_exchange_extend(cond, a0, b0, a1, b1, vec1@, vec2@, offset as int, offset + 32, offset + 64);
        }
        return;
    }
    assert(exchanged_range(cond, vec1@, a0, b0, offset as int, offset as int));
    assert(exchanged_range(cond, vec2@, b0, a0, offset as int, offset as int));
    let d = exchange_step(cond, vec1, vec2, offset, 0, 32, sz >= 32, Ghost(a0), Ghost(b0));
    assert(d == 32 * (sz / 32));
    let d = exchange_step(cond, vec1, vec2, offset, d, 16, sz % 32 >= 16, Ghost(a0), Ghost(b0));
    assert(d == 16 * (sz / 16));
    let d = exchange_step(cond, vec1, vec2, offset, d, 8, sz % 16 >= 8, Ghost(a0), Ghost(b0));
    assert(d == 8 * (sz / 8));
    let d = exchange_step(cond, vec1, vec2, offset, d, 4, sz % 8 >= 4, Ghost(a0), Ghost(b0));
    assert(d == 4 * (sz / 4));
    let d = exchange_step(cond, vec1, vec2, offset, d, 2, sz % 4 >= 2, Ghost(a0), Ghost(b0));
    assert(d == 2 * (sz / 2));
    let d = exchange_step(cond, vec1, vec2, offset, d, 1, sz % 2 >= 1, Ghost(a0), Ghost(b0));
    assert(d == sz);
}

/// Exchanges the whole contents of two equally long buffers when `cond`
/// holds and leaves both unchanged otherwise, in 64-byte blocks followed by
/// the remainder.
pub fn oblivious_conditonal_swap(cond: bool, val1: &mut [u8], val2: &mut [u8])
    requires
        old(val1)@.len() == old(val2)@.len(),
    ensures
        final(val1)@ == (if cond { old(val2)@ } else { old(val1)@ }),
        final(val2)@ == (if cond { old(val1)@ } else { old(val2)@ }),
{
    let ghost a0 = val1@;
    let ghost b0 = val2@;
    let size = val1.len();
    let blocks = size / 64;
    let mut k: usize = 0;
    while k < blocks
        invariant
            k <= blocks,
            blocks == size / 64,
            size == a0.len(),
            a0.len() == b0.len(),
            exchanged_range(cond, val1@, a0, b0, 0, 64 * k),
            exchanged_range(cond, val2@, b0, a0, 0, 64 * k),
        decreases blocks - k,
    {
        let ghost a1 = val1@;
        let ghost b1 = val2@;
        cxchg_internal(cond, val1, val2, 64 * k, 64);
        proof {
            lemma_exchange_extend(cond, a0, b0, a1, b1, val1@, val2@, 0, 64 * k, 64 * k + 64);
        }
        k = k + 1;
    }
    let rem_size = size % 64;
    if rem_size > 0 {
        let ghost a1 = val1@;
        let ghost b1 = val2@;
        cxchg_internal(cond, val1, val2, 64 * blocks, rem_size);
        proof {
            lemma_exchange_extend(cond, a0, b0, a1, b1, val1@, val2@, 0, 64 * blocks, size as int);
        }
    }
    assert(val1@ =~= (if cond { b0 } else { a0 }));
    assert(val2@ =~= (if cond { a0 } else { b0 }));
}

} // verus!
