//! The `.fvecs` encoding of a list of records, and the law that reading an
//! encoded list gives the list back.
use vstd::prelude::*;
use super::{fvecs_from, u32_at};
use crate::outside::le_u32;

verus! {

/// The four little-endian bytes of `x`.
pub open spec fn le_bytes(x: u32) -> Seq<u8> {
    seq![(x & 0xff) as u8, ((x >> 8u32) & 0xff) as u8, ((x >> 16u32) & 0xff) as u8, ((x >> 24u32) & 0xff) as u8]
}

/// The little-endian bytes of the components of `rec`, one after another.
pub open spec fn components_bytes(rec: Seq<u32>) -> Seq<u8>
    decreases rec.len(),
{
    if rec.len() == 0 { seq![] } else { components_bytes(rec.drop_last()) + le_bytes(rec.last()) }
}

/// The `.fvecs` encoding of `recs`: for each record, `dim` as a
/// little-endian 32-bit number, then the record's components.
pub open spec fn fvecs_bytes(recs: Seq<Seq<u32>>, dim: usize) -> Seq<u8>
    decreases recs.len(),
{
    if recs.len() == 0 {
        seq![]
    } else {
        le_bytes(dim as u32) + components_bytes(recs[0]) + fvecs_bytes(recs.drop_first(), dim)
    }
}

/// Reading four little-endian bytes gives the number back.
proof fn lemma_le_bytes(x: u32)
    ensures
        le_u32(le_bytes(x)) == x,
{
    let b0 = (x & 0xff) as u8;
    let b1 = ((x >> 8u32) & 0xff) as u8;
    let b2 = ((x >> 16u32) & 0xff) as u8;
    let b3 = ((x >> 24u32) & 0xff) as u8;
    assert(b0 as u64 + 256u64 * (b1 as u64) + 65536u64 * (b2 as u64) + 16777216u64 * (b3 as u64) == x as u64) by (bit_vector)
        requires
            b0 == (x & 0xff) as u8,
            b1 == ((x >> 8u32) & 0xff) as u8,
            b2 == ((x >> 16u32) & 0xff) as u8,
            b3 == ((x >> 24u32) & 0xff) as u8,
    ;
    let s = le_bytes(x);
    assert(s[0] == b0 && s[1] == b1 && s[2] == b2 && s[3] == b3);
}

/// Component `j` of `rec` occupies bytes `[4 j, 4 j + 4)` of its encoding.
proof fn lemma_components_bytes(rec: Seq<u32>)
    ensures
        components_bytes(rec).len() == 4 * rec.len(),
        forall|j: int, k: int| 0 <= j < rec.len() && 0 <= k < 4 ==>
            #[trigger] components_bytes(rec)[4 * j + k] == le_bytes(rec[j])[k],
    decreases rec.len(),
{
    if rec.len() > 0 {
        let t = rec.drop_last();
        lemma_components_bytes(t);
        let c = components_bytes(rec);
        assert forall|j: int, k: int| 0 <= j < rec.len() && 0 <= k < 4 implies
            #[trigger] c[4 * j + k] == le_bytes(rec[j])[k] by {
            if j < t.len() {
                assert(c[4 * j + k] == components_bytes(t)[4 * j + k]);
                assert(t[j] == rec[j]);
            } else {
                assert(c[4 * j + k] == le_bytes(rec.last())[4 * j + k - 4 * t.len()]);
            }
        }
    }
}

/// Reading an encoded list of records placed after any bytes `pre`, from
/// the end of `pre`, gives the list back.
proof fn lemma_fvecs_from_encoded(pre: Seq<u8>, recs: Seq<Seq<u32>>, dim: usize)
    requires
        dim <= i32::MAX,
        forall|r: int| 0 <= r < recs.len() ==> (#[trigger] recs[r]).len() == dim,
    ensures
        fvecs_from(pre + fvecs_bytes(recs, dim), pre.len() as int, dim) == Ok::<Seq<Seq<u32>>, super::FvecsError>(recs),
    decreases recs.len(),
{
    let b = pre + fvecs_bytes(recs, dim);
    let p = pre.len() as int;
    if recs.len() == 0 {
        assert(b =~= pre);
        assert(recs =~= seq![]);
    } else {
        let rec0 = recs[0];
        let rest = recs.drop_first();
        let hd = le_bytes(dim as u32);
        let cb = components_bytes(rec0);
        lemma_components_bytes(rec0);
        lemma_le_bytes(dim as u32);
        let pre2 = pre + hd + cb;
        assert(b =~= pre2 + fvecs_bytes(rest, dim));
        assert(pre2.len() == p + 4 + 4 * dim);
        assert forall|k: int| 0 <= k < 4 implies #[trigger] b[p + k] == hd[k] by {}
        assert(u32_at(b, p) == le_u32(hd));
        assert(u32_at(b, p) == dim);
        let rec = Seq::new(dim as nat, |j: int| le_u32(b.subrange(p + 4 + 4 * j, b.len() as int)) as u32);
        assert forall|j: int| 0 <= j < dim implies #[trigger] rec[j] == rec0[j] by {
            let sub = b.subrange(p + 4 + 4 * j, b.len() as int);
            assert forall|k: int| 0 <= k < 4 implies #[trigger] sub[k] == le_bytes(rec0[j])[k] by {
                assert(sub[k] == b[p + 4 + 4 * j + k]);
                assert(b[p + 4 + (4 * j + k)] == cb[4 * j + k]);
            }
            lemma_le_bytes(rec0[j]);
            assert(le_u32(sub) == le_u32(le_bytes(rec0[j])));
        }
        assert(rec =~= rec0);
        assert forall|r: int| 0 <= r < rest.len() implies (#[trigger] rest[r]).len() == dim by {
            assert(rest[r] == recs[r + 1]);
        }
        lemma_fvecs_from_encoded(pre2, rest, dim);
        assert(seq![rec0] + rest =~= recs);
    }
}

/// Reading the `.fvecs` encoding of records of `dim` components gives the
/// records back.
pub proof fn lemma_fvecs_round_trip(recs: Seq<Seq<u32>>, dim: usize)
    requires
        dim <= i32::MAX,
        forall|r: int| 0 <= r < recs.len() ==> (#[trigger] recs[r]).len() == dim,
    ensures
        fvecs_from(fvecs_bytes(recs, dim), 0, dim) == Ok::<Seq<Seq<u32>>, super::FvecsError>(recs),
{
    lemma_fvecs_from_encoded(seq![], recs, dim);
    assert(Seq::<u8>::empty() + fvecs_bytes(recs, dim) =~= fvecs_bytes(recs, dim));
}

} // verus!
