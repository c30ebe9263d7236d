//! Filling the replica slots column block by column block, so that the
//! block being copied fits in the last-level cache.
use vstd::prelude::*;
use super::UnifiedPool;
use crate::node::{NodeData, DIM, MAX_DEGREE};
use rayon::iter::{IndexedParallelIterator, IntoParallelRefIterator, IntoParallelRefMutIterator, ParallelIterator};

verus! {

/// The bytes of last-level cache that one column block may take.
pub const SAFE_L3_CACHE_BYTES: usize = 100663296;

/// A column block, laid out node by node: `width` consecutive entries per
/// node.
pub enum ChunkSource<'a> {
    /// A block of vector components.
    Vector(&'a [u32]),
    /// A block of adjacency slots.
    Neighbors(&'a [usize]),
}

/// Whether `new` is `old` with components `[start, end)` of the field that
/// `src` covers taken from row `src_id` of `src`, everything else kept.
pub open spec fn chunk_copied(new: NodeData, old: NodeData, src: ChunkSource, src_id: int, start: int, end: int) -> bool {
    let w = end - start;
    match src {
        ChunkSource::Vector(a3) => {
            &&& new.neighbors == old.neighbors
            &&& forall|k: int| 0 <= k < DIM ==> #[trigger] new.vector[k] == (if start <= k < end { a3@[src_id * w + (k - start)] } else { old.vector[k] })
        },
        ChunkSource::Neighbors(a3) => {
            &&& new.vector == old.vector
            &&& forall|k: int| 0 <= k < MAX_DEGREE ==> #[trigger] new.neighbors[k] == (if start <= k < end { a3@[src_id * w + (k - start)] } else { old.neighbors[k] })
        },
    }
}

/// The number of components of the field that `src` covers.
pub open spec fn chunk_field_len(src: ChunkSource) -> int {
    match src {
        ChunkSource::Vector(_) => DIM as int,
        ChunkSource::Neighbors(_) => MAX_DEGREE as int,
    }
}

/// The number of entries of the block.
pub open spec fn chunk_len(src: ChunkSource) -> int {
    match src {
        ChunkSource::Vector(a3) => a3@.len() as int,
        ChunkSource::Neighbors(a3) => a3@.len() as int,
    }
}

/// Copies row `src_id` of the block into components `[start, end)` of the
/// field of `node` that the block covers.
pub fn copy_chunk(node: &mut NodeData, src: &ChunkSource, src_id: usize, start: usize, end: usize)
    requires
        start <= end <= chunk_field_len(*src),
        (src_id + 1) * (end - start) <= chunk_len(*src),
    ensures
        chunk_copied(*final(node), *old(node), *src, src_id as int, start as int, end as int),
{
    let w = end - start;
    proof {
        lemma_row_in_block(src_id as int, w as int, chunk_len(*src));
    }
    let ghost before = *node;
    let mut k: usize = start;
    match src {
        ChunkSource::Vector(a3) => {
            let n = a3.len();
            let base = src_id * w;
            while k < end
                invariant
                    start <= k <= end <= DIM,
                    w == end - start,
                    base == src_id * w,
                    n == a3@.len(),
                    base + w <= n,
                    node.neighbors == before.neighbors,
                    forall|x: int| 0 <= x < DIM ==> #[trigger] node.vector[x] == (if start <= x < k { a3@[src_id * w + (x - start)] } else { before.vector[x] }),
                decreases end - k,
            {
                node.vector[k] = a3[base + (k - start)];
                k = k + 1;
            }
        },
        ChunkSource::Neighbors(a3) => {
            let n = a3.len();
            let base = src_id * w;
            while k < end
                invariant
                    start <= k <= end <= MAX_DEGREE,
                    w == end - start,
                    base == src_id * w,
                    n == a3@.len(),
                    base + w <= n,
                    node.vector == before.vector,
                    forall|x: int| 0 <= x < MAX_DEGREE ==> #[trigger] node.neighbors[x] == (if start <= x < k { a3@[src_id * w + (x - start)] } else { before.neighbors[x] }),
                decreases end - k,
            {
                node.neighbors[k] = a3[base + (k - start)];
                k = k + 1;
            }
        },
    }
}

/// Row `i` of a block of rows of `w` entries lies before row `i + 1`.
proof fn lemma_row_in_block(i: int, w: int, len: int)
    requires
        i >= 0,
        w >= 0,
        (i + 1) * w <= len,
    ensures
        i * w + w <= len,
        i * w >= 0,
{
    assert((i + 1) * w == i * w + w) by (nonlinear_arith);
    assert(i * w >= 0) by (nonlinear_arith)
        requires
            i >= 0,
            w >= 0,
    ;
}

/// For every slot `j`, copies row `pos[j]` of the block into components
/// `[start, end)` of `flat_pool[j]`, the slots in parallel
/// (`rayon`'s `par_iter_mut().zip(..).for_each(..)`, which runs the closure
/// once on each pair of the zipped slices). The closure only calls the
/// verified `copy_chunk`; the contract states its effect on each slot.
#[verifier::external_body]
pub(crate) fn par_copy_chunks(flat_pool: &mut Vec<NodeData>, pos: &[usize], src: &ChunkSource, start: usize, end: usize)
    requires
        old(flat_pool)@.len() == pos@.len(),
        start <= end <= chunk_field_len(*src),
        forall|j: int| 0 <= j < pos@.len() ==> (#[trigger] pos@[j] + 1) * (end - start) <= chunk_len(*src),
    ensures
        final(flat_pool)@.len() == old(flat_pool)@.len(),
        forall|j: int| 0 <= j < pos@.len() ==> chunk_copied(#[trigger] final(flat_pool)@[j], old(flat_pool)@[j], *src, pos@[j] as int, start as int, end as int),
{
    flat_pool.par_iter_mut().zip(pos.par_iter()).for_each(|(pool_node, &src_node_id)| copy_chunk(pool_node, src, src_node_id, start, end));
}

/// The position of entry `k` of row `i` in a block of rows of `w` entries.
pub open spec fn cell(i: int, w: int, k: int) -> int {
    i * w + k
}

/// Entry `k` of row `i` comes before row `j > i`.
proof fn lemma_row_before(i: int, k: int, j: int, w: int)
    requires
        0 <= i < j,
        0 <= k < w,
    ensures
        i * w + k < j * w,
        0 <= i * w + k,
{
    assert(i * w + k < (i + 1) * w) by (nonlinear_arith)
        requires
            k < w,
    ;
    assert((i + 1) * w <= j * w) by (nonlinear_arith)
        requires
            i + 1 <= j,
            w > 0,
    ;
    assert(0 <= i * w) by (nonlinear_arith)
        requires
            0 <= i,
            0 <= w,
    ;
}

/// The width of the column blocks for a record field of `bytes_per` bytes
/// per entry: as many columns as fit in the cache budget for all `total`
/// rows, and at least one.
fn column_chunk_size(total: usize, bytes_per: usize) -> (c: usize)
    requires
        total > 0,
        bytes_per > 0,
        total * bytes_per <= usize::MAX,
    ensures
        1 <= c <= SAFE_L3_CACHE_BYTES,
        c == 1 || c * (total * bytes_per) <= SAFE_L3_CACHE_BYTES,
        c == (if SAFE_L3_CACHE_BYTES / ((total * bytes_per) as usize) > 1 { SAFE_L3_CACHE_BYTES / ((total * bytes_per) as usize) } else { 1 }),
{
    let row_bytes = total * bytes_per;
    assert(row_bytes > 0) by (nonlinear_arith)
        requires
            total > 0,
            bytes_per > 0,
            row_bytes == total * bytes_per,
    ;
    let q = SAFE_L3_CACHE_BYTES / row_bytes;
    proof {
        vstd::arithmetic::div_mod::lemma_fundamental_div_mod(SAFE_L3_CACHE_BYTES as int, row_bytes as int);
        assert(q * row_bytes <= SAFE_L3_CACHE_BYTES) by (nonlinear_arith)
            requires
                SAFE_L3_CACHE_BYTES == row_bytes * q + SAFE_L3_CACHE_BYTES % row_bytes,
                SAFE_L3_CACHE_BYTES % row_bytes >= 0,
        ;
    }
    proof {
        assert(q <= SAFE_L3_CACHE_BYTES) by (nonlinear_arith)
            requires
                q * row_bytes <= SAFE_L3_CACHE_BYTES,
                row_bytes >= 1,
                q >= 0,
        ;
    }
    if q > 1 { q } else { 1 }
}

/// A block of `c` columns over `total` rows fits in `usize`.
proof fn lemma_block_fits(total: usize, bytes_per: usize, c: usize, w: usize)
    requires
        total > 0,
        bytes_per >= 1,
        total * bytes_per <= usize::MAX,
        c == 1 || c * (total * bytes_per) <= SAFE_L3_CACHE_BYTES,
        w <= c,
    ensures
        total * w <= usize::MAX,
{
    if c == 1 {
        assert(total * w <= total * 1) by (nonlinear_arith)
            requires
                w <= 1,
        ;
    } else {
        assert(total * w <= c * (total * bytes_per)) by (nonlinear_arith)
            requires
                w <= c,
                bytes_per >= 1,
                total > 0,
        ;
    }
}

/// A row index below the row count keeps its row within the block.
proof fn lemma_rows_fit(p: int, total: int, w: int)
    requires
        0 <= p < total,
        w >= 0,
    ensures
        (p + 1) * w <= total * w,
{
    assert((p + 1) * w <= total * w) by (nonlinear_arith)
        requires
            p + 1 <= total,
            w >= 0,
    ;
}

/// `passes` blocks of `c` columns cover `[0, len)` and every block but the
/// last lies within it.
proof fn lemma_passes(len: int, c: int, passes: int)
    requires
        c >= 1,
        len >= 0,
        passes == (len + c - 1) / c,
    ensures
        passes * c >= len,
        forall|p: int| 0 <= p < passes ==> #[trigger] (p * c) < len,
{
    vstd::arithmetic::div_mod::lemma_fundamental_div_mod(len + c - 1, c);
    let r = (len + c - 1) % c;
    assert(passes * c >= len) by (nonlinear_arith)
        requires
            len + c - 1 == c * passes + r,
            r < c,
    ;
    assert forall|p: int| 0 <= p < passes implies #[trigger] (p * c) < len by {
        assert(p * c <= (passes - 1) * c) by (nonlinear_arith)
            requires
                p <= passes - 1,
                c >= 1,
        ;
        assert((passes - 1) * c < len) by (nonlinear_arith)
            requires
                len + c - 1 == c * passes + r,
                r >= 0,
        ;
    }
}

/// The columns `[start, end)` of the node vectors of the first `total`
/// records, row by row.
fn vector_block(database: &[NodeData], total: usize, start: usize, end: usize) -> (a3: Vec<u32>)
    requires
        total <= database@.len(),
        start <= end <= DIM,
        total * (end - start) <= usize::MAX,
    ensures
        a3@.len() == total * (end - start),
        forall|i: int, k: int| 0 <= i < total && 0 <= k < end - start ==>
            #[trigger] a3@[cell(i, end - start, k)] == database@[i].vector[start + k],
{
    let w = end - start;
    let mut a3: Vec<u32> = vec![0; total * w];
    let mut i: usize = 0;
    while i < total
        invariant
            total <= database@.len(),
            start <= end <= DIM,
            w == end - start,
            total * w <= usize::MAX,
            a3@.len() == total * w,
            i <= total,
            forall|i2: int, k: int| 0 <= i2 < i && 0 <= k < w ==>
                #[trigger] a3@[cell(i2, w as int, k)] == database@[i2].vector[start + k],
        decreases total - i,
    {
        proof {
            assert((i + 1) * w <= total * w) by (nonlinear_arith)
                requires
                    i < total,
            ;
            lemma_row_in_block(i as int, w as int, (total * w) as int);
        }
        let row = &database[i];
        let base = i * w;
        let mut k: usize = 0;
        while k < w
            invariant
                total <= database@.len(),
                i < total,
                start <= end <= DIM,
                w == end - start,
                a3@.len() == total * w,
                base == i * w,
                base + w <= total * w,
                total * w <= usize::MAX,
                *row == database@[i as int],
                k <= w,
                forall|i2: int, k2: int| 0 <= i2 < i && 0 <= k2 < w ==>
                    #[trigger] a3@[cell(i2, w as int, k2)] == database@[i2].vector[start + k2],
                forall|k2: int| 0 <= k2 < k ==> #[trigger] a3@[base + k2] == database@[i as int].vector[start + k2],
            decreases w - k,
        {
            proof {
                assert forall|i2: int, k2: int| 0 <= i2 < i && 0 <= k2 < w implies #[trigger] cell(i2, w as int, k2) < base by {
                    lemma_row_before(i2, k2, i as int, w as int);
                }
            }
            a3[base + k] = row.vector[start + k];
            k = k + 1;
        }
        proof {
            assert forall|i2: int, k2: int| 0 <= i2 < i + 1 && 0 <= k2 < w implies
                #[trigger] a3@[cell(i2, w as int, k2)] == database@[i2].vector[start + k2] by {
                if i2 == i {
                    assert(cell(i2, w as int, k2) == base + k2);
                    assert(a3@[base + k2] == database@[i as int].vector[start + k2]);
                }
            }
        }
        i = i + 1;
    }
    a3
}

/// The columns `[start, end)` of the node neighborss of the first `total`
/// records, row by row.
fn neighbor_block(database: &[NodeData], total: usize, start: usize, end: usize) -> (a3: Vec<usize>)
    requires
        total <= database@.len(),
        start <= end <= MAX_DEGREE,
        total * (end - start) <= usize::MAX,
    ensures
        a3@.len() == total * (end - start),
        forall|i: int, k: int| 0 <= i < total && 0 <= k < end - start ==>
            #[trigger] a3@[cell(i, end - start, k)] == database@[i].neighbors[start + k],
{
    let w = end - start;
    let mut a3: Vec<usize> = vec![0; total * w];
    let mut i: usize = 0;
    while i < total
        invariant
            total <= database@.len(),
            start <= end <= MAX_DEGREE,
            w == end - start,
            total * w <= usize::MAX,
            a3@.len() == total * w,
            i <= total,
            forall|i2: int, k: int| 0 <= i2 < i && 0 <= k < w ==>
                #[trigger] a3@[cell(i2, w as int, k)] == database@[i2].neighbors[start + k],
        decreases total - i,
    {
        proof {
            assert((i + 1) * w <= total * w) by (nonlinear_arith)
                requires
                    i < total,
            ;
            lemma_row_in_block(i as int, w as int, (total * w) as int);
        }
        let row = &database[i];
        let base = i * w;
        let mut k: usize = 0;
        while k < w
            invariant
                total <= database@.len(),
                i < total,
                start <= end <= MAX_DEGREE,
                w == end - start,
                a3@.len() == total * w,
                base == i * w,
                base + w <= total * w,
                total * w <= usize::MAX,
                *row == database@[i as int],
                k <= w,
                forall|i2: int, k2: int| 0 <= i2 < i && 0 <= k2 < w ==>
                    #[trigger] a3@[cell(i2, w as int, k2)] == database@[i2].neighbors[start + k2],
                forall|k2: int| 0 <= k2 < k ==> #[trigger] a3@[base + k2] == database@[i as int].neighbors[start + k2],
            decreases w - k,
        {
            proof {
                assert forall|i2: int, k2: int| 0 <= i2 < i && 0 <= k2 < w implies #[trigger] cell(i2, w as int, k2) < base by {
                    lemma_row_before(i2, k2, i as int, w as int);
                }
            }
            a3[base + k] = row.neighbors[start + k];
            k = k + 1;
        }
        proof {
            assert forall|i2: int, k2: int| 0 <= i2 < i + 1 && 0 <= k2 < w implies
                #[trigger] a3@[cell(i2, w as int, k2)] == database@[i2].neighbors[start + k2] by {
                if i2 == i {
                    assert(cell(i2, w as int, k2) == base + k2);
                    assert(a3@[base + k2] == database@[i as int].neighbors[start + k2]);
                }
            }
        }
        i = i + 1;
    }
    a3
}

/// Fills `size_m` slots, slot `j` with the record `database[pos[j]]`: the
/// vector columns first and then the adjacency columns, each in blocks of
/// columns that fit in the cache budget, each block first gathered row by
/// row and then copied to all slots in parallel.
pub(crate) fn fill_slots(database: &[NodeData], pos: &Vec<usize>, total: usize, size_m: usize) -> (flat_pool: Vec<NodeData>)
    requires
        0 < total <= database@.len(),
        total <= usize::MAX / 8,
        pos@.len() == size_m,
        forall|j: int| 0 <= j < size_m ==> #[trigger] pos@[j] < total,
    ensures
        flat_pool@.len() == size_m,
        forall|j: int| 0 <= j < size_m ==> #[trigger] flat_pool@[j] == database@[pos@[j] as int],
{
    let mut flat_pool: Vec<NodeData> = vec![NodeData::new_empty(); size_m];
    let dim: usize = DIM;
    let max_deg: usize = MAX_DEGREE;

    // Vector columns.
    let vec_chunk_size = column_chunk_size(total, 4);
    let vec_passes = (dim + vec_chunk_size - 1) / vec_chunk_size;
    proof {
        lemma_passes(dim as int, vec_chunk_size as int, vec_passes as int);
    }
    let mut pass: usize = 0;
    while pass < vec_passes
        invariant
            0 < total <= database@.len(),
            total <= usize::MAX / 8,
            pos@.len() == size_m,
            forall|j: int| 0 <= j < size_m ==> #[trigger] pos@[j] < total,
            flat_pool@.len() == size_m,
            dim == DIM,
            1 <= vec_chunk_size <= SAFE_L3_CACHE_BYTES,
            vec_chunk_size == 1 || vec_chunk_size * (total * 4) <= SAFE_L3_CACHE_BYTES,
            vec_passes * vec_chunk_size >= dim,
            forall|p: int| 0 <= p < vec_passes ==> #[trigger] (p * vec_chunk_size) < dim,
            pass <= vec_passes,
            forall|j: int| 0 <= j < size_m ==> (#[trigger] flat_pool@[j]).neighbors == NodeData::empty().neighbors,
            forall|j: int, k: int| 0 <= j < size_m && 0 <= k < dim && k < pass * vec_chunk_size ==>
                #[trigger] flat_pool@[j].vector[k] == database@[pos@[j] as int].vector[k],
        decreases vec_passes - pass,
    {
        assert(pass * vec_chunk_size < dim);
        let start_dim = pass * vec_chunk_size;
        let end_dim = if start_dim + vec_chunk_size < dim { start_dim + vec_chunk_size } else { dim };
        let w = end_dim - start_dim;
        proof {
            lemma_block_fits(total, 4, vec_chunk_size, w);
        }
        let a3 = vector_block(database, total, start_dim, end_dim);
        let src = ChunkSource::Vector(a3.as_slice());
        proof {
            assert forall|j: int| 0 <= j < pos@.len() implies (#[trigger] pos@[j] + 1) * (end_dim - start_dim) <= chunk_len(src) by {
                lemma_rows_fit(pos@[j] as int, total as int, w as int);
            }
        }
        let ghost before = flat_pool@;
        par_copy_chunks(&mut flat_pool, pos.as_slice(), &src, start_dim, end_dim);
        proof {
            assert forall|j: int, k: int| 0 <= j < size_m && 0 <= k < dim && k < (pass + 1) * vec_chunk_size implies
                #[trigger] flat_pool@[j].vector[k] == database@[pos@[j] as int].vector[k] by {
                assert(chunk_copied(flat_pool@[j], before[j], src, pos@[j] as int, start_dim as int, end_dim as int));
                assert((pass + 1) * vec_chunk_size == pass * vec_chunk_size + vec_chunk_size) by (nonlinear_arith);
                if start_dim <= k < end_dim {
                    assert(a3@[cell(pos@[j] as int, w as int, k - start_dim)] == database@[pos@[j] as int].vector[start_dim + (k - start_dim)]);
                }
            }
            assert forall|j: int| 0 <= j < size_m implies (#[trigger] flat_pool@[j]).neighbors == NodeData::empty().neighbors by {
                assert(chunk_copied(flat_pool@[j], before[j], src, pos@[j] as int, start_dim as int, end_dim as int));
            }
        }
        pass = pass + 1;
    }

    // Adjacency columns.
    let neighbor_chunk_size = column_chunk_size(total, 8);
    let neighbor_passes = (max_deg + neighbor_chunk_size - 1) / neighbor_chunk_size;
    proof {
        lemma_passes(max_deg as int, neighbor_chunk_size as int, neighbor_passes as int);
    }
    let mut pass: usize = 0;
    while pass < neighbor_passes
        invariant
            0 < total <= database@.len(),
            total <= usize::MAX / 8,
            pos@.len() == size_m,
            forall|j: int| 0 <= j < size_m ==> #[trigger] pos@[j] < total,
            flat_pool@.len() == size_m,
            max_deg == MAX_DEGREE,
            1 <= neighbor_chunk_size <= SAFE_L3_CACHE_BYTES,
            neighbor_chunk_size == 1 || neighbor_chunk_size * (total * 8) <= SAFE_L3_CACHE_BYTES,
            neighbor_passes * neighbor_chunk_size >= max_deg,
            forall|p: int| 0 <= p < neighbor_passes ==> #[trigger] (p * neighbor_chunk_size) < max_deg,
            pass <= neighbor_passes,
            forall|j: int, k: int| 0 <= j < size_m && 0 <= k < DIM ==>
                #[trigger] flat_pool@[j].vector[k] == database@[pos@[j] as int].vector[k],
            forall|j: int, k: int| 0 <= j < size_m && 0 <= k < max_deg && k < pass * neighbor_chunk_size ==>
                #[trigger] flat_pool@[j].neighbors[k] == database@[pos@[j] as int].neighbors[k],
        decreases neighbor_passes - pass,
    {
        assert(pass * neighbor_chunk_size < max_deg);
        let start_dim = pass * neighbor_chunk_size;
        let end_dim = if start_dim + neighbor_chunk_size < max_deg { start_dim + neighbor_chunk_size } else { max_deg };
        let w = end_dim - start_dim;
        proof {
            lemma_block_fits(total, 8, neighbor_chunk_size, w);
        }
        let a3 = neighbor_block(database, total, start_dim, end_dim);
        let src = ChunkSource::Neighbors(a3.as_slice());
        proof {
            assert forall|j: int| 0 <= j < pos@.len() implies (#[trigger] pos@[j] + 1) * (end_dim - start_dim) <= chunk_len(src) by {
                lemma_rows_fit(pos@[j] as int, total as int, w as int);
            }
        }
        let ghost before = flat_pool@;
        par_copy_chunks(&mut flat_pool, pos.as_slice(), &src, start_dim, end_dim);
        proof {
            assert forall|j: int, k: int| 0 <= j < size_m && 0 <= k < max_deg && k < (pass + 1) * neighbor_chunk_size implies
                #[trigger] flat_pool@[j].neighbors[k] == database@[pos@[j] as int].neighbors[k] by {
                assert(chunk_copied(flat_pool@[j], before[j], src, pos@[j] as int, start_dim as int, end_dim as int));
                assert((pass + 1) * neighbor_chunk_size == pass * neighbor_chunk_size + neighbor_chunk_size) by (nonlinear_arith);
                if start_dim <= k < end_dim {
                    assert(a3@[cell(pos@[j] as int, w as int, k - start_dim)] == database@[pos@[j] as int].neighbors[start_dim + (k - start_dim)]);
                }
            }
            assert forall|j: int, k: int| 0 <= j < size_m && 0 <= k < DIM implies
                #[trigger] flat_pool@[j].vector[k] == database@[pos@[j] as int].vector[k] by {
                assert(chunk_copied(flat_pool@[j], before[j], src, pos@[j] as int, start_dim as int, end_dim as int));
            }
        }
        pass = pass + 1;
    }
    proof {
        assert forall|j: int| 0 <= j < size_m implies #[trigger] flat_pool@[j] == database@[pos@[j] as int] by {
            let a = flat_pool@[j];
            let b = database@[pos@[j] as int];
            assert(a.vector =~= b.vector);
            assert(a.neighbors =~= b.neighbors);
        }
    }
    flat_pool
}

} // verus!
