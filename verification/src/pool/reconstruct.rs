//! Rebuilding the pool for a new epoch.
use vstd::prelude::*;
use super::{UnifiedPool, prefix_of};
use vstd::set_lib::{set_int_range, lemma_int_range, lemma_map_size, lemma_subset_equality};
use crate::node::NodeData;
use crate::cmov::cnd_swap_copy;
use super::segments::fill_slots;
use crate::coprime::{gcd, gcd_spec, coprime_from, lemma_coprime_from, lemma_gcd_one};
use crate::bytes::{usize_le_bytes, usize_le_seq};
use crate::outside::{xxh3_digest, xxh3_64_of, small_rng_from_entropy, small_rng_index};

verus! {

broadcast use vstd::std_specs::hash::group_hash_axioms;

/// Replicas given to node `i`: none for a hub, its count otherwise.
pub open spec fn limit_for(hubs: Seq<usize>, counts: Seq<u32>, i: int) -> u32 {
    if hubs.contains(i as usize) { 0 } else { counts[i] }
}

/// Replicas given to the nodes `[0, n)`.
pub open spec fn limits_total(hubs: Seq<usize>, counts: Seq<u32>, n: int) -> int
    decreases n,
{
    if n <= 0 { 0 } else { limits_total(hubs, counts, n - 1) + limit_for(hubs, counts, n - 1) }
}

/// The hash multiplier chosen for digest `h` and `m` slots.
pub open spec fn hash_multiplier(h: u64, m: usize) -> nat {
    let s = (h >> 32u64) % (m as u64);
    coprime_from(if s == 0 { 1 } else { s as nat }, m as nat)
}

/// The hash offset chosen for digest `h` and `m` slots.
pub open spec fn hash_offset(h: u64, m: usize) -> nat {
    ((h & 0xFFFF_FFFFu64) % (m as u64)) as nat
}

/// Number of entries of `flags` in `[0, n)` that are 1.
pub open spec fn count_marked(flags: Seq<usize>, n: int) -> int
    decreases n,
{
    if n <= 0 { 0 } else { count_marked(flags, n - 1) + (if flags[n - 1] == 1 { 1int } else { 0int }) }
}

/// Sum of a sequence of integers.
pub open spec fn seq_sum(s: Seq<int>) -> int
    decreases s.len(),
{
    if s.len() == 0 { 0 } else { seq_sum(s.drop_last()) + s.last() }
}

proof fn lemma_limits_total_monotone(hubs: Seq<usize>, counts: Seq<u32>, i: int, j: int)
    requires
        i <= j,
    ensures
        limits_total(hubs, counts, i) <= limits_total(hubs, counts, j),
    decreases j - i,
{
    if i < j {
        lemma_limits_total_monotone(hubs, counts, i, j - 1);
        if j - 1 < 0 {
        }
    }
}

proof fn lemma_count_marked_monotone(flags: Seq<usize>, i: int, j: int)
    requires
        i <= j,
    ensures
        count_marked(flags, i) <= count_marked(flags, j),
    decreases j - i,
{
    if i < j {
        lemma_count_marked_monotone(flags, i, j - 1);
    }
}

/// Setting a 0 entry to 1 adds one to the count of every prefix that holds it.
proof fn lemma_count_marked_set(flags: Seq<usize>, x: int, n: int)
    requires
        0 <= x < flags.len(),
        n <= flags.len(),
    ensures
        count_marked(flags.update(x, 1), n) == count_marked(flags, n) + (if x < n && flags[x] != 1 { 1int } else { 0int }),
    decreases n,
{
    if n > 0 {
        lemma_count_marked_set(flags, x, n - 1);
    }
}

proof fn lemma_seq_sum_update(s: Seq<int>, i: int, v: int)
    requires
        0 <= i < s.len(),
    ensures
        seq_sum(s.update(i, v)) == seq_sum(s) - s[i] + v,
    decreases s.len(),
{
    let t = s.update(i, v);
    if i < s.len() - 1 {
        assert(t.drop_last() =~= s.drop_last().update(i, v));
        lemma_seq_sum_update(s.drop_last(), i, v);
    } else {
        assert(t.drop_last() =~= s.drop_last());
    }
}

proof fn lemma_seq_sum_nonneg(s: Seq<int>)
    requires
        forall|i: int| 0 <= i < s.len() ==> #[trigger] s[i] >= 0,
    ensures
        seq_sum(s) >= 0,
    decreases s.len(),
{
    if s.len() > 0 {
        lemma_seq_sum_nonneg(s.drop_last());
    }
}

/// When the slot table is small enough that the slot hash never wraps
/// around (`size_m * size_m <= 2^usize::BITS`), a multiplier coprime to the
/// table size gives every replica of every node a slot of its own.
pub proof fn lemma_slots_distinct(pool: UnifiedPool)
    requires
        pool.slots_laid_out(),
        pool.ranges_ordered(),
        gcd_spec(pool.param_a as nat, pool.size_m as nat) == 1,
        pool.param_a <= pool.size_m,
        pool.param_b < pool.size_m,
        pool.size_m * pool.size_m <= usize::MAX as int + 1,
    ensures
        pool.slots_distinct(),
{
    assert forall|id1: int, n1: int, id2: int, n2: int|
        0 <= id1 < pool.total_normal_nodes && 0 <= n1 < pool.replica_limits@[id1]
        && 0 <= id2 < pool.total_normal_nodes && 0 <= n2 < pool.replica_limits@[id2]
        && (id1 != id2 || n1 != n2)
        implies #[trigger] pool.slot_index(id1, n1) != #[trigger] pool.slot_index(id2, n2) by {
        let x1 = pool.replica_prefix_sum@[id1] + n1;
        let x2 = pool.replica_prefix_sum@[id2] + n2;
        assert(x1 != x2) by {
            if id1 < id2 {
                assert(pool.replica_prefix_sum@[id1] + pool.replica_limits@[id1] <= pool.replica_prefix_sum@[id2]);
            } else if id2 < id1 {
                assert(pool.replica_prefix_sum@[id2] + pool.replica_limits@[id2] <= pool.replica_prefix_sum@[id1]);
            }
        }
        if pool.slot_index(id1, n1) == pool.slot_index(id2, n2) {
            crate::coprime::lemma_lcg_slot_injective(pool.param_a, pool.param_b, pool.size_m, x1 as usize, x2 as usize);
        }
    }
}

/// The running sums of the replica limits are the sums of the limits table.
proof fn lemma_limits_total_prefix(hubs: Seq<usize>, counts: Seq<u32>, limits: Seq<u32>, n: int)
    requires
        n <= limits.len(),
        forall|x: int| 0 <= x < n ==> #[trigger] limits[x] == limit_for(hubs, counts, x),
    ensures
        limits_total(hubs, counts, n) == prefix_of(limits, n),
    decreases n,
{
    if n > 0 {
        lemma_limits_total_prefix(hubs, counts, limits, n - 1);
        assert(limits[n - 1] == limit_for(hubs, counts, n - 1));
    }
}

/// A number below the sum of the first `n` limits lies in the range of one
/// of the first `n` entries.
proof fn lemma_prefix_cover(limits: Seq<u32>, n: int, x: int)
    requires
        0 <= x < prefix_of(limits, n),
        n <= limits.len(),
    ensures
        exists|id: int| 0 <= id < n && #[trigger] prefix_of(limits, id) <= x < prefix_of(limits, id) + limits[id],
    decreases n,
{
    if n > 0 {
        if x < prefix_of(limits, n - 1) {
            lemma_prefix_cover(limits, n - 1, x);
            let id = choose|id: int| 0 <= id < n - 1 && #[trigger] prefix_of(limits, id) <= x < prefix_of(limits, id) + limits[id];
            assert(0 <= id < n && prefix_of(limits, id) <= x < prefix_of(limits, id) + limits[id]);
        } else {
            assert(prefix_of(limits, n - 1) <= x < prefix_of(limits, n - 1) + limits[n - 1]);
        }
    }
}

/// When the replica ranges tile the slot numbers and distinct replicas have
/// distinct slots, every slot holds a replica: the slots are a permutation
/// of the replicas.
pub proof fn lemma_slots_filled(pool: UnifiedPool)
    requires
        pool.slots_laid_out(),
        pool.ranges_contiguous(),
        pool.slots_distinct(),
    ensures
        pool.slots_filled(),
{
    let m = pool.size_m as int;
    let total = pool.total_normal_nodes as int;
    let limits = pool.replica_limits@;
    let f = |x: int| crate::coprime::lcg_slot(pool.param_a, pool.param_b, pool.size_m, x as usize);
    let xs = set_int_range(0, m);
    let slots = xs.map(f);
    assert forall|x1: int, x2: int| xs.contains(x1) && xs.contains(x2) && #[trigger] f(x1) == #[trigger] f(x2) implies x1 == x2 by {
        lemma_prefix_cover(limits, total, x1);
        lemma_prefix_cover(limits, total, x2);
        let id1 = choose|id: int| 0 <= id < total && #[trigger] prefix_of(limits, id) <= x1 < prefix_of(limits, id) + limits[id];
        let id2 = choose|id: int| 0 <= id < total && #[trigger] prefix_of(limits, id) <= x2 < prefix_of(limits, id) + limits[id];
        let n1 = x1 - prefix_of(limits, id1);
        let n2 = x2 - prefix_of(limits, id2);
        assert(pool.replica_prefix_sum@[id1] == prefix_of(limits, id1));
        assert(pool.replica_prefix_sum@[id2] == prefix_of(limits, id2));
        assert(pool.slot_index(id1, n1) == f(x1));
        assert(pool.slot_index(id2, n2) == f(x2));
        if x1 != x2 {
            assert(id1 != id2 || n1 != n2);
            assert(pool.slot_index(id1, n1) != pool.slot_index(id2, n2));
        }
    }
    assert(vstd::relations::injective_on(f, xs));
    lemma_int_range(0, m);
    lemma_map_size(xs, slots, f);
    assert forall|j: int| slots.contains(j) implies set_int_range(0, m).contains(j) by {
        let x = choose|x: int| xs.contains(x) && f(x) == j;
        crate::coprime::lemma_lcg_slot_bound(pool.param_a, pool.param_b, pool.size_m, x as usize);
    }
    lemma_subset_equality(slots, set_int_range(0, m));
    assert forall|j: int| 0 <= j < m implies #[trigger] pool.slot_taken(j) by {
        assert(set_int_range(0, m).contains(j));
        assert(slots.contains(j));
        let x = choose|x: int| xs.contains(x) && f(x) == j;
        lemma_prefix_cover(limits, total, x);
        let id = choose|id: int| 0 <= id < total && #[trigger] prefix_of(limits, id) <= x < prefix_of(limits, id) + limits[id];
        let nth = x - prefix_of(limits, id);
        assert(pool.replica_prefix_sum@[id] == prefix_of(limits, id));
        assert(pool.slot_index(id, nth) == j);
    }
}

/// Marks the hub ids: entry `i` of the result is 1 when `i` is a hub and 0
/// otherwise. Also returns how many entries are marked.
fn mark_hubs(total: usize, hub_nodes: &[usize]) -> (r: (Vec<usize>, Ghost<int>))
    requires
        forall|q: int| 0 <= q < hub_nodes@.len() ==> #[trigger] hub_nodes@[q] < total,
    ensures
        r.0@.len() == total,
        forall|i: int| 0 <= i < total ==> (#[trigger] r.0@[i] == 1 <==> hub_nodes@.contains(i as usize)),
        forall|i: int| 0 <= i < total ==> #[trigger] r.0@[i] == 0 || r.0@[i] == 1,
        r.1@ == count_marked(r.0@, total as int),
        r.1@ <= hub_nodes@.len(),
{
    let mut in_h: Vec<usize> = vec![0usize; total];
    let ghost mut marked: int = 0;
    proof {
        assert(count_marked(in_h@, total as int) == 0) by {
            lemma_count_zero(in_h@, total as int);
        }
    }
    let n = hub_nodes.len();
    let mut k: usize = 0;
    while k < n
        invariant
            n == hub_nodes@.len(),
            k <= n,
            in_h@.len() == total,
            forall|q: int| 0 <= q < hub_nodes@.len() ==> #[trigger] hub_nodes@[q] < total,
            forall|i: int| 0 <= i < total ==> (#[trigger] in_h@[i] == 1 <==> exists|q: int| 0 <= q < k && hub_nodes@[q] == i),
            forall|i: int| 0 <= i < total ==> #[trigger] in_h@[i] == 0 || in_h@[i] == 1,
            marked == count_marked(in_h@, total as int),
            marked <= k,
        decreases n - k,
    {
        let hid = hub_nodes[k];
        proof {
            lemma_count_marked_set(in_h@, hid as int, total as int);
            if in_h@[hid as int] != 1 {
                marked = marked + 1;
            }
        }
        in_h.set(hid, 1);
        proof {
            assert forall|i: int| 0 <= i < total implies (#[trigger] in_h@[i] == 1 <==> exists|q: int| 0 <= q < k + 1 && hub_nodes@[q] == i) by {
                if i == hid as int {
                    assert(hub_nodes@[k as int] == i);
                } else if in_h@[i] == 1 {
                    let q = choose|q: int| 0 <= q < k && hub_nodes@[q] == i;
                    assert(0 <= q < k + 1 && hub_nodes@[q] == i);
                }
            }
        }
        k = k + 1;
    }
    proof {
        assert forall|i: int| 0 <= i < total implies (#[trigger] in_h@[i] == 1 <==> hub_nodes@.contains(i as usize)) by {
            if in_h@[i] == 1 {
                let q = choose|q: int| 0 <= q < n && hub_nodes@[q] == i;
                assert(hub_nodes@[q] == i as usize);
            }
            if hub_nodes@.contains(i as usize) {
                let q = choose|q: int| 0 <= q < hub_nodes@.len() && hub_nodes@[q] == i as usize;
                assert(0 <= q < n && hub_nodes@[q] == i);
            }
        }
    }
    (in_h, Ghost(marked))
}

proof fn lemma_count_zero(flags: Seq<usize>, n: int)
    requires
        n <= flags.len(),
        forall|i: int| 0 <= i < flags.len() ==> #[trigger] flags[i] == 0,
    ensures
        count_marked(flags, n) == 0,
    decreases n,
{
    if n > 0 {
        lemma_count_zero(flags, n - 1);
    }
}

/// Copies the hub records into a dense array in id order, writing one
/// record for every node so that the write pattern does not depend on
/// which nodes are hubs: entry `count_marked(in_h, i)` ends up holding
/// `database[i]` for each hub `i`.
fn gather_hubs(database: &[NodeData], in_h: &Vec<usize>, slots: usize, Ghost(marked): Ghost<int>) -> (p_h0: Vec<NodeData>)
    requires
        in_h@.len() <= database@.len(),
        marked == count_marked(in_h@, in_h@.len() as int),
        marked < slots,
    ensures
        p_h0@.len() == slots,
        forall|i: int| 0 <= i < in_h@.len() && #[trigger] in_h@[i] == 1 ==> p_h0@[count_marked(in_h@, i)] == database@[i],
{
    let total = in_h.len();
    let mut p_h0: Vec<NodeData> = vec![NodeData::new_empty(); slots];
    let mut j: usize = 0;
    let mut i: usize = 0;
    while i < total
        invariant
            total == in_h@.len(),
            total <= database@.len(),
            i <= total,
            p_h0@.len() == slots,
            marked == count_marked(in_h@, total as int),
            marked < slots,
            j == count_marked(in_h@, i as int),
            forall|i2: int| 0 <= i2 < i && #[trigger] in_h@[i2] == 1 ==> p_h0@[count_marked(in_h@, i2)] == database@[i2],
        decreases total - i,
    {
        proof {
            lemma_count_marked_monotone(in_h@, i as int, total as int);
            assert forall|i2: int| 0 <= i2 < i && #[trigger] in_h@[i2] == 1 implies count_marked(in_h@, i2) < j by {
                lemma_count_marked_monotone(in_h@, i2 + 1, i as int);
            }
        }
        let safe_j = if j < p_h0.len() { j } else { 0 };
        assert(safe_j == j);
        let ghost before = p_h0@;
        p_h0.set(safe_j, database[i]);
        if in_h[i] == 1 {
            j = j + 1;
        }
        proof {
            assert(count_marked(in_h@, i + 1) == count_marked(in_h@, i as int) + (if in_h@[i as int] == 1 { 1int } else { 0int }));
            assert forall|i2: int| 0 <= i2 < i + 1 && #[trigger] in_h@[i2] == 1 implies p_h0@[count_marked(in_h@, i2)] == database@[i2] by {
                if i2 < i {
                    lemma_count_marked_monotone(in_h@, i2 + 1, i as int);
                    lemma_count_marked_monotone(in_h@, 0, i2);
                    assert(count_marked(in_h@, i2) < safe_j);
                    assert(p_h0@[count_marked(in_h@, i2)] == before[count_marked(in_h@, i2)]);
                }
            }
        }
        i = i + 1;
    }
    p_h0
}

/// The hash multiplier: starting from the high half of the digest reduced
/// modulo `m` (or 1 when that is 0), the first value coprime to `m`,
/// wrapping to 1 past `m - 1`.
fn choose_multiplier(h: u64, m: usize) -> (a: usize)
    requires
        m > 0,
    ensures
        a == hash_multiplier(h, m),
        gcd_spec(a as nat, m as nat) == 1,
        1 <= a <= m,
{
    let m64 = m as u64;
    let mut a: usize = ((h >> 32u64) % m64) as usize;
    if a == 0 {
        a = 1;
    }
    let ghost target = hash_multiplier(h, m);
    proof {
        lemma_gcd_one(m as nat);
        lemma_coprime_from(a as nat, m as nat);
    }
    while gcd(a, m) != 1
        invariant
            m > 0,
            1 <= a,
            a < m || a == 1,
            coprime_from(a as nat, m as nat) == target,
            gcd_spec(1, m as nat) == 1,
        decreases (if gcd_spec(a as nat, m as nat) == 1 { 0 } else { m - a + 1 }),
    {
        let ghost prev = a;
        proof {
            assert(prev < m);
            assert(coprime_from(prev as nat, m as nat) == coprime_from((prev + 1) as nat, m as nat));
            if prev + 1 < m {
                vstd::arithmetic::div_mod::lemma_small_mod((prev + 1) as nat, m as nat);
            } else {
                assert((prev + 1) as nat % (m as nat) == 0) by {
                    vstd::arithmetic::div_mod::lemma_mod_self_0(m as int);
                }
                assert(coprime_from(m as nat, m as nat) == 1);
                assert(coprime_from(1, m as nat) == 1);
            }
        }
        a = (a + 1) % m;
        if a == 0 {
            a = 1;
        }
    }
    proof {
        lemma_coprime_from(a as nat, m as nat);
    }
    a
}

/// Exchanges entries `i` and `j` of `arr` when `condition` holds, through a
/// masked exchange rather than a branch on `condition`.
fn conditional_swap(arr: &mut [usize], i: usize, j: usize, condition: bool)
    requires
        i < old(arr)@.len(),
        j < old(arr)@.len(),
    ensures
        final(arr)@ == (if condition && i != j { old(arr)@.update(i as int, old(arr)@[j as int]).update(j as int, old(arr)@[i as int]) } else { old(arr)@ }),
{
    if i != j {
        let mut x = arr[i];
        let mut y = arr[j];
        cnd_swap_copy(condition, &mut x, &mut y);
        arr[i] = x;
        arr[j] = y;
        assert(arr@ =~= (if condition { old(arr)@.update(i as int, old(arr)@[j as int]).update(j as int, old(arr)@[i as int]) } else { old(arr)@ }));
    }
}

impl UnifiedPool {
    /// Lists the non-hub nodes in id order with their replica limits.
    fn active_nodes(&self, in_h: &Vec<usize>) -> (r: (Vec<usize>, Vec<usize>))
        requires
            self.wf(),
            in_h@.len() == self.total_normal_nodes,
        ensures
            r.0@.len() == r.1@.len(),
            forall|p: int| 0 <= p < r.0@.len() ==> {
                &&& #[trigger] r.0@[p] < self.total_normal_nodes
                &&& in_h@[r.0@[p] as int] == 0
                &&& r.1@[p] == self.replica_limits@[r.0@[p] as int]
            },
            forall|p: int, q: int| 0 <= p < q < r.0@.len() ==> #[trigger] r.0@[p] < #[trigger] r.0@[q],
            forall|id: int| 0 <= id < self.total_normal_nodes && #[trigger] in_h@[id] == 0 ==>
                exists|p: int| 0 <= p < r.0@.len() && r.0@[p] == id,
    {
        let total = self.total_normal_nodes;
        let mut a1: Vec<usize> = Vec::with_capacity(total);
        let mut a2: Vec<usize> = Vec::with_capacity(total);
        let mut i: usize = 0;
        while i < total
            invariant
                self.wf(),
                total == self.total_normal_nodes,
                in_h@.len() == total,
                i <= total,
                a1@.len() == a2@.len(),
                forall|p: int| 0 <= p < a1@.len() ==> {
                    &&& #[trigger] a1@[p] < i
                    &&& in_h@[a1@[p] as int] == 0
                    &&& a2@[p] == self.replica_limits@[a1@[p] as int]
                },
                forall|p: int, q: int| 0 <= p < q < a1@.len() ==> #[trigger] a1@[p] < #[trigger] a1@[q],
                forall|id: int| 0 <= id < i && #[trigger] in_h@[id] == 0 ==>
                    exists|p: int| 0 <= p < a1@.len() && a1@[p] == id,
            decreases total - i,
        {
            let ghost old_a1 = a1@;
            if in_h[i] == 0 {
                a1.push(i);
                a2.push(self.replica_limits[i] as usize);
                proof {
                    assert(a1@[a1@.len() - 1] == i);
                }
            }
            proof {
                assert forall|id: int| 0 <= id < i + 1 && #[trigger] in_h@[id] == 0 implies
                    exists|p: int| 0 <= p < a1@.len() && a1@[p] == id by {
                    if id == i {
                        assert(a1@[a1@.len() - 1] == id);
                    } else {
                        let p = choose|p: int| 0 <= p < old_a1.len() && old_a1[p] == id;
                        assert(a1@[p] == id);
                    }
                }
            }
            i = i + 1;
        }
        assert forall|id: int| 0 <= id < total && #[trigger] in_h@[id] == 0 implies
            exists|p: int| 0 <= p < a1@.len() && a1@[p] == id by {
            assert(id < i);
        }
        (a1, a2)
    }
}

impl UnifiedPool {
    /// Assigns every replica of every non-hub node to its slot: while some
    /// node has replicas left, a node is drawn at random among those, its
    /// next replica's slot is given its id, and a node whose replicas are
    /// all placed is swapped out of the active range without a branch.
    fn spread_replicas(&self, in_h: &Vec<usize>) -> (pos: Vec<usize>)
        requires
            self.slots_laid_out(),
            in_h@.len() == self.total_normal_nodes,
            forall|i: int| 0 <= i < self.total_normal_nodes ==>
                (#[trigger] in_h@[i] == 1 ==> self.replica_limits@[i] == 0)
                && (in_h@[i] == 0 ==> self.replica_limits@[i] > 0)
                && (in_h@[i] == 0 || in_h@[i] == 1),
        ensures
            pos@.len() == self.size_m,
            forall|j: int| 0 <= j < self.size_m ==> #[trigger] pos@[j] < self.total_normal_nodes,
            self.slots_distinct() ==> forall|id: int, nth: int|
                0 <= id < self.total_normal_nodes && 0 <= nth < self.replica_limits@[id]
                ==> pos@[#[trigger] self.slot_index(id, nth)] == id,
    {
        let total = self.total_normal_nodes;
        let (mut a1, mut a2) = self.active_nodes(in_h);
        let mut pos: Vec<usize> = vec![0usize; self.size_m];
        let mut active: usize = a1.len();
        let mut rng = small_rng_from_entropy();
        let ghost mut rem: Seq<int> = Seq::new(total as nat, |i: int| self.replica_limits@[i] as int);
        proof {
            assert forall|id: int| 0 <= id < total && #[trigger] rem[id] > 0 implies
                exists|p: int| 0 <= p < active && a1@[p] == id by {
                assert(in_h@[id] == 0 || in_h@[id] == 1);
                assert(in_h@[id] == 0);
            }
            assert forall|p: int, q: int| 0 <= p < active && 0 <= q < active && p != q implies
                #[trigger] a1@[p] != #[trigger] a1@[q] by {
                if p < q {
                    assert(a1@[p] < a1@[q]);
                } else {
                    assert(a1@[q] < a1@[p]);
                }
            }
        }
        while active > 0
            invariant
                self.slots_laid_out(),
                total == self.total_normal_nodes,
                a1@.len() == a2@.len(),
                active <= a1@.len(),
                rem.len() == total,
                pos@.len() == self.size_m,
                forall|p: int| 0 <= p < active ==> {
                    &&& #[trigger] a1@[p] < total
                    &&& a2@[p] == rem[a1@[p] as int]
                    &&& a2@[p] >= 1
                },
                forall|p: int, q: int| 0 <= p < active && 0 <= q < active && p != q ==> #[trigger] a1@[p] != #[trigger] a1@[q],
                forall|id: int| 0 <= id < total ==> 0 <= #[trigger] rem[id] <= self.replica_limits@[id],
                forall|id: int| 0 <= id < total && #[trigger] rem[id] > 0 ==> exists|p: int| 0 <= p < active && a1@[p] == id,
                forall|j: int| 0 <= j < self.size_m ==> #[trigger] pos@[j] < total,
                self.slots_distinct() ==> forall|id: int, nth: int|
                    0 <= id < total && 0 <= nth < self.replica_limits@[id] - rem[id]
                    ==> pos@[#[trigger] self.slot_index(id, nth)] == id,
            decreases seq_sum(rem),
        {
            let tail = active - 1;
            let idx = small_rng_index(&mut rng, tail);
            let id = a1[idx];
            let remaining_c = a2[idx];
            let nth = self.replica_limits[id] as usize - remaining_c;
            let mapped_idx = self.perfect_hash(id, nth);
            let ghost old_pos = pos@;
            let ghost old_rem = rem;
            let ghost old_a1 = a1@;
            let ghost old_a2 = a2@;
            pos.set(mapped_idx, id);
            let dec = a2[idx] - 1;
            a2.set(idx, dec);
            let is_full = a2[idx] == 0;
            proof {
                rem = rem.update(id as int, rem[id as int] - 1);
                lemma_seq_sum_update(old_rem, id as int, old_rem[id as int] - 1);
                lemma_seq_sum_nonneg(rem);
            }
            let ghost mid_a2 = a2@;
            conditional_swap(&mut a1, idx, tail, is_full);
            conditional_swap(&mut a2, idx, tail, is_full);
            active = active - is_full as usize;
            proof {
                assert(nth as int == self.replica_limits@[id as int] - old_rem[id as int]);
                // the entries of the active range
                assert forall|p: int| 0 <= p < active implies {
                    &&& #[trigger] a1@[p] < total
                    &&& a2@[p] == rem[a1@[p] as int]
                    &&& a2@[p] >= 1
                } by {
                    if is_full && p == idx && idx != tail {
                        assert(a1@[p] == old_a1[tail as int]);
                        assert(old_a1[tail as int] != id);
                    } else if p != idx {
                        assert(a1@[p] == old_a1[p]);
                        assert(old_a1[p] != id);
                    }
                }
                assert forall|p: int, q: int| 0 <= p < active && 0 <= q < active && p != q implies
                    #[trigger] a1@[p] != #[trigger] a1@[q] by {
                    let op = if is_full && p == idx { tail as int } else { p };
                    let oq = if is_full && q == idx { tail as int } else { q };
                    assert(a1@[p] == old_a1[op]);
                    assert(a1@[q] == old_a1[oq]);
                    assert(old_a1[op] != old_a1[oq]);
                }
                assert forall|x: int| 0 <= x < total && #[trigger] rem[x] > 0 implies
                    exists|p: int| 0 <= p < active && a1@[p] == x by {
                    assert(old_rem[x] > 0);
                    let p = choose|p: int| 0 <= p < old_a1.len() && p <= tail && old_a1[p] == x;
                    if is_full && p == tail as int && idx != tail {
                        assert(a1@[idx as int] == x);
                    } else if is_full && p == tail as int {
                        assert(x == id);
                    } else {
                        if is_full {
                            assert(p != idx as int);
                        }
                        assert(a1@[p] == x);
                    }
                }
                if self.slots_distinct() {
                    assert forall|x: int, k: int|
                        0 <= x < total && 0 <= k < self.replica_limits@[x] - rem[x]
                        implies pos@[#[trigger] self.slot_index(x, k)] == x by {
                        if x == id && k == nth {
                        } else {
                            assert(self.slot_index(x, k) != self.slot_index(id as int, nth as int));
                            assert(old_pos[self.slot_index(x, k)] == x);
                        }
                    }
                }
            }
        }
        proof {
            assert forall|x: int| 0 <= x < total implies #[trigger] rem[x] == 0 by {
                if rem[x] > 0 {
                    let p = choose|p: int| 0 <= p < active && a1@[p] == x;
                }
            }
        }
        pos
    }
}

impl UnifiedPool {
    /// The hub records and the replicas in the pool are those of `db`:
    /// each hub in the map holds its own record, and each replica slot of a
    /// node holds that node's record.
    pub open spec fn holds_database(&self, db: Seq<NodeData>) -> bool {
        &&& forall|h: usize| #[trigger] self.hub_map@.contains_key(h) ==> h < db.len() && self.hub_map@[h] == db[h as int]
        &&& forall|id: int, nth: int|
            0 <= id < self.total_normal_nodes && 0 <= nth < self.replica_limits@[id]
            ==> #[trigger] self.holds_slot(db, id, nth)
    }

    /// Rebuilds the pool for a new epoch from the node records `database`:
    /// the hubs `hub_nodes` go into the hub map, every other node `i` gets
    /// `replica_counts[i]` replicas, the slot hash is rekeyed from
    /// `new_batch_number`, each replica is placed at its slot, and the
    /// replica usage counters are reset.
    pub fn oblivious_reconstruct(
        &mut self,
        database: &[NodeData],
        hub_nodes: &[usize],
        replica_counts: &[u32],
        new_batch_number: usize,
    )
        requires
            old(self).wf(),
            hub_nodes@.len() < usize::MAX,
            database@.len() >= old(self).total_normal_nodes,
            replica_counts@.len() >= old(self).total_normal_nodes,
            forall|q: int| 0 <= q < hub_nodes@.len() ==> #[trigger] hub_nodes@[q] < old(self).total_normal_nodes,
            forall|i: int| 0 <= i < old(self).total_normal_nodes && !hub_nodes@.contains(i as usize)
                ==> #[trigger] replica_counts@[i] > 0,
            0 < limits_total(hub_nodes@, replica_counts@, old(self).total_normal_nodes as int) <= usize::MAX,
            old(self).total_normal_nodes <= usize::MAX / 8,
        ensures
            final(self).ready(),
            final(self).total_normal_nodes == old(self).total_normal_nodes,
            final(self).epoch_access_counts@ == old(self).epoch_access_counts@,
            final(self).hub_map@ == Map::new(|h: usize| hub_nodes@.contains(h), |h: usize| database@[h as int]),
            final(self).hub_id_list@ == hub_nodes@,
            final(self).size_m == limits_total(hub_nodes@, replica_counts@, old(self).total_normal_nodes as int),
            forall|i: int| 0 <= i < old(self).total_normal_nodes ==> {
                &&& #[trigger] final(self).replica_limits@[i] == limit_for(hub_nodes@, replica_counts@, i)
                &&& final(self).replica_prefix_sum@[i] == limits_total(hub_nodes@, replica_counts@, i)
                &&& final(self).node_nth_table@[i] == 0
            },
            final(self).param_a == hash_multiplier(xxh3_64_of(usize_le_seq(new_batch_number)), final(self).size_m),
            final(self).param_b == hash_offset(xxh3_64_of(usize_le_seq(new_batch_number)), final(self).size_m),
            gcd_spec(final(self).param_a as nat, final(self).size_m as nat) == 1,
            1 <= final(self).param_a <= final(self).size_m,
            final(self).param_b < final(self).size_m,
            final(self).ranges_ordered(),
            final(self).ranges_contiguous(),
            final(self).slots_distinct() ==> final(self).holds_database(database@) && final(self).slots_filled(),
            final(self).size_m * final(self).size_m <= usize::MAX as int + 1 ==> final(self).holds_database(database@) && final(self).slots_filled(),
    {
        let total = self.total_normal_nodes;

        // The hub pool.
        let (in_h, marked) = mark_hubs(total, hub_nodes);
        let p_h0 = gather_hubs(database, &in_h, hub_nodes.len() + 1, marked);
        self.hub_map.clear();
        self.hub_id_list.clear();
        let mut k: usize = 0;
        let mut i: usize = 0;
        while i < total
            invariant
                total == in_h@.len(),
                total <= database@.len(),
                i <= total,
                p_h0@.len() == hub_nodes@.len() + 1,
                marked@ == count_marked(in_h@, total as int),
                marked@ <= hub_nodes@.len(),
                hub_nodes@.len() < usize::MAX,
                self.wf(),
                self.total_normal_nodes == total,
                self.epoch_access_counts@ == old(self).epoch_access_counts@,
                self.hub_id_list@.len() == 0,
                k == count_marked(in_h@, i as int),
                forall|i2: int| 0 <= i2 < total && #[trigger] in_h@[i2] == 1 ==> p_h0@[count_marked(in_h@, i2)] == database@[i2],
                self.hub_map@ == Map::new(|h: usize| h < i && in_h@[h as int] == 1, |h: usize| database@[h as int]),
            decreases total - i,
        {
            proof {
                lemma_count_marked_monotone(in_h@, i as int, total as int);
                lemma_count_marked_monotone(in_h@, i + 1, total as int);
                lemma_count_marked_monotone(in_h@, 0, i as int);
            }
            if in_h[i] == 1 {
                self.hub_map.insert(i, p_h0[k]);
                k = k + 1;
            }
            proof {
                assert(self.hub_map@ =~= Map::new(|h: usize| h < i + 1 && in_h@[h as int] == 1, |h: usize| database@[h as int]));
            }
            i = i + 1;
        }
        let mut q: usize = 0;
        assert(self.hub_id_list@ =~= hub_nodes@.subrange(0, 0));
        while q < hub_nodes.len()
            invariant
                q <= hub_nodes@.len(),
                self.hub_id_list@ == hub_nodes@.subrange(0, q as int),
                self.wf(),
                self.total_normal_nodes == total,
                self.epoch_access_counts@ == old(self).epoch_access_counts@,
                self.hub_map@ == Map::new(|h: usize| h < total && in_h@[h as int] == 1, |h: usize| database@[h as int]),
            decreases hub_nodes@.len() - q,
        {
            self.hub_id_list.push(hub_nodes[q]);
            proof {
                assert(self.hub_id_list@ =~= hub_nodes@.subrange(0, q + 1));
            }
            q = q + 1;
        }
        proof {
            assert(self.hub_id_list@ =~= hub_nodes@);
            assert forall|h: usize| (h < total && in_h@[h as int] == 1) <==> hub_nodes@.contains(h) by {
                if hub_nodes@.contains(h) {
                    let w = choose|w: int| 0 <= w < hub_nodes@.len() && hub_nodes@[w] == h;
                    assert(hub_nodes@[w] < total);
                }
            }
            assert(self.hub_map@ =~= Map::new(|h: usize| hub_nodes@.contains(h), |h: usize| database@[h as int]));
        }

        // Replica limits and their prefix sums.
        let ghost hubs = hub_nodes@;
        let ghost counts = replica_counts@;
        let mut current_prefix: usize = 0;
        let mut i: usize = 0;
        while i < total
            invariant
                self.wf(),
                total == self.total_normal_nodes,
                total == in_h@.len(),
                replica_counts@.len() >= total,
                counts == replica_counts@,
                hubs == hub_nodes@,
                forall|x: int| 0 <= x < total ==> (#[trigger] in_h@[x] == 1 <==> hubs.contains(x as usize)),
                i <= total,
                limits_total(hubs, counts, total as int) <= usize::MAX,
                current_prefix == limits_total(hubs, counts, i as int),
                forall|x: int| 0 <= x < i ==> {
                    &&& #[trigger] self.replica_limits@[x] == limit_for(hubs, counts, x)
                    &&& self.replica_prefix_sum@[x] == limits_total(hubs, counts, x)
                },
                self.hub_map@ == Map::new(|h: usize| hubs.contains(h), |h: usize| database@[h as int]),
                self.hub_id_list@ == hubs,
                self.epoch_access_counts@ == old(self).epoch_access_counts@,
            decreases total - i,
        {
            let r_i: u32 = if in_h[i] == 1 { 0 } else { replica_counts[i] };
            assert(r_i == limit_for(hubs, counts, i as int));
            assert(limits_total(hubs, counts, i + 1) == limits_total(hubs, counts, i as int) + limit_for(hubs, counts, i as int));
            self.replica_limits.set(i, r_i);
            self.replica_prefix_sum.set(i, current_prefix);
            proof {
                lemma_limits_total_monotone(hubs, counts, i + 1, total as int);
            }
            current_prefix = current_prefix + r_i as usize;
            i = i + 1;
        }
        self.size_m = current_prefix;

        // Rekey the slot hash.
        let seed_bytes = usize_le_bytes(new_batch_number);
        let hash_val = xxh3_digest(seed_bytes.as_slice());
        let a = choose_multiplier(hash_val, self.size_m);
        let b: usize = ((hash_val & 0xFFFF_FFFFu64) % (self.size_m as u64)) as usize;
        self.param_a = a;
        self.param_b = b;

        // Reset the replica usage counters.
        let ghost snap = *self;
        let mut i: usize = 0;
        while i < total
            invariant
                Self::same_records(self, &snap),
                self.epoch_access_counts@ == snap.epoch_access_counts@,
                self.wf(),
                total == self.total_normal_nodes,
                i <= total,
                forall|x: int| 0 <= x < i ==> #[trigger] self.node_nth_table@[x] == 0,
            decreases total - i,
        {
            self.node_nth_table.set(i, 0);
            i = i + 1;
        }

        proof {
            assert forall|x: int| 0 <= x < total implies
                #[trigger] self.replica_prefix_sum@[x] + self.replica_limits@[x] <= self.size_m by {
                lemma_limits_total_monotone(hubs, counts, x + 1, total as int);
            }
        }

        // Place every replica at its slot.
        let pos = self.spread_replicas(&in_h);

        // Fill the slots.
        let flat_pool = fill_slots(database, &pos, total, self.size_m);
        let ghost laid = *self;
        self.flat_pool = flat_pool;
        proof {
            if self.slots_distinct() {
                assert forall|id1: int, n1: int, id2: int, n2: int|
                    0 <= id1 < laid.total_normal_nodes && 0 <= n1 < laid.replica_limits@[id1]
                    && 0 <= id2 < laid.total_normal_nodes && 0 <= n2 < laid.replica_limits@[id2]
                    && (id1 != id2 || n1 != n2)
                    implies #[trigger] laid.slot_index(id1, n1) != #[trigger] laid.slot_index(id2, n2) by {
                    assert(self.slot_index(id1, n1) != self.slot_index(id2, n2));
                }
                assert(laid.slots_distinct());
                assert forall|id: int, nth: int|
                    0 <= id < self.total_normal_nodes && 0 <= nth < self.replica_limits@[id]
                    implies #[trigger] self.holds_slot(database@, id, nth) by {
                    assert(self.slot_index(id, nth) == laid.slot_index(id, nth));
                    assert(pos@[laid.slot_index(id, nth)] == id);
                    crate::coprime::lemma_lcg_slot_bound(self.param_a, self.param_b, self.size_m, (self.replica_prefix_sum@[id] + nth) as usize);
                }
            }
            assert forall|x: int, y: int| 0 <= x < y < total implies
                #[trigger] self.replica_prefix_sum@[x] + self.replica_limits@[x] <= #[trigger] self.replica_prefix_sum@[y] by {
                lemma_limits_total_monotone(hubs, counts, x + 1, y);
            }
            if self.size_m * self.size_m <= usize::MAX as int + 1 {
                lemma_slots_distinct(*self);
            }
            assert forall|x: int| 0 <= x < total implies
                #[trigger] self.replica_prefix_sum@[x] == prefix_of(self.replica_limits@, x) by {
                lemma_limits_total_prefix(hubs, counts, self.replica_limits@, x);
            }
            lemma_limits_total_prefix(hubs, counts, self.replica_limits@, total as int);
            assert(self.ranges_contiguous());
            if self.slots_distinct() {
                lemma_slots_filled(*self);
            }
        }
    }
}

} // verus!
