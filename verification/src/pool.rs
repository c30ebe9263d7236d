//! The unified memory pool: hub nodes held in a map, every other node held
//! in single-use replicas at slots chosen by a keyed affine hash.
use vstd::prelude::*;
use std::collections::HashMap;
use crate::node::{NodeData, NO_NEIGHBOR};
use crate::coprime::{lcg_slot, gcd_spec};
use crate::outside::thread_rng_below;

pub mod reconstruct;
mod segments;

verus! {

broadcast use vstd::std_specs::hash::group_hash_axioms;

/// `x + 1`, or `u32::MAX` when that overflows.
pub open spec fn sat_inc(x: u32) -> u32 {
    if x == u32::MAX { x } else { (x + 1) as u32 }
}

/// Sum of the first `n` entries of `limits`.
pub open spec fn prefix_of(limits: Seq<u32>, n: int) -> int
    decreases n,
{
    if n <= 0 { 0 } else { prefix_of(limits, n - 1) + limits[n - 1] }
}

/// The pool.
pub struct UnifiedPool {
    /// Hub nodes, by id.
    pub hub_map: HashMap<usize, NodeData>,
    /// Replica slots of the non-hub nodes.
    pub flat_pool: Vec<NodeData>,
    /// Number of nodes of the database.
    pub total_normal_nodes: usize,
    /// Number of replica slots, the sum of `replica_limits`.
    pub size_m: usize,
    /// Replicas of each node used in the current epoch.
    pub node_nth_table: Vec<u32>,
    /// Hub ids, in the order they were given.
    pub hub_id_list: Vec<usize>,
    /// Multiplier of the slot hash.
    pub param_a: usize,
    /// Offset of the slot hash.
    pub param_b: usize,
    /// Replicas allotted to each node (zero for hubs).
    pub replica_limits: Vec<u32>,
    /// Sum of the replica limits of the nodes before each node.
    pub replica_prefix_sum: Vec<usize>,
    /// Accesses of each node in the current epoch.
    pub epoch_access_counts: Vec<u32>,
}

/// Selecting with a 0/1 mask by multiplication gives one of the two values.
proof fn lemma_mask_select(mask: usize, x: usize, y: usize)
    requires
        mask == 0 || mask == 1,
    ensures
        mask * x + (1 - mask) * y == (if mask == 1 { x } else { y }),
        mask * x <= x,
        (1 - mask) * y <= y,
{
    if mask == 1 {
        assert(1 * x == x);
        assert(0 * y == 0);
    } else {
        assert(0 * x == 0);
        assert(1 * y == y);
    }
}

impl UnifiedPool {
    /// The per-node tables all have one entry per node.
    pub open spec fn wf(&self) -> bool {
        &&& self.node_nth_table@.len() == self.total_normal_nodes
        &&& self.replica_limits@.len() == self.total_normal_nodes
        &&& self.replica_prefix_sum@.len() == self.total_normal_nodes
        &&& self.epoch_access_counts@.len() == self.total_normal_nodes
    }

    /// There are slots, and every node's replica range `[prefix, prefix + limit)`
    /// lies within them.
    pub open spec fn slots_laid_out(&self) -> bool {
        &&& self.wf()
        &&& self.total_normal_nodes > 0
        &&& self.size_m > 0
        &&& forall|i: int| 0 <= i < self.total_normal_nodes ==>
            #[trigger] self.replica_prefix_sum@[i] + self.replica_limits@[i] <= self.size_m
    }

    /// The pool has been rebuilt: its slots are laid out and allocated.
    pub open spec fn ready(&self) -> bool {
        &&& self.slots_laid_out()
        &&& self.flat_pool@.len() == self.size_m
    }

    /// Replica `nth` of node `id` holds that node's record in `db`.
    pub open spec fn holds_slot(&self, db: Seq<NodeData>, id: int, nth: int) -> bool {
        id < db.len() && self.flat_pool@[self.slot_index(id, nth)] == db[id]
    }

    /// The replica ranges `[prefix, prefix + limit)` of the nodes follow one
    /// another in id order without overlapping.
    pub open spec fn ranges_ordered(&self) -> bool {
        forall|i: int, j: int| 0 <= i < j < self.total_normal_nodes ==>
            #[trigger] self.replica_prefix_sum@[i] + self.replica_limits@[i] <= #[trigger] self.replica_prefix_sum@[j]
    }

    /// The replica ranges of the nodes tile the slot numbers `[0, size_m)`:
    /// each node's range starts where the ranges of the nodes before it end,
    /// and together they end at `size_m`.
    pub open spec fn ranges_contiguous(&self) -> bool {
        &&& forall|i: int| 0 <= i < self.total_normal_nodes ==>
            #[trigger] self.replica_prefix_sum@[i] == prefix_of(self.replica_limits@, i)
        &&& self.size_m == prefix_of(self.replica_limits@, self.total_normal_nodes as int)
    }

    /// Slot `j` is the slot of some replica of some node.
    pub open spec fn slot_taken(&self, j: int) -> bool {
        exists|id: int, nth: int|
            0 <= id < self.total_normal_nodes && 0 <= nth < self.replica_limits@[id]
            && #[trigger] self.slot_index(id, nth) == j
    }

    /// Every slot holds a replica.
    pub open spec fn slots_filled(&self) -> bool {
        forall|j: int| 0 <= j < self.size_m ==> #[trigger] self.slot_taken(j)
    }

    /// Distinct replicas of the nodes have distinct slots.
    pub open spec fn slots_distinct(&self) -> bool {
        forall|id1: int, n1: int, id2: int, n2: int|
            0 <= id1 < self.total_normal_nodes && 0 <= n1 < self.replica_limits@[id1]
            && 0 <= id2 < self.total_normal_nodes && 0 <= n2 < self.replica_limits@[id2]
            && (id1 != id2 || n1 != n2)
            ==> #[trigger] self.slot_index(id1, n1) != #[trigger] self.slot_index(id2, n2)
    }

    /// The slot of replica `nth` of node `id`.
    pub open spec fn slot_index(&self, id: int, nth: int) -> int {
        lcg_slot(self.param_a, self.param_b, self.size_m, (self.replica_prefix_sum@[id] + nth) as usize)
    }

    /// What a replica fetch of `id` returns when `nth` replicas of the node
    /// at table entry `entry` are used: the placeholder once they are all
    /// used, else the replica's slot.
    pub open spec fn replica_read(&self, id: int, entry: int, nth: u32) -> NodeData {
        if nth >= self.replica_limits@[entry] {
            NodeData::empty()
        } else {
            self.flat_pool@[self.slot_index(id, nth as int)]
        }
    }

    /// A replica fetch of `id` stays within the tables: either `id` is a
    /// node, or the entry it lands on has no replica left.
    pub open spec fn replica_fetch_in_bounds(&self, id: usize) -> bool {
        ||| id < self.total_normal_nodes
        ||| self.node_nth_table@[(id as int) % (self.total_normal_nodes as int)] >= self.replica_limits@[(id as int) % (self.total_normal_nodes as int)]
    }

    /// The node records of `new` are those of `old`: only the two per-epoch
    /// counter tables may differ.
    pub open spec fn same_records(new: &Self, old: &Self) -> bool {
        &&& new.hub_map@ == old.hub_map@
        &&& new.flat_pool@ == old.flat_pool@
        &&& new.total_normal_nodes == old.total_normal_nodes
        &&& new.size_m == old.size_m
        &&& new.hub_id_list@ == old.hub_id_list@
        &&& new.param_a == old.param_a
        &&& new.param_b == old.param_b
        &&& new.replica_limits@ == old.replica_limits@
        &&& new.replica_prefix_sum@ == old.replica_prefix_sum@
    }

    /// `counts` after one access of `id` is recorded.
    pub open spec fn counted(counts: Seq<u32>, id: usize) -> Seq<u32> {
        if id < counts.len() { counts.update(id as int, sat_inc(counts[id as int])) } else { counts }
    }

    /// What a replica fetch of `target` does: it returns the next unused
    /// replica of `target` (the placeholder once they are used up), spends
    /// it, and counts one access of `target`; no record changes.
    pub open spec fn replica_fetched(old: &Self, new: &Self, target: usize, r: NodeData) -> bool {
        let entry = (target as int) % (old.total_normal_nodes as int);
        let nth = old.node_nth_table@[entry];
        &&& r == old.replica_read(target as int, entry, nth)
        &&& new.node_nth_table@ == old.node_nth_table@.update(entry, sat_inc(nth))
        &&& new.epoch_access_counts@ == Self::counted(old.epoch_access_counts@, target)
        &&& Self::same_records(new, old)
        &&& new.ready()
    }

    /// What a fetch of `target` does: a hub is read from the hub map and
    /// one replica of some node is spent; any other node is fetched as a
    /// replica fetch.
    pub open spec fn fetched(old: &Self, new: &Self, target: usize, r: NodeData) -> bool {
        if old.hub_map@.contains_key(target) {
            &&& r == old.hub_map@[target]
            &&& exists|entry: int|
                0 <= entry < old.total_normal_nodes
                && new.node_nth_table@ == old.node_nth_table@.update(entry, sat_inc(#[trigger] old.node_nth_table@[entry]))
            &&& new.epoch_access_counts@ == Self::counted(old.epoch_access_counts@, target)
            &&& Self::same_records(new, old)
            &&& new.ready()
        } else {
            Self::replica_fetched(old, new, target, r)
        }
    }

    /// An empty pool for `total_normal_nodes` nodes, with no slots.
    pub fn new(total_normal_nodes: usize) -> (r: Self)
        ensures
            r.wf(),
            r.hub_map@ == Map::<usize, NodeData>::empty(),
            r.flat_pool@.len() == 0,
            r.total_normal_nodes == total_normal_nodes,
            r.size_m == 0,
            r.hub_id_list@.len() == 0,
            r.param_a == 1,
            r.param_b == 0,
            forall|i: int| 0 <= i < total_normal_nodes ==> {
                &&& #[trigger] r.node_nth_table@[i] == 0
                &&& r.replica_limits@[i] == 0
                &&& r.replica_prefix_sum@[i] == 0
                &&& r.epoch_access_counts@[i] == 0
            },
    {
        UnifiedPool {
            hub_map: HashMap::new(),
            flat_pool: Vec::new(),
            total_normal_nodes,
            size_m: 0,
            node_nth_table: vec![0u32; total_normal_nodes],
            hub_id_list: Vec::new(),
            param_a: 1,
            param_b: 0,
            replica_limits: vec![0u32; total_normal_nodes],
            replica_prefix_sum: vec![0usize; total_normal_nodes],
            epoch_access_counts: vec![0u32; total_normal_nodes],
        }
    }

    /// The slot of replica `nth` of node `node_id`.
    fn perfect_hash(&self, node_id: usize, nth: usize) -> (r: usize)
        requires
            self.slots_laid_out(),
            node_id < self.total_normal_nodes,
            self.replica_prefix_sum@[node_id as int] + nth <= usize::MAX,
        ensures
            r == self.slot_index(node_id as int, nth as int),
            r < self.size_m,
    {
        let x_prime = self.replica_prefix_sum[node_id] + nth;
        let product = self.param_a.wrapping_mul(x_prime);
        assert(product == (self.param_a * x_prime) % (usize::MAX as int + 1));
        (product.wrapping_add(self.param_b)) % self.size_m
    }

    /// Returns the per-node access counts of the epoch and sets them to zero.
    pub fn export_and_reset_frequencies(&mut self) -> (r: Vec<u32>)
        ensures
            r@ == old(self).epoch_access_counts@,
            final(self).epoch_access_counts@.len() == old(self).epoch_access_counts@.len(),
            forall|i: int| 0 <= i < r@.len() ==> #[trigger] final(self).epoch_access_counts@[i] == 0,
            Self::same_records(final(self), old(self)),
            final(self).node_nth_table@ == old(self).node_nth_table@,
            old(self).wf() ==> final(self).wf(),
    {
        let n = self.epoch_access_counts.len();
        let mut frequencies: Vec<u32> = Vec::with_capacity(n);
        let mut i: usize = 0;
        while i < n
            invariant
                n == self.epoch_access_counts@.len(),
                i <= n,
                frequencies@ == self.epoch_access_counts@.subrange(0, i as int),
            decreases n - i,
        {
            frequencies.push(self.epoch_access_counts[i]);
            i = i + 1;
        }
        assert(frequencies@ =~= old(self).epoch_access_counts@);
        let mut i: usize = 0;
        while i < n
            invariant
                n == self.epoch_access_counts@.len(),
                i <= n,
                forall|k: int| 0 <= k < i ==> #[trigger] self.epoch_access_counts@[k] == 0,
                Self::same_records(self, old(self)),
                self.node_nth_table@ == old(self).node_nth_table@,
            decreases n - i,
        {
            self.epoch_access_counts.set(i, 0);
            i = i + 1;
        }
        frequencies
    }

    /// Fetches the next unused replica of `target_id`, or the placeholder
    /// once its replicas are used up (after a dummy read of one slot).
    pub fn get_normal_only(&mut self, target_id: usize) -> (r: NodeData)
        requires
            old(self).ready(),
            old(self).replica_fetch_in_bounds(target_id),
        ensures
            Self::replica_fetched(old(self), final(self), target_id, r),
    {
        if target_id < self.total_normal_nodes {
            let c = self.epoch_access_counts[target_id];
            self.epoch_access_counts.set(target_id, c.saturating_add(1));
        }
        let table_len = self.node_nth_table.len();
        let nth_index = target_id % table_len;
        let current_nth = self.node_nth_table[nth_index];
        self.node_nth_table.set(nth_index, current_nth.saturating_add(1));
        if current_nth >= self.replica_limits[nth_index] {
            let dummy_index = self.perfect_hash(0, 0);
            let _dummy_data = self.flat_pool[dummy_index];
            return NodeData::new_empty();
        }
        proof {
            if target_id >= self.total_normal_nodes {
                assert(!old(self).replica_fetch_in_bounds(target_id));
            }
            vstd::arithmetic::div_mod::lemma_small_mod(target_id as nat, table_len as nat);
        }
        let index = self.perfect_hash(target_id, current_nth as usize);
        self.flat_pool[index]
    }

    /// Fetches `target_id` the way `get` does, with the two random draws
    /// given: `random_normal_id` is the node whose replica a hub fetch spends,
    /// and `random_hub_idx` picks the hub that a non-hub fetch reads.
    pub fn get_with_choices(&mut self, target_id: usize, random_normal_id: usize, random_hub_idx: usize) -> (r: NodeData)
        requires
            old(self).ready(),
            random_normal_id < old(self).total_normal_nodes,
            old(self).hub_id_list@.len() > 0 ==> random_hub_idx < old(self).hub_id_list@.len(),
            old(self).hub_map@.contains_key(target_id) || old(self).replica_fetch_in_bounds(target_id),
        ensures
            ({
                let is_hub = old(self).hub_map@.contains_key(target_id);
                let hash_target = if is_hub { random_normal_id } else { target_id };
                let entry = (hash_target as int) % (old(self).total_normal_nodes as int);
                let nth = old(self).node_nth_table@[entry];
                &&& r == (if is_hub { old(self).hub_map@[target_id] } else { old(self).replica_read(target_id as int, entry, nth) })
                &&& final(self).node_nth_table@ == old(self).node_nth_table@.update(entry, sat_inc(nth))
            }),
            final(self).epoch_access_counts@ == Self::counted(old(self).epoch_access_counts@, target_id),
            Self::same_records(final(self), old(self)),
            final(self).ready(),
    {
        if target_id < self.total_normal_nodes {
            let c = self.epoch_access_counts[target_id];
            self.epoch_access_counts.set(target_id, c.saturating_add(1));
        }
        let is_hub = self.hub_map.contains_key(&target_id);
        let is_hub_mask: usize = is_hub as usize;
        assert(is_hub_mask == (if is_hub { 1usize } else { 0usize }));
        let random_hub_id = if self.hub_id_list.len() > 0 {
            self.hub_id_list[random_hub_idx]
        } else {
            0
        };
        proof {
            lemma_mask_select(is_hub_mask, target_id, random_hub_id);
            lemma_mask_select(is_hub_mask, random_normal_id, target_id);
        }
        let actual_hub_target = is_hub_mask * target_id + (1 - is_hub_mask) * random_hub_id;
        let actual_hash_target = is_hub_mask * random_normal_id + (1 - is_hub_mask) * target_id;

        let empty_hub_data = NodeData::new_empty();
        let hub_data_candidate = match self.hub_map.get(&actual_hub_target) {
            Some(d) => *d,
            None => empty_hub_data,
        };

        let table_len = self.node_nth_table.len();
        let nth_index = actual_hash_target % table_len;
        let current_nth = self.node_nth_table[nth_index];
        self.node_nth_table.set(nth_index, current_nth.saturating_add(1));

        let normal_data_candidate = if current_nth >= self.replica_limits[nth_index] {
            let dummy_index = self.perfect_hash(0, 0);
            let _dummy_data = self.flat_pool[dummy_index];
            NodeData::new_empty()
        } else {
            proof {
                if !is_hub && target_id >= self.total_normal_nodes {
                    assert(!old(self).replica_fetch_in_bounds(target_id));
                }
                vstd::arithmetic::div_mod::lemma_small_mod(actual_hash_target as nat, table_len as nat);
            }
            let index = self.perfect_hash(actual_hash_target, current_nth as usize);
            self.flat_pool[index]
        };

        let final_choices = [normal_data_candidate, hub_data_candidate];
        final_choices[is_hub_mask]
    }

    /// Fetches `target_id`: a hub from the hub map, any other node from its
    /// next unused replica. Either way one hub lookup and one replica slot
    /// read are made, the other of each chosen at random.
    pub fn get(&mut self, target_id: usize) -> (r: NodeData)
        requires
            old(self).ready(),
            old(self).hub_map@.contains_key(target_id) || old(self).replica_fetch_in_bounds(target_id),
        ensures
            Self::fetched(old(self), final(self), target_id, r),
    {
        let random_normal_id = thread_rng_below(self.total_normal_nodes);
        let random_hub_idx = if self.hub_id_list.len() > 0 {
            thread_rng_below(self.hub_id_list.len())
        } else {
            0
        };
        let r = self.get_with_choices(target_id, random_normal_id, random_hub_idx);
        proof {
            if old(self).hub_map@.contains_key(target_id) {
                let entry = (random_normal_id as int) % (old(self).total_normal_nodes as int);
                assert(0 <= entry < old(self).total_normal_nodes);
                assert(self.node_nth_table@ == old(self).node_nth_table@.update(entry, sat_inc(old(self).node_nth_table@[entry])));
            }
        }
        r
    }
}

/// Fetches and counter resets change no record: a pool that held the
/// records of `db` still holds them, and stays ready.
pub proof fn lemma_same_records_hold(new: UnifiedPool, old: UnifiedPool, db: Seq<NodeData>)
    requires
        UnifiedPool::same_records(&new, &old),
        new.wf(),
        old.ready(),
        old.holds_database(db),
    ensures
        new.ready(),
        new.holds_database(db),
{
    assert forall|id: int, nth: int|
        0 <= id < new.total_normal_nodes && 0 <= nth < new.replica_limits@[id]
        implies #[trigger] new.holds_slot(db, id, nth) by {
        assert(old.holds_slot(db, id, nth));
        assert(new.slot_index(id, nth) == old.slot_index(id, nth));
    }
    assert forall|h: usize| #[trigger] new.hub_map@.contains_key(h) implies h < db.len() && new.hub_map@[h] == db[h as int] by {
        assert(old.hub_map@.contains_key(h));
    }
    assert(new.holds_database(db));
}

/// A replica fetch (`get_normal_only`) of a node from a pool that holds the
/// records of `db` returns the node's record while the node has replicas
/// left in the epoch and the placeholder after, and the pool still holds
/// the records of `db`.
pub proof fn lemma_replica_fetch_record(old: UnifiedPool, new: UnifiedPool, db: Seq<NodeData>, target: usize, r: NodeData)
    requires
        old.ready(),
        old.holds_database(db),
        target < old.total_normal_nodes,
        UnifiedPool::replica_fetched(&old, &new, target, r),
    ensures
        r == (if old.node_nth_table@[target as int] < old.replica_limits@[target as int] { db[target as int] } else { NodeData::empty() }),
        new.holds_database(db),
{
    vstd::arithmetic::div_mod::lemma_small_mod(target as nat, old.total_normal_nodes as nat);
    let nth = old.node_nth_table@[target as int];
    if nth < old.replica_limits@[target as int] {
        assert(old.holds_slot(db, target as int, nth as int));
    }
    lemma_same_records_hold(new, old, db);
}

/// `x + k` for a `u32` counter that stops at `u32::MAX`.
pub open spec fn sat_add(x: u32, k: int) -> int {
    if x + k > u32::MAX { u32::MAX as int } else { x + k }
}

/// After `k` fetches of a run, the pool holds the records of `db`, keeps
/// the replica layout of the first pool, and has spent `k` more replicas of
/// `t` (stopping at `u32::MAX`).
proof fn lemma_run_state(pools: Seq<UnifiedPool>, rs: Seq<NodeData>, db: Seq<NodeData>, t: usize, k: int)
    requires
        pools.len() == rs.len() + 1,
        pools[0].ready(),
        pools[0].holds_database(db),
        t < pools[0].total_normal_nodes,
        forall|i: int| 0 <= i < rs.len() ==> UnifiedPool::replica_fetched(&#[trigger] pools[i], &pools[i + 1], t, rs[i]),
        0 <= k <= rs.len(),
    ensures
        pools[k].ready(),
        pools[k].holds_database(db),
        UnifiedPool::same_records(&pools[k], &pools[0]),
        pools[k].node_nth_table@[t as int] == sat_add(pools[0].node_nth_table@[t as int], k),
    decreases k,
{
    if k > 0 {
        lemma_run_state(pools, rs, db, t, k - 1);
        let old = pools[k - 1];
        let new = pools[k];
        assert(UnifiedPool::replica_fetched(&pools[k - 1], &pools[k], t, rs[k - 1]));
        lemma_replica_fetch_record(old, new, db, t, rs[k - 1]);
        vstd::arithmetic::div_mod::lemma_small_mod(t as nat, old.total_normal_nodes as nat);
    }
}

/// A run of replica fetches (`get_normal_only`) of node `t`, with no other
/// call between them, from a pool that holds the records of `db`: when `n`
/// replicas of `t` were already spent, fetch `k` of the run returns `t`'s
/// record from the slot of replica `n + k` while `n + k` is below `t`'s
/// replica limit, and the placeholder after; when distinct replicas have
/// distinct slots (as after a rebuild, see `oblivious_reconstruct`), no two
/// fetches of the run read the same slot.
pub proof fn lemma_replica_run(pools: Seq<UnifiedPool>, rs: Seq<NodeData>, db: Seq<NodeData>, t: usize)
    requires
        pools.len() == rs.len() + 1,
        pools[0].ready(),
        pools[0].holds_database(db),
        t < pools[0].total_normal_nodes,
        forall|i: int| 0 <= i < rs.len() ==> UnifiedPool::replica_fetched(&#[trigger] pools[i], &pools[i + 1], t, rs[i]),
    ensures
        forall|k: int| 0 <= k < rs.len() ==> #[trigger] rs[k] == (
            if pools[0].node_nth_table@[t as int] + k < pools[0].replica_limits@[t as int] {
                db[t as int]
            } else {
                NodeData::empty()
            }),
        forall|k: int| 0 <= k < rs.len() && pools[0].node_nth_table@[t as int] + k < pools[0].replica_limits@[t as int]
            ==> #[trigger] rs[k] == pools[0].flat_pool@[pools[0].slot_index(t as int, pools[0].node_nth_table@[t as int] + k)],
        pools[0].slots_distinct() ==> forall|k1: int, k2: int|
            0 <= k1 < k2 < rs.len() && pools[0].node_nth_table@[t as int] + k2 < pools[0].replica_limits@[t as int]
            ==> #[trigger] pools[0].slot_index(t as int, pools[0].node_nth_table@[t as int] + k1)
                != #[trigger] pools[0].slot_index(t as int, pools[0].node_nth_table@[t as int] + k2),
{
    let p0 = pools[0];
    let n = p0.node_nth_table@[t as int];
    assert forall|k: int| 0 <= k < rs.len() implies #[trigger] rs[k] == (
        if n + k < p0.replica_limits@[t as int] { db[t as int] } else { NodeData::empty() })
        && (n + k < p0.replica_limits@[t as int] ==> rs[k] == p0.flat_pool@[p0.slot_index(t as int, n + k)]) by {
        lemma_run_state(pools, rs, db, t, k);
        let pk = pools[k];
        assert(UnifiedPool::replica_fetched(&pools[k], &pools[k + 1], t, rs[k]));
        lemma_replica_fetch_record(pk, pools[k + 1], db, t, rs[k]);
        vstd::arithmetic::div_mod::lemma_small_mod(t as nat, pk.total_normal_nodes as nat);
        assert(pk.slot_index(t as int, n + k) == p0.slot_index(t as int, n + k));
    }
}

/// A fetch (`get`) of a node from a pool that holds the records of `db`
/// returns the node's record: a hub's from the hub map, any other node's
/// from a replica while it has replicas left in the epoch (the placeholder
/// after); the pool still holds the records of `db`.
pub proof fn lemma_fetch_record(old: UnifiedPool, new: UnifiedPool, db: Seq<NodeData>, target: usize, r: NodeData)
    requires
        old.ready(),
        old.holds_database(db),
        target < old.total_normal_nodes,
        UnifiedPool::fetched(&old, &new, target, r),
    ensures
        old.hub_map@.contains_key(target) ==> r == db[target as int],
        !old.hub_map@.contains_key(target) ==> r == (if old.node_nth_table@[target as int] < old.replica_limits@[target as int] { db[target as int] } else { NodeData::empty() }),
        new.holds_database(db),
{
    if old.hub_map@.contains_key(target) {
        lemma_same_records_hold(new, old, db);
    } else {
        lemma_replica_fetch_record(old, new, db, target, r);
    }
}

} // verus!
