//! Graph routing: the decisions of the best-first search over the pool,
//! with each distance given as the bit pattern of a single-precision number
//! and compared through an integer key that orders as the numbers do.
use vstd::prelude::*;
use crate::node::{NodeData, MAX_DEGREE, NO_NEIGHBOR};
use crate::pool::UnifiedPool;

pub mod visits;
pub mod laws;

verus! {

/// Bits of the single-precision `-1.0`, the distance that marks a candidate
/// whose distance is still to be computed.
pub const UNKNOWN_DIST: u32 = 0xBF80_0000;

/// Bits of the single-precision `f32::MAX`.
pub const MAX_DIST: u32 = 0x7F7F_FFFF;

/// The order key of a single-precision bit pattern: keys compare as the
/// numbers do (for numbers that are not NaN), `-0.0` and `0.0` sharing 0.
pub open spec fn dist_key(bits: u32) -> int {
    if bits < 0x8000_0000 { bits as int } else { -((bits - 0x8000_0000) as int) }
}

/// Computes the order key of a single-precision bit pattern.
pub fn order_key(bits: u32) -> (k: i64)
    ensures
        k == dist_key(bits),
{
    if bits < 0x8000_0000 {
        bits as i64
    } else {
        -((bits - 0x8000_0000) as i64)
    }
}

/// Whether the bits are those of a single-precision NaN (of either sign).
pub open spec fn is_nan_bits(bits: u32) -> bool {
    (if bits < 0x8000_0000 { bits as int } else { bits - 0x8000_0000 }) > 0x7F80_0000
}

/// `a < b` on the single-precision numbers that the bits stand for: false
/// when either is NaN, as every comparison with NaN is.
pub open spec fn dist_lt(a: u32, b: u32) -> bool {
    !is_nan_bits(a) && !is_nan_bits(b) && dist_key(a) < dist_key(b)
}

/// Computes `a < b` on the single-precision numbers that the bits stand for.
pub fn dist_less(a: u32, b: u32) -> (r: bool)
    ensures
        r == dist_lt(a, b),
{
    let ma: u32 = if a < 0x8000_0000 { a } else { a - 0x8000_0000 };
    let mb: u32 = if b < 0x8000_0000 { b } else { b - 0x8000_0000 };
    ma <= 0x7F80_0000 && mb <= 0x7F80_0000 && order_key(a) < order_key(b)
}

/// A search candidate: a node id, its distance to the query (as bits), and
/// whether it has been expanded.
#[derive(Clone, Copy, Debug)]
pub struct Candidate {
    pub id: usize,
    pub dist: u32,
    pub has_expanded: u32,
}

impl Candidate {
    /// The order key of the candidate's distance.
    pub open spec fn key(self) -> int {
        dist_key(self.dist)
    }
}

impl Default for Candidate {
    /// The candidate that stands for no node: id `usize::MAX`, distance
    /// `f32::MAX`, expanded.
    fn default() -> (r: Self)
        ensures
            r.id == usize::MAX,
            r.dist == MAX_DIST,
            r.has_expanded == 1,
    {
        Candidate { id: usize::MAX, dist: MAX_DIST, has_expanded: 1 }
    }
}

/// The first position of a smallest key in `s` (0 for an empty `s`).
pub open spec fn first_min_index(s: Seq<Candidate>) -> int
    decreases s.len(),
{
    if s.len() <= 1 {
        0
    } else {
        let m = first_min_index(s.drop_last());
        if s.last().key() < s[m].key() { s.len() - 1 } else { m }
    }
}

/// The first position of a largest key in `s` (0 for an empty `s`).
pub open spec fn first_max_index(s: Seq<Candidate>) -> int
    decreases s.len(),
{
    if s.len() <= 1 {
        0
    } else {
        let m = first_max_index(s.drop_last());
        if s.last().key() > s[m].key() { s.len() - 1 } else { m }
    }
}

proof fn lemma_first_min_index(s: Seq<Candidate>)
    requires
        s.len() > 0,
    ensures
        0 <= first_min_index(s) < s.len(),
        forall|j: int| 0 <= j < s.len() ==> s[first_min_index(s)].key() <= #[trigger] s[j].key(),
    decreases s.len(),
{
    if s.len() > 1 {
        lemma_first_min_index(s.drop_last());
        let m = first_min_index(s.drop_last());
        assert forall|j: int| 0 <= j < s.len() implies s[first_min_index(s)].key() <= #[trigger] s[j].key() by {
            if j < s.len() - 1 {
                assert(s.drop_last()[j] == s[j]);
            }
        }
    }
}

proof fn lemma_first_max_index(s: Seq<Candidate>)
    requires
        s.len() > 0,
    ensures
        0 <= first_max_index(s) < s.len(),
        forall|j: int| 0 <= j < s.len() ==> s[first_max_index(s)].key() >= #[trigger] s[j].key(),
    decreases s.len(),
{
    if s.len() > 1 {
        lemma_first_max_index(s.drop_last());
        assert forall|j: int| 0 <= j < s.len() implies s[first_max_index(s)].key() >= #[trigger] s[j].key() by {
            if j < s.len() - 1 {
                assert(s.drop_last()[j] == s[j]);
            }
        }
    }
}

/// The position of a smallest key (the first one) in `s`.
fn min_position(s: &Vec<Candidate>) -> (p: usize)
    requires
        s@.len() > 0,
    ensures
        p == first_min_index(s@),
{
    let n = s.len();
    let mut best: usize = 0;
    let mut best_key = order_key(s[0].dist);
    let mut i: usize = 1;
    while i < n
        invariant
            n == s@.len(),
            1 <= i <= n,
            best == first_min_index(s@.take(i as int)),
            best < i,
            best_key == s@[best as int].key(),
        decreases n - i,
    {
        let ghost t = s@.take(i + 1);
        assert(t.drop_last() =~= s@.take(i as int));
        assert(t.last() == s@[i as int]);
        proof {
            lemma_first_min_index(s@.take(i as int));
        }
        let k = order_key(s[i].dist);
        if k < best_key {
            best = i;
            best_key = k;
        }
        i = i + 1;
    }
    assert(s@.take(n as int) =~= s@);
    best
}

/// The position of a largest key (the first one) in `s`.
fn max_position(s: &Vec<Candidate>) -> (p: usize)
    requires
        s@.len() > 0,
    ensures
        p == first_max_index(s@),
{
    let n = s.len();
    let mut best: usize = 0;
    let mut best_key = order_key(s[0].dist);
    let mut i: usize = 1;
    while i < n
        invariant
            n == s@.len(),
            1 <= i <= n,
            best == first_max_index(s@.take(i as int)),
            best < i,
            best_key == s@[best as int].key(),
        decreases n - i,
    {
        let ghost t = s@.take(i + 1);
        assert(t.drop_last() =~= s@.take(i as int));
        assert(t.last() == s@[i as int]);
        proof {
            lemma_first_max_index(s@.take(i as int));
        }
        let k = order_key(s[i].dist);
        if k > best_key {
            best = i;
            best_key = k;
        }
        i = i + 1;
    }
    assert(s@.take(n as int) =~= s@);
    best
}

/// `s` with `x` placed after every entry of key at most `x`'s that ends it:
/// one step of a stable insertion sort.
pub open spec fn insert_by_key(s: Seq<Candidate>, x: Candidate) -> Seq<Candidate>
    decreases s.len(),
{
    if s.len() == 0 {
        seq![x]
    } else if s.last().key() <= x.key() {
        s.push(x)
    } else {
        insert_by_key(s.drop_last(), x).push(s.last())
    }
}

/// `s` sorted by ascending key, entries of equal key kept in their order.
pub open spec fn sort_by_key(s: Seq<Candidate>) -> Seq<Candidate>
    decreases s.len(),
{
    if s.len() == 0 { seq![] } else { insert_by_key(sort_by_key(s.drop_last()), s.last()) }
}

/// Whether the keys of `s` ascend.
pub open spec fn keys_ascending(s: Seq<Candidate>) -> bool {
    forall|i: int, j: int| 0 <= i <= j < s.len() ==> #[trigger] s[i].key() <= #[trigger] s[j].key()
}

proof fn lemma_insert_by_key(s: Seq<Candidate>, x: Candidate)
    requires
        keys_ascending(s),
    ensures
        keys_ascending(insert_by_key(s, x)),
        insert_by_key(s, x).len() == s.len() + 1,
        insert_by_key(s, x).to_multiset() == s.to_multiset().insert(x),
    decreases s.len(),
{
    broadcast use vstd::seq_lib::group_to_multiset_ensures;
    if s.len() == 0 {
        assert(seq![x] =~= Seq::<Candidate>::empty().push(x));
    } else if s.last().key() <= x.key() {
    } else {
        let t = s.drop_last();
        assert(keys_ascending(t));
        lemma_insert_by_key(t, x);
        let r = insert_by_key(t, x);
        assert(s =~= t.push(s.last()));
        assert forall|i: int, j: int| 0 <= i <= j < r.push(s.last()).len() implies
            #[trigger] r.push(s.last())[i].key() <= #[trigger] r.push(s.last())[j].key() by {
            if j == r.len() {
                // every entry of r is t's or x, both at most s.last()
                if i < r.len() {
                    assert(r.to_multiset().count(r[i]) > 0);
                    assert(t.to_multiset().insert(x).count(r[i]) > 0);
                    if r[i] != x {
                        assert(t.to_multiset().count(r[i]) > 0);
                        assert(t.contains(r[i]));
                        let w = choose|w: int| 0 <= w < t.len() && t[w] == r[i];
                        assert(s[w] == t[w]);
                        assert(s[w].key() <= s[s.len() - 1].key());
                    }
                }
            }
        }
    }
}

/// Sorting orders by key and keeps every entry.
pub proof fn lemma_sort_by_key(s: Seq<Candidate>)
    ensures
        keys_ascending(sort_by_key(s)),
        sort_by_key(s).to_multiset() == s.to_multiset(),
        sort_by_key(s).len() == s.len(),
    decreases s.len(),
{
    broadcast use vstd::seq_lib::group_to_multiset_ensures;
    if s.len() > 0 {
        lemma_sort_by_key(s.drop_last());
        lemma_insert_by_key(sort_by_key(s.drop_last()), s.last());
        assert(s =~= s.drop_last().push(s.last()));
    }
}

/// Inserting into `s[0..j]` when every later entry has a larger key.
proof fn lemma_insert_at(s: Seq<Candidate>, x: Candidate, j: int)
    requires
        0 <= j <= s.len(),
        j == 0 || s[j - 1].key() <= x.key(),
        forall|m: int| j <= m < s.len() ==> #[trigger] s[m].key() > x.key(),
    ensures
        insert_by_key(s, x) == s.insert(j, x),
    decreases s.len(),
{
    if s.len() == 0 {
        assert(s.insert(j, x) =~= seq![x]);
    } else if j == s.len() {
        assert(s.insert(j, x) =~= s.push(x));
    } else {
        let t = s.drop_last();
        lemma_insert_at(t, x, j);
        assert(s.insert(j, x) =~= t.insert(j, x).push(s.last()));
    }
}

/// `s` sorted by ascending key, stably.
fn sort_candidates(s: &Vec<Candidate>) -> (r: Vec<Candidate>)
    ensures
        r@ == sort_by_key(s@),
{
    let n = s.len();
    let mut out: Vec<Candidate> = Vec::with_capacity(n);
    let mut i: usize = 0;
    while i < n
        invariant
            n == s@.len(),
            i <= n,
            out@ == sort_by_key(s@.take(i as int)),
            out@.len() == i,
        decreases n - i,
    {
        proof {
            lemma_sort_by_key(s@.take(i as int));
        }
        let x = s[i];
        let kx = order_key(x.dist);
        let mut j: usize = out.len();
        while j > 0 && order_key(out[j - 1].dist) > kx
            invariant
                j <= out@.len(),
                kx == x.key(),
                forall|m: int| j <= m < out@.len() ==> #[trigger] out@[m].key() > x.key(),
            decreases j,
        {
            j = j - 1;
        }
        proof {
            lemma_insert_at(out@, x, j as int);
            let t = s@.take(i + 1);
            assert(t.drop_last() =~= s@.take(i as int));
            assert(t.last() == x);
        }
        out.insert(j, x);
        i = i + 1;
    }
    assert(s@.take(n as int) =~= s@);
    out
}

/// The pool of results after an evaluated candidate `upd` is offered: it
/// joins when the pool has fewer than `l` entries or when its distance is
/// below that of the first largest key of the pool (never when either is
/// NaN), and that first holder of the largest key then leaves if the pool
/// has grown past `l`.
pub open spec fn offer(pool: Seq<Candidate>, upd: Candidate, l: usize) -> Seq<Candidate> {
    if pool.len() < l || dist_lt(upd.dist, pool[first_max_index(pool)].dist) {
        let p2 = pool.push(upd);
        if p2.len() > l { p2.remove(first_max_index(p2)) } else { p2 }
    } else {
        pool
    }
}

/// Whether an evaluated candidate `upd` joins the frontier and the pool.
pub open spec fn admitted(pool: Seq<Candidate>, upd: Candidate, l: usize) -> bool {
    pool.len() < l || dist_lt(upd.dist, pool[first_max_index(pool)].dist)
}

/// The frontier and visited marks after the neighbour slots `j..` of a
/// node are scanned: up to the first empty slot, each neighbour not yet
/// visited is marked and queued with an unknown distance, when `expand`.
pub open spec fn expand_neighbors(frontier: Seq<Candidate>, expo: Seq<bool>, nb: [usize; MAX_DEGREE], expand: bool, j: int) -> (Seq<Candidate>, Seq<bool>)
    decreases MAX_DEGREE - j,
{
    if j < 0 || j >= MAX_DEGREE || nb[j] == NO_NEIGHBOR {
        (frontier, expo)
    } else if expand && !expo[nb[j] as int] {
        expand_neighbors(
            frontier.push(Candidate { id: nb[j], dist: UNKNOWN_DIST, has_expanded: 0 }),
            expo.update(nb[j] as int, true),
            nb, expand, j + 1)
    } else {
        expand_neighbors(frontier, expo, nb, expand, j + 1)
    }
}

/// Every neighbour before the first empty slot is a node below `bound`.
pub open spec fn links_below(nb: [usize; MAX_DEGREE], bound: usize) -> bool {
    forall|j: int| 0 <= j < MAX_DEGREE && (forall|i: int| 0 <= i < j ==> #[trigger] nb[i] != NO_NEIGHBOR) && nb[j] != NO_NEIGHBOR
        ==> #[trigger] nb[j] < bound
}

/// Whether a result is reported: its distance is at least 0 and below
/// `f32::MAX`, and it names a node.
pub open spec fn reported(c: Candidate) -> bool {
    0 <= c.key() < dist_key(MAX_DIST) && c.id != usize::MAX
}

/// The entries of `s` that are reported, in order.
pub open spec fn reported_of(s: Seq<Candidate>) -> Seq<Candidate>
    decreases s.len(),
{
    if s.len() == 0 {
        seq![]
    } else if reported(s.last()) {
        reported_of(s.drop_last()).push(s.last())
    } else {
        reported_of(s.drop_last())
    }
}

/// The state of one graph search.
pub struct Router {
    /// Candidates to visit; the smallest key is visited first.
    pub min_heap: Vec<Candidate>,
    /// The best candidates found; the largest key is dropped first.
    pub max_heap: Vec<Candidate>,
    /// The candidate of the step in progress.
    pub current: Candidate,
    /// Whether a step is in progress (fetched, not yet evaluated).
    pub pending: bool,
    /// Steps done.
    pub step: usize,
    /// Step budget.
    pub t_0: usize,
    /// Results to report.
    pub k: usize,
    /// Size of the pool of best candidates.
    pub l: usize,
    /// Steps that fetch through `UnifiedPool::get`; later ones use
    /// `UnifiedPool::get_normal_only`.
    pub phase1_limit: usize,
    /// Every node id is below this bound.
    pub node_bound: usize,
}

impl Router {
    /// Every queued candidate names a node, and the pool is not empty and
    /// holds at most `l` candidates (one when `l` is 0).
    pub open spec fn wf(&self) -> bool {
        &&& forall|i: int| 0 <= i < self.min_heap@.len() ==> #[trigger] self.min_heap@[i].id < self.node_bound
        &&& 1 <= self.max_heap@.len() <= (if self.l >= 1 { self.l as int } else { 1 })
        &&& self.pending ==> self.current.id < self.node_bound && self.step < self.t_0
    }

    /// Starts a search at `entry_id`, whose distance is `entry_dist`, and
    /// marks it visited.
    pub fn new(
        entry_id: usize,
        entry_dist: u32,
        t_0: usize,
        k: usize,
        l: usize,
        phase1_limit: usize,
        node_bound: usize,
        expo: &mut [bool],
    ) -> (r: Self)
        requires
            entry_id < node_bound <= old(expo)@.len(),
        ensures
            r.wf(),
            r.min_heap@ == seq![Candidate { id: entry_id, dist: entry_dist, has_expanded: 0 }],
            r.max_heap@ == seq![Candidate { id: entry_id, dist: entry_dist, has_expanded: 0 }],
            !r.pending,
            r.step == 0,
            r.t_0 == t_0 && r.k == k && r.l == l && r.phase1_limit == phase1_limit && r.node_bound == node_bound,
            final(expo)@ == old(expo)@.update(entry_id as int, true),
            entry_dist != UNKNOWN_DIST ==> r.sound(final(expo)@),
    {
        let start_cand = Candidate { id: entry_id, dist: entry_dist, has_expanded: 0 };
        let mut min_heap: Vec<Candidate> = Vec::new();
        let mut max_heap: Vec<Candidate> = Vec::new();
        min_heap.push(start_cand);
        max_heap.push(start_cand);
        expo[entry_id] = true;
        let r = Router {
            min_heap,
            max_heap,
            current: start_cand,
            pending: false,
            step: 0,
            t_0,
            k,
            l,
            phase1_limit,
            node_bound,
        };
        assert(r.max_heap@[0] == start_cand && r.min_heap@[0] == start_cand);
        r
    }

    /// Whether the search is over: the budget is spent or nothing is queued.
    pub open spec fn finished(&self) -> bool {
        self.step >= self.t_0 || self.min_heap@.len() == 0
    }

    /// Starts a step: takes the queued candidate of smallest key (the first
    /// such) and fetches its node, through `get` in the first
    /// `phase1_limit` steps and through `get_normal_only` after. Returns
    /// `None`, changing nothing, once the search is over.
    pub fn begin_step(&mut self, pt: &mut UnifiedPool) -> (r: Option<NodeData>)
        requires
            old(self).wf(),
            !old(self).pending,
            !old(self).finished() ==> old(pt).ready() && old(pt).total_normal_nodes == old(self).node_bound,
        ensures
            final(self).wf(),
            forall|e: Seq<bool>| old(self).sound(e) ==> #[trigger] final(self).sound(e),
            old(self).finished() ==> r is None && *final(self) == *old(self) && *final(pt) == *old(pt),
            !old(self).finished() ==> {
                let p = first_min_index(old(self).min_heap@);
                let cur = old(self).min_heap@[p];
                &&& r is Some
                &&& final(self).current == cur
                &&& final(self).pending
                &&& final(self).min_heap@ == old(self).min_heap@.remove(p)
                &&& final(self).max_heap@ == old(self).max_heap@
                &&& final(self).step == old(self).step
                &&& final(self).t_0 == old(self).t_0 && final(self).k == old(self).k && final(self).l == old(self).l
                &&& final(self).phase1_limit == old(self).phase1_limit && final(self).node_bound == old(self).node_bound
                &&& old(self).step < old(self).phase1_limit ==> UnifiedPool::fetched(old(pt), final(pt), cur.id, r->0)
                &&& old(self).step >= old(self).phase1_limit ==> UnifiedPool::replica_fetched(old(pt), final(pt), cur.id, r->0)
            },
    {
        if self.step >= self.t_0 || self.min_heap.len() == 0 {
            return None;
        }
        let p = min_position(&self.min_heap);
        proof {
            lemma_first_min_index(self.min_heap@);
        }
        let cur = self.min_heap.remove(p);
        proof {
            assert(old(self).min_heap@[p as int].id < self.node_bound);
            assert forall|i: int| 0 <= i < self.min_heap@.len() implies #[trigger] self.min_heap@[i].id < self.node_bound by {
                if i < p {
                    assert(self.min_heap@[i] == old(self).min_heap@[i]);
                } else {
                    assert(self.min_heap@[i] == old(self).min_heap@[i + 1]);
                }
            }
        }
        self.current = cur;
        self.pending = true;
        proof {
            assert forall|e: Seq<bool>| old(self).sound(e) implies #[trigger] self.sound(e) by {
                visits::lemma_begin_step_sound(*old(self), *self, p as int, e);
            }
        }
        let node_data = if self.step < self.phase1_limit {
            pt.get(cur.id)
        } else {
            pt.get_normal_only(cur.id)
        };
        Some(node_data)
    }
}

/// The first `k` entries of `s`, or all of them when there are fewer.
pub open spec fn first_k(s: Seq<Candidate>, k: usize) -> Seq<Candidate> {
    if k < s.len() { s.take(k as int) } else { s }
}

impl Router {
    /// Ends the step in progress with the distance of the fetched node to
    /// the query (`actual_dist`, as bits). A candidate that was queued with
    /// an unknown distance is evaluated: with its distance it is offered to
    /// the pool, and joins the frontier when the pool takes it. The node is
    /// marked visited. A candidate whose distance was known is expanded: each
    /// neighbour not yet visited is marked and queued with an unknown
    /// distance.
    pub fn end_step(&mut self, node: &NodeData, actual_dist: u32, expo: &mut [bool])
        requires
            old(self).wf(),
            old(self).pending,
            old(self).node_bound <= old(expo)@.len(),
            links_below(node.neighbors, old(self).node_bound),
        ensures
            final(self).wf(),
            old(self).sound(old(expo)@) && actual_dist != UNKNOWN_DIST ==> final(self).sound(final(expo)@),
            !final(self).pending,
            final(self).step == old(self).step + 1,
            final(self).current == old(self).current,
            final(self).t_0 == old(self).t_0 && final(self).k == old(self).k && final(self).l == old(self).l,
            final(self).phase1_limit == old(self).phase1_limit && final(self).node_bound == old(self).node_bound,
            ({
                let cur = old(self).current;
                let expand = cur.dist != UNKNOWN_DIST;
                let upd = Candidate { id: cur.id, dist: actual_dist, has_expanded: 0 };
                let joins = !expand && admitted(old(self).max_heap@, upd, old(self).l);
                let f1 = if joins { old(self).min_heap@.push(upd) } else { old(self).min_heap@ };
                let p1 = if !expand { offer(old(self).max_heap@, upd, old(self).l) } else { old(self).max_heap@ };
                let after = expand_neighbors(f1, old(expo)@.update(cur.id as int, true), node.neighbors, expand, 0);
                &&& final(self).max_heap@ == p1
                &&& final(self).min_heap@ == after.0
                &&& final(expo)@ == after.1
            }),
    {
        let cur = self.current;
        let expand = cur.dist != UNKNOWN_DIST;
        let ghost upd = Candidate { id: cur.id, dist: actual_dist, has_expanded: 0 };
        if !expand {
            let updated_cand = Candidate { id: cur.id, dist: actual_dist, has_expanded: 0 };
            let q = max_position(&self.max_heap);
            proof {
                lemma_first_max_index(self.max_heap@);
            }
            if self.max_heap.len() < self.l || dist_less(actual_dist, self.max_heap[q].dist) {
                self.min_heap.push(updated_cand);
                self.max_heap.push(updated_cand);
                if self.max_heap.len() > self.l {
                    let q2 = max_position(&self.max_heap);
                    proof {
                        lemma_first_max_index(self.max_heap@);
                    }
                    self.max_heap.remove(q2);
                }
            }
        }
        expo[cur.id] = true;
        let ghost f1 = self.min_heap@;
        let ghost e1 = expo@;
        let ghost mid = *self;
        assert(self.max_heap@.len() >= 1);
        proof {
            assert forall|i: int| 0 <= i < self.min_heap@.len() implies #[trigger] self.min_heap@[i].id < self.node_bound by {
                if i < old(self).min_heap@.len() {
                    assert(self.min_heap@[i] == old(self).min_heap@[i]);
                }
            }
        }
        let mut j: usize = 0;
        while j < MAX_DEGREE && node.neighbors[j] != NO_NEIGHBOR
            invariant
                j <= MAX_DEGREE,
                self.max_heap@ == mid.max_heap@,
                self.current == mid.current,
                self.pending == mid.pending,
                self.step == mid.step,
                self.t_0 == mid.t_0 && self.k == mid.k && self.l == mid.l,
                self.phase1_limit == mid.phase1_limit && self.node_bound == mid.node_bound,
                self.node_bound <= expo@.len(),
                links_below(node.neighbors, self.node_bound),
                forall|i: int| 0 <= i < j ==> #[trigger] node.neighbors[i] != NO_NEIGHBOR,
                forall|i: int| 0 <= i < self.min_heap@.len() ==> #[trigger] self.min_heap@[i].id < self.node_bound,
                expand_neighbors(f1, e1, node.neighbors, expand, 0) == expand_neighbors(self.min_heap@, expo@, node.neighbors, expand, j as int),
            decreases MAX_DEGREE - j,
        {
            let nid = node.neighbors[j];
            assert(nid < self.node_bound);
            let is_duplicate = expo[nid];
            let is_valid_push = expand && !is_duplicate;
            if is_valid_push {
                expo[nid] = true;
                let new_cand = Candidate { id: nid, dist: UNKNOWN_DIST, has_expanded: 0 };
                self.min_heap.push(new_cand);
            }
            j = j + 1;
        }
        self.step = self.step + 1;
        self.pending = false;
        proof {
            if old(self).sound(old(expo)@) && actual_dist != UNKNOWN_DIST {
                visits::lemma_end_step_sound(*old(self), *self, node.neighbors, actual_dist, old(expo)@, expo@);
            }
        }
    }

    /// The results: the pool sorted by ascending key (equal keys in pool
    /// order), without the entries that are not reported, cut to `k`.
    pub fn finish(&self) -> (r: Vec<Candidate>)
        ensures
            r@ == first_k(reported_of(sort_by_key(self.max_heap@)), self.k),
            keys_ascending(r@),
            r@.len() <= self.k,
            forall|i: int| 0 <= i < r@.len() ==> reported(#[trigger] r@[i]),
    {
        let sorted = sort_candidates(&self.max_heap);
        let n = sorted.len();
        let mut final_results: Vec<Candidate> = Vec::new();
        let mut i: usize = 0;
        while i < n
            invariant
                n == sorted@.len(),
                i <= n,
                final_results@ == reported_of(sorted@.take(i as int)),
            decreases n - i,
        {
            let c = sorted[i];
            let keep = {
                let key = order_key(c.dist);
                0 <= key && key < order_key(MAX_DIST) && c.id != usize::MAX
            };
            if keep {
                final_results.push(c);
            }
            proof {
                let t = sorted@.take(i + 1);
                assert(t.drop_last() =~= sorted@.take(i as int));
                assert(t.last() == c);
            }
            i = i + 1;
        }
        assert(sorted@.take(n as int) =~= sorted@);
        final_results.truncate(self.k);
        proof {
            lemma_sort_by_key(self.max_heap@);
            lemma_reported_of(sorted@);
        }
        final_results
    }
}

/// Keeping the reported entries keeps the order of keys and reports only
/// reported entries.
proof fn lemma_reported_of(s: Seq<Candidate>)
    requires
        keys_ascending(s),
    ensures
        keys_ascending(reported_of(s)),
        forall|i: int| 0 <= i < reported_of(s).len() ==> reported(#[trigger] reported_of(s)[i]),
        forall|i: int| 0 <= i < reported_of(s).len() ==> s.contains(#[trigger] reported_of(s)[i]),
    decreases s.len(),
{
    if s.len() > 0 {
        let t = s.drop_last();
        assert(keys_ascending(t));
        lemma_reported_of(t);
        let r = reported_of(t);
        if reported(s.last()) {
            assert forall|i: int| 0 <= i < r.push(s.last()).len() implies s.contains(#[trigger] r.push(s.last())[i]) by {
                if i < r.len() {
                    let w = choose|w: int| 0 <= w < t.len() && t[w] == r[i];
                    assert(s[w] == t[w]);
                } else {
                    assert(s[s.len() - 1] == s.last());
                }
            }
            assert forall|i: int, j: int| 0 <= i <= j < r.push(s.last()).len() implies
                #[trigger] r.push(s.last())[i].key() <= #[trigger] r.push(s.last())[j].key() by {
                if j == r.len() && i < r.len() {
                    let w = choose|w: int| 0 <= w < t.len() && t[w] == r[i];
                    assert(s[w] == t[w]);
                    assert(s[w].key() <= s[s.len() - 1].key());
                }
            }
        } else {
            assert forall|i: int| 0 <= i < r.len() implies s.contains(#[trigger] r[i]) by {
                let w = choose|w: int| 0 <= w < t.len() && t[w] == r[i];
                assert(s[w] == t[w]);
            }
        }
    }
}

/// The search entry among the first `n` hubs given with their distances to
/// the query: the first hub of smallest distance below `f32::MAX`, or
/// `(usize::MAX, f32::MAX)` when there is none.
pub open spec fn entry_of(hubs: Seq<(usize, u32)>, n: int) -> (usize, u32)
    decreases n,
{
    if n <= 0 {
        (usize::MAX, MAX_DIST)
    } else {
        let best = entry_of(hubs, n - 1);
        if dist_lt(hubs[n - 1].1, best.1) { hubs[n - 1] } else { best }
    }
}

/// Picks the search entry from the hubs given with their distances (as
/// bits) to the query: the first hub of smallest distance, when one is
/// below `f32::MAX`; a NaN distance is never taken.
pub fn select_entry(hubs: &[(usize, u32)]) -> (r: (usize, u32))
    ensures
        r == entry_of(hubs@, hubs@.len() as int),
{
    let mut best_entry_id: usize = usize::MAX;
    let mut min_dist: u32 = MAX_DIST;
    let n = hubs.len();
    let mut i: usize = 0;
    while i < n
        invariant
            n == hubs@.len(),
            i <= n,
            (best_entry_id, min_dist) == entry_of(hubs@, i as int),
        decreases n - i,
    {
        let (hub_id, dist) = hubs[i];
        if dist_less(dist, min_dist) {
            min_dist = dist;
            best_entry_id = hub_id;
        }
        i = i + 1;
    }
    (best_entry_id, min_dist)
}

} // verus!
