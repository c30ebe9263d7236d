//! What the search's steps are for, stated over their inputs and results:
//! the pool drops its farthest candidate, the entry is the nearest hub,
//! every non-negative finite distance below `f32::MAX` is reported, and an
//! expansion reaches every neighbour of the node.
use vstd::prelude::*;
use super::{
    Candidate, UNKNOWN_DIST, MAX_DIST, first_max_index, offer, entry_of, dist_lt, is_nan_bits,
    reported, reported_of, first_min_index, expand_neighbors, links_below, sort_by_key, first_k, keys_ascending,
};
use crate::node::{MAX_DEGREE, NO_NEIGHBOR};

verus! {

/// When an offer changes the pool, no candidate kept is farther than a
/// candidate left out: the pool keeps the nearest of its entries and the
/// offered candidate.
pub proof fn lemma_offer_drops_farthest(pool: Seq<Candidate>, upd: Candidate, l: usize)
    requires
        pool.len() >= 1,
    ensures
        offer(pool, upd, l) != pool ==> forall|c: Candidate, d: Candidate|
            offer(pool, upd, l).contains(c) && #[trigger] pool.push(upd).contains(d) && !offer(pool, upd, l).contains(d)
            ==> #[trigger] c.key() <= d.key(),
{
    let q = offer(pool, upd, l);
    let p2 = pool.push(upd);
    if q != pool && q != p2 {
        let k = first_max_index(p2);
        super::lemma_first_max_index(p2);
        p2.remove_ensures(k);
        assert(q == p2.remove(k));
        assert forall|c: Candidate, d: Candidate|
            q.contains(c) && #[trigger] p2.contains(d) && !q.contains(d) implies #[trigger] c.key() <= d.key() by {
            let m = choose|m: int| 0 <= m < p2.len() && p2[m] == d;
            if m < k {
                assert(q[m] == d);
            } else if m > k {
                assert(q[m - 1] == d);
            }
            let i = choose|i: int| 0 <= i < q.len() && q[i] == c;
            if i < k {
                assert(q[i] == p2[i]);
            } else {
                assert(q[i] == p2[i + 1]);
            }
        }
    }
}

/// `a < b` on the numbers is transitive.
proof fn lemma_dist_lt_trans(a: u32, b: u32, c: u32)
    requires
        dist_lt(a, b),
        dist_lt(b, c),
    ensures
        dist_lt(a, c),
{
}

/// The entry chosen among the first `n` hubs is no farther than any of
/// them, and is one of them unless it is `(usize::MAX, f32::MAX)`.
proof fn lemma_entry_of_nearest(hubs: Seq<(usize, u32)>, n: int)
    requires
        0 <= n <= hubs.len(),
    ensures
        forall|i: int| 0 <= i < n ==> !dist_lt(#[trigger] hubs[i].1, entry_of(hubs, n).1),
        entry_of(hubs, n) == (usize::MAX, MAX_DIST) || exists|j: int| 0 <= j < n && hubs[j] == entry_of(hubs, n),
        !is_nan_bits(entry_of(hubs, n).1),
    decreases n,
{
    if n > 0 {
        lemma_entry_of_nearest(hubs, n - 1);
        let best = entry_of(hubs, n - 1);
        let r = entry_of(hubs, n);
        if dist_lt(hubs[n - 1].1, best.1) {
            assert forall|i: int| 0 <= i < n implies !dist_lt(#[trigger] hubs[i].1, r.1) by {
                if i < n - 1 && dist_lt(hubs[i].1, r.1) {
                    lemma_dist_lt_trans(hubs[i].1, r.1, best.1);
                }
            }
        } else {
            if exists|j: int| 0 <= j < n - 1 && hubs[j] == best {
                let j = choose|j: int| 0 <= j < n - 1 && hubs[j] == best;
                assert(0 <= j < n && hubs[j] == r);
            }
        }
    }
}

/// The search entry is the nearest hub: no hub is nearer than the entry,
/// and when some hub lies at a distance below `f32::MAX` (not NaN) the
/// entry is one of the hubs; otherwise it is `(usize::MAX, f32::MAX)`.
pub proof fn lemma_select_entry_nearest(hubs: Seq<(usize, u32)>)
    ensures
        forall|i: int| 0 <= i < hubs.len() ==> !dist_lt(#[trigger] hubs[i].1, entry_of(hubs, hubs.len() as int).1),
        (exists|i: int| 0 <= i < hubs.len() && dist_lt(#[trigger] hubs[i].1, MAX_DIST))
            ==> exists|j: int| 0 <= j < hubs.len() && hubs[j] == entry_of(hubs, hubs.len() as int),
        entry_of(hubs, hubs.len() as int) == (usize::MAX, MAX_DIST)
            || exists|j: int| 0 <= j < hubs.len() && hubs[j] == entry_of(hubs, hubs.len() as int),
{
    let n = hubs.len() as int;
    lemma_entry_of_nearest(hubs, n);
    if exists|i: int| 0 <= i < hubs.len() && dist_lt(#[trigger] hubs[i].1, MAX_DIST) {
        let i = choose|i: int| 0 <= i < hubs.len() && dist_lt(#[trigger] hubs[i].1, MAX_DIST);
        assert(!dist_lt(hubs[i].1, entry_of(hubs, n).1));
    }
}

/// A result is reported exactly when it names a node and its distance is a
/// number `d` with `0.0 <= d < f32::MAX`: the bit patterns of `+0.0` up to
/// the number below `f32::MAX`, and `-0.0`.
pub proof fn lemma_reported_bits(c: Candidate)
    ensures
        reported(c) <==> (c.id != usize::MAX && (c.dist < MAX_DIST || c.dist == 0x8000_0000u32)),
{
}

/// Expanding a node reaches every neighbour in its list, up to the first
/// empty slot: each is marked visited, and each that was not marked before
/// is queued with an unknown distance; nothing queued before is lost, and no
/// mark is cleared.
pub proof fn lemma_expand_reaches_all(f: Seq<Candidate>, e: Seq<bool>, nb: [usize; MAX_DEGREE])
    requires
        links_below(nb, e.len() as usize),
    ensures
        ({
            let (f2, e2) = expand_neighbors(f, e, nb, true, 0);
            &&& e2.len() == e.len()
            &&& forall|x: int| 0 <= x < e.len() && e[x] ==> e2[x]
            &&& forall|i: int| 0 <= i < f.len() ==> f2[i] == f[i]
            &&& forall|j: int| #![trigger nb[j]] 0 <= j < MAX_DEGREE && (forall|i: int| 0 <= i <= j ==> nb[i] != NO_NEIGHBOR) ==> {
                &&& e2[nb[j] as int]
                &&& !e[nb[j] as int] ==> f2.contains(Candidate { id: nb[j], dist: UNKNOWN_DIST, has_expanded: 0 })
            }
        }),
{
    lemma_expand_from(f, e, nb, 0);
}

proof fn lemma_expand_from(f: Seq<Candidate>, e: Seq<bool>, nb: [usize; MAX_DEGREE], j0: int)
    requires
        0 <= j0 <= MAX_DEGREE,
        links_below(nb, e.len() as usize),
        forall|i: int| 0 <= i < j0 ==> #[trigger] nb[i] != NO_NEIGHBOR,
    ensures
        ({
            let (f2, e2) = expand_neighbors(f, e, nb, true, j0);
            &&& e2.len() == e.len()
            &&& forall|x: int| 0 <= x < e.len() && e[x] ==> e2[x]
            &&& f2.len() >= f.len()
            &&& forall|i: int| 0 <= i < f.len() ==> f2[i] == f[i]
            &&& forall|j: int| #![trigger nb[j]] j0 <= j < MAX_DEGREE && (forall|i: int| 0 <= i <= j ==> nb[i] != NO_NEIGHBOR) ==> {
                &&& e2[nb[j] as int]
                &&& !e[nb[j] as int] ==> f2.contains(Candidate { id: nb[j], dist: UNKNOWN_DIST, has_expanded: 0 })
            }
        }),
    decreases MAX_DEGREE - j0,
{
    if j0 >= MAX_DEGREE || nb[j0] == NO_NEIGHBOR {
        let (f2, e2) = expand_neighbors(f, e, nb, true, j0);
        assert forall|j: int| #![trigger nb[j]] j0 <= j < MAX_DEGREE && (forall|i: int| 0 <= i <= j ==> nb[i] != NO_NEIGHBOR) implies false by {
            assert(nb[j0] != NO_NEIGHBOR);
        }
    } else {
        assert(nb[j0] < e.len());
        let id = nb[j0];
        let c = Candidate { id, dist: UNKNOWN_DIST, has_expanded: 0 };
        assert forall|i: int| 0 <= i < j0 + 1 implies #[trigger] nb[i] != NO_NEIGHBOR by {}
        if !e[id as int] {
            let f1 = f.push(c);
            let e1 = e.update(id as int, true);
            lemma_expand_from(f1, e1, nb, j0 + 1);
            let (f2, e2) = expand_neighbors(f1, e1, nb, true, j0 + 1);
            assert(expand_neighbors(f, e, nb, true, j0) == (f2, e2));
            assert(f2[f.len() as int] == f1[f.len() as int]);
            assert(e2[id as int]);
            assert(f2.contains(c));
            assert forall|i: int| 0 <= i < f.len() implies f2[i] == f[i] by {
                assert(f1[i] == f[i]);
            }
        } else {
            lemma_expand_from(f, e, nb, j0 + 1);
        }
    }
}

/// An offered candidate enters the pool when the pool has fewer than `l`
/// entries, or when it is nearer than some pool entry and no pool entry is
/// NaN; when the pool has `l` entries or more and the candidate is nearer
/// than none of them, the pool stays as it was.
pub proof fn lemma_offer_admits_nearer(pool: Seq<Candidate>, upd: Candidate, l: usize)
    requires
        pool.len() >= 1,
    ensures
        pool.len() < l ==> offer(pool, upd, l).contains(upd),
        (forall|i: int| 0 <= i < pool.len() ==> !is_nan_bits(#[trigger] pool[i].dist))
            && (exists|i: int| 0 <= i < pool.len() && dist_lt(upd.dist, #[trigger] pool[i].dist))
            ==> offer(pool, upd, l).contains(upd),
        pool.len() >= l && (forall|i: int| 0 <= i < pool.len() ==> !dist_lt(upd.dist, #[trigger] pool[i].dist))
            ==> offer(pool, upd, l) == pool,
{
    let p2 = pool.push(upd);
    let m = first_max_index(pool);
    super::lemma_first_max_index(pool);
    assert(p2[p2.len() - 1] == upd);
    if pool.len() < l {
        assert(offer(pool, upd, l) == p2);
    }
    if (forall|i: int| 0 <= i < pool.len() ==> !is_nan_bits(#[trigger] pool[i].dist))
        && (exists|i: int| 0 <= i < pool.len() && dist_lt(upd.dist, #[trigger] pool[i].dist)) {
        let i = choose|i: int| 0 <= i < pool.len() && dist_lt(upd.dist, #[trigger] pool[i].dist);
        assert(pool[m].key() >= pool[i].key());
        assert(!is_nan_bits(pool[m].dist));
        assert(dist_lt(upd.dist, pool[m].dist));
        if p2.len() > l {
            let k = first_max_index(p2);
            super::lemma_first_max_index(p2);
            assert(p2[m] == pool[m]);
            assert(p2[k].key() >= p2[m].key());
            assert(k != p2.len() - 1);
            p2.remove_ensures(k);
            assert(p2.remove(k)[p2.len() - 2] == upd);
            assert(offer(pool, upd, l) == p2.remove(k));
        } else {
            assert(offer(pool, upd, l) == p2);
        }
    }
}

/// The reported entries of `s` are all kept by `reported_of`.
proof fn lemma_reported_kept(s: Seq<Candidate>, d: Candidate)
    requires
        s.contains(d),
        reported(d),
    ensures
        reported_of(s).contains(d),
    decreases s.len(),
{
    let t = s.drop_last();
    if s.last() == d {
        let r = reported_of(t).push(d);
        assert(r[r.len() - 1] == d);
    } else {
        let w = choose|w: int| 0 <= w < s.len() && s[w] == d;
        assert(t[w] == d);
        lemma_reported_kept(t, d);
        let r = reported_of(t);
        let v = choose|v: int| 0 <= v < r.len() && r[v] == d;
        if reported(s.last()) {
            assert(r.push(s.last())[v] == d);
        }
    }
}

/// The results of a search are the nearest reported entries of its pool,
/// nearest first: each result is a reported pool entry, a reported pool
/// entry left out is no nearer than any result, and when fewer than `k`
/// results come out every reported pool entry is among them.
pub proof fn lemma_results_nearest(pool: Seq<Candidate>, k: usize)
    ensures
        keys_ascending(first_k(reported_of(sort_by_key(pool)), k)),
        forall|i: int| 0 <= i < first_k(reported_of(sort_by_key(pool)), k).len() ==>
            reported(#[trigger] first_k(reported_of(sort_by_key(pool)), k)[i])
            && pool.contains(first_k(reported_of(sort_by_key(pool)), k)[i]),
        forall|c: Candidate, d: Candidate|
            #[trigger] first_k(reported_of(sort_by_key(pool)), k).contains(c) && #[trigger] pool.contains(d) && reported(d)
            && !first_k(reported_of(sort_by_key(pool)), k).contains(d)
            ==> c.key() <= d.key(),
        first_k(reported_of(sort_by_key(pool)), k).len() < k ==> forall|d: Candidate|
            #[trigger] pool.contains(d) && reported(d) ==> first_k(reported_of(sort_by_key(pool)), k).contains(d),
{
    broadcast use vstd::seq_lib::group_to_multiset_ensures;
    let st = sort_by_key(pool);
    super::lemma_sort_by_key(pool);
    super::lemma_reported_of(st);
    let rp = reported_of(st);
    let res = first_k(rp, k);
    assert forall|i: int| 0 <= i < res.len() implies res[i] == rp[i] by {}
    assert forall|i: int| 0 <= i < res.len() implies reported(#[trigger] res[i]) && pool.contains(res[i]) by {
        assert(res[i] == rp[i]);
        assert(st.contains(rp[i]));
        assert(st.to_multiset().count(rp[i]) > 0);
    }
    assert forall|d: Candidate| #[trigger] pool.contains(d) && reported(d) implies rp.contains(d) by {
        assert(pool.to_multiset().count(d) > 0);
        assert(st.contains(d));
        lemma_reported_kept(st, d);
    }
    assert forall|c: Candidate, d: Candidate|
        #[trigger] res.contains(c) && #[trigger] pool.contains(d) && reported(d) && !res.contains(d)
        implies c.key() <= d.key() by {
        assert(rp.contains(d));
        let m = choose|m: int| 0 <= m < rp.len() && rp[m] == d;
        let i = choose|i: int| 0 <= i < res.len() && res[i] == c;
        assert(res[i] == rp[i]);
        if m < res.len() {
            assert(res[m] == d);
        }
        assert(rp[i].key() <= rp[m].key());
    }
    if res.len() < k {
        assert(res == rp);
    }
}

/// A step takes a queued candidate of smallest key: no queued candidate has
/// a smaller key (the unknown distance `-1.0` has the key of `-1.0`, below
/// that of every distance of `0.0` or more).
pub proof fn lemma_step_takes_nearest(s: Seq<Candidate>)
    requires
        s.len() > 0,
    ensures
        0 <= first_min_index(s) < s.len(),
        forall|j: int| 0 <= j < s.len() ==> s[first_min_index(s)].key() <= #[trigger] s[j].key(),
{
    super::lemma_first_min_index(s);
}

/// `a < b` on the numbers that the bits stand for, read on the bits: two
/// non-negative numbers compare as their bits do, two negative numbers
/// compare opposite to their bits, a negative number is below a
/// non-negative one unless both are zeros, and NaN is below nothing and
/// nothing is below NaN.
pub proof fn lemma_dist_lt_bits(a: u32, b: u32)
    ensures
        is_nan_bits(a) || is_nan_bits(b) ==> !dist_lt(a, b),
        !is_nan_bits(a) && !is_nan_bits(b) ==> {
            &&& a < 0x8000_0000 && b < 0x8000_0000 ==> (dist_lt(a, b) <==> a < b)
            &&& a >= 0x8000_0000 && b >= 0x8000_0000 ==> (dist_lt(a, b) <==> a > b)
            &&& a >= 0x8000_0000 && b < 0x8000_0000 ==> (dist_lt(a, b) <==> !(a == 0x8000_0000 && b == 0))
            &&& a < 0x8000_0000 && b >= 0x8000_0000 ==> !dist_lt(a, b)
        },
{
}

} // verus!
