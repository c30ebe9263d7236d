//! What a search keeps of its visited marks: every candidate it holds is
//! marked, no node enters the result pool twice, and so the results are
//! distinct visited nodes.
use vstd::prelude::*;
use super::{
    Candidate, Router, UNKNOWN_DIST, first_max_index, insert_by_key, sort_by_key, reported_of,
    first_k, offer, expand_neighbors, links_below,
};
use crate::node::{MAX_DEGREE, NO_NEIGHBOR};

verus! {

/// No two entries of `s` name the same node.
pub open spec fn ids_distinct(s: Seq<Candidate>) -> bool {
    forall|i: int, j: int| 0 <= i < j < s.len() ==> #[trigger] s[i].id != #[trigger] s[j].id
}

/// Every entry of `s` names a node marked in `expo`.
pub open spec fn all_marked(s: Seq<Candidate>, expo: Seq<bool>) -> bool {
    forall|i: int| 0 <= i < s.len() ==> expo[(#[trigger] s[i]).id as int]
}

/// The entries of `frontier` queued with an unknown distance name distinct
/// nodes, none of them in `pool`.
pub open spec fn unknown_apart(frontier: Seq<Candidate>, pool: Seq<Candidate>) -> bool {
    &&& forall|i: int, j: int| 0 <= i < j < frontier.len() && frontier[i].dist == UNKNOWN_DIST && frontier[j].dist == UNKNOWN_DIST
        ==> #[trigger] frontier[i].id != #[trigger] frontier[j].id
    &&& forall|i: int, j: int| 0 <= i < frontier.len() && 0 <= j < pool.len() && frontier[i].dist == UNKNOWN_DIST
        ==> #[trigger] frontier[i].id != #[trigger] pool[j].id
}

/// Node `id` is named by no entry of `pool` and by no entry of `frontier`
/// queued with an unknown distance.
pub open spec fn id_free(id: usize, frontier: Seq<Candidate>, pool: Seq<Candidate>) -> bool {
    &&& forall|i: int| 0 <= i < frontier.len() && (#[trigger] frontier[i]).dist == UNKNOWN_DIST ==> frontier[i].id != id
    &&& forall|j: int| 0 <= j < pool.len() ==> (#[trigger] pool[j]).id != id
}

impl Router {
    /// The search agrees with the visited marks `expo`: every candidate it
    /// holds is marked, the pool's nodes are distinct nodes below the bound,
    /// and a candidate waiting for its distance (queued or in progress) names
    /// a node that no other such candidate and no pool entry names.
    pub open spec fn sound(&self, expo: Seq<bool>) -> bool {
        &&& self.node_bound <= expo.len()
        &&& all_marked(self.min_heap@, expo)
        &&& all_marked(self.max_heap@, expo)
        &&& forall|j: int| 0 <= j < self.max_heap@.len() ==> (#[trigger] self.max_heap@[j]).id < self.node_bound
        &&& ids_distinct(self.max_heap@)
        &&& unknown_apart(self.min_heap@, self.max_heap@)
        &&& self.pending ==> expo[self.current.id as int]
        &&& self.pending && self.current.dist == UNKNOWN_DIST ==> id_free(self.current.id, self.min_heap@, self.max_heap@)
    }
}

/// Every entry of an insertion is the inserted one or one of `s`, and
/// inserting a node that `s` does not name keeps the nodes distinct.
proof fn lemma_insert_ids(s: Seq<Candidate>, x: Candidate)
    ensures
        forall|i: int| 0 <= i < insert_by_key(s, x).len() ==>
            #[trigger] insert_by_key(s, x)[i] == x || s.contains(insert_by_key(s, x)[i]),
        ids_distinct(s) && (forall|i: int| 0 <= i < s.len() ==> #[trigger] s[i].id != x.id)
            ==> ids_distinct(insert_by_key(s, x)),
    decreases s.len(),
{
    if s.len() == 0 {
    } else if s.last().key() <= x.key() {
        let r = s.push(x);
        assert forall|i: int| 0 <= i < r.len() implies #[trigger] r[i] == x || s.contains(r[i]) by {
            if i < s.len() {
                assert(r[i] == s[i]);
            }
        }
    } else {
        let t = s.drop_last();
        lemma_insert_ids(t, x);
        let r = insert_by_key(t, x);
        let q = r.push(s.last());
        assert(insert_by_key(s, x) == q);
        assert forall|i: int| 0 <= i < q.len() implies #[trigger] q[i] == x || s.contains(q[i]) by {
            if i < r.len() {
                assert(q[i] == r[i]);
                if r[i] != x {
                    let w = choose|w: int| 0 <= w < t.len() && t[w] == r[i];
                    assert(s[w] == t[w]);
                }
            } else {
                assert(s[s.len() - 1] == q[i]);
            }
        }
        if ids_distinct(s) && (forall|i: int| 0 <= i < s.len() ==> #[trigger] s[i].id != x.id) {
            assert forall|i: int| 0 <= i < t.len() implies #[trigger] t[i].id != x.id by {
                assert(s[i] == t[i]);
            }
            assert forall|i: int, j: int| 0 <= i < j < t.len() implies #[trigger] t[i].id != #[trigger] t[j].id by {
                assert(s[i] == t[i] && s[j] == t[j]);
            }
            assert forall|i: int, j: int| 0 <= i < j < q.len() implies #[trigger] q[i].id != #[trigger] q[j].id by {
                if j < r.len() {
                    assert(q[i] == r[i] && q[j] == r[j]);
                } else {
                    assert(q[i] == r[i]);
                    assert(q[j] == s[s.len() - 1]);
                    if r[i] == x {
                    } else {
                        let w = choose|w: int| 0 <= w < t.len() && t[w] == r[i];
                        assert(s[w] == t[w]);
                    }
                }
            }
        }
    }
}

/// Sorting keeps the entries of `s` and their distinctness.
proof fn lemma_sort_ids(s: Seq<Candidate>)
    ensures
        forall|i: int| 0 <= i < sort_by_key(s).len() ==> s.contains(#[trigger] sort_by_key(s)[i]),
        ids_distinct(s) ==> ids_distinct(sort_by_key(s)),
    decreases s.len(),
{
    if s.len() > 0 {
        let t = s.drop_last();
        lemma_sort_ids(t);
        let st = sort_by_key(t);
        lemma_insert_ids(st, s.last());
        let q = sort_by_key(s);
        assert(q == insert_by_key(st, s.last()));
        assert forall|i: int| 0 <= i < q.len() implies s.contains(#[trigger] q[i]) by {
            if q[i] == s.last() {
                assert(s[s.len() - 1] == q[i]);
            } else {
                let v = choose|v: int| 0 <= v < st.len() && st[v] == q[i];
                let w = choose|w: int| 0 <= w < t.len() && t[w] == st[v];
                assert(s[w] == t[w]);
            }
        }
        if ids_distinct(s) {
            assert forall|i: int, j: int| 0 <= i < j < t.len() implies #[trigger] t[i].id != #[trigger] t[j].id by {
                assert(s[i] == t[i] && s[j] == t[j]);
            }
            assert forall|i: int| 0 <= i < st.len() implies #[trigger] st[i].id != s.last().id by {
                let w = choose|w: int| 0 <= w < t.len() && t[w] == st[i];
                assert(s[w] == t[w]);
                assert(s[s.len() - 1] == s.last());
            }
        }
    }
}

/// Keeping the reported entries keeps their distinctness.
proof fn lemma_reported_ids(s: Seq<Candidate>)
    ensures
        forall|i: int| 0 <= i < reported_of(s).len() ==> s.contains(#[trigger] reported_of(s)[i]),
        ids_distinct(s) ==> ids_distinct(reported_of(s)),
    decreases s.len(),
{
    if s.len() > 0 {
        let t = s.drop_last();
        lemma_reported_ids(t);
        let r = reported_of(t);
        let q = reported_of(s);
        assert forall|i: int| 0 <= i < q.len() implies s.contains(#[trigger] q[i]) by {
            if i < r.len() {
                assert(q[i] == r[i]);
                let w = choose|w: int| 0 <= w < t.len() && t[w] == r[i];
                assert(s[w] == t[w]);
            } else {
                assert(s[s.len() - 1] == q[i]);
            }
        }
        if ids_distinct(s) {
            assert forall|i: int, j: int| 0 <= i < j < t.len() implies #[trigger] t[i].id != #[trigger] t[j].id by {
                assert(s[i] == t[i] && s[j] == t[j]);
            }
            assert forall|i: int, j: int| 0 <= i < j < q.len() implies #[trigger] q[i].id != #[trigger] q[j].id by {
                assert(q[i] == r[i]);
                if j < r.len() {
                    assert(q[j] == r[j]);
                } else {
                    let w = choose|w: int| 0 <= w < t.len() && t[w] == r[i];
                    assert(s[w] == t[w]);
                    assert(q[j] == s[s.len() - 1]);
                }
            }
        }
    }
}

/// The results of a search whose state agrees with the visited marks
/// `expo` name distinct nodes, each of them marked visited.
pub proof fn lemma_results_visited(r: Router, expo: Seq<bool>)
    requires
        r.sound(expo),
    ensures
        ids_distinct(first_k(reported_of(sort_by_key(r.max_heap@)), r.k)),
        all_marked(first_k(reported_of(sort_by_key(r.max_heap@)), r.k), expo),
{
    let s = r.max_heap@;
    lemma_sort_ids(s);
    let st = sort_by_key(s);
    lemma_reported_ids(st);
    let rp = reported_of(st);
    let res = first_k(rp, r.k);
    assert forall|i: int| 0 <= i < rp.len() implies expo[(#[trigger] rp[i]).id as int] by {
        let v = choose|v: int| 0 <= v < st.len() && st[v] == rp[i];
        let w = choose|w: int| 0 <= w < s.len() && s[w] == st[v];
        assert(expo[s[w].id as int]);
    }
    assert forall|i: int| 0 <= i < res.len() implies res[i] == rp[i] by {}
    assert forall|i: int, j: int| 0 <= i < j < res.len() implies #[trigger] res[i].id != #[trigger] res[j].id by {
        assert(res[i] == rp[i] && res[j] == rp[j]);
    }
    assert forall|i: int| 0 <= i < res.len() implies expo[(#[trigger] res[i]).id as int] by {
        assert(res[i] == rp[i]);
    }
}

/// Every entry of `s` names a node below `bound`.
pub open spec fn ids_below(s: Seq<Candidate>, bound: usize) -> bool {
    forall|i: int| 0 <= i < s.len() ==> (#[trigger] s[i]).id < bound
}

/// Every entry of the pool after an offer is the offered candidate or one of
/// the pool's, and offering a node that the pool does not name keeps the
/// pool's nodes distinct.
proof fn lemma_offer_ids(pool: Seq<Candidate>, upd: Candidate, l: usize)
    requires
        pool.len() >= 1,
    ensures
        forall|i: int| 0 <= i < offer(pool, upd, l).len() ==>
            #[trigger] offer(pool, upd, l)[i] == upd || pool.contains(offer(pool, upd, l)[i]),
        ids_distinct(pool) && (forall|j: int| 0 <= j < pool.len() ==> #[trigger] pool[j].id != upd.id)
            ==> ids_distinct(offer(pool, upd, l)),
{
    let q = offer(pool, upd, l);
    let p2 = pool.push(upd);
    assert forall|i: int| 0 <= i < p2.len() implies #[trigger] p2[i] == upd || pool.contains(p2[i]) by {
        if i < pool.len() {
            assert(p2[i] == pool[i]);
        }
    }
    if q != pool && q != p2 {
        let k = first_max_index(p2);
        super::lemma_first_max_index(p2);
        p2.remove_ensures(k);
        assert(q == p2.remove(k));
        assert forall|i: int| 0 <= i < q.len() implies #[trigger] q[i] == upd || pool.contains(q[i]) by {
            if i < k {
                assert(q[i] == p2[i]);
            } else {
                assert(q[i] == p2[i + 1]);
            }
        }
    }
    if ids_distinct(pool) && (forall|j: int| 0 <= j < pool.len() ==> #[trigger] pool[j].id != upd.id) {
        assert forall|i: int, j: int| 0 <= i < j < p2.len() implies #[trigger] p2[i].id != #[trigger] p2[j].id by {
            assert(p2[i] == pool[i]);
            if j < pool.len() {
                assert(p2[j] == pool[j]);
            }
        }
        if q != pool && q != p2 {
            let k = first_max_index(p2);
            super::lemma_first_max_index(p2);
            p2.remove_ensures(k);
            assert forall|i: int, j: int| 0 <= i < j < q.len() implies #[trigger] q[i].id != #[trigger] q[j].id by {
                let a = if i < k { i } else { i + 1 };
                let b = if j < k { j } else { j + 1 };
                assert(q[i] == p2[a] && q[j] == p2[b]);
            }
        }
    }
}

/// Scanning the neighbour slots from `j` keeps the frontier's candidates
/// marked, marks what it queues, and queues only nodes that were not marked.
proof fn lemma_expand_sound(
    f: Seq<Candidate>,
    e: Seq<bool>,
    nb: [usize; MAX_DEGREE],
    expand: bool,
    j: int,
    p: Seq<Candidate>,
    bound: usize,
)
    requires
        0 <= j <= MAX_DEGREE,
        bound <= e.len(),
        links_below(nb, bound),
        forall|i: int| 0 <= i < j ==> #[trigger] nb[i] != NO_NEIGHBOR,
        ids_below(f, bound),
        ids_below(p, bound),
        all_marked(f, e),
        all_marked(p, e),
        unknown_apart(f, p),
    ensures
        expand_neighbors(f, e, nb, expand, j).1.len() == e.len(),
        ids_below(expand_neighbors(f, e, nb, expand, j).0, bound),
        all_marked(expand_neighbors(f, e, nb, expand, j).0, expand_neighbors(f, e, nb, expand, j).1),
        all_marked(p, expand_neighbors(f, e, nb, expand, j).1),
        unknown_apart(expand_neighbors(f, e, nb, expand, j).0, p),
    decreases MAX_DEGREE - j,
{
    if j >= MAX_DEGREE || nb[j] == NO_NEIGHBOR {
    } else {
        assert(nb[j] < bound);
        if expand && !e[nb[j] as int] {
            let id = nb[j];
            let c = Candidate { id, dist: UNKNOWN_DIST, has_expanded: 0 };
            let f1 = f.push(c);
            let e1 = e.update(id as int, true);
            assert forall|i: int| 0 <= i < f1.len() implies e1[(#[trigger] f1[i]).id as int] by {
                if i < f.len() {
                    assert(f1[i] == f[i]);
                    assert(e[f[i].id as int]);
                }
            }
            assert forall|i: int| 0 <= i < p.len() implies e1[(#[trigger] p[i]).id as int] by {
                assert(e[p[i].id as int]);
            }
            assert forall|i: int| 0 <= i < f1.len() implies (#[trigger] f1[i]).id < bound by {
                if i < f.len() {
                    assert(f1[i] == f[i]);
                }
            }
            assert forall|a: int, b: int| 0 <= a < b < f1.len() && f1[a].dist == UNKNOWN_DIST && f1[b].dist == UNKNOWN_DIST
                implies #[trigger] f1[a].id != #[trigger] f1[b].id by {
                assert(f1[a] == f[a]);
                if b < f.len() {
                    assert(f1[b] == f[b]);
                } else {
                    assert(e[f[a].id as int]);
                }
            }
            assert forall|a: int, b: int| 0 <= a < f1.len() && 0 <= b < p.len() && f1[a].dist == UNKNOWN_DIST
                implies #[trigger] f1[a].id != #[trigger] p[b].id by {
                assert(e[p[b].id as int]);
                if a < f.len() {
                    assert(f1[a] == f[a]);
                }
            }
            assert forall|i: int| 0 <= i < j + 1 implies #[trigger] nb[i] != NO_NEIGHBOR by {}
            lemma_expand_sound(f1, e1, nb, expand, j + 1, p, bound);
        } else {
            assert forall|i: int| 0 <= i < j + 1 implies #[trigger] nb[i] != NO_NEIGHBOR by {}
            lemma_expand_sound(f, e, nb, expand, j + 1, p, bound);
        }
    }
}

/// Taking the candidate at `p` off the frontier to work on it keeps the
/// search in agreement with the marks.
pub proof fn lemma_begin_step_sound(old: Router, new: Router, p: int, e: Seq<bool>)
    requires
        old.sound(e),
        !old.pending,
        0 <= p < old.min_heap@.len(),
        new.min_heap@ == old.min_heap@.remove(p),
        new.max_heap@ == old.max_heap@,
        new.current == old.min_heap@[p],
        new.pending,
        new.node_bound == old.node_bound,
    ensures
        new.sound(e),
{
    let m = old.min_heap@;
    m.remove_ensures(p);
    let m2 = new.min_heap@;
    assert forall|i: int| 0 <= i < m2.len() implies m2[i] == m[if i < p { i } else { i + 1 }] by {}
    assert forall|i: int| 0 <= i < m2.len() implies e[(#[trigger] m2[i]).id as int] by {
        assert(m2[i] == m[if i < p { i } else { i + 1 }]);
    }
    assert forall|a: int, b: int| 0 <= a < b < m2.len() && m2[a].dist == UNKNOWN_DIST && m2[b].dist == UNKNOWN_DIST
        implies #[trigger] m2[a].id != #[trigger] m2[b].id by {
        let x = if a < p { a } else { a + 1 };
        let y = if b < p { b } else { b + 1 };
        assert(m2[a] == m[x] && m2[b] == m[y]);
    }
    assert forall|a: int, b: int| 0 <= a < m2.len() && 0 <= b < new.max_heap@.len() && m2[a].dist == UNKNOWN_DIST
        implies #[trigger] m2[a].id != #[trigger] new.max_heap@[b].id by {
        let x = if a < p { a } else { a + 1 };
        assert(m2[a] == m[x]);
    }
    assert(e[m[p].id as int]);
    if new.current.dist == UNKNOWN_DIST {
        assert forall|i: int| 0 <= i < m2.len() && (#[trigger] m2[i]).dist == UNKNOWN_DIST implies m2[i].id != new.current.id by {
            let x = if i < p { i } else { i + 1 };
            assert(m2[i] == m[x]);
            if x < p {
                assert(m[x].id != m[p].id);
            } else {
                assert(m[p].id != m[x].id);
            }
        }
        assert forall|j: int| 0 <= j < new.max_heap@.len() implies (#[trigger] new.max_heap@[j]).id != new.current.id by {
            assert(m[p].id != old.max_heap@[j].id);
        }
    }
}

/// Ending a step whose fetched node was measured at a distance other than
/// the unknown mark keeps the search in agreement with the marks: the
/// evaluated node enters the pool at most once, and expansion queues only
/// nodes not yet marked.
pub proof fn lemma_end_step_sound(old: Router, new: Router, nb: [usize; MAX_DEGREE], actual_dist: u32, e0: Seq<bool>, e1: Seq<bool>)
    requires
        old.wf(),
        old.pending,
        old.sound(e0),
        actual_dist != UNKNOWN_DIST,
        links_below(nb, old.node_bound),
        !new.pending,
        new.node_bound == old.node_bound,
        ({
            let cur = old.current;
            let expand = cur.dist != UNKNOWN_DIST;
            let upd = Candidate { id: cur.id, dist: actual_dist, has_expanded: 0 };
            let joins = !expand && super::admitted(old.max_heap@, upd, old.l);
            let f1 = if joins { old.min_heap@.push(upd) } else { old.min_heap@ };
            let p1 = if !expand { offer(old.max_heap@, upd, old.l) } else { old.max_heap@ };
            let after = expand_neighbors(f1, e0.update(cur.id as int, true), nb, expand, 0);
            &&& new.max_heap@ == p1
            &&& new.min_heap@ == after.0
            &&& e1 == after.1
        }),
    ensures
        new.sound(e1),
{
    let bound = old.node_bound;
    let cur = old.current;
    let expand = cur.dist != UNKNOWN_DIST;
    let upd = Candidate { id: cur.id, dist: actual_dist, has_expanded: 0 };
    let joins = !expand && super::admitted(old.max_heap@, upd, old.l);
    let min = old.min_heap@;
    let max = old.max_heap@;
    let f1 = if joins { min.push(upd) } else { min };
    let p1 = if !expand { offer(max, upd, old.l) } else { max };
    let e = e0.update(cur.id as int, true);
    assert(cur.id < bound);
    lemma_offer_ids(max, upd, old.l);
    assert forall|i: int| 0 <= i < f1.len() implies (#[trigger] f1[i]).id < bound && e[f1[i].id as int] by {
        if i < min.len() {
            assert(f1[i] == min[i]);
            assert(e0[min[i].id as int]);
        }
    }
    assert forall|j: int| 0 <= j < p1.len() implies (#[trigger] p1[j]).id < bound && e[p1[j].id as int] by {
        if p1[j] != upd {
            let w = choose|w: int| 0 <= w < max.len() && max[w] == p1[j];
            assert(e0[max[w].id as int]);
            assert(max[w].id < bound);
        }
    }
    if !expand {
        assert forall|j: int| 0 <= j < max.len() implies #[trigger] max[j].id != upd.id by {}
        assert(ids_distinct(p1));
        assert forall|a: int, b: int| 0 <= a < b < f1.len() && f1[a].dist == UNKNOWN_DIST && f1[b].dist == UNKNOWN_DIST
            implies #[trigger] f1[a].id != #[trigger] f1[b].id by {
            assert(f1[a] == min[a]);
            assert(f1[b] == min[b]);
        }
        assert forall|a: int, b: int| 0 <= a < f1.len() && 0 <= b < p1.len() && f1[a].dist == UNKNOWN_DIST
            implies #[trigger] f1[a].id != #[trigger] p1[b].id by {
            assert(f1[a] == min[a]);
            if p1[b] != upd {
                let w = choose|w: int| 0 <= w < max.len() && max[w] == p1[b];
                assert(min[a].id != max[w].id);
            }
        }
    }
    lemma_expand_sound(f1, e, nb, expand, 0, p1, bound);
}

} // verus!
