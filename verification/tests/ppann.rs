use ppann::node::{NodeData, DIM, NO_NEIGHBOR};
use ppann::pool::UnifiedPool;
use ppann::ppann::{dist_less, order_key, select_entry, Candidate, Router, UNKNOWN_DIST, MAX_DIST};

fn point(x: f32) -> NodeData {
    let mut n = NodeData::new_empty();
    n.vector[0] = x.to_bits();
    n
}

fn dist_to(node: &NodeData, q: f32) -> f32 {
    let mut sum = 0.0f32;
    for k in 0..DIM {
        let d = f32::from_bits(node.vector[k]) - if k == 0 { q } else { 0.0 };
        sum += d * d;
    }
    sum
}

#[test]
fn order_keys_follow_float_order() {
    let xs = [-3.5f32, -1.0, -0.0, 0.0, 1e-30, 2.0, 7.25, f32::MAX, f32::INFINITY];
    for i in 0..xs.len() {
        for j in 0..xs.len() {
            assert_eq!(order_key(xs[i].to_bits()) < order_key(xs[j].to_bits()), xs[i] < xs[j]);
        }
    }
    assert_eq!(UNKNOWN_DIST, (-1.0f32).to_bits());
    assert_eq!(MAX_DIST, f32::MAX.to_bits());
}

#[test]
fn default_candidate() {
    let c = Candidate::default();
    assert_eq!(c.id, usize::MAX);
    assert_eq!(f32::from_bits(c.dist), f32::MAX);
    assert_eq!(c.has_expanded, 1);
}

#[test]
fn select_entry_takes_first_nearest() {
    let hubs = vec![(4, 3.0f32.to_bits()), (9, 1.0f32.to_bits()), (2, 1.0f32.to_bits())];
    assert_eq!(select_entry(&hubs), (9, 1.0f32.to_bits()));
    assert_eq!(select_entry(&[]), (usize::MAX, f32::MAX.to_bits()));
    assert_eq!(select_entry(&[(1, f32::MAX.to_bits())]), (usize::MAX, f32::MAX.to_bits()));
}

/// A path graph 0 - 1 - 2 - ... with node i at coordinate i.
fn path_pool(n: usize) -> (UnifiedPool, Vec<NodeData>) {
    let mut db = Vec::new();
    for i in 0..n {
        let mut node = point(i as f32);
        let mut s = 0;
        if i > 0 {
            node.neighbors[s] = i - 1;
            s += 1;
        }
        if i + 1 < n {
            node.neighbors[s] = i + 1;
        }
        db.push(node);
    }
    let mut pt = UnifiedPool::new(n);
    pt.oblivious_reconstruct(&db, &[0], &vec![50; n], 11);
    (pt, db)
}

fn route(pt: &mut UnifiedPool, q: f32, entry: usize, t_0: usize, k: usize, l: usize) -> Vec<Candidate> {
    let mut expo = vec![false; pt.total_normal_nodes];
    let entry_dist = dist_to(&pt.get_normal_only(entry), q);
    let mut router = Router::new(entry, entry_dist.to_bits(), t_0, k, l, (t_0 * 15 + 99) / 100, pt.total_normal_nodes, &mut expo);
    while let Some(node) = router.begin_step(pt) {
        assert!(node.neighbors.iter().take_while(|&&x| x != NO_NEIGHBOR).all(|&x| x < pt.total_normal_nodes));
        router.end_step(&node, dist_to(&node, q).to_bits(), &mut expo);
    }
    router.finish()
}

#[test]
fn routing_walks_to_the_query() {
    let (mut pt, _db) = path_pool(8);
    let res = route(&mut pt, 6.2, 0, 60, 3, 4);
    let ids: Vec<usize> = res.iter().map(|c| c.id).collect();
    assert_eq!(ids, vec![6, 7, 5]);
    let d: Vec<f32> = res.iter().map(|c| f32::from_bits(c.dist)).collect();
    assert!(d[0] <= d[1] && d[1] <= d[2]);
}

#[test]
fn routing_with_no_budget_reports_the_entry() {
    let (mut pt, _db) = path_pool(5);
    let res = route(&mut pt, 3.0, 2, 0, 5, 5);
    assert_eq!(res.len(), 1);
    assert_eq!(res[0].id, 2);
    assert_eq!(f32::from_bits(res[0].dist), 1.0);
}

#[test]
fn routing_step_marks_and_queues_neighbors() {
    let (mut pt, _db) = path_pool(4);
    let mut expo = vec![false; 4];
    let mut router = Router::new(1, 9.0f32.to_bits(), 10, 2, 2, 2, 4, &mut expo);
    assert!(expo[1]);
    let node = router.begin_step(&mut pt).unwrap();
    assert!(router.pending);
    router.end_step(&node, 4.0f32.to_bits(), &mut expo);
    // A candidate with a known distance is expanded: both neighbours are queued unevaluated.
    assert_eq!(router.step, 1);
    assert!(expo[0] && expo[2] && !expo[3]);
    let queued: Vec<(usize, u32)> = router.min_heap.iter().map(|c| (c.id, c.dist)).collect();
    assert_eq!(queued, vec![(0, UNKNOWN_DIST), (2, UNKNOWN_DIST)]);
    // The next step evaluates node 0 and offers it to the pool.
    let node = router.begin_step(&mut pt).unwrap();
    assert_eq!(router.current.id, 0);
    router.end_step(&node, 1.0f32.to_bits(), &mut expo);
    assert_eq!(router.max_heap.len(), 2);
    assert_eq!(router.min_heap.len(), 2);
}

#[test]
fn result_pool_and_steps_stay_within_bounds() {
    let (mut pt, _db) = path_pool(10);
    let mut expo = vec![false; 10];
    let t_0 = 25;
    let mut router = Router::new(0, dist_to(&point(0.0), 8.5).to_bits(), t_0, 3, 2, 4, 10, &mut expo);
    let mut steps = 0;
    while let Some(node) = router.begin_step(&mut pt) {
        router.end_step(&node, dist_to(&node, 8.5).to_bits(), &mut expo);
        steps += 1;
        assert!(router.max_heap.len() >= 1 && router.max_heap.len() <= 2);
    }
    assert!(steps <= t_0);
    assert_eq!(router.step, steps);
    let res = router.finish();
    assert!(res.len() <= 2);
    let ids: Vec<usize> = res.iter().map(|c| c.id).collect();
    assert_eq!(ids, vec![8, 9]);
}

#[test]
fn nan_distances_are_never_below() {
    let neg_nan = 0xFFC0_0000u32;
    let pos_nan = 0x7FC0_0000u32;
    assert!(f32::from_bits(neg_nan).is_nan());
    let hubs = vec![(4, neg_nan), (9, 2.0f32.to_bits()), (3, pos_nan)];
    assert_eq!(select_entry(&hubs), (9, 2.0f32.to_bits()));
    assert_eq!(select_entry(&[(1, neg_nan)]), (usize::MAX, f32::MAX.to_bits()));
    assert!(!dist_less(neg_nan, 1.0f32.to_bits()));
    assert!(!dist_less(1.0f32.to_bits(), pos_nan));
    assert!(dist_less((-2.0f32).to_bits(), 1.0f32.to_bits()));
}

#[test]
fn results_are_distinct_visited_nodes() {
    let (mut pt, _db) = path_pool(12);
    let mut expo = vec![false; 12];
    let q = 7.4f32;
    let entry_dist = dist_to(&point(2.0), q);
    let mut router = Router::new(2, entry_dist.to_bits(), 80, 6, 5, 12, 12, &mut expo);
    while let Some(node) = router.begin_step(&mut pt) {
        router.end_step(&node, dist_to(&node, q).to_bits(), &mut expo);
        let ids: Vec<usize> = router.max_heap.iter().map(|c| c.id).collect();
        for i in 0..ids.len() {
            assert!(expo[ids[i]]);
            for j in i + 1..ids.len() {
                assert_ne!(ids[i], ids[j]);
            }
        }
    }
    let res = router.finish();
    let ids: Vec<usize> = res.iter().map(|c| c.id).collect();
    assert_eq!(ids, vec![7, 8, 6, 9, 5]);
    assert!(ids.iter().all(|&i| expo[i]));
}
