use ppann::node::{NodeData, DIM, MAX_DEGREE, NO_NEIGHBOR, build_node_data};
use ppann::pool::UnifiedPool;
use ppann::coprime::gcd;

fn record(id: usize) -> NodeData {
    let mut n = NodeData::new_empty();
    for k in 0..DIM {
        n.vector[k] = (id * 1000 + k) as u32;
    }
    n.neighbors[0] = id + 1;
    n.neighbors[1] = id + 2;
    n
}

fn database(n: usize) -> Vec<NodeData> {
    (0..n).map(record).collect()
}

fn is_empty(n: &NodeData) -> bool {
    n.vector.iter().all(|&x| x == 0) && n.neighbors.iter().all(|&x| x == NO_NEIGHBOR)
}

#[test]
fn new_empty_is_zero_vector_without_neighbors() {
    let n = NodeData::new_empty();
    assert!(n.vector.iter().all(|&x| x == 0));
    assert!(n.neighbors.iter().all(|&x| x == usize::MAX));
    assert_eq!(n.neighbors.len(), MAX_DEGREE);
}

#[test]
fn new_pool_is_empty() {
    let p = UnifiedPool::new(5);
    assert_eq!(p.total_normal_nodes, 5);
    assert_eq!(p.size_m, 0);
    assert!(p.flat_pool.is_empty());
    assert!(p.hub_map.is_empty());
    assert_eq!(p.node_nth_table, vec![0; 5]);
    assert_eq!(p.replica_limits, vec![0; 5]);
    assert_eq!(p.replica_prefix_sum, vec![0; 5]);
    assert_eq!(p.epoch_access_counts, vec![0; 5]);
    assert_eq!((p.param_a, p.param_b), (1, 0));
}

#[test]
fn reconstruct_lays_out_replicas() {
    let db = database(4);
    let mut p = UnifiedPool::new(4);
    p.oblivious_reconstruct(&db, &[1], &[3, 9, 2, 1], 7);
    assert_eq!(p.replica_limits, vec![3, 0, 2, 1]);
    assert_eq!(p.replica_prefix_sum, vec![0, 3, 3, 5]);
    assert_eq!(p.size_m, 6);
    assert_eq!(p.flat_pool.len(), 6);
    assert_eq!(p.hub_id_list, vec![1]);
    assert_eq!(p.hub_map.len(), 1);
    assert_eq!(p.hub_map[&1], db[1]);
    assert_eq!(gcd(p.param_a, p.size_m), 1);
    assert!(p.param_a >= 1 && p.param_a <= p.size_m);
    assert!(p.param_b < p.size_m);
    // Every slot holds a replica of a non-hub node, each node as many times as its limit.
    let mut per_node = vec![0; 4];
    for slot in &p.flat_pool {
        let id = (slot.vector[0] / 1000) as usize;
        assert_eq!(*slot, db[id]);
        per_node[id] += 1;
    }
    assert_eq!(per_node, vec![3, 0, 2, 1]);
}

#[test]
fn replicas_are_single_use() {
    let db = database(4);
    let mut p = UnifiedPool::new(4);
    p.oblivious_reconstruct(&db, &[1], &[3, 9, 2, 1], 42);
    for _ in 0..3 {
        assert_eq!(p.get_normal_only(0), db[0]);
    }
    assert!(is_empty(&p.get_normal_only(0)));
    assert_eq!(p.node_nth_table[0], 4);
    assert_eq!(p.epoch_access_counts[0], 4);
    assert_eq!(p.get_normal_only(3), db[3]);
    assert!(is_empty(&p.get_normal_only(3)));
}

#[test]
fn get_reads_hubs_and_replicas() {
    let db = database(4);
    let mut p = UnifiedPool::new(4);
    p.oblivious_reconstruct(&db, &[1], &[3, 9, 2, 1], 5);
    assert_eq!(p.get(2), db[2]);
    assert_eq!(p.get(2), db[2]);
    assert!(is_empty(&p.get(2)));
    // A hub fetch spends one replica of a node drawn at random.
    let spent_before: u32 = p.node_nth_table.iter().sum();
    for _ in 0..10 {
        assert_eq!(p.get(1), db[1]);
    }
    let spent_after: u32 = p.node_nth_table.iter().sum();
    assert_eq!(spent_after, spent_before + 10);
    assert_eq!(p.epoch_access_counts[1], 10);
}

#[test]
fn get_with_choices_spends_the_drawn_replica() {
    let db = database(3);
    let mut p = UnifiedPool::new(3);
    p.oblivious_reconstruct(&db, &[0], &[4, 2, 2], 1);
    let before = p.node_nth_table.clone();
    assert_eq!(p.get_with_choices(0, 2, 0), db[0]);
    assert_eq!(p.node_nth_table[2], before[2] + 1);
    assert_eq!(p.get_with_choices(1, 0, 0), db[1]);
    assert_eq!(p.node_nth_table[1], 1);
}

#[test]
fn export_returns_counts_and_resets() {
    let db = database(3);
    let mut p = UnifiedPool::new(3);
    p.oblivious_reconstruct(&db, &[], &[1, 1, 1], 3);
    p.get_normal_only(2);
    p.get_normal_only(2);
    p.get_normal_only(0);
    let counts = p.export_and_reset_frequencies();
    assert_eq!(counts, vec![1, 0, 2]);
    assert_eq!(p.epoch_access_counts, vec![0, 0, 0]);
}

#[test]
fn reconstruct_twice_rekeys_and_resets() {
    let db = database(5);
    let mut p = UnifiedPool::new(5);
    p.oblivious_reconstruct(&db, &[4, 0], &[2, 2, 2, 2, 2], 0);
    assert_eq!(p.size_m, 6);
    p.get_normal_only(1);
    p.oblivious_reconstruct(&db, &[2], &[1, 1, 1, 1, 1], 1);
    assert_eq!(p.size_m, 4);
    assert_eq!(p.node_nth_table, vec![0; 5]);
    assert_eq!(p.epoch_access_counts[1], 1);
    assert_eq!(p.hub_map.len(), 1);
    assert_eq!(p.hub_map[&2], db[2]);
    for id in [0usize, 1, 3, 4] {
        assert_eq!(p.get_normal_only(id), db[id]);
    }
}

#[test]
fn duplicate_hubs_are_one_hub() {
    let db = database(3);
    let mut p = UnifiedPool::new(3);
    p.oblivious_reconstruct(&db, &[2, 2, 0], &[5, 5, 5], 9);
    assert_eq!(p.hub_map.len(), 2);
    assert_eq!(p.hub_map[&2], db[2]);
    assert_eq!(p.hub_map[&0], db[0]);
    assert_eq!(p.size_m, 5);
}

#[test]
fn gcd_values() {
    assert_eq!(gcd(12, 18), 6);
    assert_eq!(gcd(7, 0), 7);
    assert_eq!(gcd(0, 9), 9);
    assert_eq!(gcd(35, 64), 1);
}

#[test]
fn build_node_data_cuts_and_pads() {
    let v0 = [1u32; DIM];
    let v1 = [2u32; DIM];
    let long: Vec<usize> = (0..60).collect();
    let nodes = build_node_data(&[v0, v1], &[vec![4, 5], long.clone()]);
    assert_eq!(nodes.len(), 2);
    assert_eq!(nodes[0].vector, v0);
    assert_eq!(&nodes[0].neighbors[..3], &[4, 5, NO_NEIGHBOR]);
    assert_eq!(nodes[1].vector, v1);
    assert_eq!(nodes[1].neighbors.to_vec(), long[..MAX_DEGREE].to_vec());
}

#[test]
fn reconstruct_keys_the_hash_from_the_batch_number() {
    let db = database(4);
    let mut p = UnifiedPool::new(4);
    p.oblivious_reconstruct(&db, &[1], &[3, 9, 2, 1], 7);
    let m = 6usize;
    let h = xxhash_rust::xxh3::xxh3_64(&7usize.to_le_bytes()) as usize;
    let mut a = (h >> 32) % m;
    let b = (h & 0xFFFF_FFFF) % m;
    if a == 0 {
        a = 1;
    }
    while gcd(a, m) != 1 {
        a = (a + 1) % m;
        if a == 0 {
            a = 1;
        }
    }
    assert_eq!((p.param_a, p.param_b), (a, b));
    // Replica `nth` of node `id` sits at slot (a * (prefix + nth) + b) mod m.
    for (id, prefix, limit) in [(0usize, 0usize, 3usize), (2, 3, 2), (3, 5, 1)] {
        for nth in 0..limit {
            assert_eq!(p.flat_pool[(a * (prefix + nth) + b) % m], db[id]);
        }
    }
}

#[test]
fn every_slot_holds_a_non_hub_record() {
    let db = database(6);
    let mut p = UnifiedPool::new(6);
    p.oblivious_reconstruct(&db, &[0, 5], &[1, 2, 3, 4, 5, 6], 123);
    assert_eq!(p.size_m, 2 + 3 + 4 + 5);
    let mut per_node = vec![0; 6];
    for slot in &p.flat_pool {
        let id = (slot.vector[0] / 1000) as usize;
        assert_eq!(*slot, db[id]);
        per_node[id] += 1;
    }
    assert_eq!(per_node, vec![0, 2, 3, 4, 5, 0]);
}

#[test]
fn a_run_of_fetches_serves_each_replica_once() {
    let db = database(5);
    let mut p = UnifiedPool::new(5);
    p.oblivious_reconstruct(&db, &[4], &[2, 6, 3, 1, 9], 77);
    let (a, b, m) = (p.param_a, p.param_b, p.size_m);
    let prefix = p.replica_prefix_sum[1];
    let mut slots = Vec::new();
    for j in 0..8 {
        let r = p.get_normal_only(1);
        if j < 6 {
            assert_eq!(r, db[1]);
            slots.push((a * (prefix + j) + b) % m);
        } else {
            assert!(is_empty(&r));
        }
    }
    let mut sorted = slots.clone();
    sorted.sort();
    sorted.dedup();
    assert_eq!(sorted.len(), 6);
}
