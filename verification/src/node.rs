//! The record stored for each graph node: its vector and its adjacency list.
use vstd::prelude::*;

verus! {

/// Number of components of a stored vector.
pub const DIM: usize = 128;

/// Number of neighbour slots of a node.
pub const MAX_DEGREE: usize = 50;

/// Neighbour slot value that marks the end of a node's adjacency list.
pub const NO_NEIGHBOR: usize = usize::MAX;

/// A node of the search graph. Each vector component is kept as the bit
/// pattern of an IEEE-754 single-precision number, which the pool only
/// moves and never interprets.
#[derive(Clone, Copy, Debug, PartialEq, Eq)]
pub struct NodeData {
    pub vector: [u32; DIM],
    pub neighbors: [usize; MAX_DEGREE],
}

impl NodeData {
    /// The placeholder node: an all-zero vector (the bits of `0.0`) and no
    /// neighbours.
    pub open spec fn is_empty(self) -> bool {
        &&& forall|i: int| 0 <= i < DIM ==> #[trigger] self.vector[i] == 0u32
        &&& forall|j: int| 0 <= j < MAX_DEGREE ==> #[trigger] self.neighbors[j] == NO_NEIGHBOR
    }

    /// The placeholder node as a value.
    pub open spec fn empty() -> Self {
        NodeData {
            vector: vstd::array::spec_array_fill_for_copy_type::<u32, DIM>(0u32),
            neighbors: vstd::array::spec_array_fill_for_copy_type::<usize, MAX_DEGREE>(NO_NEIGHBOR),
        }
    }

    /// Returns the placeholder node.
    pub fn new_empty() -> (r: Self)
        ensures
            r == Self::empty(),
            r.is_empty(),
    {
        NodeData { vector: [0u32; DIM], neighbors: [NO_NEIGHBOR; MAX_DEGREE] }
    }
}

/// The neighbour slots for an adjacency list.
pub open spec fn neighbor_slot(adjacency: Seq<usize>, j: int) -> usize {
    if j < adjacency.len() { adjacency[j] } else { NO_NEIGHBOR }
}

/// Whether `n` holds `vector` and the adjacency list `adjacency`, cut after
/// `MAX_DEGREE` entries and padded with `NO_NEIGHBOR`.
pub open spec fn is_node_of(n: NodeData, vector: [u32; DIM], adjacency: Seq<usize>) -> bool {
    &&& n.vector == vector
    &&& forall|j: int| 0 <= j < MAX_DEGREE ==> #[trigger] n.neighbors[j] == neighbor_slot(adjacency, j)
}

/// Builds one node per vector, pairing vector `i` with adjacency list `i`.
pub fn build_node_data(node_vector_arr: &[[u32; DIM]], node_neighbors: &[Vec<usize>]) -> (r: Vec<NodeData>)
    requires
        node_neighbors@.len() >= node_vector_arr@.len(),
    ensures
        r@.len() == node_vector_arr@.len(),
        forall|i: int| 0 <= i < r@.len() ==> is_node_of(#[trigger] r@[i], node_vector_arr@[i], node_neighbors@[i]@),
{
    let n = node_vector_arr.len();
    let mut node_data_list: Vec<NodeData> = Vec::with_capacity(n);
    let mut i: usize = 0;
    while i < n
        invariant
            n == node_vector_arr@.len(),
            node_neighbors@.len() >= n,
            i <= n,
            node_data_list@.len() == i,
            forall|k: int| 0 <= k < i ==> is_node_of(#[trigger] node_data_list@[k], node_vector_arr@[k], node_neighbors@[k]@),
        decreases n - i,
    {
        let mut node = NodeData::new_empty();
        node.vector = node_vector_arr[i];
        let current_neighbors = &node_neighbors[i];
        let len = current_neighbors.len();
        let mut idx: usize = 0;
        while idx < len
            invariant
                i < n,
                n == node_vector_arr@.len(),
                current_neighbors@ == node_neighbors@[i as int]@,
                len == current_neighbors@.len(),
                idx <= len,
                idx <= MAX_DEGREE,
                node.vector == node_vector_arr@[i as int],
                forall|j: int| 0 <= j < MAX_DEGREE ==> #[trigger] node.neighbors[j] == (if j < idx { current_neighbors@[j] } else { NO_NEIGHBOR }),
            ensures
                idx == len || idx == MAX_DEGREE,
                node.vector == node_vector_arr@[i as int],
                forall|j: int| 0 <= j < MAX_DEGREE ==> #[trigger] node.neighbors[j] == (if j < idx { current_neighbors@[j] } else { NO_NEIGHBOR }),
            decreases len - idx,
        {
            if idx < MAX_DEGREE {
                node.neighbors[idx] = current_neighbors[idx];
            } else {
                break;
            }
            idx = idx + 1;
        }
        assert(is_node_of(node, node_vector_arr@[i as int], node_neighbors@[i as int]@));
        node_data_list.push(node);
        i = i + 1;
    }
    node_data_list
}

} // verus!
