//! Where a tour deposits pheromone: one entry per edge it traverses.
use vstd::prelude::*;
use crate::pair::{encode, encode_spec, lemma_encode_injective, num_pairs, pair_count, valid_pair};
use crate::tour::{is_tour, AntPath};

verus! {

/// Index of the edge between entries `i` and `i + 1` of `ids`.
pub open spec fn edge_index(ids: Seq<i32>, n: int, i: int) -> int {
    encode_spec(ids[i] as int, ids[i + 1] as int, n)
}

/// `k` is the index of an edge between two consecutive entries of `ids`.
pub open spec fn on_tour(ids: Seq<i32>, n: int, k: int) -> bool {
    exists|i: int| 0 <= i < ids.len() - 1 && #[trigger] edge_index(ids, n, i) == k
}

/// The edges of a tour join distinct nodes.
proof fn lemma_tour_edge_valid(ids: Seq<i32>, n: int, i: int)
    requires
        n >= 2,
        is_tour(ids, n),
        0 <= i < n,
    ensures
        valid_pair(ids[i] as int, ids[i + 1] as int, n),
{
    if i + 1 == n {
        assert(ids[i] != ids[0]);
    } else {
        assert(ids[i] != ids[i + 1]);
    }
}

/// On three nodes or more, the `n` edges of a tour are `n` different pairs.
pub proof fn lemma_tour_edges_distinct(ids: Seq<i32>, n: int, i: int, j: int)
    requires
        n >= 3,
        is_tour(ids, n),
        0 <= i < j < n,
    ensures
        encode_spec(ids[i] as int, ids[i + 1] as int, n) != encode_spec(ids[j] as int, ids[j + 1] as int, n),
{
    lemma_tour_edge_valid(ids, n, i);
    lemma_tour_edge_valid(ids, n, j);
    if encode_spec(ids[i] as int, ids[i + 1] as int, n) == encode_spec(ids[j] as int, ids[j + 1] as int, n) {
        lemma_encode_injective(ids[i] as int, ids[i + 1] as int, ids[j] as int, ids[j + 1] as int, n);
        if ids[i] == ids[j + 1] && j + 1 == n {
            assert(ids[i] == ids[0]);
            assert(ids[1] == ids[j]);
        }
    }
}

/// Indices of the `n` edges of a closed tour, in the order in which it runs
/// them; on three nodes or more they are pairwise distinct.
pub fn tour_edge_indices(path: &AntPath, num_of_nodes: i32) -> (r: Vec<usize>)
    requires
        num_of_nodes >= 2,
        pair_count(num_of_nodes as int) <= usize::MAX,
        is_tour(path.node_ids@, num_of_nodes as int),
    ensures
        r@.len() == num_of_nodes,
        forall|i: int|
            0 <= i < num_of_nodes ==> #[trigger] r@[i] as int == encode_spec(
                path.node_ids@[i] as int,
                path.node_ids@[i + 1] as int,
                num_of_nodes as int,
            ),
        forall|i: int| 0 <= i < num_of_nodes ==> #[trigger] r@[i] < pair_count(num_of_nodes as int),
        num_of_nodes >= 3 ==> forall|i: int, j: int|
            0 <= i < j < num_of_nodes ==> #[trigger] r@[i] != #[trigger] r@[j],
{
    let ghost ids = path.node_ids@;
    let ghost n = num_of_nodes as int;
    let mut r: Vec<usize> = Vec::new();
    let mut i: usize = 0;
    while i < num_of_nodes as usize
        invariant
            ids == path.node_ids@,
            n == num_of_nodes,
            n >= 2,
            pair_count(n) <= usize::MAX,
            is_tour(ids, n),
            i <= n,
            r@.len() == i,
            forall|k: int|
                0 <= k < i ==> #[trigger] r@[k] as int == encode_spec(ids[k] as int, ids[k + 1] as int, n),
            forall|k: int| 0 <= k < i ==> #[trigger] r@[k] < pair_count(n),
        decreases n - i,
    {
        proof {
            lemma_tour_edge_valid(ids, n, i as int);
        }
        r.push(encode(path.node_ids[i], path.node_ids[i + 1], num_of_nodes));
        i = i + 1;
    }
    proof {
        if n >= 3 {
            assert forall|i: int, j: int| 0 <= i < j < n implies #[trigger] r@[i] != #[trigger] r@[j] by {
                lemma_tour_edges_distinct(ids, n, i, j);
            }
        }
    }
    r
}

/// The deposit diff of a tour: `reward` at the index of every edge the tour
/// traverses and `zero` everywhere else, over all `n * (n - 1) / 2` pairs.
pub fn deposit_diff<V: Copy>(path: &AntPath, num_of_nodes: i32, zero: V, reward: V) -> (r: Vec<V>)
    requires
        num_of_nodes >= 2,
        pair_count(num_of_nodes as int) <= usize::MAX,
        is_tour(path.node_ids@, num_of_nodes as int),
    ensures
        r@.len() == pair_count(num_of_nodes as int),
        forall|k: int|
            0 <= k < r@.len() ==> #[trigger] r@[k] == if on_tour(path.node_ids@, num_of_nodes as int, k) {
                reward
            } else {
                zero
            },
{
    let ghost ids = path.node_ids@;
    let ghost n = num_of_nodes as int;
    let edges = tour_edge_indices(path, num_of_nodes);
    let len = num_pairs(num_of_nodes);
    let mut diff: Vec<V> = Vec::new();
    while diff.len() < len
        invariant
            diff@.len() <= len,
            forall|k: int| 0 <= k < diff@.len() ==> diff@[k] == zero,
        decreases len - diff@.len(),
    {
        diff.push(zero);
    }
    let mut i: usize = 0;
    while i < edges.len()
        invariant
            ids == path.node_ids@,
            n == num_of_nodes,
            is_tour(ids, n),
            edges@.len() == n,
            forall|e: int|
                0 <= e < n ==> #[trigger] edges@[e] as int == encode_spec(ids[e] as int, ids[e + 1] as int, n),
            forall|e: int| 0 <= e < n ==> #[trigger] edges@[e] < len,
            len == pair_count(n),
            i <= n,
            diff@.len() == len,
            forall|k: int|
                0 <= k < len ==> #[trigger] diff@[k] == if exists|e: int|
                    0 <= e < i && #[trigger] edges@[e] as int == k {
                    reward
                } else {
                    zero
                },
        decreases n - i,
    {
        diff.set(edges[i], reward);
        i = i + 1;
    }
    assert forall|k: int| 0 <= k < diff@.len() implies #[trigger] diff@[k] == if on_tour(ids, n, k) {
        reward
    } else {
        zero
    } by {
        if on_tour(ids, n, k) {
            let e = choose|e: int| 0 <= e < ids.len() - 1 && #[trigger] edge_index(ids, n, e) == k;
            assert(edges@[e] as int == k);
        } else if exists|e: int| 0 <= e < n && #[trigger] edges@[e] as int == k {
            let e = choose|e: int| 0 <= e < n && #[trigger] edges@[e] as int == k;
            assert(edge_index(ids, n, e) == k);
        }
    }
    diff
}

} // verus!
