//! How one iteration's ants are drawn and spread over workers.
use vstd::prelude::*;
use vstd::arithmetic::div_mod::lemma_fundamental_div_mod_converse;
use rand::Rng;

verus! {

/// Relies on rand's `rng()` and `Rng::random_range`: a value drawn from the
/// half-open range `0..n`, which must not be empty.
#[verifier::external_body]
fn random_node(n: i32) -> (r: i32)
    requires
        n > 0,
    ensures
        0 <= r < n,
{
    rand::rng().random_range(0..n)
}

/// One start node for each of `num_of_ants` ants, each drawn uniformly from the
/// `num_of_nodes` nodes.
pub fn draw_start_nodes(num_of_ants: i32, num_of_nodes: i32) -> (r: Vec<i32>)
    requires
        num_of_nodes >= 1,
    ensures
        r@.len() == if num_of_ants > 0 { num_of_ants as int } else { 0 },
        forall|i: int| 0 <= i < r@.len() ==> 0 <= #[trigger] r@[i] < num_of_nodes,
{
    let mut r: Vec<i32> = Vec::new();
    let mut i: i32 = 0;
    while i < num_of_ants
        invariant
            num_of_nodes >= 1,
            0 <= i,
            i <= num_of_ants || i == 0,
            r@.len() == i,
            forall|k: int| 0 <= k < r@.len() ==> 0 <= #[trigger] r@[k] < num_of_nodes,
        decreases num_of_ants - i,
    {
        r.push(random_node(num_of_nodes));
        i = i + 1;
    }
    r
}

/// The ants that worker `worker` of `num_of_threads` simulates when the ants
/// `0 .. num_of_ants` are dealt round-robin: `worker`, `worker + num_of_threads`,
/// `worker + 2 * num_of_threads`, and so on, while below `num_of_ants`.
pub fn worker_ants(worker: i32, num_of_threads: i32, num_of_ants: i32) -> (r: Vec<i32>)
    requires
        0 <= worker < num_of_threads,
    ensures
        forall|k: int|
            0 <= k < r@.len() ==> #[trigger] r@[k] == worker + k * num_of_threads && r@[k] < num_of_ants,
        worker + r@.len() * num_of_threads >= num_of_ants,
{
    let mut r: Vec<i32> = Vec::new();
    let mut j: i64 = worker as i64;
    assert(j == worker + r@.len() * num_of_threads) by (nonlinear_arith)
        requires
            r@.len() == 0,
            j == worker,
    ;
    while j < num_of_ants as i64
        invariant
            0 <= worker < num_of_threads,
            j == worker + r@.len() * num_of_threads,
            j < num_of_ants + num_of_threads || j == worker,
            forall|k: int|
                0 <= k < r@.len() ==> #[trigger] r@[k] == worker + k * num_of_threads && r@[k] < num_of_ants,
        decreases num_of_ants + num_of_threads - j,
    {
        r.push(j as i32);
        proof {
            assert(worker + (r@.len() - 1) * num_of_threads + num_of_threads == worker + r@.len()
                * num_of_threads) by (nonlinear_arith);
        }
        j = j + num_of_threads as i64;
    }
    r
}

/// Round-robin dealing hands each ant to exactly one worker, at exactly one
/// position of that worker's list: ant `j` is at position `j / threads` of
/// worker `j % threads`, and nowhere else. So the workers together produce the
/// diffs of the same population as a sequential pass over all ants.
pub proof fn lemma_each_ant_once(j: int, num_of_threads: int, worker: int, k: int)
    requires
        0 <= j,
        num_of_threads > 0,
        0 <= worker < num_of_threads,
        0 <= k,
    ensures
        worker + k * num_of_threads == j <==> (worker == j % num_of_threads && k == j / num_of_threads),
{
    if worker + k * num_of_threads == j {
        lemma_fundamental_div_mod_converse(j, num_of_threads, k, worker);
    }
    if worker == j % num_of_threads && k == j / num_of_threads {
        vstd::arithmetic::div_mod::lemma_fundamental_div_mod(j, num_of_threads);
        assert(k * num_of_threads == num_of_threads * k) by (nonlinear_arith);
    }
}

} // verus!
