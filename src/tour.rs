//! Construction of one closed tour, one chosen step at a time.
use vstd::prelude::*;
use crate::graph::{UndirectedGraph, MAX_DISTANCE};

verus! {

/// A closed tour: the nodes in visiting order, the start repeated at the end,
/// and the total length in metres, closing edge included.
pub struct AntPath {
    pub node_ids: Vec<i32>,
    pub length: u64,
}

impl AntPath {
    pub fn new(node_ids: Vec<i32>, length: u64) -> (r: Self)
        ensures
            r.node_ids@ == node_ids@,
            r.length == length,
    {
        AntPath { node_ids, length }
    }
}

/// `ids` visits each of the `n` nodes exactly once and returns to its start:
/// it has `n + 1` entries, the first equals the last, and the first `n` are
/// pairwise distinct nodes that cover every node.
pub open spec fn is_tour(ids: Seq<i32>, n: int) -> bool {
    &&& ids.len() == n + 1
    &&& ids[0] == ids[n]
    &&& forall|i: int| 0 <= i < n ==> 0 <= #[trigger] ids[i] < n
    &&& forall|i: int, j: int| 0 <= i < j < n ==> #[trigger] ids[i] != #[trigger] ids[j]
    &&& forall|v: int| 0 <= v < n ==> #[trigger] ids.take(n).contains(v as i32)
}

/// Sum of the weights of the edges between consecutive entries of `ids`.
pub open spec fn path_length(g: UndirectedGraph, ids: Seq<i32>) -> int
    decreases ids.len(),
{
    if ids.len() < 2 {
        0
    } else {
        path_length(g, ids.drop_last()) + g.weight(ids[ids.len() - 2] as int, ids.last() as int)
    }
}

/// The nodes of `[0, n)` other than `start`, in increasing order.
pub open spec fn others(start: int, n: int) -> Seq<i32> {
    Seq::new((n - 1) as nat, |i: int| if i < start { i as i32 } else { (i + 1) as i32 })
}

/// A tour under construction: the nodes visited so far, starting at `start`,
/// and the nodes still to visit, in the order in which they are offered.
pub struct AntWalk {
    n: i32,
    visited: Vec<i32>,
    to_visit: Vec<i32>,
    length: u64,
}

impl AntWalk {
    pub closed spec fn visited(&self) -> Seq<i32> {
        self.visited@
    }

    pub closed spec fn unvisited(&self) -> Seq<i32> {
        self.to_visit@
    }

    pub closed spec fn length(&self) -> int {
        self.length as int
    }

    pub closed spec fn wf(&self, g: UndirectedGraph) -> bool {
        &&& g.wf()
        &&& self.n as int == g.n()
        &&& self.n >= 2
        &&& self.visited@.len() >= 1
        &&& self.visited@.len() + self.to_visit@.len() == self.n
        &&& forall|i: int| 0 <= i < self.visited@.len() ==> 0 <= #[trigger] self.visited@[i] < self.n
        &&& forall|i: int| 0 <= i < self.to_visit@.len() ==> 0 <= #[trigger] self.to_visit@[i] < self.n
        &&& forall|i: int, j: int|
            0 <= i < j < self.visited@.len() ==> #[trigger] self.visited@[i] != #[trigger] self.visited@[j]
        &&& forall|i: int, j: int|
            0 <= i < j < self.to_visit@.len() ==> #[trigger] self.to_visit@[i] != #[trigger] self.to_visit@[j]
        &&& forall|i: int, j: int|
            0 <= i < self.visited@.len() && 0 <= j < self.to_visit@.len() ==> #[trigger] self.visited@[i]
                != #[trigger] self.to_visit@[j]
        &&& forall|v: int|
            0 <= v < self.n ==> #[trigger] self.visited@.contains(v as i32) || self.to_visit@.contains(v as i32)
        &&& self.length as int == path_length(g, self.visited@)
        &&& self.length <= (self.visited@.len() - 1) * MAX_DISTANCE
    }

    /// A walk of an ant that starts at `start_id`: nothing visited but the start,
    /// every other node still to visit, in increasing order.
    pub fn new(g: &UndirectedGraph, start_id: i32) -> (r: Self)
        requires
            g.wf(),
            g.n() >= 2,
            0 <= start_id < g.n(),
        ensures
            r.wf(*g),
            r.visited() == seq![start_id],
            r.unvisited() == others(start_id as int, g.n()),
            r.length() == 0,
    {
        proof {
            g.lemma_wf();
        }
        let n = g.num_of_nodes() as i32;
        let mut to_visit: Vec<i32> = Vec::new();
        let mut v: i32 = 0;
        while v < n
            invariant
                0 <= v <= n,
                n as int == g.n(),
                0 <= start_id < n,
                to_visit@ =~= others(start_id as int, g.n()).take(if v <= start_id { v as int } else { v - 1 }),
            decreases n - v,
        {
            if v != start_id {
                to_visit.push(v);
            }
            v = v + 1;
        }
        assert(to_visit@ =~= others(start_id as int, g.n()));
        let mut visited: Vec<i32> = Vec::new();
        visited.push(start_id);
        let r = AntWalk { n, visited, to_visit, length: 0 };
        assert forall|x: int| 0 <= x < n implies #[trigger] r.visited@.contains(x as i32)
            || r.to_visit@.contains(x as i32) by {
            if x == start_id {
                assert(r.visited@[0] == x as i32);
            } else if x < start_id {
                assert(r.to_visit@[x] == x as i32);
            } else {
                assert(r.to_visit@[x - 1] == x as i32);
            }
        }
        r
    }

    /// The node the ant stands on.
    pub fn current(&self) -> (r: i32)
        requires
            self.visited().len() >= 1,
        ensures
            r == self.visited().last(),
    {
        self.visited[self.visited.len() - 1]
    }

    /// The nodes still to visit; a step names one of them by its position here.
    pub fn candidates(&self) -> (r: &Vec<i32>)
        ensures
            r@ == self.unvisited(),
    {
        &self.to_visit
    }

    /// `true` once every node has been visited.
    pub fn is_complete(&self) -> (r: bool)
        ensures
            r == (self.unvisited().len() == 0),
    {
        self.to_visit.len() == 0
    }

    /// Moves the ant to the candidate at position `index`.
    pub fn step(&mut self, g: &UndirectedGraph, index: usize)
        requires
            old(self).wf(*g),
            index < old(self).unvisited().len(),
        ensures
            final(self).wf(*g),
            final(self).visited() == old(self).visited().push(old(self).unvisited()[index as int]),
            final(self).unvisited() == old(self).unvisited().remove(index as int),
            final(self).length() == old(self).length() + g.weight(
                old(self).visited().last() as int,
                old(self).unvisited()[index as int] as int,
            ),
    {
        let ghost old_visited = self.visited@;
        let ghost old_to_visit = self.to_visit@;
        let current = self.current();
        let next = self.to_visit[index];
        assert(old_visited[old_visited.len() - 1] != next);
        let w = g.get_edge_value(current, next);
        let k = self.visited.len();
        assert(self.length + w <= k * MAX_DISTANCE) by (nonlinear_arith)
            requires
                self.length <= (k - 1) * MAX_DISTANCE,
                w <= MAX_DISTANCE,
        ;
        assert(k * MAX_DISTANCE <= 0x8000_0000 * 0x8000_0000) by (nonlinear_arith)
            requires
                k <= 0x8000_0000,
        ;
        self.length = self.length + w;
        self.to_visit.remove(index);
        self.visited.push(next);
        proof {
            let nv = self.visited@;
            let nt = self.to_visit@;
            assert(nv.drop_last() =~= old_visited);
            assert forall|i: int, j: int| 0 <= i < j < nv.len() implies #[trigger] nv[i] != #[trigger] nv[j] by {
                if j == nv.len() - 1 {
                    assert(old_to_visit[index as int] == next);
                }
            }
            assert forall|i: int, j: int| 0 <= i < nv.len() && 0 <= j < nt.len() implies #[trigger] nv[i]
                != #[trigger] nt[j] by {
                if j < index {
                    assert(nt[j] == old_to_visit[j]);
                } else {
                    assert(nt[j] == old_to_visit[j + 1]);
                }
            }
            assert forall|v: int| 0 <= v < self.n implies #[trigger] nv.contains(v as i32) || nt.contains(
                v as i32,
            ) by {
                if old_visited.contains(v as i32) {
                    let i = choose|i: int| 0 <= i < old_visited.len() && old_visited[i] == v as i32;
                    assert(nv[i] == v as i32);
                } else {
                    let j = choose|j: int| 0 <= j < old_to_visit.len() && old_to_visit[j] == v as i32;
                    if j < index {
                        assert(nt[j] == v as i32);
                    } else if j == index {
                        assert(nv[nv.len() - 1] == v as i32);
                    } else {
                        assert(nt[j - 1] == v as i32);
                    }
                }
            }
        }
    }

    /// Closes the walk with the edge back to the start and returns the tour.
    pub fn finish(self, g: &UndirectedGraph) -> (r: AntPath)
        requires
            self.wf(*g),
            self.unvisited().len() == 0,
        ensures
            r.node_ids@ == self.visited().push(self.visited()[0]),
            is_tour(r.node_ids@, g.n()),
            r.length as int == path_length(*g, r.node_ids@),
    {
        let ghost old_visited = self.visited@;
        let AntWalk { n, mut visited, to_visit, mut length } = self;
        let start = visited[0];
        let last = visited[visited.len() - 1];
        assert(old_visited[0] != old_visited[old_visited.len() - 1]);
        let w = g.get_edge_value(last, start);
        let k = visited.len();
        assert(length + w <= k * MAX_DISTANCE) by (nonlinear_arith)
            requires
                length <= (k - 1) * MAX_DISTANCE,
                w <= MAX_DISTANCE,
        ;
        assert(k * MAX_DISTANCE <= 0x8000_0000 * 0x8000_0000) by (nonlinear_arith)
            requires
                k <= 0x8000_0000,
        ;
        length = length + w;
        visited.push(start);
        proof {
            let ids = visited@;
            assert(ids.drop_last() =~= old_visited);
            assert(ids.take(n as int) =~= old_visited);
        }
        AntPath::new(visited, length)
    }
}

/// Position of the first largest of `keys`: every key is at most the chosen
/// one, and every key before it is strictly smaller, so ties go to the
/// earliest candidate.
pub fn strongest_candidate(keys: &Vec<u64>) -> (r: usize)
    requires
        keys@.len() > 0,
    ensures
        r < keys@.len(),
        forall|i: int| 0 <= i < keys@.len() ==> #[trigger] keys@[i] <= keys@[r as int],
        forall|i: int| 0 <= i < r ==> #[trigger] keys@[i] < keys@[r as int],
{
    let mut best: usize = 0;
    let mut i: usize = 1;
    while i < keys.len()
        invariant
            keys@.len() > 0,
            best < i <= keys@.len(),
            forall|j: int| 0 <= j < i ==> #[trigger] keys@[j] <= keys@[best as int],
            forall|j: int| 0 <= j < best ==> #[trigger] keys@[j] < keys@[best as int],
        decreases keys@.len() - i,
    {
        if keys[i] > keys[best] {
            best = i;
        }
        i = i + 1;
    }
    best
}

} // verus!
