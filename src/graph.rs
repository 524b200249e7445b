//! The immutable, symmetric edge-weight table of a complete graph.
use vstd::prelude::*;
use crate::record::{parse_record, record_spec};
use crate::pair::{
    encode, encode_spec, lemma_encode_in_range, lemma_encode_symmetric, num_pairs, pair_count, valid_pair,
};

verus! {

/// Largest distance, in metres, that an edge can carry.
pub const MAX_DISTANCE: u64 = 2147483647;

/// A complete undirected graph whose edge weights are distances in metres, one
/// per unordered pair of nodes, stored at the pair's triangular index.
/// Node labels get dense indices in order of first appearance.
pub struct UndirectedGraph {
    num_of_nodes: usize,
    edge_values: Vec<u64>,
    labels: Vec<String>,
}

/// Why a graph could not be built.
#[derive(Debug, Clone, Copy, PartialEq, Eq, Structural)]
pub enum LoadError {
    /// A record has fewer than five fields.
    MissingField,
    /// The distance field is not a decimal number of at most `MAX_DISTANCE`.
    InvalidDistance,
    /// A record joins a node to itself.
    SelfLoop,
    /// The records name more distinct nodes than the graph holds.
    TooManyNodes,
}

/// `labels` after `name` is looked up in it: unchanged when it holds `name`,
/// `name` appended when there is room for one more of the `n` nodes, `None`
/// when there is not.
pub open spec fn intern(labels: Seq<Seq<char>>, name: Seq<char>, n: int) -> Option<Seq<Seq<char>>> {
    if labels.contains(name) {
        Some(labels)
    } else if labels.len() < n {
        Some(labels.push(name))
    } else {
        None
    }
}

/// The index of the node labelled `name`.
pub open spec fn label_index(labels: Seq<Seq<char>>, name: Seq<char>) -> int {
    choose|i: int| 0 <= i < labels.len() && labels[i] == name
}

/// Labels and weights after an edge of `meters` between the nodes labelled
/// `a` and `b` is recorded, or why it cannot be.
pub open spec fn edge_update(
    labels: Seq<Seq<char>>,
    weights: Seq<u64>,
    a: Seq<char>,
    b: Seq<char>,
    meters: int,
    n: int,
) -> Result<(Seq<Seq<char>>, Seq<u64>), LoadError> {
    match intern(labels, a, n) {
        None => Err(LoadError::TooManyNodes),
        Some(l1) => match intern(l1, b, n) {
            None => Err(LoadError::TooManyNodes),
            Some(l2) => if a == b {
                Err(LoadError::SelfLoop)
            } else {
                Ok(
                    (
                        l2,
                        weights.update(
                            encode_spec(label_index(l2, a), label_index(l2, b), n),
                            meters as u64,
                        ),
                    ),
                )
            },
        },
    }
}

/// Labels and weights of a graph of `n` nodes built from the record lines
/// `lines`, in order, or the first reason one of them cannot be used.
pub open spec fn load_spec(lines: Seq<Seq<char>>, n: int) -> Result<(Seq<Seq<char>>, Seq<u64>), LoadError>
    decreases lines.len(),
{
    if lines.len() == 0 {
        Ok((Seq::empty(), Seq::new(pair_count(n) as nat, |i: int| 0u64)))
    } else {
        match load_spec(lines.drop_last(), n) {
            Err(e) => Err(e),
            Ok((l, w)) => match record_spec(lines.last()) {
                Err(e) => Err(e),
                Ok((a, b, d)) => edge_update(l, w, a, b, d, n),
            },
        }
    }
}

proof fn lemma_label_index(labels: Seq<Seq<char>>, name: Seq<char>, i: int)
    requires
        0 <= i < labels.len(),
        labels[i] == name,
        forall|p: int, q: int| 0 <= p < q < labels.len() ==> #[trigger] labels[p] != #[trigger] labels[q],
    ensures
        label_index(labels, name) == i,
{
    let j = label_index(labels, name);
    if j < i {
        assert(labels[j] != labels[i]);
    } else if i < j {
        assert(labels[i] != labels[j]);
    }
}

impl UndirectedGraph {
    /// Indices of nodes stay valid `i32` values and the table fits in memory.
    pub open spec fn size_ok(n: int) -> bool {
        1 <= n <= i32::MAX && pair_count(n) <= usize::MAX
    }

    pub closed spec fn weights(&self) -> Seq<u64> {
        self.edge_values@
    }

    /// The labels seen so far; the label of node `i` is `labels()[i]`.
    pub closed spec fn labels(&self) -> Seq<Seq<char>> {
        self.labels@.map_values(|s: String| s@)
    }

    /// Number of nodes.
    pub closed spec fn n(&self) -> int {
        self.num_of_nodes as int
    }

    /// Weight of the edge between `a` and `b`.
    pub open spec fn weight(&self, a: int, b: int) -> int {
        self.weights()[encode_spec(a, b, self.n())] as int
    }

    pub closed spec fn wf(&self) -> bool {
        &&& Self::size_ok(self.num_of_nodes as int)
        &&& self.edge_values@.len() == pair_count(self.num_of_nodes as int)
        &&& self.labels@.len() <= self.num_of_nodes
        &&& forall|i: int| 0 <= i < self.edge_values@.len() ==> #[trigger] self.edge_values@[i] <= MAX_DISTANCE
        &&& forall|i: int, j: int|
            0 <= i < j < self.labels@.len() ==> #[trigger] self.labels@[i]@ != #[trigger] self.labels@[j]@
    }

    /// Facts about a well-formed graph that its users rely on.
    pub proof fn lemma_wf(&self)
        requires
            self.wf(),
        ensures
            Self::size_ok(self.n()),
            self.weights().len() == pair_count(self.n()),
            self.labels().len() <= self.n(),
            forall|a: int, b: int| valid_pair(a, b, self.n()) ==> #[trigger] self.weight(a, b) <= MAX_DISTANCE,
            forall|i: int, j: int|
                0 <= i < j < self.labels().len() ==> #[trigger] self.labels()[i] != #[trigger] self.labels()[j],
    {
        assert forall|a: int, b: int| valid_pair(a, b, self.n()) implies #[trigger] self.weight(a, b) <= MAX_DISTANCE by {
            lemma_encode_in_range(a, b, self.n());
        }
    }

    /// The weight between two nodes does not depend on the direction.
    pub proof fn lemma_weight_symmetric(&self, a: int, b: int)
        requires
            valid_pair(a, b, self.n()),
        ensures
            self.weight(a, b) == self.weight(b, a),
    {
        lemma_encode_symmetric(a, b, self.n());
    }

    /// A graph of `num_of_nodes` nodes with every weight zero and no labels.
    pub fn new(num_of_nodes: usize) -> (r: Self)
        requires
            Self::size_ok(num_of_nodes as int),
        ensures
            r.wf(),
            r.n() == num_of_nodes,
            r.labels().len() == 0,
            forall|i: int| 0 <= i < r.weights().len() ==> r.weights()[i] == 0,
    {
        let len = num_pairs(num_of_nodes as i32);
        let mut edge_values: Vec<u64> = Vec::new();
        while edge_values.len() < len
            invariant
                edge_values@.len() <= len,
                forall|i: int| 0 <= i < edge_values@.len() ==> edge_values@[i] == 0,
            decreases len - edge_values@.len(),
        {
            edge_values.push(0);
        }
        let r = UndirectedGraph { num_of_nodes, edge_values, labels: Vec::new() };
        assert(r.labels() =~= Seq::<Seq<char>>::empty());
        r
    }

    /// Weight, in metres, of the edge between nodes `a` and `b`.
    pub fn get_edge_value(&self, a: i32, b: i32) -> (r: u64)
        requires
            self.wf(),
            valid_pair(a as int, b as int, self.n()),
        ensures
            r as int == self.weight(a as int, b as int),
            r <= MAX_DISTANCE,
    {
        proof {
            self.lemma_wf();
        }
        self.edge_values[encode(a, b, self.num_of_nodes as i32)]
    }

    /// The label of node `node_idx`.
    pub fn get_name(&self, node_idx: i32) -> (r: String)
        requires
            self.wf(),
            0 <= node_idx < self.labels().len(),
        ensures
            r@ == self.labels()[node_idx as int],
    {
        self.labels[node_idx as usize].clone()
    }

    /// Number of nodes.
    pub fn num_of_nodes(&self) -> (r: usize)
        ensures
            r == self.n(),
    {
        self.num_of_nodes
    }

    /// Number of labels seen so far.
    pub fn label_count(&self) -> (r: usize)
        ensures
            r == self.labels().len(),
    {
        self.labels.len()
    }

    /// Index of `node_name`, which is given the next free index when it is new.
    /// `None` when it is new and every index is taken.
    fn get_idx(&mut self, node_name: &str) -> (r: Option<i32>)
        requires
            old(self).wf(),
        ensures
            final(self).wf(),
            final(self).n() == old(self).n(),
            final(self).weights() == old(self).weights(),
            old(self).labels().contains(node_name@) ==> final(self).labels() == old(self).labels(),
            !old(self).labels().contains(node_name@) && old(self).labels().len() < old(self).n()
                ==> final(self).labels() == old(self).labels().push(node_name@),
            !old(self).labels().contains(node_name@) && old(self).labels().len() == old(self).n()
                ==> final(self).labels() == old(self).labels(),
            r is None <==> (!old(self).labels().contains(node_name@) && old(self).labels().len()
                == old(self).n()),
            r matches Some(i) ==> 0 <= i < final(self).labels().len() && final(self).labels()[i as int]
                == node_name@,
    {
        let name = node_name.to_owned();
        let mut i: usize = 0;
        while i < self.labels.len()
            invariant
                self.wf(),
                name@ == node_name@,
                i <= self.labels@.len(),
                forall|j: int| 0 <= j < i ==> self.labels@[j]@ != node_name@,
            decreases self.labels@.len() - i,
        {
            if self.labels[i] == name {
                assert(self.labels()[i as int] == node_name@);
                return Some(i as i32);
            }
            i = i + 1;
        }
        assert(!self.labels().contains(node_name@)) by {
            if self.labels().contains(node_name@) {
                let k = choose|k: int| 0 <= k < self.labels().len() && self.labels()[k] == node_name@;
                assert(self.labels@[k]@ == node_name@);
            }
        }
        if self.labels.len() < self.num_of_nodes {
            let idx = self.labels.len();
            self.labels.push(name);
            assert(self.labels() =~= old(self).labels().push(node_name@));
            Some(idx as i32)
        } else {
            None
        }
    }

    /// Records an edge of `val` metres between the nodes labelled `edge1` and
    /// `edge2`, giving new labels the next free indices.
    fn add_edge(&mut self, edge1: &str, edge2: &str, val: u64) -> (r: Result<(), LoadError>)
        requires
            old(self).wf(),
            val <= MAX_DISTANCE,
        ensures
            final(self).wf(),
            final(self).n() == old(self).n(),
            match edge_update(old(self).labels(), old(self).weights(), edge1@, edge2@, val as int, old(self).n()) {
                Ok((l, w)) => r is Ok && final(self).labels() == l && final(self).weights() == w,
                Err(e) => r == Err::<(), LoadError>(e),
            },
    {
        let e1 = match self.get_idx(edge1) {
            Some(i) => i,
            None => {
                return Err(LoadError::TooManyNodes);
            },
        };
        let e2 = match self.get_idx(edge2) {
            Some(i) => i,
            None => {
                return Err(LoadError::TooManyNodes);
            },
        };
        proof {
            self.lemma_wf();
            lemma_label_index(self.labels(), edge1@, e1 as int);
            lemma_label_index(self.labels(), edge2@, e2 as int);
        }
        if e1 == e2 {
            return Err(LoadError::SelfLoop);
        }
        proof {
            lemma_encode_in_range(e1 as int, e2 as int, self.n());
        }
        let k = encode(e1, e2, self.num_of_nodes as i32);
        self.edge_values.set(k, val);
        Ok(())
    }

    /// Builds a graph of `num_of_nodes` nodes from record lines, one edge per
    /// line; a later record of the same pair replaces an earlier one.
    pub fn load_graph(lines: &Vec<&str>, num_of_nodes: i32) -> (r: Result<Self, LoadError>)
        requires
            Self::size_ok(num_of_nodes as int),
        ensures
            match load_spec(lines@.map_values(|s: &str| s@), num_of_nodes as int) {
                Ok((l, w)) => r matches Ok(g) && g.wf() && g.n() == num_of_nodes && g.labels() == l
                    && g.weights() == w,
                Err(e) => r matches Err(x) && x == e,
            },
    {
        let ghost all = lines@.map_values(|s: &str| s@);
        let mut result = Self::new(num_of_nodes as usize);
        assert(result.weights() =~= Seq::new(pair_count(num_of_nodes as int) as nat, |i: int| 0u64));
        assert(result.labels() =~= Seq::<Seq<char>>::empty());
        assert(all.take(0).len() == 0);
        let mut i: usize = 0;
        while i < lines.len()
            invariant
                all == lines@.map_values(|s: &str| s@),
                i <= lines@.len(),
                result.wf(),
                result.n() == num_of_nodes,
                load_spec(all.take(i as int), num_of_nodes as int) == Ok::<
                    (Seq<Seq<char>>, Seq<u64>),
                    LoadError,
                >((result.labels(), result.weights())),
            decreases lines@.len() - i,
        {
            assert(all.take(i + 1).drop_last() =~= all.take(i as int));
            let rec = match parse_record(lines[i]) {
                Ok(rec) => rec,
                Err(e) => {
                    proof {
                        lemma_load_stays_failed(all, num_of_nodes as int, i as int + 1, e);
                    }
                    return Err(e);
                },
            };
            match result.add_edge(rec.origin.as_str(), rec.destination.as_str(), rec.meters) {
                Ok(()) => {},
                Err(e) => {
                    proof {
                        lemma_load_stays_failed(all, num_of_nodes as int, i as int + 1, e);
                    }
                    return Err(e);
                },
            }
            i = i + 1;
        }
        assert(all.take(i as int) =~= all);
        Ok(result)
    }
}

/// Once a line fails, the whole load fails with its reason.
proof fn lemma_load_stays_failed(lines: Seq<Seq<char>>, n: int, i: int, e: LoadError)
    requires
        0 <= i <= lines.len(),
        load_spec(lines.take(i), n) == Err::<(Seq<Seq<char>>, Seq<u64>), LoadError>(e),
    ensures
        load_spec(lines, n) == Err::<(Seq<Seq<char>>, Seq<u64>), LoadError>(e),
    decreases lines.len() - i,
{
    if i < lines.len() {
        assert(lines.take(i + 1).drop_last() =~= lines.take(i));
        lemma_load_stays_failed(lines, n, i + 1, e);
    } else {
        assert(lines.take(i) =~= lines);
    }
}

} // verus!
