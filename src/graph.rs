//! Flattened, offset-indexed adjacency representation of a weighted graph.
use vstd::prelude::*;

verus! {

/// Compact graph: for node `n`, the slots `offsets[n] .. offsets[n + 1]` of
/// `edges_and_distances` hold interleaved `(neighbor, weight)` pairs.
pub struct AdjacencyArray {
    edges_and_distances_offsets: Vec<u32>,
    edges_and_distances: Vec<u32>,
}

impl AdjacencyArray {
    /// The offsets array, of length `node_count + 1`.
    pub closed spec fn offsets(&self) -> Seq<u32> {
        self.edges_and_distances_offsets@
    }

    /// The flat array of interleaved neighbor ids and weights.
    pub closed spec fn flat(&self) -> Seq<u32> {
        self.edges_and_distances@
    }

    pub open spec fn node_count(&self) -> int {
        self.offsets().len() - 1
    }

    /// Offsets start at 0, never decrease, are even and end at the length
    /// of the flat array; every neighbor id names a node.
    pub open spec fn wf(&self) -> bool {
        let o = self.offsets();
        let a = self.flat();
        &&& 1 <= o.len() <= u32::MAX
        &&& o[0] == 0
        &&& o.last() == a.len()
        &&& forall|i: int, j: int| 0 <= i <= j < o.len() ==> o[i] <= o[j]
        &&& forall|i: int| 0 <= i < o.len() ==> #[trigger] o[i] % 2 == 0
        &&& forall|i: int| 0 <= i < a.len() && i % 2 == 0 ==> #[trigger] a[i] < self.node_count()
    }

    /// Slot `i` of the flat array starts a `(neighbor, weight)` pair of node `u`.
    pub open spec fn slot(&self, u: int, i: int) -> bool {
        &&& 0 <= u < self.node_count()
        &&& self.offsets()[u] <= i
        &&& i + 1 < self.offsets()[u + 1]
        &&& i % 2 == 0
    }

    /// The graph holds an edge from `u` to `v` of weight `w`.
    pub open spec fn has_edge(&self, u: int, v: int, w: int) -> bool {
        exists|i: int|
            #[trigger] self.slot(u, i) && self.flat()[i] == v && self.flat()[i + 1] == w
    }

    pub fn new(edges_and_distances_offsets: Vec<u32>, edges_and_distances: Vec<u32>) -> (r: AdjacencyArray)
        ensures
            r.offsets() == edges_and_distances_offsets@,
            r.flat() == edges_and_distances@,
    {
        AdjacencyArray { edges_and_distances_offsets, edges_and_distances }
    }

    pub fn edges_and_distances_offsets(&self) -> (r: &Vec<u32>)
        ensures
            r@ == self.offsets(),
    {
        &self.edges_and_distances_offsets
    }

    pub fn edges_and_distances(&self) -> (r: &Vec<u32>)
        ensures
            r@ == self.flat(),
    {
        &self.edges_and_distances
    }

    /// The `(neighbor, weight)` pairs of `node`, interleaved.
    pub fn get_neighbors_of_node_and_distances(&self, node: u32) -> (r: &[u32])
        requires
            self.wf(),
            node < self.node_count(),
        ensures
            r@ == self.flat().subrange(
                self.offsets()[node as int] as int,
                self.offsets()[node + 1] as int,
            ),
    {
        let start = self.edges_and_distances_offsets[node as usize] as usize;
        let end = self.edges_and_distances_offsets[node as usize + 1] as usize;
        vstd::slice::slice_subrange(self.edges_and_distances.as_slice(), start, end)
    }

    pub fn get_nodes_count(&self) -> (r: u32)
        requires
            self.wf(),
        ensures
            r == self.node_count(),
    {
        (self.edges_and_distances_offsets.len() - 1) as u32
    }

    /// Whether the arrays form a well-formed graph.
    pub fn is_well_formed(&self) -> (r: bool)
        ensures
            r == self.wf(),
    {
        let o = &self.edges_and_distances_offsets;
        let a = &self.edges_and_distances;
        if o.len() == 0 || o.len() > 4294967295 {
            return false;
        }
        if o[0] != 0 || o[o.len() - 1] as usize != a.len() {
            return false;
        }
        let n = o.len() - 1;
        let mut k: usize = 0;
        while k < o.len()
            invariant
                o == &self.edges_and_distances_offsets,
                1 <= o@.len() <= u32::MAX,
                k <= o@.len(),
                forall|i: int, j: int| 0 <= i <= j < k ==> o@[i] <= o@[j],
                forall|i: int| 0 <= i < k ==> #[trigger] o@[i] % 2 == 0,
            decreases o@.len() - k,
        {
            if o[k] % 2 != 0 {
                return false;
            }
            if k > 0 && o[k - 1] > o[k] {
                assert(!(forall|i: int, j: int| 0 <= i <= j < o@.len() ==> o@[i] <= o@[j])) by {
                    assert(o@[k - 1] > o@[k as int]);
                }
                return false;
            }
            proof {
                assert forall|i: int, j: int| 0 <= i <= j < k + 1 implies o@[i] <= o@[j] by {
                    if j == k && i < k {
                        assert(o@[i] <= o@[k - 1]);
                    }
                }
            }
            k += 1;
        }
        let mut i: usize = 0;
        while i < a.len()
            invariant
                a == &self.edges_and_distances,
                n == self.node_count(),
                i <= a@.len(),
                i % 2 == 0 || i == a@.len(),
                forall|j: int| 0 <= j < i && j % 2 == 0 ==> #[trigger] a@[j] < n,
            decreases a@.len() - i,
        {
            if a[i] as usize >= n {
                return false;
            }
            if a.len() - i < 2 {
                i = a.len();
            } else {
                i += 2;
            }
        }
        true
    }

    /// Start and end slot of the pairs of `node`.
    pub fn neighbor_range(&self, node: u32) -> (r: (usize, usize))
        requires
            self.wf(),
            node < self.node_count(),
        ensures
            r.0 == self.offsets()[node as int],
            r.1 == self.offsets()[node + 1],
            r.0 <= r.1 <= self.flat().len(),
    {
        let start = self.edges_and_distances_offsets[node as usize] as usize;
        let end = self.edges_and_distances_offsets[node as usize + 1] as usize;
        (start, end)
    }

    /// Entry `i` of the flat array.
    pub fn flat_at(&self, i: usize) -> (r: u32)
        requires
            i < self.flat().len(),
        ensures
            r == self.flat()[i as int],
    {
        self.edges_and_distances[i]
    }
}


/// The edge list holds an edge from `u` to `v` of weight `w`.
pub open spec fn listed(edges: Seq<(u32, u32, u32)>, u: int, v: int, w: int) -> bool {
    exists|k: int| 0 <= k < edges.len() && #[trigger] edges[k] == (u as u32, v as u32, w as u32) && 0 <= u <= u32::MAX
        && 0 <= v <= u32::MAX && 0 <= w <= u32::MAX
}

impl AdjacencyArray {
    /// Groups the edges `(source, target, weight)` by source node.
    pub fn from_edges(node_count: u32, edges: &Vec<(u32, u32, u32)>) -> (r: AdjacencyArray)
        requires
            node_count < u32::MAX,
            2 * edges@.len() <= u32::MAX,
            forall|k: int| 0 <= k < edges@.len() ==> (#[trigger] edges@[k]).0 < node_count && edges@[k].1 < node_count,
        ensures
            r.wf(),
            r.node_count() == node_count,
            forall|u: int, v: int, w: int| #[trigger] r.has_edge(u, v, w) <==> listed(edges@, u, v, w),
    {
        let ghost e = edges@;
        let ne = edges.len();
        let mut offsets: Vec<u32> = vec![0];
        let mut flat: Vec<u32> = Vec::new();
        let ghost mut origin: Seq<int> = seq![];
        let ghost mut pos: Seq<int> = Seq::new(ne as nat, |k: int| 0int);
        let mut u: u32 = 0;
        while u < node_count
            invariant
                e == edges@,
                ne == e.len(),
                2 * ne <= u32::MAX,
                u <= node_count,
                forall|k: int| 0 <= k < e.len() ==> (#[trigger] e[k]).0 < node_count && e[k].1 < node_count,
                offsets@.len() == u + 1,
                offsets@[0] == 0,
                offsets@.last() == flat@.len(),
                forall|i: int, j: int| 0 <= i <= j < offsets@.len() ==> offsets@[i] <= offsets@[j],
                forall|i: int| 0 <= i < offsets@.len() ==> #[trigger] offsets@[i] % 2 == 0,
                flat@.len() == 2 * origin.len(),
                origin.len() <= ne,
                origin.no_duplicates(),
                pos.len() == ne,
                forall|p: int| 0 <= p < origin.len() ==> {
                    let k = #[trigger] origin[p];
                    &&& 0 <= k < ne
                    &&& flat@[2 * p] == e[k].1
                    &&& flat@[2 * p + 1] == e[k].2
                    &&& e[k].0 < u
                    &&& offsets@[e[k].0 as int] <= 2 * p < offsets@[e[k].0 + 1]
                },
                forall|k: int| 0 <= k < ne && (#[trigger] e[k]).0 < u ==> 0 <= pos[k] < origin.len() && origin[pos[k]] == k,
            decreases node_count - u,
        {
            let start = flat.len();
            let mut k: usize = 0;
            while k < ne
                invariant
                    e == edges@,
                    ne == e.len(),
                    2 * ne <= u32::MAX,
                    u < node_count,
                    k <= ne,
                    forall|k2: int| 0 <= k2 < e.len() ==> (#[trigger] e[k2]).0 < node_count && e[k2].1 < node_count,
                    offsets@.len() == u + 1,
                    offsets@[0] == 0,
                    offsets@.last() == start,
                    start <= flat@.len(),
                    forall|i: int, j: int| 0 <= i <= j < offsets@.len() ==> offsets@[i] <= offsets@[j],
                    forall|i: int| 0 <= i < offsets@.len() ==> #[trigger] offsets@[i] % 2 == 0,
                    flat@.len() == 2 * origin.len(),
                    origin.len() <= ne,
                    origin.no_duplicates(),
                    pos.len() == ne,
                    forall|p: int| 0 <= p < origin.len() ==> {
                        let k2 = #[trigger] origin[p];
                        &&& 0 <= k2 < ne
                        &&& flat@[2 * p] == e[k2].1
                        &&& flat@[2 * p + 1] == e[k2].2
                        &&& 2 * p < start ==> e[k2].0 < u && offsets@[e[k2].0 as int] <= 2 * p < offsets@[e[k2].0 + 1]
                        &&& 2 * p >= start ==> e[k2].0 == u && k2 < k
                    },
                    forall|k2: int|
                        0 <= k2 < ne && ((#[trigger] e[k2]).0 < u || (e[k2].0 == u && k2 < k)) ==> 0 <= pos[k2] < origin.len()
                            && origin[pos[k2]] == k2,
                decreases ne - k,
            {
                let (src, dst, w) = edges[k];
                if src == u {
                    proof {
                        assert(!origin.contains(k as int)) by {
                            if origin.contains(k as int) {
                                let p = choose|p: int| 0 <= p < origin.len() && origin[p] == k;
                                assert(origin[p] == k);
                            }
                        }
                        let no = origin.push(k as int);
                        assert forall|a: int, b: int| 0 <= a < b < no.len() implies no[a] != no[b] by {
                            if b == origin.len() {
                                assert(no[a] == origin[a]);
                                assert(origin.contains(no[a]));
                            } else {
                                assert(no[a] == origin[a] && no[b] == origin[b]);
                            }
                        }
                        vstd::set_lib::lemma_int_range(0, ne as int);
                        assert(no.to_set().subset_of(vstd::set_lib::set_int_range(0, ne as int)));
                        vstd::set_lib::lemma_len_subset(no.to_set(), vstd::set_lib::set_int_range(0, ne as int));
                        no.unique_seq_to_set();
                        pos = pos.update(k as int, origin.len() as int);
                        origin = no;
                    }
                    flat.push(dst);
                    flat.push(w);
                }
                k += 1;
            }
            let ghost before = offsets@;
            offsets.push(flat.len() as u32);
            proof {
                assert forall|i: int, j: int| 0 <= i <= j < offsets@.len() implies offsets@[i] <= offsets@[j] by {
                    if j < before.len() {
                        assert(offsets@[i] == before[i] && offsets@[j] == before[j]);
                    } else if i < before.len() {
                        assert(before[i] <= before[before.len() - 1]);
                    }
                }
                assert forall|i: int| 0 <= i < offsets@.len() implies #[trigger] offsets@[i] % 2 == 0 by {
                    if i < before.len() {
                        assert(offsets@[i] == before[i]);
                    }
                }
                assert forall|p: int| 0 <= p < origin.len() implies {
                    let k2 = #[trigger] origin[p];
                    offsets@[e[k2].0 as int] <= 2 * p < offsets@[e[k2].0 + 1]
                } by {
                    let k2 = origin[p];
                    if 2 * p < start {
                        assert(offsets@[e[k2].0 as int] == before[e[k2].0 as int]);
                        assert(offsets@[e[k2].0 + 1] == before[e[k2].0 + 1]);
                    }
                }
            }
            u += 1;
        }
        let r = AdjacencyArray { edges_and_distances_offsets: offsets, edges_and_distances: flat };
        proof {
            let o = r.offsets();
            let a = r.flat();
            assert forall|i: int| 0 <= i < a.len() && i % 2 == 0 implies #[trigger] a[i] < r.node_count() by {
                let p = i / 2;
                assert(2 * p == i);
                assert(0 <= origin[p] < ne);
            }
            assert forall|x: int, v: int, w: int| #[trigger] r.has_edge(x, v, w) implies listed(e, x, v, w) by {
                let i = choose|i: int| #[trigger] r.slot(x, i) && a[i] == v && a[i + 1] == w;
                let p = i / 2;
                assert(2 * p == i);
                let k = origin[p];
                let src = e[k].0 as int;
                assert(o[src] <= 2 * p < o[src + 1]);
                if src < x {
                    assert(o[src + 1] <= o[x]);
                } else if src > x {
                    assert(o[x + 1] <= o[src]);
                }
                assert(e[k] == (x as u32, v as u32, w as u32));
            }
            assert forall|x: int, v: int, w: int| listed(e, x, v, w) implies #[trigger] r.has_edge(x, v, w) by {
                let k = choose|k: int| 0 <= k < e.len() && #[trigger] e[k] == (x as u32, v as u32, w as u32) && 0 <= x <= u32::MAX
                    && 0 <= v <= u32::MAX && 0 <= w <= u32::MAX;
                let p = pos[k];
                assert(origin[p] == k);
                assert(o[x + 1] % 2 == 0);
                assert(r.slot(x, 2 * p));
            }
        }
        r
    }
}

} // verus!
