//! Incremental single-source shortest paths: the search state of one source
//! is kept between queries, so many destinations share one expansion.
use vstd::prelude::*;
use crate::graph::AdjacencyArray;
use crate::paths::{sum, is_path, is_route, no_shorter, lemma_sum_prepend};

verus! {

/// A pending frontier entry: `node_id` reached at `distance` via `previous_node`.
#[derive(Clone, Copy)]
struct HeapItem {
    node_id: u32,
    distance: u32,
    previous_node: u32,
}

/// Dijkstra search bound to one graph and one active source node.
pub struct Dijkstra {
    graph_ref: AdjacencyArray,
    heap: Vec<HeapItem>,
    distances: Vec<u32>,
    previous_nodes: Vec<u32>,
    source_node: u32,
    /// Order in which the nodes were finalized.
    rank: Ghost<Seq<int>>,
    /// Number of nodes finalized in this search epoch.
    count: Ghost<int>,
    /// Distance of the last finalized node.
    last: Ghost<int>,
    /// Number of frontier entries popped in this search epoch.
    popped: Ghost<int>,
}

/// Outcome of a query: `Some((path, distance))` for a shortest path from `s`
/// to `t`, `None` where no path from `s` to `t` weighs less than `u32::MAX`.
pub open spec fn route_result(g: AdjacencyArray, s: u32, t: u32, r: Option<(Vec<u32>, u32)>) -> bool {
    match r {
        Some(found) => {
            &&& is_route(g, found.0@, s as int, t as int, found.1 as int)
            &&& found.0@.no_duplicates()
            &&& no_shorter(g, s as int, t as int, found.1 as int)
            &&& found.1 < u32::MAX
            &&& t == s ==> found.0@ == seq![s] && found.1 == 0
        },
        None => no_shorter(g, s as int, t as int, u32::MAX as int),
    }
}

/// The distance that a query outcome reports.
pub open spec fn result_distance(r: Option<(Vec<u32>, u32)>) -> Option<u32> {
    match r {
        Some(found) => Some(found.1),
        None => None,
    }
}

/// What `change_source_node(s)` does: nothing if `s` is already the source,
/// else a fresh search epoch from `s` on the same graph.
pub open spec fn source_changed(before: Dijkstra, s: u32, after: Dijkstra) -> bool {
    if before.source() == s {
        after == before
    } else {
        &&& after.inv()
        &&& after.graph() == before.graph()
        &&& after.source() == s
        &&& after.is_fresh()
    }
}

/// What `find_route(t)` does: the graph and the source stay, the state stays
/// well formed, and `r` is the shortest route from the source to `t`. The
/// epoch's work is kept: every node finalized before stays finalized with its
/// distance and predecessor, and a destination finalized before is answered
/// without changing the engine. A route found leaves `t` finalized; none
/// found leaves the frontier exhausted.
pub open spec fn route_query(before: Dijkstra, t: u32, after: Dijkstra, r: Option<(Vec<u32>, u32)>) -> bool {
    &&& after.inv()
    &&& after.graph() == before.graph()
    &&& after.source() == before.source()
    &&& route_result(before.graph(), before.source(), t, r)
    &&& forall|v: int|
        0 <= v < before.node_count() && #[trigger] before.is_finalized(v) ==> after.is_finalized(v)
            && after.distance(v) == before.distance(v) && after.predecessor(v) == before.predecessor(v)
    &&& before.is_finalized(t as int) ==> after == before
    &&& r is Some ==> after.is_finalized(t as int) && after.distance(t as int) == r->Some_0.1
    &&& r is None ==> after.frontier_len() == 0
    &&& after.pops() <= 1 + after.graph().flat().len() / 2
}


/// Number of entries of `d` that are still unreached.
spec fn unreached_count(d: Seq<u32>) -> nat
    decreases d.len(),
{
    if d.len() == 0 {
        0
    } else {
        unreached_count(d.drop_last()) + if d.last() == u32::MAX {
            1nat
        } else {
            0nat
        }
    }
}

proof fn lemma_unreached_update(d: Seq<u32>, x: int, val: u32)
    requires
        0 <= x < d.len(),
        d[x] == u32::MAX,
        val != u32::MAX,
    ensures
        unreached_count(d.update(x, val)) + 1 == unreached_count(d),
    decreases d.len(),
{
    let e = d.update(x, val);
    if x == d.len() - 1 {
        assert(e.drop_last() =~= d.drop_last());
    } else {
        assert(e.drop_last() =~= d.drop_last().update(x, val));
        lemma_unreached_update(d.drop_last(), x, val);
    }
}

proof fn lemma_remove_index(h: Seq<HeapItem>, idx: int, k: int)
    requires
        0 <= idx < h.len(),
        0 <= k < h.len() - 1,
    ensures
        h.remove(idx)[k] == if k < idx { h[k] } else { h[k + 1] },
{
}


/// Two outcomes of a query for the same graph, source and destination
/// report the same distance.
pub proof fn lemma_route_result_unique(g: AdjacencyArray, s: u32, t: u32, r: Option<(Vec<u32>, u32)>, q: Option<(Vec<u32>, u32)>)
    requires
        route_result(g, s, t, r),
        route_result(g, s, t, q),
    ensures
        result_distance(r) == result_distance(q),
{
    match (r, q) {
        (Some(a), Some(b)) => {
            assert(is_route(g, a.0@, s as int, t as int, a.1 as int));
            assert(is_route(g, b.0@, s as int, t as int, b.1 as int));
            let wa = choose|ws: Seq<int>| #[trigger] is_path(g, a.0@, ws, s as int, t as int) && sum(ws) == a.1;
            let wb = choose|ws: Seq<int>| #[trigger] is_path(g, b.0@, ws, s as int, t as int) && sum(ws) == b.1;
            assert(sum(wa) >= b.1);
            assert(sum(wb) >= a.1);
        },
        (Some(a), None) => {
            let wa = choose|ws: Seq<int>| #[trigger] is_path(g, a.0@, ws, s as int, t as int) && sum(ws) == a.1;
            assert(sum(wa) >= u32::MAX);
        },
        (None, Some(b)) => {
            let wb = choose|ws: Seq<int>| #[trigger] is_path(g, b.0@, ws, s as int, t as int) && sum(ws) == b.1;
            assert(sum(wb) >= u32::MAX);
        },
        (None, None) => {},
    }
}

/// Setting the same source twice in a row: the second call changes nothing.
pub proof fn lemma_change_source_idempotent(a: Dijkstra, b: Dijkstra, c: Dijkstra, x: u32)
    requires
        source_changed(a, x, b),
        source_changed(b, x, c),
    ensures
        c == b,
{
}

/// Under one source, querying `d1` then `d2` reports the same distances as
/// querying `d2` then `d1`: the shared frontier does not depend on the order.
pub proof fn lemma_query_order_independent(
    e0: Dijkstra,
    d1: u32,
    d2: u32,
    e1: Dijkstra,
    e2: Dijkstra,
    r1: Option<(Vec<u32>, u32)>,
    r2: Option<(Vec<u32>, u32)>,
    f1: Dijkstra,
    f2: Dijkstra,
    q2: Option<(Vec<u32>, u32)>,
    q1: Option<(Vec<u32>, u32)>,
)
    requires
        route_query(e0, d1, e1, r1),
        route_query(e1, d2, e2, r2),
        route_query(e0, d2, f1, q2),
        route_query(f1, d1, f2, q1),
    ensures
        result_distance(r1) == result_distance(q1),
        result_distance(r2) == result_distance(q2),
{
    lemma_route_result_unique(e0.graph(), e0.source(), d1, r1, q1);
    lemma_route_result_unique(e0.graph(), e0.source(), d2, r2, q2);
}



/// Number of `(neighbor, weight)` pairs of the finalized nodes among the
/// first `k` nodes, where `o` are the offsets and `d` the distances.
spec fn fin_pairs(o: Seq<u32>, d: Seq<u32>, k: nat) -> int
    decreases k,
{
    if k == 0 {
        0
    } else {
        fin_pairs(o, d, (k - 1) as nat) + if d[k - 1] != u32::MAX {
            (o[k as int] - o[k - 1]) / 2
        } else {
            0
        }
    }
}

proof fn lemma_fin_pairs_none(o: Seq<u32>, d: Seq<u32>, k: nat)
    requires
        k <= d.len(),
        forall|j: int| 0 <= j < k ==> d[j] == u32::MAX,
    ensures
        fin_pairs(o, d, k) == 0,
    decreases k,
{
    if k > 0 {
        lemma_fin_pairs_none(o, d, (k - 1) as nat);
    }
}

proof fn lemma_fin_pairs_update(o: Seq<u32>, d: Seq<u32>, x: int, val: u32, k: nat)
    requires
        0 <= x < d.len(),
        k <= d.len(),
        d[x] == u32::MAX,
        val != u32::MAX,
    ensures
        fin_pairs(o, d.update(x, val), k) == fin_pairs(o, d, k) + if x < k {
            (o[x + 1] - o[x]) / 2
        } else {
            0
        },
    decreases k,
{
    if k > 0 {
        lemma_fin_pairs_update(o, d, x, val, (k - 1) as nat);
    }
}

proof fn lemma_fin_pairs_bound(o: Seq<u32>, d: Seq<u32>, k: nat)
    requires
        k < o.len(),
        k <= d.len(),
        forall|i: int, j: int| 0 <= i <= j < o.len() ==> o[i] <= o[j],
        forall|i: int| 0 <= i < o.len() ==> #[trigger] o[i] % 2 == 0,
        o[0] == 0,
    ensures
        0 <= fin_pairs(o, d, k) <= o[k as int] / 2,
    decreases k,
{
    if k > 0 {
        lemma_fin_pairs_bound(o, d, (k - 1) as nat);
        assert(o[k - 1] % 2 == 0);
        assert(o[k as int] % 2 == 0);
        assert(o[k - 1] <= o[k as int]);
    }
}

/// A sequence of distinct ids below `n` has at most `n` entries.
proof fn lemma_distinct_bounded(s: Seq<u32>, n: int)
    requires
        s.no_duplicates(),
        n >= 0,
        forall|i: int| 0 <= i < s.len() ==> #[trigger] s[i] < n,
    ensures
        s.len() <= n,
{
    let si = s.map_values(|x: u32| x as int);
    assert forall|i: int, j: int| 0 <= i < j < si.len() implies si[i] != si[j] by {
        assert(s[i] != s[j]);
    }
    assert(si.no_duplicates());
    vstd::set_lib::lemma_int_range(0, n);
    assert forall|x: int| si.to_set().contains(x) implies vstd::set_lib::set_int_range(0, n).contains(x) by {
        let i = choose|i: int| 0 <= i < si.len() && si[i] == x;
        assert(s[i] < n);
    }
    vstd::set_lib::lemma_len_subset(si.to_set(), vstd::set_lib::set_int_range(0, n));
    si.unique_seq_to_set();
}

/// Each frontier entry is no closer than its parent in the binary heap.
spec fn heap_ordered(h: Seq<HeapItem>) -> bool {
    forall|i: int| 0 < i < h.len() ==> h[(i - 1) / 2].distance <= #[trigger] h[i].distance
}

/// The root of an ordered heap is a closest entry.
proof fn lemma_root_min(h: Seq<HeapItem>, i: int)
    requires
        heap_ordered(h),
        0 <= i < h.len(),
    ensures
        h[0].distance <= h[i].distance,
    decreases i,
{
    if i > 0 {
        lemma_root_min(h, (i - 1) / 2);
    }
}

proof fn lemma_swap_multiset(s: Seq<HeapItem>, i: int, j: int)
    requires
        0 <= i < s.len(),
        0 <= j < s.len(),
        i != j,
    ensures
        s.update(i, s[j]).update(j, s[i]).to_multiset() == s.to_multiset(),
{
    broadcast use vstd::multiset::group_multiset_axioms;
    let s1 = s.update(i, s[j]);
    vstd::seq_lib::to_multiset_update(s, i, s[j]);
    vstd::seq_lib::to_multiset_update(s1, j, s[i]);
    assert(s1[j] == s[j]);
    vstd::seq_lib::to_multiset_contains(s, s[i]);
    assert(s.contains(s[i]));
    let m = s.to_multiset();
    let m1 = m.insert(s[j]).remove(s[i]);
    assert(m1.count(s[j]) > 0);
    assert(m1.insert(s[i]).remove(s[j]) =~= m);
}

/// Same entries, in any order: the same members.
proof fn lemma_perm_contains(a: Seq<HeapItem>, b: Seq<HeapItem>, x: HeapItem)
    requires
        a.to_multiset() == b.to_multiset(),
    ensures
        a.contains(x) <==> b.contains(x),
{
    vstd::seq_lib::to_multiset_contains(a, x);
    vstd::seq_lib::to_multiset_contains(b, x);
}

fn swap_items(h: &mut Vec<HeapItem>, i: usize, j: usize)
    requires
        i < old(h)@.len(),
        j < old(h)@.len(),
        i != j,
    ensures
        final(h)@ == old(h)@.update(i as int, old(h)@[j as int]).update(j as int, old(h)@[i as int]),
        final(h)@.to_multiset() == old(h)@.to_multiset(),
{
    proof {
        lemma_swap_multiset(h@, i as int, j as int);
    }
    let a = h[i];
    let b = h[j];
    h.set(i, b);
    h.set(j, a);
}

/// Adds `it` to the heap.
fn heap_push(h: &mut Vec<HeapItem>, it: HeapItem)
    requires
        heap_ordered(old(h)@),
    ensures
        heap_ordered(final(h)@),
        final(h)@.to_multiset() == old(h)@.push(it).to_multiset(),
        final(h)@.len() == old(h)@.len() + 1,
{
    h.push(it);
    let ghost all = h@;
    let mut i: usize = h.len() - 1;
    while i > 0
        invariant
            i < h@.len(),
            h@.len() == all.len(),
            h@.to_multiset() == all.to_multiset(),
            forall|j: int| 0 < j < h@.len() && j != i ==> h@[(j - 1) / 2].distance <= #[trigger] h@[j].distance,
            i > 0 ==> forall|c: int| 0 < c < h@.len() && (c - 1) / 2 == i ==> h@[(i - 1) / 2].distance <= #[trigger] h@[c].distance,
        ensures
            heap_ordered(h@),
            h@.len() == all.len(),
            h@.to_multiset() == all.to_multiset(),
        decreases i,
    {
        let p = (i - 1) / 2;
        if h[p].distance <= h[i].distance {
            break;
        }
        let ghost old_h = h@;
        swap_items(h, p, i);
        proof {
            assert forall|j: int| 0 < j < h@.len() && j != p implies h@[(j - 1) / 2].distance <= #[trigger] h@[j].distance by {
                let q = (j - 1) / 2;
                if j == i {
                } else if q == i {
                    assert(old_h[i as int].distance <= old_h[j].distance);
                } else if q == p {
                    assert(old_h[p as int].distance <= old_h[j].distance);
                } else {
                    assert(h@[j] == old_h[j]);
                }
            }
            if p > 0 {
                assert forall|c: int| 0 < c < h@.len() && (c - 1) / 2 == p implies h@[(p - 1) / 2].distance <= #[trigger] h@[c].distance by {
                    assert(old_h[(p - 1) / 2].distance <= old_h[p as int].distance);
                    if c != i {
                        assert(old_h[p as int].distance <= old_h[c].distance);
                    }
                }
            }
        }
        i = p;
    }
    proof {
        assert(all =~= old(h)@.push(it));
    }
}

/// Removes and returns the root of the heap, a closest entry.
#[verifier::spinoff_prover]
#[verifier::rlimit(60)]
fn heap_pop(h: &mut Vec<HeapItem>) -> (r: HeapItem)
    requires
        heap_ordered(old(h)@),
        old(h)@.len() > 0,
    ensures
        r == old(h)@[0],
        heap_ordered(final(h)@),
        final(h)@.to_multiset() == old(h)@.remove(0).to_multiset(),
        final(h)@.len() == old(h)@.len() - 1,
{
    broadcast use vstd::seq_lib::group_to_multiset_ensures;
    let ghost h0 = h@;
    let last = h.pop().unwrap();
    if h.len() == 0 {
        proof {
            assert(h0.remove(0) =~= h@);
        }
        return last;
    }
    let top = h[0];
    h.set(0, last);
    proof {
        // the root's slot now holds the old last entry: the multiset of h0 without its root
        let mid = h0.remove(0);
        assert(h@ =~= h0.drop_last().update(0, h0.last()));
        vstd::seq_lib::to_multiset_update(h0.drop_last(), 0, h0.last());
        vstd::seq_lib::to_multiset_remove(h0, 0);
        vstd::seq_lib::to_multiset_remove(h0, h0.len() - 1);
        assert(h0.remove(h0.len() - 1) =~= h0.drop_last());
        assert(h0.drop_last()[0] == h0[0]);
        broadcast use vstd::multiset::group_multiset_axioms;
        assert(h@.to_multiset() =~= mid.to_multiset());
    }
    let ghost all = h@;
    let mut i: usize = 0;
    loop
        invariant
            i < h@.len(),
            h@.len() == all.len(),
            all.len() == h0.len() - 1,
            h@.to_multiset() == all.to_multiset(),
            forall|j: int| 0 < j < h@.len() && (j - 1) / 2 != i ==> h@[(j - 1) / 2].distance <= #[trigger] h@[j].distance,
            i > 0 ==> forall|c: int| 0 < c < h@.len() && (c - 1) / 2 == i ==> h@[(i - 1) / 2].distance <= #[trigger] h@[c].distance,
        ensures
            heap_ordered(h@),
            h@.len() == h0.len() - 1,
            h@.to_multiset() == all.to_multiset(),
        decreases h@.len() - i,
    {
        let len = h.len();
        if len < 2 || i > (len - 2) / 2 {
            proof {
                assert forall|j: int| 0 < j < h@.len() implies h@[(j - 1) / 2].distance <= #[trigger] h@[j].distance by {
                    if (j - 1) / 2 == i {
                        assert(false);
                    }
                }
            }
            break;
        }
        let l = 2 * i + 1;
        let c = if l + 1 < len && h[l + 1].distance < h[l].distance {
            l + 1
        } else {
            l
        };
        if h[i].distance <= h[c].distance {
            proof {
                assert forall|j: int| 0 < j < h@.len() implies h@[(j - 1) / 2].distance <= #[trigger] h@[j].distance by {
                    if (j - 1) / 2 == i as int {
                        assert(j == l || j == l + 1);
                    }
                }
            }
            break;
        }
        let ghost old_h = h@;
        swap_items(h, i, c);
        proof {
            assert forall|j: int| 0 < j < h@.len() && (j - 1) / 2 != c implies h@[(j - 1) / 2].distance <= #[trigger] h@[j].distance by {
                let q = (j - 1) / 2;
                if j == c {
                } else if q == i {
                    assert(j == l || j == l + 1);
                } else if j == i {
                    assert(old_h[q].distance <= old_h[c as int].distance);
                } else {
                    assert(h@[j] == old_h[j]);
                }
            }
            assert forall|x: int| 0 < x < h@.len() && (x - 1) / 2 == c implies h@[(c - 1) / 2].distance <= #[trigger] h@[x].distance by {
                assert((c - 1) / 2 == i);
                assert(old_h[c as int].distance <= old_h[x].distance);
            }
        }
        i = c;
    }
    top
}

impl Dijkstra {
    pub closed spec fn graph(&self) -> AdjacencyArray {
        self.graph_ref
    }

    pub closed spec fn source(&self) -> u32 {
        self.source_node
    }

    pub open spec fn node_count(&self) -> int {
        self.graph().node_count()
    }

    /// Node `v` has its final distance in this epoch.
    closed spec fn fin(&self, v: int) -> bool {
        self.distances@[v] != u32::MAX
    }

    /// Recorded distance of node `v`; `u32::MAX` while it is unreached.
    pub closed spec fn distance(&self, v: int) -> u32 {
        self.distances@[v]
    }

    /// Recorded predecessor of node `v`; `u32::MAX` while it has none.
    pub closed spec fn predecessor(&self, v: int) -> u32 {
        self.previous_nodes@[v]
    }

    /// Number of pending frontier entries.
    pub closed spec fn frontier_len(&self) -> nat {
        self.heap@.len()
    }

    /// Number of frontier entries popped in this search epoch.
    pub closed spec fn pops(&self) -> int {
        self.popped@
    }

    /// Every entry ever pushed in this epoch is the seed or one per pair of a
    /// finalized node.
    closed spec fn work_ok(&self) -> bool {
        &&& self.popped@ >= 0
        &&& self.popped@ + self.heap@.len() <= 1 + fin_pairs(
            self.graph_ref.offsets(),
            self.distances@,
            self.node_count() as nat,
        )
    }

    /// Node `v` has its final distance in this epoch.
    pub open spec fn is_finalized(&self, v: int) -> bool {
        self.distance(v) != u32::MAX
    }

    /// No node is finalized, every predecessor is unset and the frontier
    /// holds the source alone.
    pub closed spec fn is_fresh(&self) -> bool {
        &&& forall|v: int| 0 <= v < self.node_count() ==> !#[trigger] self.fin(v)
        &&& forall|v: int| 0 <= v < self.node_count() ==> #[trigger] self.previous_nodes@[v] == u32::MAX
        &&& self.popped@ == 0
        &&& self.heap@ == seq![HeapItem { node_id: self.source_node, distance: 0, previous_node: self.source_node }]
    }

    closed spec fn item_ok(&self, it: HeapItem) -> bool {
        let n = self.node_count();
        &&& it.node_id < n
        &&& it.previous_node < n
        &&& it.distance < u32::MAX
        &&& it.distance >= self.last@
        &&& {
            ||| (it.node_id == self.source_node && it.distance == 0 && it.previous_node == self.source_node)
            ||| {
                &&& self.fin(it.previous_node as int)
                &&& self.distances@[it.previous_node as int] <= it.distance
                &&& self.graph_ref.has_edge(
                    it.previous_node as int,
                    it.node_id as int,
                    it.distance - self.distances@[it.previous_node as int],
                )
            }
        }
    }

    /// The edge in slot `i` of finalized node `u` leads to a finalized node,
    /// weighs too much, or has a frontier entry no farther than through `u`.
    closed spec fn covered(&self, u: int, i: int) -> bool {
        let x = self.graph_ref.flat()[i] as int;
        let w = self.graph_ref.flat()[i + 1] as int;
        ||| self.fin(x)
        ||| self.distances@[u] + w >= u32::MAX
        ||| exists|k: int|
            0 <= k < self.heap@.len() && (#[trigger] self.heap@[k]).node_id == x
                && self.heap@[k].distance <= self.distances@[u] + w
    }

    /// Everything of the invariant but the frontier's coverage of edges.
    #[verifier::opaque]
    closed spec fn base(&self) -> bool {
        let g = self.graph_ref;
        let n = self.node_count();
        let d = self.distances@;
        let pr = self.previous_nodes@;
        let s = self.source_node as int;
        &&& g.wf()
        &&& s < n
        &&& d.len() == n
        &&& pr.len() == n
        &&& self.rank@.len() == n
        &&& self.count@ >= 0
        &&& forall|v: int| #![trigger self.distances@[v]] 0 <= v < n && self.fin(v) ==> d[v] <= self.last@ && 0 <= self.rank@[v] < self.count@
        &&& forall|v: int| #![trigger self.distances@[v]] 0 <= v < n && self.fin(v) ==> self.fin(s)
        &&& self.fin(s) ==> d[s] == 0 && pr[s] == s
        &&& forall|v: int|
            #![trigger self.distances@[v]]
            0 <= v < n && self.fin(v) && v != s ==> {
                &&& pr[v] < n
                &&& self.fin(pr[v] as int)
                &&& self.rank@[pr[v] as int] < self.rank@[v]
                &&& d[pr[v] as int] <= d[v]
                &&& g.has_edge(pr[v] as int, v, d[v] - d[pr[v] as int])
            }
        &&& forall|k: int| 0 <= k < self.heap@.len() ==> #[trigger] self.item_ok(self.heap@[k])
        &&& !self.fin(s) ==> exists|k: int|
            0 <= k < self.heap@.len() && (#[trigger] self.heap@[k]).node_id == s && self.heap@[k].distance == 0
        &&& forall|v: int| #![trigger self.distances@[v]] 0 <= v < n && self.fin(v) ==> no_shorter(g, s, v, d[v] as int)
    }

    /// The search state is consistent with its graph and source.
    #[verifier::opaque]
    pub closed spec fn inv(&self) -> bool {
        &&& self.base()
        &&& heap_ordered(self.heap@)
        &&& self.work_ok()
        &&& forall|u: int, i: int|
            #![trigger self.distances@[u], self.graph_ref.slot(u, i)]
            self.fin(u) && self.graph_ref.slot(u, i) ==> self.covered(u, i)
    }

    proof fn lemma_inv_graph(&self)
        requires
            self.inv(),
        ensures
            self.graph().wf(),
            self.source() < self.node_count(),
            self.distances@.len() == self.node_count(),
            self.previous_nodes@.len() == self.node_count(),
            self.fin(self.source() as int) ==> self.distances@[self.source() as int] == 0
                && self.previous_nodes@[self.source() as int] == self.source(),
    {
        reveal(Dijkstra::inv);
        reveal(Dijkstra::base);
    }

    /// The predecessor of a finalized node other than the source.
    proof fn lemma_pred(&self, v: int)
        requires
            self.inv(),
            0 <= v < self.node_count(),
            self.fin(v),
        ensures
            self.rank@[v] >= 0,
            no_shorter(self.graph_ref, self.source_node as int, v, self.distances@[v] as int),
            v != self.source_node ==> {
                let pv = self.previous_nodes@[v] as int;
                &&& pv < self.node_count()
                &&& self.fin(pv)
                &&& 0 <= self.rank@[pv] < self.rank@[v]
                &&& self.distances@[pv] <= self.distances@[v]
                &&& self.graph_ref.has_edge(pv, v, self.distances@[v] - self.distances@[pv])
            },
    {
        reveal(Dijkstra::inv);
        reveal(Dijkstra::base);
        if v != self.source_node {
            let pv = self.previous_nodes@[v] as int;
            assert(self.fin(pv));
        }
    }

    /// Node count of the graph.
    pub fn get_nodes_count(&self) -> (r: u32)
        requires
            self.inv(),
        ensures
            r == self.node_count(),
    {
        proof {
            self.lemma_inv_graph();
        }
        self.graph_ref.get_nodes_count()
    }

    pub fn new(graph: AdjacencyArray, source_node: u32) -> (r: Dijkstra)
        requires
            graph.wf(),
            source_node < graph.node_count(),
        ensures
            r.inv(),
            r.graph() == graph,
            r.source() == source_node,
            r.is_fresh(),
    {
        let number_of_nodes = graph.get_nodes_count() as usize;
        let mut heap: Vec<HeapItem> = Vec::new();
        let distances: Vec<u32> = vec![u32::MAX; number_of_nodes];
        let previous_nodes: Vec<u32> = vec![u32::MAX; number_of_nodes];
        heap.push(HeapItem { node_id: source_node, distance: 0, previous_node: source_node });
        let r = Dijkstra {
            graph_ref: graph,
            heap,
            distances,
            previous_nodes,
            source_node,
            rank: Ghost(Seq::new(number_of_nodes as nat, |i: int| 0int)),
            count: Ghost(0int),
            last: Ghost(0int),
            popped: Ghost(0int),
        };
        proof {
            lemma_fin_pairs_none(r.graph_ref.offsets(), r.distances@, number_of_nodes as nat);
        }
        assert(r.heap@[0].node_id == source_node);
        proof {
            reveal(Dijkstra::inv);
        reveal(Dijkstra::base);
        }
        r
    }

    /// Makes `source_node` the active source; a new source starts a fresh
    /// search epoch, the current one keeps every result found so far.
    pub fn change_source_node(&mut self, source_node: u32)
        requires
            old(self).inv(),
            source_node < old(self).node_count(),
        ensures
            final(self).inv(),
            source_changed(*old(self), source_node, *final(self)),
    {
        proof {
            self.lemma_inv_graph();
        }
        if source_node == self.source_node {
            return;
        }
        self.source_node = source_node;
        self.heap.clear();
        self.heap.push(HeapItem { node_id: source_node, distance: 0, previous_node: source_node });
        let n = self.distances.len();
        assert(self.heap@ =~= seq![HeapItem { node_id: source_node, distance: 0, previous_node: source_node }]);
        let mut i: usize = 0;
        while i < n
            invariant
                n == self.distances@.len(),
                n == self.previous_nodes@.len(),
                n == self.node_count(),
                self.graph_ref == old(self).graph_ref,
                self.source_node == source_node,
                self.heap@ == seq![HeapItem { node_id: source_node, distance: 0, previous_node: source_node }],
                i <= n,
                forall|j: int| 0 <= j < i ==> self.distances@[j] == u32::MAX,
                forall|j: int| 0 <= j < i ==> self.previous_nodes@[j] == u32::MAX,
            decreases n - i,
        {
            self.distances.set(i, u32::MAX);
            self.previous_nodes.set(i, u32::MAX);
            i += 1;
        }
        self.rank = Ghost(Seq::new(n as nat, |j: int| 0int));
        self.count = Ghost(0int);
        self.last = Ghost(0int);
        self.popped = Ghost(0int);
        proof {
            lemma_fin_pairs_none(self.graph_ref.offsets(), self.distances@, n as nat);
        }
        assert(self.heap@[0].node_id == source_node);
        proof {
            reveal(Dijkstra::inv);
        reveal(Dijkstra::base);
        }
        assert forall|v: int| 0 <= v < self.node_count() implies !#[trigger] self.fin(v) by {}
    }

    /// Walks the predecessors from `destination_node` back to the source.
    fn traverse_route(&self, destination_node: u32) -> (r: Vec<u32>)
        requires
            self.inv(),
            destination_node < self.node_count(),
            self.fin(destination_node as int),
        ensures
            is_route(
                self.graph(),
                r@,
                self.source() as int,
                destination_node as int,
                self.distances@[destination_node as int] as int,
            ),
            destination_node == self.source() ==> r@ == seq![destination_node],
            r@.len() >= 1,
            r@[0] == self.source(),
            r@.last() == destination_node,
            forall|i: int| 0 < i < r@.len() ==> self.previous_nodes@[#[trigger] r@[i] as int] == r@[i - 1],
            r@.no_duplicates(),
            r@.len() <= self.node_count(),
    {
        let mut back: Vec<u32> = vec![destination_node];
        let mut cur = destination_node;
        let ghost mut fp: Seq<u32> = seq![destination_node];
        let ghost mut ws: Seq<int> = seq![];
        proof {
            assert(back@ =~= seq![destination_node]);
        }
        proof {
            self.lemma_inv_graph();
        }
        while cur != self.source_node
            invariant
                self.inv(),
                self.distances@.len() == self.node_count(),
                self.previous_nodes@.len() == self.node_count(),
                self.fin(self.source() as int) ==> self.distances@[self.source() as int] == 0,
                cur < self.node_count(),
                self.fin(cur as int),
                is_path(self.graph_ref, fp, ws, cur as int, destination_node as int),
                sum(ws) == self.distances@[destination_node as int] - self.distances@[cur as int],
                back@.len() == fp.len(),
                forall|k: int| 0 <= k < fp.len() ==> back@[k] == fp[fp.len() - 1 - k],
                destination_node == self.source_node ==> back@ == seq![destination_node],
                forall|i: int| 0 <= i < fp.len() ==> #[trigger] fp[i] < self.node_count() && self.fin(fp[i] as int),
                forall|i: int, j: int|
                    0 <= i < j < fp.len() ==> self.rank@[#[trigger] fp[i] as int] < self.rank@[#[trigger] fp[j] as int],
                forall|i: int| 0 < i < fp.len() ==> self.previous_nodes@[#[trigger] fp[i] as int] == fp[i - 1],
            decreases self.rank@[cur as int],
        {
            let p = self.previous_nodes[cur as usize];
            proof {
                self.lemma_pred(cur as int);
                let w = self.distances@[cur as int] - self.distances@[p as int];
                let nfp = seq![p] + fp;
                let nws = seq![w] + ws;
                lemma_sum_prepend(w, ws);
                assert forall|j: int| 0 <= j < nws.len() implies #[trigger] self.graph_ref.has_edge(
                    nfp[j] as int,
                    nfp[j + 1] as int,
                    nws[j],
                ) by {
                    if j > 0 {
                        assert(nfp[j] == fp[j - 1]);
                        assert(nfp[j + 1] == fp[j]);
                        assert(nws[j] == ws[j - 1]);
                        assert(self.graph_ref.has_edge(fp[j - 1] as int, fp[(j - 1) + 1] as int, ws[j - 1]));
                    } else {
                        assert(nfp[0] == p);
                        assert(nfp[1] == fp[0]);
                        assert(nws[0] == w);
                    }
                }
                assert(fp[0] == cur);
                assert forall|i: int| 0 <= i < nfp.len() implies #[trigger] nfp[i] < self.node_count() && self.fin(nfp[i] as int) by {
                    if i > 0 {
                        assert(nfp[i] == fp[i - 1]);
                    }
                }
                assert forall|i: int, j: int|
                    0 <= i < j < nfp.len() implies self.rank@[#[trigger] nfp[i] as int] < self.rank@[#[trigger] nfp[j] as int] by {
                    assert(nfp[j] == fp[j - 1]);
                    if i > 0 {
                        assert(nfp[i] == fp[i - 1]);
                    } else if j > 1 {
                        assert(self.rank@[fp[0] as int] < self.rank@[fp[j - 1] as int]);
                    }
                }
                assert forall|i: int| 0 < i < nfp.len() implies self.previous_nodes@[#[trigger] nfp[i] as int] == nfp[i - 1] by {
                    assert(nfp[i] == fp[i - 1]);
                    if i > 1 {
                        assert(nfp[i - 1] == fp[i - 2]);
                    }
                }
                fp = nfp;
                ws = nws;
            }
            back.push(p);
            cur = p;
        }
        let mut out: Vec<u32> = Vec::new();
        let mut k: usize = back.len();
        while k > 0
            invariant
                k <= back@.len(),
                back@.len() == fp.len(),
                forall|j: int| 0 <= j < fp.len() ==> back@[j] == fp[fp.len() - 1 - j],
                out@ =~= fp.subrange(0, fp.len() - k),
            decreases k,
        {
            k -= 1;
            out.push(back[k]);
        }
        proof {
            assert(out@ =~= fp);
            assert(is_path(self.graph_ref, out@, ws, self.source_node as int, destination_node as int));
            assert forall|i: int, j: int| 0 <= i < j < fp.len() implies fp[i] != fp[j] by {
                assert(self.rank@[fp[i] as int] < self.rank@[fp[j] as int]);
            }
            lemma_distinct_bounded(fp, self.node_count());
        }
        out
    }

    /// Every path from the source to a node that is not finalized weighs at
    /// least `b`, where no frontier entry is closer than `b`.
    proof fn lemma_bound(&self, b: int, p: Seq<u32>, ws: Seq<int>, t: int)
        requires
            self.inv(),
            b <= u32::MAX,
            forall|k: int| 0 <= k < self.heap@.len() ==> (#[trigger] self.heap@[k]).distance >= b,
            is_path(self.graph_ref, p, ws, self.source_node as int, t),
            0 <= t < self.node_count(),
            !self.fin(t),
        ensures
            sum(ws) >= b,
    {
        assert(p.last() == t);
        self.lemma_bound_prefix(b, p, ws, ws.len() as int);
        assert(ws.subrange(0, ws.len() as int) =~= ws);
    }

    proof fn lemma_bound_prefix(&self, b: int, p: Seq<u32>, ws: Seq<int>, j: int)
        requires
            self.inv(),
            b <= u32::MAX,
            forall|k: int| 0 <= k < self.heap@.len() ==> (#[trigger] self.heap@[k]).distance >= b,
            is_path(self.graph_ref, p, ws, self.source_node as int, p.last() as int),
            0 <= j <= ws.len(),
        ensures
            sum(ws.subrange(0, j)) >= b || (self.fin(p[j] as int) && sum(ws.subrange(0, j)) >= self.distances@[p[j] as int]),
        decreases j,
    {
        reveal(Dijkstra::inv);
        reveal(Dijkstra::base);
        let g = self.graph_ref;
        let s = self.source_node as int;
        if j == 0 {
            assert(ws.subrange(0, 0) =~= Seq::<int>::empty());
            if !self.fin(s) {
                let k = choose|k: int|
                    0 <= k < self.heap@.len() && (#[trigger] self.heap@[k]).node_id == s && self.heap@[k].distance == 0;
                assert(self.heap@[k].distance >= b);
            }
        } else {
            self.lemma_bound_prefix(b, p, ws, j - 1);
            let s0 = sum(ws.subrange(0, j - 1));
            assert(ws.subrange(0, j).drop_last() =~= ws.subrange(0, j - 1));
            let s1 = sum(ws.subrange(0, j));
            let u = p[j - 1] as int;
            let x = p[j] as int;
            let w = ws[j - 1];
            assert(g.has_edge(p[j - 1] as int, p[(j - 1) + 1] as int, ws[j - 1]));
            let i = choose|i: int| #[trigger] g.slot(u, i) && g.flat()[i] == x && g.flat()[i + 1] == w;
            assert(s1 == s0 + w);
            assert(w >= 0);
            if self.fin(x) {
                let pp = p.subrange(0, j + 1);
                let wp = ws.subrange(0, j);
                assert forall|m: int| 0 <= m < wp.len() implies #[trigger] g.has_edge(pp[m] as int, pp[m + 1] as int, wp[m]) by {
                    assert(g.has_edge(p[m] as int, p[m + 1] as int, ws[m]));
                }
                assert(is_path(g, pp, wp, s, x));
                assert(0 <= x < self.node_count()) by {
                    assert(g.flat()[i] < g.node_count());
                }
            } else if s0 < b {
                assert(self.fin(u));
                assert(0 <= u < self.node_count());
                assert(self.covered(u, i));
                if self.distances@[u] + w < u32::MAX {
                    let k = choose|k: int|
                        0 <= k < self.heap@.len() && (#[trigger] self.heap@[k]).node_id == x
                            && self.heap@[k].distance <= self.distances@[u] + w;
                    assert(self.heap@[k].distance >= b);
                }
            }
        }
    }

    /// Dropping a frontier entry of a finalized node keeps the invariant.
    proof fn lemma_remove_stale(before: Dijkstra, after: Dijkstra, idx: int)
        requires
            before.inv(),
            0 <= idx < before.heap@.len(),
            before.fin(before.heap@[idx].node_id as int),
            after.graph_ref == before.graph_ref,
            after.source_node == before.source_node,
            after.distances@ == before.distances@,
            after.previous_nodes@ == before.previous_nodes@,
            after.rank@ == before.rank@,
            after.count@ == before.count@,
            after.last@ == before.last@,
            after.heap@.to_multiset() == before.heap@.remove(idx).to_multiset(),
            heap_ordered(after.heap@),
            after.work_ok(),
        ensures
            after.inv(),
    {
        reveal(Dijkstra::inv);
        reveal(Dijkstra::base);
        let h0 = before.heap@;
        let h1 = after.heap@;
        let mid = h0.remove(idx);
        let s = before.source_node as int;
        assert forall|k: int| 0 <= k < h1.len() implies #[trigger] after.item_ok(h1[k]) by {
            lemma_perm_contains(h1, mid, h1[k]);
            assert(h1.contains(h1[k]));
            let j = choose|j: int| 0 <= j < mid.len() && mid[j] == h1[k];
            lemma_remove_index(h0, idx, j);
            if j < idx {
                assert(before.item_ok(h0[j]));
            } else {
                assert(before.item_ok(h0[j + 1]));
            }
        }
        if !after.fin(s) {
            let k = choose|k: int| 0 <= k < h0.len() && (#[trigger] h0[k]).node_id == s && h0[k].distance == 0;
            assert(k != idx);
            let k1 = if k < idx { k } else { k - 1 };
            lemma_remove_index(h0, idx, k1);
            assert(mid.contains(mid[k1]));
            lemma_perm_contains(h1, mid, mid[k1]);
            let k2 = choose|k2: int| 0 <= k2 < h1.len() && h1[k2] == mid[k1];
            assert(h1[k2].node_id == s && h1[k2].distance == 0);
        }
        assert forall|u: int, i: int|
            #![trigger after.distances@[u], after.graph_ref.slot(u, i)]
            after.fin(u) && after.graph_ref.slot(u, i) implies after.covered(u, i) by {
            assert(before.fin(u));
            assert(before.covered(u, i));
            let x = before.graph_ref.flat()[i] as int;
            let w = before.graph_ref.flat()[i + 1] as int;
            if !before.fin(x) && before.distances@[u] + w < u32::MAX {
                let k = choose|k: int|
                    0 <= k < h0.len() && (#[trigger] h0[k]).node_id == x && h0[k].distance <= before.distances@[u] + w;
                assert(k != idx);
                let k1 = if k < idx { k } else { k - 1 };
                lemma_remove_index(h0, idx, k1);
                assert(mid.contains(mid[k1]));
                lemma_perm_contains(h1, mid, mid[k1]);
                let k2 = choose|k2: int| 0 <= k2 < h1.len() && h1[k2] == mid[k1];
                assert(h1[k2].node_id == x);
            }
        }
        assert(after.base());
    }

    /// Finalizing the node of a closest frontier entry keeps the invariant,
    /// except for the edges of that node, which are not covered yet.
    #[verifier::spinoff_prover]
    #[verifier::rlimit(60)]
    proof fn lemma_finalize(before: Dijkstra, after: Dijkstra, idx: int)
        requires
            before.inv(),
            0 <= idx < before.heap@.len(),
            forall|k: int| 0 <= k < before.heap@.len() ==> (#[trigger] before.heap@[k]).distance >= before.heap@[idx].distance,
            !before.fin(before.heap@[idx].node_id as int),
            after.graph_ref == before.graph_ref,
            after.source_node == before.source_node,
            after.heap@.to_multiset() == before.heap@.remove(idx).to_multiset(),
            after.distances@ == before.distances@.update(before.heap@[idx].node_id as int, before.heap@[idx].distance),
            after.previous_nodes@ == before.previous_nodes@.update(
                before.heap@[idx].node_id as int,
                before.heap@[idx].previous_node,
            ),
            after.rank@ == before.rank@.update(before.heap@[idx].node_id as int, before.count@),
            after.count@ == before.count@ + 1,
            after.last@ == before.heap@[idx].distance,
        ensures
            after.base(),
            after.fin(before.heap@[idx].node_id as int),
            forall|u: int, i: int|
                #![trigger after.distances@[u], after.graph_ref.slot(u, i)]
                after.fin(u) && u != before.heap@[idx].node_id && after.graph_ref.slot(u, i) ==> after.covered(u, i),
    {
        reveal(Dijkstra::inv);
        reveal(Dijkstra::base);
        let g = before.graph_ref;
        let n = before.node_count();
        let h0 = before.heap@;
        let h1 = after.heap@;
        let d0 = before.distances@;
        let d1 = after.distances@;
        let s = before.source_node as int;
        let it = h0[idx];
        let nd = it.node_id as int;
        let dd = it.distance as int;
        assert(before.item_ok(it));
        assert forall|p: Seq<u32>, ws: Seq<int>| #[trigger] is_path(g, p, ws, s, nd) implies sum(ws) >= dd by {
            before.lemma_bound(dd, p, ws, nd);
        }
        let non_seed = !(it.node_id == before.source_node && it.distance == 0 && it.previous_node == before.source_node);
        if non_seed {
            let pv = it.previous_node as int;
            assert(before.fin(pv));
            assert(before.fin(s));
        }
        assert forall|v: int| #![trigger d1[v]] 0 <= v < n && after.fin(v) implies {
            &&& d1[v] <= after.last@
            &&& 0 <= after.rank@[v] < after.count@
            &&& after.fin(s)
            &&& no_shorter(g, s, v, d1[v] as int)
        } by {
            if v != nd {
                assert(d0[v] == d1[v]);
                assert(before.fin(v));
            }
        }
        assert forall|v: int|
            #![trigger d1[v]]
            0 <= v < n && after.fin(v) && v != s implies {
                let pr = after.previous_nodes@;
                &&& pr[v] < n
                &&& after.fin(pr[v] as int)
                &&& after.rank@[pr[v] as int] < after.rank@[v]
                &&& d1[pr[v] as int] <= d1[v]
                &&& g.has_edge(pr[v] as int, v, d1[v] - d1[pr[v] as int])
            } by {
            if v != nd {
                assert(d0[v] == d1[v]);
                assert(before.fin(v));
                let pv = before.previous_nodes@[v] as int;
                assert(before.fin(pv));
                assert(pv != nd);
            }
        }
        let mid = h0.remove(idx);
        assert forall|k: int| 0 <= k < h1.len() implies #[trigger] after.item_ok(h1[k]) by {
            lemma_perm_contains(h1, mid, h1[k]);
            assert(h1.contains(h1[k]));
            let j = choose|j: int| 0 <= j < mid.len() && mid[j] == h1[k];
            lemma_remove_index(h0, idx, j);
            let k0 = if j < idx { j } else { j + 1 };
            assert(h0[k0] == h1[k]);
            assert(before.item_ok(h0[k0]));
            assert(h0[k0].distance >= dd);
            let pv = h0[k0].previous_node as int;
            if before.fin(pv) {
                assert(pv != nd);
            }
        }
        if !after.fin(s) {
            let k = choose|k: int| 0 <= k < h0.len() && (#[trigger] h0[k]).node_id == s && h0[k].distance == 0;
            assert(k != idx);
            let k1 = if k < idx { k } else { k - 1 };
            lemma_remove_index(h0, idx, k1);
            assert(mid.contains(mid[k1]));
            lemma_perm_contains(h1, mid, mid[k1]);
            let k2 = choose|k2: int| 0 <= k2 < h1.len() && h1[k2] == mid[k1];
            assert(h1[k2].node_id == s && h1[k2].distance == 0);
        }
        assert forall|u: int, i: int|
            #![trigger after.distances@[u], after.graph_ref.slot(u, i)]
            after.fin(u) && u != nd && after.graph_ref.slot(u, i) implies after.covered(u, i) by {
            assert(d0[u] == d1[u]);
            assert(before.fin(u));
            assert(before.covered(u, i));
            let x = g.flat()[i] as int;
            let w = g.flat()[i + 1] as int;
            if !before.fin(x) && d0[u] + w < u32::MAX && x != nd {
                let k = choose|k: int| 0 <= k < h0.len() && (#[trigger] h0[k]).node_id == x && h0[k].distance <= d0[u] + w;
                assert(k != idx);
                let k1 = if k < idx { k } else { k - 1 };
                lemma_remove_index(h0, idx, k1);
                assert(mid.contains(mid[k1]));
                lemma_perm_contains(h1, mid, mid[k1]);
                let k2 = choose|k2: int| 0 <= k2 < h1.len() && h1[k2] == mid[k1];
                assert(h1[k2].node_id == x);
            }
        }
        assert(after.base());
    }

    /// Pushing a well-formed entry keeps the invariant's base and everything
    /// that was covered; the frontier then holds the entry.
    proof fn lemma_push(before: Dijkstra, after: Dijkstra, it: HeapItem)
        requires
            before.base(),
            before.item_ok(it),
            after.graph_ref == before.graph_ref,
            after.source_node == before.source_node,
            after.distances@ == before.distances@,
            after.previous_nodes@ == before.previous_nodes@,
            after.rank@ == before.rank@,
            after.count@ == before.count@,
            after.last@ == before.last@,
            after.heap@.to_multiset() == before.heap@.push(it).to_multiset(),
        ensures
            after.base(),
            forall|u: int, i: int| before.covered(u, i) ==> #[trigger] after.covered(u, i),
            after.heap@.contains(it),
    {
        reveal(Dijkstra::base);
        let h0 = before.heap@;
        let h1 = after.heap@;
        let mid = h0.push(it);
        let s = before.source_node as int;
        assert forall|k: int| 0 <= k < h1.len() implies #[trigger] after.item_ok(h1[k]) by {
            lemma_perm_contains(h1, mid, h1[k]);
            assert(h1.contains(h1[k]));
            let j = choose|j: int| 0 <= j < mid.len() && mid[j] == h1[k];
            if j < h0.len() {
                assert(before.item_ok(h0[j]));
            }
        }
        assert(mid[h0.len() as int] == it);
        lemma_perm_contains(h1, mid, it);
        if !after.fin(s) {
            let k = choose|k: int| 0 <= k < h0.len() && (#[trigger] h0[k]).node_id == s && h0[k].distance == 0;
            assert(mid[k] == h0[k]);
            lemma_perm_contains(h1, mid, h0[k]);
            let k2 = choose|k2: int| 0 <= k2 < h1.len() && h1[k2] == h0[k];
            assert(h1[k2].node_id == s);
        }
        assert forall|u: int, i: int| before.covered(u, i) implies #[trigger] after.covered(u, i) by {
            let x = before.graph_ref.flat()[i] as int;
            let w = before.graph_ref.flat()[i + 1] as int;
            if !before.fin(x) && before.distances@[u] + w < u32::MAX {
                let k = choose|k: int|
                    0 <= k < h0.len() && (#[trigger] h0[k]).node_id == x && h0[k].distance <= before.distances@[u] + w;
                assert(mid[k] == h0[k]);
                lemma_perm_contains(h1, mid, h0[k]);
                let k2 = choose|k2: int| 0 <= k2 < h1.len() && h1[k2] == h0[k];
                assert(h1[k2].node_id == x);
            }
        }
    }

    /// At most one pop per pair of the graph, and the seed.
    proof fn lemma_work(&self)
        requires
            self.inv(),
        ensures
            self.pops() <= 1 + self.graph().flat().len() / 2,
    {
        reveal(Dijkstra::inv);
        reveal(Dijkstra::base);
        let o = self.graph_ref.offsets();
        lemma_fin_pairs_bound(o, self.distances@, self.node_count() as nat);
    }

    proof fn lemma_base(&self)
        requires
            self.base(),
        ensures
            forall|v: int|
                #![trigger self.distances@[v]]
                0 <= v < self.node_count() && self.fin(v) ==> self.distances@[v] <= self.last@,
            forall|k: int| 0 <= k < self.heap@.len() ==> (#[trigger] self.heap@[k]).distance >= self.last@,
            self.graph_ref.wf(),
            self.source_node < self.node_count(),
            self.distances@.len() == self.node_count(),
            self.previous_nodes@.len() == self.node_count(),
    {
        reveal(Dijkstra::base);
        assert forall|k: int| 0 <= k < self.heap@.len() implies (#[trigger] self.heap@[k]).distance >= self.last@ by {
            assert(self.item_ok(self.heap@[k]));
        }
    }

    proof fn lemma_item(&self, k: int)
        requires
            self.inv(),
            0 <= k < self.heap@.len(),
        ensures
            self.item_ok(self.heap@[k]),
            self.heap@[k].node_id < self.node_count(),
            self.heap@[k].distance < u32::MAX,
            self.fin(self.heap@[k].node_id as int) ==> self.distances@[self.heap@[k].node_id as int] <= self.heap@[k].distance,
    {
        reveal(Dijkstra::inv);
        reveal(Dijkstra::base);
        let v = self.heap@[k].node_id as int;
        assert(self.item_ok(self.heap@[k]));
        if self.fin(v) {
            assert(self.distances@[v] <= self.last@);
        }
    }

    /// Expands the frontier until `destination_node` is finalized or the
    /// frontier is exhausted.
    fn dijkstra(&mut self, destination_node: u32)
        requires
            old(self).inv(),
            destination_node < old(self).node_count(),
            !old(self).fin(destination_node as int),
        ensures
            final(self).inv(),
            final(self).graph_ref == old(self).graph_ref,
            final(self).source_node == old(self).source_node,
            final(self).fin(destination_node as int) || no_shorter(
                final(self).graph_ref,
                final(self).source_node as int,
                destination_node as int,
                u32::MAX as int,
            ),
            forall|v: int|
                #![trigger old(self).distances@[v]]
                0 <= v < old(self).node_count() && old(self).fin(v) ==> final(self).distances@[v] == old(self).distances@[v]
                    && final(self).previous_nodes@[v] == old(self).previous_nodes@[v],
            final(self).fin(destination_node as int) ==> forall|v: int|
                #![trigger final(self).distances@[v]]
                0 <= v < final(self).node_count() && final(self).fin(v) ==> final(self).distances@[v]
                    <= final(self).distances@[destination_node as int],
            final(self).fin(destination_node as int) ==> forall|v: int|
                #![trigger final(self).distances@[v]]
                0 <= v < final(self).node_count() && !final(self).fin(v) ==> no_shorter(
                    final(self).graph_ref,
                    final(self).source_node as int,
                    v,
                    final(self).distances@[destination_node as int] as int,
                ),
            !final(self).fin(destination_node as int) ==> final(self).heap@.len() == 0,
    {
        loop
            invariant_except_break
                !self.fin(destination_node as int),
            invariant
                self.inv(),
                self.graph_ref == old(self).graph_ref,
                self.source_node == old(self).source_node,
                destination_node < self.node_count(),
                forall|v: int|
                    #![trigger old(self).distances@[v]]
                    0 <= v < old(self).node_count() && old(self).fin(v) ==> self.distances@[v] == old(self).distances@[v]
                        && self.previous_nodes@[v] == old(self).previous_nodes@[v],
            ensures
                self.inv(),
                self.graph_ref == old(self).graph_ref,
                self.source_node == old(self).source_node,
                self.fin(destination_node as int) || no_shorter(
                    self.graph_ref,
                    self.source_node as int,
                    destination_node as int,
                    u32::MAX as int,
                ),
                forall|v: int|
                    #![trigger old(self).distances@[v]]
                    0 <= v < old(self).node_count() && old(self).fin(v) ==> self.distances@[v] == old(self).distances@[v]
                        && self.previous_nodes@[v] == old(self).previous_nodes@[v],
                self.fin(destination_node as int) ==> forall|v: int|
                    #![trigger self.distances@[v]]
                    0 <= v < self.node_count() && self.fin(v) ==> self.distances@[v]
                        <= self.distances@[destination_node as int],
                self.fin(destination_node as int) ==> forall|v: int|
                    #![trigger self.distances@[v]]
                    0 <= v < self.node_count() && !self.fin(v) ==> no_shorter(
                        self.graph_ref,
                        self.source_node as int,
                        v,
                        self.distances@[destination_node as int] as int,
                    ),
                !self.fin(destination_node as int) ==> self.heap@.len() == 0,
            decreases unreached_count(self.distances@), self.heap@.len(),
        {
            proof {
                self.lemma_inv_graph();
            }
            if self.heap.len() == 0 {
                proof {
                    let g = self.graph_ref;
                    let s = self.source_node as int;
                    let t = destination_node as int;
                    if !self.fin(t) {
                        assert forall|p: Seq<u32>, ws: Seq<int>| #[trigger] is_path(g, p, ws, s, t) implies sum(ws) >= u32::MAX by {
                            self.lemma_bound(u32::MAX as int, p, ws, t);
                        }
                    }
                }
                break;
            }
            proof {
                self.lemma_item(0);
                reveal(Dijkstra::inv);
                assert forall|k: int| 0 <= k < self.heap@.len() implies (#[trigger] self.heap@[k]).distance >= self.heap@[0].distance by {
                    lemma_root_min(self.heap@, k);
                }
            }
            let ghost before = *self;
            let item = heap_pop(&mut self.heap);
            self.popped = Ghost(self.popped@ + 1);
            let nd = item.node_id;
            if item.distance >= self.distances[nd as usize] {
                proof {
                    assert(self.work_ok());
                    Dijkstra::lemma_remove_stale(before, *self, 0);
                }
            } else {
                self.distances.set(nd as usize, item.distance);
                self.previous_nodes.set(nd as usize, item.previous_node);
                self.rank = Ghost(self.rank@.update(nd as int, self.count@));
                self.count = Ghost(self.count@ + 1);
                self.last = Ghost(item.distance as int);
                proof {
                    Dijkstra::lemma_finalize(before, *self, 0);
                    lemma_unreached_update(before.distances@, nd as int, item.distance);
                    lemma_fin_pairs_update(
                        self.graph_ref.offsets(),
                        before.distances@,
                        nd as int,
                        item.distance,
                        self.node_count() as nat,
                    );
                    assert(before.work_ok());
                }
                let ghost dist_after = self.distances@;
                let (start, end) = self.graph_ref.neighbor_range(nd);
                proof {
                    let o = self.graph_ref.offsets();
                    assert(o[nd as int] % 2 == 0);
                    assert(o[nd + 1] % 2 == 0);
                }
                let mut i: usize = start;
                while i < end
                    invariant
                        self.base(),
                        heap_ordered(self.heap@),
                        self.graph_ref == old(self).graph_ref,
                        self.source_node == old(self).source_node,
                        destination_node < self.node_count(),
                        nd < self.node_count(),
                        self.fin(nd as int),
                        self.distances@[nd as int] == item.distance,
                        self.last@ == item.distance,
                        self.distances@ == dist_after,
                        forall|v: int|
                            #![trigger old(self).distances@[v]]
                            0 <= v < old(self).node_count() && old(self).fin(v) ==> self.distances@[v] == old(self).distances@[v]
                                && self.previous_nodes@[v] == old(self).previous_nodes@[v],
                        start == self.graph_ref.offsets()[nd as int],
                        end == self.graph_ref.offsets()[nd + 1],
                        start <= i <= end,
                        end <= self.graph_ref.flat().len(),
                        i % 2 == 0,
                        end % 2 == 0,
                        self.popped@ >= 0,
                        self.popped@ + self.heap@.len() + (end - i) / 2 <= 1 + fin_pairs(
                            self.graph_ref.offsets(),
                            self.distances@,
                            self.node_count() as nat,
                        ),
                        forall|u: int, j: int|
                            #![trigger self.distances@[u], self.graph_ref.slot(u, j)]
                            self.fin(u) && u != nd && self.graph_ref.slot(u, j) ==> self.covered(u, j),
                        forall|j: int|
                            #![trigger self.graph_ref.slot(nd as int, j)]
                            j < i && self.graph_ref.slot(nd as int, j) ==> self.covered(nd as int, j),
                    decreases end - i,
                {
                    let next = self.graph_ref.flat_at(i);
                    let w = self.graph_ref.flat_at(i + 1);
                    proof {
                        self.lemma_base();
                        assert(self.graph_ref.slot(nd as int, i as int));
                        assert(self.graph_ref.flat()[i as int] < self.node_count());
                    }
                    if self.distances[next as usize] == u32::MAX && w < u32::MAX - item.distance {
                        let it = HeapItem { node_id: next, distance: item.distance + w, previous_node: nd };
                        let ghost b2 = *self;
                        proof {
                            assert(self.graph_ref.has_edge(nd as int, next as int, w as int));
                            assert(self.item_ok(it));
                        }
                        heap_push(&mut self.heap, it);
                        proof {
                            Dijkstra::lemma_push(b2, *self, it);
                            let k = choose|k: int| 0 <= k < self.heap@.len() && self.heap@[k] == it;
                            assert(self.heap@[k].node_id == next);
                            assert(self.covered(nd as int, i as int));
                        }
                    }
                    proof {
                        assert((end - (i + 2)) / 2 == (end - i) / 2 - 1);
                    }
                    i += 2;
                }
                proof {
                    reveal(Dijkstra::inv);
                    reveal(Dijkstra::base);
                    assert(self.work_ok());
                    assert forall|u: int, j: int|
                        #![trigger self.distances@[u], self.graph_ref.slot(u, j)]
                        self.fin(u) && self.graph_ref.slot(u, j) implies self.covered(u, j) by {
                        if u == nd {
                            assert(j < i);
                        }
                    }
                }
                if nd == destination_node {
                    proof {
                        self.lemma_base();
                        let g = self.graph_ref;
                        let src = self.source_node as int;
                        let dd = self.distances@[destination_node as int] as int;
                        assert forall|v: int|
                            #![trigger self.distances@[v]]
                            0 <= v < self.node_count() && !self.fin(v) implies no_shorter(g, src, v, dd) by {
                            assert forall|p: Seq<u32>, ws: Seq<int>| #[trigger] is_path(g, p, ws, src, v) implies sum(ws) >= dd by {
                                self.lemma_bound(dd, p, ws, v);
                            }
                        }
                    }
                    break;
                }
            }
        }
    }

    /// Shortest route from the active source to `destination_node`, reusing
    /// and extending the search state of the current epoch.
    pub fn find_route(&mut self, destination_node: u32) -> (r: Option<(Vec<u32>, u32)>)
        requires
            old(self).inv(),
            destination_node < old(self).node_count(),
        ensures
            route_query(*old(self), destination_node, *final(self), r),
    {
        proof {
            self.lemma_work();
        }
        proof {
            self.lemma_inv_graph();
        }
        if self.distances[destination_node as usize] != u32::MAX {
            let path = self.traverse_route(destination_node);
            proof {
                self.lemma_pred(destination_node as int);
            }
            return Some((path, self.distances[destination_node as usize]));
        }
        self.dijkstra(destination_node);
        proof {
            self.lemma_inv_graph();
            self.lemma_work();
        }
        if self.distances[destination_node as usize] != u32::MAX {
            let path = self.traverse_route(destination_node);
            proof {
                self.lemma_pred(destination_node as int);
            }
            Some((path, self.distances[destination_node as usize]))
        } else {
            None
        }
    }
}

} // verus!
