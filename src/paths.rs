//! Paths through a compact graph and their costs.
use vstd::prelude::*;
use crate::graph::AdjacencyArray;

verus! {

/// Total of a sequence of weights.
pub open spec fn sum(ws: Seq<int>) -> int
    decreases ws.len(),
{
    if ws.len() == 0 {
        0
    } else {
        sum(ws.drop_last()) + ws.last()
    }
}

/// `p` visits nodes from `s` to `t`, and `ws[j]` is the weight of an edge
/// of `g` from `p[j]` to `p[j + 1]`.
pub open spec fn is_path(g: AdjacencyArray, p: Seq<u32>, ws: Seq<int>, s: int, t: int) -> bool {
    &&& p.len() >= 1
    &&& ws.len() == p.len() - 1
    &&& p[0] == s
    &&& p.last() == t
    &&& forall|j: int| 0 <= j < ws.len() ==> #[trigger] g.has_edge(p[j] as int, p[j + 1] as int, ws[j])
}

/// `p` is a path from `s` to `t` of total weight `d`.
pub open spec fn is_route(g: AdjacencyArray, p: Seq<u32>, s: int, t: int, d: int) -> bool {
    exists|ws: Seq<int>| #[trigger] is_path(g, p, ws, s, t) && sum(ws) == d
}

/// No path from `s` to `t` weighs less than `d`.
pub open spec fn no_shorter(g: AdjacencyArray, s: int, t: int, d: int) -> bool {
    forall|p: Seq<u32>, ws: Seq<int>| #[trigger] is_path(g, p, ws, s, t) ==> sum(ws) >= d
}

pub proof fn lemma_sum_prepend(w: int, ws: Seq<int>)
    ensures
        sum(seq![w] + ws) == w + sum(ws),
    decreases ws.len(),
{
    if ws.len() > 0 {
        let full = seq![w] + ws;
        assert(full.drop_last() =~= seq![w] + ws.drop_last());
        assert(full.last() == ws.last());
        lemma_sum_prepend(w, ws.drop_last());
    } else {
        let full = seq![w] + ws;
        assert(full.drop_last() =~= Seq::<int>::empty());
        assert(full.last() == w);
        assert(sum(full) == sum(full.drop_last()) + full.last());
    }
}

} // verus!
