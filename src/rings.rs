//! Assembly of coastline fragments into polygon rings of node ids.
use vstd::prelude::*;
use std::collections::HashMap;

verus! {

broadcast use vstd::std_specs::hash::group_hash_axioms;

/// One coastline way: its first and last node ids and all its node ids in order.
pub struct Coastline {
    pub first: i64,
    pub last: i64,
    pub nodes: Vec<i64>,
}

/// The node ids that a fragment adds after its first one.
pub open spec fn tail(c: Coastline) -> Seq<i64> {
    if c.nodes@.len() == 0 {
        Seq::empty()
    } else {
        c.nodes@.subrange(1, c.nodes@.len() as int)
    }
}

/// The tails of the fragments `ch`, in order.
pub open spec fn chain_nodes(cs: Seq<Coastline>, ch: Seq<int>) -> Seq<i64>
    decreases ch.len(),
{
    if ch.len() == 0 {
        Seq::empty()
    } else {
        chain_nodes(cs, ch.drop_last()) + tail(cs[ch.last()])
    }
}

/// `ch` lists fragments, each starting where the one before it ends.
pub open spec fn is_chain(cs: Seq<Coastline>, ch: Seq<int>) -> bool {
    &&& ch.len() >= 1
    &&& forall|i: int| 0 <= i < ch.len() ==> 0 <= #[trigger] ch[i] < cs.len()
    &&& forall|i: int| 0 <= i < ch.len() - 1 ==> cs[#[trigger] ch[i]].last == cs[ch[i + 1]].first
}

/// The ring walked along the chain `ch`.
pub open spec fn ring_of(cs: Seq<Coastline>, ch: Seq<int>) -> Seq<i64> {
    seq![cs[ch[0]].first] + chain_nodes(cs, ch)
}

/// Fragment `g` occurs in one of `chains`.
pub open spec fn in_chains(chains: Seq<Seq<int>>, g: int) -> bool {
    exists|r: int, i: int| 0 <= r < chains.len() && 0 <= i < chains[r].len() && #[trigger] chains[r][i] == g
}

/// No fragment occurs twice in `chains`.
pub open spec fn disjoint_chains(chains: Seq<Seq<int>>) -> bool {
    forall|r1: int, i1: int, r2: int, i2: int|
        0 <= r1 < chains.len() && 0 <= i1 < chains[r1].len() && 0 <= r2 < chains.len() && 0 <= i2 < chains[r2].len()
            && (r1 != r2 || i1 != i2) ==> #[trigger] chains[r1][i1] != #[trigger] chains[r2][i2]
}

/// Fragment `g` starts where fragment `f` ends.
pub open spec fn follows(cs: Seq<Coastline>, f: int, g: int) -> bool {
    0 <= g < cs.len() && cs[g].first == cs[f].last
}

/// No two fragments start at the same node.
pub open spec fn firsts_distinct(cs: Seq<Coastline>) -> bool {
    forall|i: int, j: int| 0 <= i < j < cs.len() ==> cs[i].first != cs[j].first
}

/// `rings` are walked along `chains`, which use every fragment exactly once;
/// each walk starts at the first fragment that no earlier walk used, and ends
/// where its next fragment is missing or already used by this ring or an
/// earlier one.
pub open spec fn is_assembly(cs: Seq<Coastline>, chains: Seq<Seq<int>>, rings: Seq<Seq<i64>>) -> bool {
    &&& chains.len() == rings.len()
    &&& forall|r: int| 0 <= r < chains.len() ==> is_chain(cs, #[trigger] chains[r]) && rings[r] == ring_of(cs, chains[r])
    &&& forall|g: int| 0 <= g < cs.len() ==> in_chains(chains, g)
    &&& disjoint_chains(chains)
    &&& forall|r: int, g: int|
        0 <= r < chains.len() && #[trigger] follows(cs, chains[r].last(), g) ==> in_chains(#[trigger] chains.subrange(0, r + 1), g)
    &&& forall|r: int, g: int| 0 <= r < chains.len() && 0 <= g < chains[r][0] ==> #[trigger] in_chains(chains.subrange(0, r), g)
}

/// The node id sequences of `rings`.
pub open spec fn ring_views(rings: Seq<Vec<i64>>) -> Seq<Seq<i64>> {
    rings.map_values(|r: Vec<i64>| r@)
}

/// Ring is closed: non-empty, and its first node id is its last.
pub open spec fn is_closed(ring: Seq<i64>) -> bool {
    ring.len() > 0 && ring[0] == ring.last()
}

proof fn lemma_in_chains_push(chains: Seq<Seq<int>>, ch: Seq<int>, g: int)
    ensures
        in_chains(chains.push(ch), g) <==> (in_chains(chains, g) || ch.contains(g)),
{
    let c2 = chains.push(ch);
    if in_chains(c2, g) {
        let (r, i) = choose|r: int, i: int| 0 <= r < c2.len() && 0 <= i < c2[r].len() && #[trigger] c2[r][i] == g;
        if r < chains.len() {
            assert(chains[r][i] == g);
        } else {
            assert(ch[i] == g);
        }
    }
    if in_chains(chains, g) {
        let (r, i) = choose|r: int, i: int| 0 <= r < chains.len() && 0 <= i < chains[r].len() && #[trigger] chains[r][i] == g;
        assert(c2[r][i] == g);
    }
    if ch.contains(g) {
        let i = choose|i: int| 0 <= i < ch.len() && ch[i] == g;
        assert(c2[chains.len() as int][i] == g);
    }
}

/// Number of fragments not yet used.
spec fn unused_count(v: Seq<bool>) -> nat
    decreases v.len(),
{
    if v.len() == 0 {
        0
    } else {
        unused_count(v.drop_last()) + if v.last() {
            0nat
        } else {
            1nat
        }
    }
}

proof fn lemma_unused_update(v: Seq<bool>, x: int)
    requires
        0 <= x < v.len(),
        !v[x],
    ensures
        unused_count(v.update(x, true)) + 1 == unused_count(v),
    decreases v.len(),
{
    let e = v.update(x, true);
    if x == v.len() - 1 {
        assert(e.drop_last() =~= v.drop_last());
    } else {
        assert(e.drop_last() =~= v.drop_last().update(x, true));
        lemma_unused_update(v.drop_last(), x);
    }
}

/// Appends the tail of `c` to `ring`.
fn append_tail(ring: &mut Vec<i64>, c: &Coastline)
    ensures
        final(ring)@ == old(ring)@ + tail(*c),
{
    let nodes = &c.nodes;
    let mut j: usize = 1;
    let ghost start = ring@;
    if nodes.len() == 0 {
        assert(ring@ =~= start + tail(*c));
        return;
    }
    while j < nodes.len()
        invariant
            1 <= j <= nodes@.len(),
            nodes == &c.nodes,
            ring@ =~= start + nodes@.subrange(1, j as int),
        decreases nodes@.len() - j,
    {
        ring.push(nodes[j]);
        j += 1;
    }
}


/// `m` maps the first node id of each fragment of `cs` to its position.
spec fn index_ok(m: Map<i64, usize>, cs: Seq<Coastline>) -> bool {
    &&& forall|g: int| 0 <= g < cs.len() ==> m.contains_key(#[trigger] cs[g].first) && m[cs[g].first] == g
    &&& forall|key: i64| #[trigger] m.contains_key(key) ==> m[key] < cs.len() && cs[m[key] as int].first == key
}

/// Index from each fragment's first node id to the fragment.
fn index_by_first(coastlines: &Vec<Coastline>) -> (index: HashMap<i64, usize>)
    requires
        firsts_distinct(coastlines@),
    ensures
        index_ok(index@, coastlines@),
{
    let mut index: HashMap<i64, usize> = HashMap::new();
    let mut k: usize = 0;
    while k < coastlines.len()
        invariant
            firsts_distinct(coastlines@),
            k <= coastlines@.len(),
            forall|g: int| 0 <= g < k ==> index@.contains_key(#[trigger] coastlines@[g].first) && index@[coastlines@[g].first] == g,
            forall|key: i64|
                #[trigger] index@.contains_key(key) ==> index@[key] < k && coastlines@[index@[key] as int].first == key,
        decreases coastlines@.len() - k,
    {
        index.insert(coastlines[k].first, k);
        proof {
            assert forall|g: int| 0 <= g < k + 1 implies index@.contains_key(#[trigger] coastlines@[g].first)
                && index@[coastlines@[g].first] == g by {
                if g < k {
                    assert(coastlines@[g].first != coastlines@[k as int].first);
                }
            }
        }
        k += 1;
    }
    index
}

/// Walks the fragments into rings: from each unused fragment, follow the
/// fragment that starts where the current one ends, until the next one is
/// missing (the ring stays open) or already used (the ring has closed).
pub fn merge_ways_to_polygons(coastlines: &Vec<Coastline>) -> (rings: Vec<Vec<i64>>)
    requires
        firsts_distinct(coastlines@),
    ensures
        exists|chains: Seq<Seq<int>>| #[trigger] is_assembly(coastlines@, chains, ring_views(rings@)),
{
    let n = coastlines.len();
    let index = index_by_first(coastlines);
    assert(index_ok(index@, coastlines@));
    let mut visited: Vec<bool> = vec![false; n];
    let mut rings: Vec<Vec<i64>> = Vec::new();
    let ghost cs = coastlines@;
    let ghost mut chains: Seq<Seq<int>> = seq![];
    let mut f: usize = 0;
    while f < n
        invariant
            n == cs.len(),
            cs == coastlines@,
            f <= n,
            visited@.len() == n,
            index_ok(index@, cs),
            chains.len() == rings@.len(),
            forall|r: int| 0 <= r < chains.len() ==> is_chain(cs, #[trigger] chains[r]) && rings@[r]@ == ring_of(cs, chains[r]),
            forall|g: int| 0 <= g < n ==> (#[trigger] visited@[g] <==> in_chains(chains, g)),
            forall|g: int| 0 <= g < f ==> #[trigger] visited@[g],
            disjoint_chains(chains),
            forall|r: int, g: int|
                0 <= r < chains.len() && #[trigger] follows(cs, chains[r].last(), g) ==> in_chains(#[trigger] chains.subrange(0, r + 1), g),
            forall|r: int, g: int| 0 <= r < chains.len() && 0 <= g < chains[r][0] ==> #[trigger] in_chains(chains.subrange(0, r), g),
        decreases n - f,
    {
        if !visited[f] {
            let mut ring: Vec<i64> = vec![coastlines[f].first];
            let ghost mut ch: Seq<int> = seq![];
            let mut cur: usize = f;
            proof {
                assert(ring@ =~= seq![cs[f as int].first] + chain_nodes(cs, ch));
                assert forall|g: int| 0 <= g < n implies (#[trigger] visited@[g] <==> (in_chains(chains, g) || ch.contains(g))) by {
                    assert(!ch.contains(g));
                }
                assert forall|g: int| 0 <= g < f implies in_chains(chains, g) by {
                    assert(visited@[g]);
                }
            }
            loop
                invariant_except_break
                    !visited@[cur as int],
                    ch.len() == 0 ==> cur == f,
                    ch.len() > 0 ==> cs[ch.last()].last == cs[cur as int].first,
                invariant
                    n == cs.len(),
                    cs == coastlines@,
                    f < n,
                    cur < n,
                    visited@.len() == n,
                    index_ok(index@, cs),
                    ch.len() > 0 ==> ch[0] == f && is_chain(cs, ch),
                    ring@ == seq![cs[f as int].first] + chain_nodes(cs, ch),
                    forall|g: int| 0 <= g < n ==> (#[trigger] visited@[g] <==> (in_chains(chains, g) || ch.contains(g))),
                    forall|g: int| 0 <= g < f ==> #[trigger] visited@[g],
                    forall|g: int| 0 <= g < f ==> in_chains(chains, g),
                    forall|i: int| 0 <= i < ch.len() ==> 0 <= #[trigger] ch[i] < n,
                    ch.no_duplicates(),
                    forall|i: int| 0 <= i < ch.len() ==> !in_chains(chains, #[trigger] ch[i]),
                ensures
                    forall|g: int| 0 <= g < f ==> in_chains(chains, g),
                    ch.len() > 0,
                    ch[0] == f,
                    is_chain(cs, ch),
                    ring@ == ring_of(cs, ch),
                    visited@.len() == n,
                    forall|g: int| 0 <= g < n ==> (#[trigger] visited@[g] <==> (in_chains(chains, g) || ch.contains(g))),
                    forall|g: int| 0 <= g <= f ==> #[trigger] visited@[g],
                    forall|i: int| 0 <= i < ch.len() ==> 0 <= #[trigger] ch[i] < n,
                    ch.no_duplicates(),
                    forall|i: int| 0 <= i < ch.len() ==> !in_chains(chains, #[trigger] ch[i]),
                    forall|g: int| #[trigger] follows(cs, ch.last(), g) ==> in_chains(chains, g) || ch.contains(g),
                decreases unused_count(visited@),
            {
                append_tail(&mut ring, &coastlines[cur]);
                proof {
                    let nch = ch.push(cur as int);
                    assert(nch.drop_last() =~= ch);
                    assert(ring@ =~= seq![cs[f as int].first] + chain_nodes(cs, nch));
                    lemma_unused_update(visited@, cur as int);
                    assert forall|i: int| 0 <= i < nch.len() - 1 implies cs[#[trigger] nch[i]].last == cs[nch[i + 1]].first by {
                        if i < ch.len() - 1 {
                            assert(nch[i] == ch[i] && nch[i + 1] == ch[i + 1]);
                        }
                    }
                    assert(!ch.contains(cur as int));
                    assert(!in_chains(chains, cur as int));
                    assert forall|i: int| 0 <= i < nch.len() implies !in_chains(chains, #[trigger] nch[i]) by {
                        if i < ch.len() {
                            assert(nch[i] == ch[i]);
                        }
                    }
                    ch = nch;
                }
                visited.set(cur, true);
                proof {
                    assert forall|g: int| 0 <= g < n implies (#[trigger] visited@[g] <==> (in_chains(chains, g) || ch.contains(g))) by {
                        if g == cur {
                            assert(ch[ch.len() - 1] == g);
                        } else {
                            assert(ch.drop_last().contains(g) <==> ch.contains(g)) by {
                                if ch.contains(g) {
                                    let i = choose|i: int| 0 <= i < ch.len() && ch[i] == g;
                                    assert(ch.drop_last()[i] == g);
                                }
                            }
                        }
                    }
                }
                match index.get(&coastlines[cur].last) {
                    None => {
                        proof {
                            assert forall|g: int| #[trigger] follows(cs, ch.last(), g) implies in_chains(chains, g) || ch.contains(g) by {
                                assert(index@.contains_key(cs[g].first));
                            }
                        }
                        break;
                    },
                    Some(nx) => {
                        let nx = *nx;
                        proof {
                            assert(index@.contains_key(cs[cur as int].last));
                            assert(index@[cs[cur as int].last] == nx);
                        }
                        if visited[nx] {
                            proof {
                                assert forall|g: int| #[trigger] follows(cs, ch.last(), g) implies in_chains(chains, g) || ch.contains(g) by {
                                    assert(index@.contains_key(cs[g].first));
                                    assert(g == nx);
                                    assert(visited@[g]);
                                }
                            }
                            break;
                        }
                        cur = nx;
                    },
                }
            }
            proof {
                let old_chains = chains;
                let nchains = chains.push(ch);
                assert forall|g: int| 0 <= g < n implies (#[trigger] visited@[g] <==> in_chains(nchains, g)) by {
                    lemma_in_chains_push(chains, ch, g);
                }
                assert forall|r1: int, i1: int, r2: int, i2: int|
                    0 <= r1 < nchains.len() && 0 <= i1 < nchains[r1].len() && 0 <= r2 < nchains.len() && 0 <= i2 < nchains[r2].len()
                        && (r1 != r2 || i1 != i2) implies #[trigger] nchains[r1][i1] != #[trigger] nchains[r2][i2] by {
                    let last = chains.len() as int;
                    if r1 == last && r2 == last {
                        assert(nchains[r1] == ch);
                        assert(ch[i1] != ch[i2]);
                    } else if r1 == last {
                        assert(nchains[r2][i2] == chains[r2][i2]);
                        assert(nchains[r1] == ch);
                        assert(!in_chains(chains, ch[i1]));
                    } else if r2 == last {
                        assert(nchains[r1][i1] == chains[r1][i1]);
                        assert(nchains[r2] == ch);
                        assert(!in_chains(chains, ch[i2]));
                    } else {
                        assert(nchains[r1][i1] == chains[r1][i1]);
                        assert(nchains[r2][i2] == chains[r2][i2]);
                    }
                }
                assert forall|r: int, g: int|
                    0 <= r < nchains.len() && #[trigger] follows(cs, nchains[r].last(), g) implies in_chains(#[trigger] nchains.subrange(0, r + 1), g) by {
                    if r < chains.len() {
                        assert(nchains.subrange(0, r + 1) =~= chains.subrange(0, r + 1));
                    } else {
                        assert(nchains.subrange(0, r + 1) =~= nchains);
                        lemma_in_chains_push(chains, ch, g);
                    }
                }
                assert forall|r: int, g: int| 0 <= r < nchains.len() && 0 <= g < nchains[r][0] implies #[trigger] in_chains(nchains.subrange(0, r), g) by {
                    if r < chains.len() {
                        assert(nchains.subrange(0, r) =~= chains.subrange(0, r));
                    } else {
                        assert(nchains.subrange(0, r) =~= chains);
                        assert(nchains[r] == ch);
                        assert(g < f);
                    }
                }
                chains = nchains;
            }
            rings.push(ring);
        }
        f += 1;
    }
    proof {
        let views = ring_views(rings@);
        assert forall|g: int| 0 <= g < cs.len() implies in_chains(chains, g) by {
            assert(visited@[g]);
        }
        assert(is_assembly(cs, chains, views));
    }
    rings
}


/// Number of closed rings among `rings`.
pub open spec fn closed_count(rings: Seq<Seq<i64>>) -> nat
    decreases rings.len(),
{
    if rings.len() == 0 {
        0
    } else {
        closed_count(rings.drop_last()) + if is_closed(rings.last()) {
            1nat
        } else {
            0nat
        }
    }
}

/// How many of `polygons` are closed.
pub fn closed_polygons_count(polygons: &Vec<Vec<i64>>) -> (r: usize)
    ensures
        r == closed_count(ring_views(polygons@)),
{
    let mut count: usize = 0;
    let mut i: usize = 0;
    while i < polygons.len()
        invariant
            i <= polygons@.len(),
            count == closed_count(ring_views(polygons@.subrange(0, i as int))),
            count <= i,
        decreases polygons@.len() - i,
    {
        let ring = &polygons[i];
        proof {
            let views = ring_views(polygons@.subrange(0, i + 1));
            assert(views.drop_last() =~= ring_views(polygons@.subrange(0, i as int)));
            assert(views.last() == ring@);
        }
        if ring.len() > 0 && ring[0] == ring[ring.len() - 1] {
            count += 1;
        }
        i += 1;
    }
    proof {
        assert(polygons@.subrange(0, polygons@.len() as int) =~= polygons@);
    }
    count
}

/// Whether every one of `polygons` is closed.
pub fn check_polygons_closed(polygons: &Vec<Vec<i64>>) -> (r: bool)
    ensures
        r == (forall|i: int| 0 <= i < polygons@.len() ==> is_closed(#[trigger] polygons@[i]@)),
{
    let mut i: usize = 0;
    while i < polygons.len()
        invariant
            i <= polygons@.len(),
            forall|j: int| 0 <= j < i ==> is_closed(#[trigger] polygons@[j]@),
        decreases polygons@.len() - i,
    {
        let ring = &polygons[i];
        if !(ring.len() > 0 && ring[0] == ring[ring.len() - 1]) {
            return false;
        }
        i += 1;
    }
    true
}

/// Orders rings by node count, largest first.
pub fn sort_rings_by_size(rings: Vec<Vec<i64>>) -> (r: Vec<Vec<i64>>)
    ensures
        r@.to_multiset() == rings@.to_multiset(),
        forall|i: int, j: int| 0 <= i < j < r@.len() ==> (#[trigger] r@[i])@.len() >= (#[trigger] r@[j])@.len(),
{
    broadcast use vstd::multiset::group_multiset_axioms;
    broadcast use vstd::seq_lib::group_to_multiset_ensures;
    let ghost all = rings@;
    let mut rest = rings;
    let mut out: Vec<Vec<i64>> = Vec::new();
    proof {
        assert forall|a: Vec<i64>| out@.to_multiset().count(a) == 0 by {
            assert(!out@.contains(a));
        }
        assert(out@.to_multiset() =~= vstd::multiset::Multiset::<Vec<i64>>::empty());
        assert(out@.to_multiset().add(rest@.to_multiset()) =~= all.to_multiset());
    }
    while rest.len() > 0
        invariant
            out@.to_multiset().add(rest@.to_multiset()) == all.to_multiset(),
            forall|i: int, j: int| 0 <= i < j < out@.len() ==> (#[trigger] out@[i])@.len() >= (#[trigger] out@[j])@.len(),
            forall|i: int, k: int| 0 <= i < out@.len() && 0 <= k < rest@.len() ==> (#[trigger] out@[i])@.len() >= (#[trigger] rest@[k])@.len(),
        decreases rest@.len(),
    {
        let mut best: usize = 0;
        let mut k: usize = 1;
        while k < rest.len()
            invariant
                1 <= k <= rest@.len(),
                best < k,
                forall|j: int| 0 <= j < k ==> (#[trigger] rest@[j])@.len() <= rest@[best as int]@.len(),
            decreases rest@.len() - k,
        {
            if rest[k].len() > rest[best].len() {
                best = k;
            }
            k += 1;
        }
        let ghost rest0 = rest@;
        let ghost out0 = out@;
        let x = rest.remove(best);
        out.push(x);
        proof {
            vstd::seq_lib::to_multiset_remove(rest0, best as int);
            vstd::seq_lib::to_multiset_build(out0, x);
            assert(rest0.to_multiset().count(x) > 0) by {
                vstd::seq_lib::to_multiset_contains(rest0, x);
            }
            assert(out@.to_multiset().add(rest@.to_multiset()) =~= out0.to_multiset().add(rest0.to_multiset()));
            assert forall|i: int, j: int| 0 <= i < j < out@.len() implies (#[trigger] out@[i])@.len() >= (#[trigger] out@[j])@.len() by {
                if j == out@.len() - 1 {
                    assert(out@[i] == out0[i]);
                    assert(out@[j] == rest0[best as int]);
                } else {
                    assert(out@[i] == out0[i] && out@[j] == out0[j]);
                }
            }
            assert forall|i: int, m: int| 0 <= i < out@.len() && 0 <= m < rest@.len() implies (#[trigger] out@[i])@.len() >= (#[trigger] rest@[m])@.len() by {
                let m0 = if m < best { m } else { m + 1 };
                assert(rest@[m] == rest0[m0]);
                if i < out0.len() {
                    assert(out@[i] == out0[i]);
                } else {
                    assert(out@[i] == rest0[best as int]);
                }
            }
        }
    }
    proof {
        assert forall|a: Vec<i64>| rest@.to_multiset().count(a) == 0 by {
            assert(!rest@.contains(a));
        }
        assert(rest@.to_multiset() =~= vstd::multiset::Multiset::<Vec<i64>>::empty());
        assert(out@.to_multiset() =~= out@.to_multiset().add(rest@.to_multiset()));
    }
    out
}


/// The locations of the node ids of `ring` that `m` knows, in ring order;
/// ids without a location are left out.
pub open spec fn resolved<C>(ring: Seq<i64>, m: Map<i64, C>) -> Seq<C>
    decreases ring.len(),
{
    if ring.len() == 0 {
        Seq::empty()
    } else {
        let rest = resolved(ring.drop_last(), m);
        if m.contains_key(ring.last()) {
            rest.push(m[ring.last()])
        } else {
            rest
        }
    }
}

/// Looks up the location of each node id of `ring`, skipping unknown ids.
pub fn append_coords_from_map_for_nodes<C: Copy>(node_to_location: &HashMap<i64, C>, ring: &Vec<i64>) -> (r: Vec<C>)
    ensures
        r@ == resolved(ring@, node_to_location@),
{
    let mut out: Vec<C> = Vec::new();
    let mut i: usize = 0;
    while i < ring.len()
        invariant
            i <= ring@.len(),
            out@ == resolved(ring@.subrange(0, i as int), node_to_location@),
        decreases ring@.len() - i,
    {
        proof {
            assert(ring@.subrange(0, i + 1).drop_last() =~= ring@.subrange(0, i as int));
        }
        match node_to_location.get(&ring[i]) {
            Some(c) => out.push(*c),
            None => {},
        }
        i += 1;
    }
    proof {
        assert(ring@.subrange(0, ring@.len() as int) =~= ring@);
    }
    out
}


/// The fragments form disjoint cycles: each ends where exactly one fragment
/// starts, no two end at the same node, and each lists at least two nodes,
/// the last being its end.
pub open spec fn disjoint_cycles(cs: Seq<Coastline>) -> bool {
    &&& firsts_distinct(cs)
    &&& forall|i: int, j: int| 0 <= i < j < cs.len() ==> cs[i].last != cs[j].last
    &&& forall|f: int| #![trigger cs[f]] 0 <= f < cs.len() ==> exists|g: int| #[trigger] follows(cs, f, g)
    &&& forall|f: int|
        0 <= f < cs.len() ==> (#[trigger] cs[f]).nodes@.len() >= 2 && cs[f].nodes@.last() == cs[f].last
}

/// On disjoint cycles, the fragment after the end of each walk is its start.
proof fn lemma_walk_returns(cs: Seq<Coastline>, chains: Seq<Seq<int>>, rings: Seq<Seq<i64>>, r: int)
    requires
        is_assembly(cs, chains, rings),
        disjoint_cycles(cs),
        0 <= r < chains.len(),
    ensures
        follows(cs, chains[r].last(), chains[r][0]),
    decreases r,
{
    let ch = chains[r];
    assert(is_chain(cs, ch));
    let m = ch.last();
    assert(ch[ch.len() - 1] == m);
    assert(0 <= m < cs.len());
    let cm = cs[m];
    assert(exists|g: int| #[trigger] follows(cs, m, g));
    let g = choose|g: int| #[trigger] follows(cs, m, g);
    let sub = chains.subrange(0, r + 1);
    assert(in_chains(sub, g));
    let (r2, i) = choose|r2: int, i: int| 0 <= r2 < sub.len() && 0 <= i < sub[r2].len() && #[trigger] sub[r2][i] == g;
    assert(sub[r2] == chains[r2]);
    assert(is_chain(cs, chains[r2]));
    if i > 0 {
        let p = chains[r2][i - 1];
        assert(cs[chains[r2][i - 1]].last == cs[chains[r2][i]].first);
        if p != m {
            if p < m {
                assert(cs[p].last != cs[m].last);
            } else {
                assert(cs[m].last != cs[p].last);
            }
        }
        assert(chains[r2][i - 1] == chains[r][ch.len() - 1]);
        assert(r2 == r && i - 1 == ch.len() - 1);
        assert(false);
    } else if r2 < r {
        lemma_walk_returns(cs, chains, rings, r2);
        let m2 = chains[r2].last();
        assert(chains[r2][chains[r2].len() - 1] == m2);
        if m2 != m {
            if m2 < m {
                assert(cs[m2].last != cs[m].last);
            } else {
                assert(cs[m].last != cs[m2].last);
            }
        }
        assert(chains[r2][chains[r2].len() - 1] == chains[r][ch.len() - 1]);
        assert(false);
    }
}

proof fn lemma_chain_nodes_last(cs: Seq<Coastline>, ch: Seq<int>)
    requires
        ch.len() >= 1,
        0 <= ch.last() < cs.len(),
        cs[ch.last()].nodes@.len() >= 2,
    ensures
        chain_nodes(cs, ch).len() >= 1,
        chain_nodes(cs, ch).last() == cs[ch.last()].nodes@.last(),
{
    let t = tail(cs[ch.last()]);
    assert(t.len() >= 1);
    assert(t.last() == cs[ch.last()].nodes@.last());
}

/// Where the fragments form disjoint cycles, every assembled ring is closed.
pub proof fn lemma_cycles_give_closed_rings(cs: Seq<Coastline>, chains: Seq<Seq<int>>, rings: Seq<Seq<i64>>)
    requires
        is_assembly(cs, chains, rings),
        disjoint_cycles(cs),
    ensures
        forall|r: int| 0 <= r < rings.len() ==> is_closed(#[trigger] rings[r]),
{
    assert forall|r: int| 0 <= r < rings.len() implies is_closed(#[trigger] rings[r]) by {
        lemma_walk_returns(cs, chains, rings, r);
        let ch = chains[r];
        assert(is_chain(cs, ch));
        assert(ch[ch.len() - 1] == ch.last());
        assert(cs[ch.last()].nodes@.len() >= 2);
        lemma_chain_nodes_last(cs, ch);
        assert(rings[r] == ring_of(cs, ch));
    }
}

} // verus!
