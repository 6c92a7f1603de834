//! The two node statistics: the out-degree distribution and the
//! distance-2 reach-count distribution.

use vstd::prelude::*;

verus! {

use crate::graph::Graph;
use crate::graph::ids_of;
use crate::graph::lemma_id_set_len_bound;
use crate::graph::lemma_ids_of_contains;
use crate::graph::lemma_ids_of_len;
use crate::graph::lemma_ids_of_push;
use crate::graph::vec_contains;
use crate::hist::histogram_from_values;
use crate::hist::is_histogram_of;
use crate::hist::nat_values;
use crate::hist::sum_counts;

/// The out-degree of every node, by node id.
pub open spec fn degree_seq(g: Graph) -> Seq<nat> {
    Seq::new(g.node_count_spec(), |u: int| g.out_degree(u))
}

/// The distance-2 set of `u`: the nodes reachable from `u` through exactly
/// one intermediate node, excluding `u` itself and every direct successor
/// of `u` (a node both directly reachable and reachable in two hops does
/// not count).
pub open spec fn dist2_set(g: Graph, u: int) -> Set<int> {
    Set::new(
        |w: int|
            w != u && !g.edge(u, w) && exists|v: int| g.edge(u, v) && #[trigger] g.edge(v, w),
    )
}

/// The distance-2 reach-count of `u`: the size of its distance-2 set.
pub open spec fn dist2_count(g: Graph, u: int) -> nat {
    dist2_set(g, u).len()
}

/// The distance-2 reach-count of every node, by node id.
pub open spec fn dist2_seq(g: Graph) -> Seq<nat> {
    Seq::new(g.node_count_spec(), |u: int| dist2_count(g, u))
}

/// A node's distance-2 set never contains the node itself, nor any of its
/// direct successors: its reach-count counts neither.
pub proof fn lemma_dist2_excludes_self_and_successors(g: Graph, u: int)
    ensures
        !dist2_set(g, u).contains(u),
        forall|v: int| g.edge(u, v) ==> !dist2_set(g, u).contains(v),
{
}

/// Both distributions are pure functions of the graph: any two results
/// meeting `degree_distribution`'s contract for one graph are equal, and
/// likewise for `distance2_distribution`, so recomputing either
/// distribution from the same graph yields identical results.
pub proof fn lemma_distributions_deterministic(
    g: Graph,
    d1: Seq<(usize, usize)>,
    d2: Seq<(usize, usize)>,
    h1: Seq<(usize, usize)>,
    h2: Seq<(usize, usize)>,
)
    requires
        is_histogram_of(d1, degree_seq(g)),
        is_histogram_of(d2, degree_seq(g)),
        is_histogram_of(h1, dist2_seq(g)),
        is_histogram_of(h2, dist2_seq(g)),
    ensures
        d1 == d2,
        h1 == h2,
{
    crate::hist::lemma_histogram_unique(d1, d2, degree_seq(g));
    crate::hist::lemma_histogram_unique(h1, h2, dist2_seq(g));
}

/// Second-hop candidates found through the first `i` direct successors of
/// `u`, the node itself and its direct successors excluded.
spec fn d2_outer(g: Graph, u: int, i: int) -> Set<int> {
    Set::new(
        |w: int|
            w != u && !g.edge(u, w) && exists|k: int|
                0 <= k < i && #[trigger] g.edge(g.succ_seq(u)[k] as int, w),
    )
}

/// Second-hop candidates among the first `j` successors of the
/// intermediate node `v`, the node `u` and its direct successors excluded.
spec fn d2_inner(g: Graph, u: int, v: int, j: int) -> Set<int> {
    Set::new(
        |w: int|
            w != u && !g.edge(u, w) && exists|k: int|
                0 <= k < j && (#[trigger] g.succ_seq(v)[k]) as int == w,
    )
}

/// Collect the distance-2 set of `u` and return its size.
fn distance2_count_node(g: &Graph, u: usize) -> (c: usize)
    requires
        g.wf(),
        u < g.node_count_spec(),
    ensures
        c == dist2_count(*g, u as int),
        c <= g.node_count_spec(),
{
    proof {
        g.lemma_node_count_bound();
    }
    let mut sec: Vec<usize> = Vec::new();
    proof {
        assert(ids_of(sec@) =~= d2_outer(*g, u as int, 0));
    }
    let row1 = g.successors(u);
    let mut i: usize = 0;
    while i < row1.len()
        invariant
            g.wf(),
            u < g.node_count_spec(),
            row1@ == g.succ_seq(u as int),
            i <= row1@.len(),
            sec@.no_duplicates(),
            ids_of(sec@) == d2_outer(*g, u as int, i as int),
        decreases row1@.len() - i,
    {
        let v = row1[i];
        proof {
            g.lemma_wf_props();
            g.lemma_node_count_bound();
            assert(g.succ_seq(u as int)[i as int] < g.node_count_spec());
        }
        let row2 = g.successors(v);
        let mut j: usize = 0;
        proof {
            assert(d2_outer(*g, u as int, i as int).union(d2_inner(*g, u as int, v as int, 0))
                =~= d2_outer(*g, u as int, i as int));
        }
        while j < row2.len()
            invariant
                g.wf(),
                u < g.node_count_spec(),
                v < g.node_count_spec(),
                row1@ == g.succ_seq(u as int),
                row2@ == g.succ_seq(v as int),
                i < row1@.len(),
                row1@[i as int] == v,
                j <= row2@.len(),
                sec@.no_duplicates(),
                ids_of(sec@) == d2_outer(*g, u as int, i as int).union(
                    d2_inner(*g, u as int, v as int, j as int),
                ),
            decreases row2@.len() - j,
        {
            let w = row2[j];
            let ghost sec0 = sec@;
            let ghost inner0 = d2_inner(*g, u as int, v as int, j as int);
            let ghost inner1 = d2_inner(*g, u as int, v as int, j as int + 1);
            let mut fresh = false;
            if w != u && !g.has_edge(u, w) {
                if !vec_contains(&sec, w) {
                    sec.push(w);
                    fresh = true;
                }
            }
            proof {
                g.lemma_wf_props();
                g.lemma_node_count_bound();
                let wi = w as int;
                if w != u && !g.edge(u as int, wi) {
                    assert(inner1 =~= inner0.insert(wi)) by {
                        assert forall|x: int| inner1.contains(x) implies inner0.insert(
                            wi,
                        ).contains(x) by {
                            let k = choose|k: int|
                                0 <= k < j + 1 && (#[trigger] g.succ_seq(v as int)[k]) as int
                                    == x;
                            if k < j {
                                assert(inner0.contains(x));
                            }
                        }
                        assert forall|x: int| inner0.insert(wi).contains(x) implies inner1.contains(
                            x,
                        ) by {
                            if x == wi {
                                assert(g.succ_seq(v as int)[j as int] as int == x);
                            } else {
                                let k = choose|k: int|
                                    0 <= k < j && (#[trigger] g.succ_seq(v as int)[k]) as int
                                        == x;
                            }
                        }
                    }
                    if fresh {
                        lemma_ids_of_push(sec0, w);
                        assert(ids_of(sec@) =~= d2_outer(*g, u as int, i as int).union(inner1));
                    } else {
                        lemma_ids_of_contains(sec0, wi);
                        assert(ids_of(sec@).contains(wi));
                        assert(ids_of(sec@) =~= d2_outer(*g, u as int, i as int).union(inner1));
                    }
                } else {
                    assert(inner1 =~= inner0) by {
                        assert forall|x: int| inner1.contains(x) implies inner0.contains(x) by {
                            let k = choose|k: int|
                                0 <= k < j + 1 && (#[trigger] g.succ_seq(v as int)[k]) as int
                                    == x;
                            if k == j {
                                assert(x == wi);
                                assert(false);
                            }
                        }
                    }
                }
            }
            j = j + 1;
        }
        proof {
            g.lemma_wf_props();
            g.lemma_node_count_bound();
            let inner_full = d2_inner(*g, u as int, v as int, row2@.len() as int);
            let outer0 = d2_outer(*g, u as int, i as int);
            let outer1 = d2_outer(*g, u as int, i as int + 1);
            assert(outer1 =~= outer0.union(inner_full)) by {
                assert forall|x: int| outer1.contains(x) implies outer0.union(
                    inner_full,
                ).contains(x) by {
                    let k = choose|k: int|
                        0 <= k < i + 1 && #[trigger] g.edge(g.succ_seq(u as int)[k] as int, x);
                    if k < i {
                        assert(outer0.contains(x));
                    } else {
                        assert(g.edge(v as int, x));
                        let m = choose|m: int|
                            0 <= m < g.succ_seq(v as int).len() && g.succ_seq(v as int)[m]
                                == x as usize;
                        assert(g.succ_seq(v as int)[m] as int == x);
                        assert(inner_full.contains(x));
                    }
                }
                assert forall|x: int| outer0.union(inner_full).contains(x) implies outer1.contains(
                    x,
                ) by {
                    if outer0.contains(x) {
                        let k = choose|k: int|
                            0 <= k < i && #[trigger] g.edge(g.succ_seq(u as int)[k] as int, x);
                    } else {
                        let k = choose|k: int|
                            0 <= k < row2@.len() && (#[trigger] g.succ_seq(v as int)[k]) as int
                                == x;
                        assert(g.succ_seq(v as int).contains(x as usize));
                        assert(g.succ_seq(v as int)[k] < g.node_count_spec());
                        assert(g.edge(v as int, x));
                        assert(g.edge(g.succ_seq(u as int)[i as int] as int, x));
                    }
                }
            }
        }
        i = i + 1;
    }
    proof {
        g.lemma_wf_props();
        g.lemma_node_count_bound();
        let full = d2_outer(*g, u as int, row1@.len() as int);
        assert(dist2_set(*g, u as int) =~= full) by {
            assert forall|x: int| dist2_set(*g, u as int).contains(x) implies full.contains(x) by {
                let v = choose|v: int| g.edge(u as int, v) && #[trigger] g.edge(v, x);
                let k = choose|k: int|
                    0 <= k < g.succ_seq(u as int).len() && g.succ_seq(u as int)[k] == v as usize;
                assert(g.succ_seq(u as int)[k] as int == v);
                assert(g.edge(g.succ_seq(u as int)[k] as int, x));
            }
            assert forall|x: int| full.contains(x) implies dist2_set(*g, u as int).contains(x) by {
                let k = choose|k: int|
                    0 <= k < row1@.len() && #[trigger] g.edge(g.succ_seq(u as int)[k] as int, x);
                assert(g.succ_seq(u as int)[k] < g.node_count_spec());
                assert(g.edge(u as int, g.succ_seq(u as int)[k] as int));
            }
        }
        lemma_ids_of_len(sec@);
        assert forall|x: int| dist2_set(*g, u as int).contains(x) implies 0 <= x
            < g.node_count_spec() by {}
        lemma_id_set_len_bound(dist2_set(*g, u as int), g.node_count_spec());
    }
    sec.len()
}

/// The out-degree distribution: one `(degree, count)` entry per out-degree
/// value occurring in the graph, in strictly ascending order of degree,
/// counting the nodes of that degree; the counts sum to the node count.
pub fn degree_distribution(g: &Graph) -> (r: Vec<(usize, usize)>)
    requires
        g.wf(),
        g.node_count_spec() < usize::MAX,
    ensures
        is_histogram_of(r@, degree_seq(*g)),
        sum_counts(r@) == g.node_count_spec(),
{
    let n = g.node_count();
    let mut vals: Vec<usize> = Vec::new();
    let mut u: usize = 0;
    while u < n
        invariant
            g.wf(),
            n == g.node_count_spec(),
            u <= n,
            vals@.len() == u,
            forall|k: int| 0 <= k < u ==> (#[trigger] vals@[k]) == g.out_degree(k) && vals@[k]
                <= n,
        decreases n - u,
    {
        let c = g.successor_count(u);
        vals.push(c);
        u = u + 1;
    }
    let r = histogram_from_values(&vals, n);
    proof {
        assert(nat_values(vals@) =~= degree_seq(*g));
    }
    r
}

/// The distance-2 distribution: one `(reach-count, count)` entry per
/// distance-2 reach-count occurring in the graph, in strictly ascending
/// order of reach-count, counting the nodes exhibiting it; the counts sum
/// to the node count.
pub fn distance2_distribution(g: &Graph) -> (r: Vec<(usize, usize)>)
    requires
        g.wf(),
        g.node_count_spec() < usize::MAX,
    ensures
        is_histogram_of(r@, dist2_seq(*g)),
        sum_counts(r@) == g.node_count_spec(),
{
    let n = g.node_count();
    let mut vals: Vec<usize> = Vec::new();
    let mut u: usize = 0;
    while u < n
        invariant
            g.wf(),
            n == g.node_count_spec(),
            u <= n,
            vals@.len() == u,
            forall|k: int| 0 <= k < u ==> (#[trigger] vals@[k]) == dist2_count(*g, k) && vals@[k]
                <= n,
        decreases n - u,
    {
        let c = distance2_count_node(g, u);
        vals.push(c);
        u = u + 1;
    }
    let r = histogram_from_values(&vals, n);
    proof {
        assert(nat_values(vals@) =~= dist2_seq(*g));
    }
    r
}

} // verus!
