//! The directed graph over dense node ids that the statistics run on.

use vstd::prelude::*;

verus! {

use vstd::relations::injective;
use vstd::seq_lib::seq_to_set_is_finite;
use vstd::set_lib::lemma_int_range;
use vstd::set_lib::lemma_len_subset;
use vstd::set_lib::set_int_range;

/// The elements of `s`, read as mathematical integers.
pub open spec fn ids_of(s: Seq<usize>) -> Set<int> {
    s.map_values(|x: usize| x as int).to_set()
}

/// Membership in `ids_of(s)` is membership in `s`, up to the cast.
pub proof fn lemma_ids_of_contains(s: Seq<usize>, v: int)
    ensures
        ids_of(s).contains(v) <==> (0 <= v <= usize::MAX && s.contains(v as usize)),
{
    let f = (|x: usize| x as int);
    let m = s.map_values(f);
    if ids_of(s).contains(v) {
        assert(m.contains(v));
        let i = choose|i: int| 0 <= i < m.len() && m[i] == v;
        assert(s[i] == v as usize);
        assert(s.contains(v as usize));
    }
    if 0 <= v <= usize::MAX && s.contains(v as usize) {
        let i = choose|i: int| 0 <= i < s.len() && s[i] == v as usize;
        assert(m[i] == v);
        assert(m.contains(v));
    }
}

/// A duplicate-free sequence has as many elements as its id set.
pub proof fn lemma_ids_of_len(s: Seq<usize>)
    requires
        s.no_duplicates(),
    ensures
        ids_of(s).finite(),
        ids_of(s).len() == s.len(),
{
    broadcast use seq_to_set_is_finite;

    let f = (|x: usize| x as int);
    let m = s.map_values(f);
    assert(injective(f)) by {
        assert forall|x1: usize, x2: usize| #[trigger] f(x1) == #[trigger] f(x2) implies x1 == x2 by {}
    }
    s.lemma_no_duplicates_injective(f);
    m.unique_seq_to_set();
}

/// Appending an element to a sequence inserts its id into the id set.
pub proof fn lemma_ids_of_push(s: Seq<usize>, x: usize)
    ensures
        ids_of(s.push(x)) == ids_of(s).insert(x as int),
{
    let f = (|y: usize| y as int);
    assert(s.push(x).map_values(f) =~= s.map_values(f).push(x as int));
    let m = s.map_values(f);
    assert forall|v: int| m.push(x as int).to_set().contains(v) implies ids_of(s).insert(
        x as int,
    ).contains(v) by {
        let i = choose|i: int| 0 <= i < m.push(x as int).len() && m.push(x as int)[i] == v;
        if i < m.len() {
            assert(m[i] == v);
            assert(m.contains(v));
        }
    }
    assert forall|v: int| ids_of(s).insert(x as int).contains(v) implies m.push(
        x as int,
    ).to_set().contains(v) by {
        if v == x as int {
            assert(m.push(x as int)[m.len() as int] == v);
            assert(m.push(x as int).contains(v));
        } else {
            let i = choose|i: int| 0 <= i < m.len() && m[i] == v;
            assert(m.push(x as int)[i] == v);
            assert(m.push(x as int).contains(v));
        }
    }
    assert(ids_of(s.push(x)) =~= ids_of(s).insert(x as int));
}

/// A finite set of ids all below `n` has at most `n` elements.
pub proof fn lemma_id_set_len_bound(s: Set<int>, n: nat)
    requires
        forall|v: int| s.contains(v) ==> 0 <= v < n,
    ensures
        s.finite(),
        s.len() <= n,
{
    lemma_int_range(0, n as int);
    assert(s.subset_of(set_int_range(0, n as int)));
    lemma_len_subset(s, set_int_range(0, n as int));
}

/// Total length of a sequence of successor lists.
pub closed spec fn sum_lens(rows: Seq<Vec<usize>>) -> nat
    decreases rows.len(),
{
    if rows.len() == 0 {
        0
    } else {
        sum_lens(rows.drop_last()) + rows.last()@.len()
    }
}

proof fn lemma_sum_lens_push(rows: Seq<Vec<usize>>, r: Vec<usize>)
    ensures
        sum_lens(rows.push(r)) == sum_lens(rows) + r@.len(),
{
    assert(rows.push(r).drop_last() =~= rows);
}

proof fn lemma_sum_lens_update(rows: Seq<Vec<usize>>, u: int, r: Vec<usize>)
    requires
        0 <= u < rows.len(),
    ensures
        sum_lens(rows.update(u, r)) == sum_lens(rows) - rows[u]@.len() + r@.len(),
    decreases rows.len(),
{
    let rows2 = rows.update(u, r);
    if u == rows.len() - 1 {
        assert(rows2.drop_last() =~= rows.drop_last());
        assert(rows2.last() == r);
    } else {
        assert(rows2.drop_last() =~= rows.drop_last().update(u, r));
        assert(rows2.last() == rows.last());
        lemma_sum_lens_update(rows.drop_last(), u, r);
    }
}

/// A directed graph over node ids `0 .. node_count`.
///
/// Each node has a successor list holding its distinct direct successors, so
/// inserting an edge a second time leaves the graph unchanged.  Self-loops
/// are stored like any other edge.
#[derive(Debug)]
pub struct Graph {
    adj: Vec<Vec<usize>>,
    edges: usize,
}

impl Graph {
    /// Number of nodes.
    pub closed spec fn node_count_spec(self) -> nat {
        self.adj@.len()
    }

    /// The stored successor list of node `u`.
    pub closed spec fn succ_seq(self, u: int) -> Seq<usize> {
        self.adj@[u]@
    }

    /// The edge relation: there is an edge from `u` to `v`.
    pub open spec fn edge(self, u: int, v: int) -> bool {
        &&& 0 <= u < self.node_count_spec()
        &&& 0 <= v < self.node_count_spec()
        &&& self.succ_seq(u).contains(v as usize)
    }

    /// The set of direct successors of `u`.
    pub open spec fn succ_set(self, u: int) -> Set<int> {
        Set::new(|v: int| self.edge(u, v))
    }

    /// Number of distinct direct successors of `u`.
    pub open spec fn out_degree(self, u: int) -> nat {
        self.succ_set(u).len()
    }

    /// Number of distinct edges.
    pub closed spec fn edge_count_spec(self) -> nat {
        sum_lens(self.adj@)
    }

    /// Successor lists hold no duplicates, all their entries are node ids,
    /// and the edge counter agrees with the lists.
    pub closed spec fn wf(self) -> bool {
        &&& forall|u: int|
            0 <= u < self.adj@.len() ==> (#[trigger] self.adj@[u])@.no_duplicates()
        &&& forall|u: int, j: int|
            0 <= u < self.adj@.len() && 0 <= j < self.adj@[u]@.len()
                ==> (#[trigger] self.adj@[u]@[j]) < self.adj@.len()
        &&& self.edges == sum_lens(self.adj@)
    }

    /// What well-formedness says about the stored successor lists: no list
    /// holds a duplicate, and every entry is a node id.
    pub proof fn lemma_wf_props(self)
        requires
            self.wf(),
        ensures
            forall|u: int|
                0 <= u < self.node_count_spec() ==> (#[trigger] self.succ_seq(
                    u,
                )).no_duplicates(),
            forall|u: int, j: int|
                0 <= u < self.node_count_spec() && 0 <= j < self.succ_seq(u).len() ==> (
                #[trigger] self.succ_seq(u)[j]) < self.node_count_spec(),
    {
    }

    /// Node ids are `usize` values, so the node count fits in one.
    pub proof fn lemma_node_count_bound(self)
        ensures
            self.node_count_spec() <= usize::MAX,
    {
        vstd::std_specs::vec::axiom_spec_len(&self.adj);
    }

    /// The successor set of a node is its successor list, so its size is the
    /// list's length, and no node has more successors than there are nodes.
    pub proof fn lemma_out_degree(self, u: int)
        requires
            self.wf(),
            0 <= u < self.node_count_spec(),
        ensures
            self.succ_set(u).finite(),
            self.out_degree(u) == self.succ_seq(u).len(),
            self.out_degree(u) <= self.node_count_spec(),
    {
        self.lemma_node_count_bound();
        let row = self.succ_seq(u);
        assert forall|v: int| ids_of(row).contains(v) implies self.succ_set(u).contains(v) by {
            lemma_ids_of_contains(row, v);
            let i = choose|i: int| 0 <= i < row.len() && row[i] == v as usize;
            assert(row[i] < self.node_count_spec());
        }
        assert forall|v: int| self.succ_set(u).contains(v) implies ids_of(row).contains(v) by {
            lemma_ids_of_contains(row, v);
        }
        assert(self.succ_set(u) =~= ids_of(row));
        lemma_ids_of_len(row);
        assert forall|v: int| self.succ_set(u).contains(v) implies 0 <= v
            < self.node_count_spec() by {}
        lemma_id_set_len_bound(self.succ_set(u), self.node_count_spec());
    }

    /// An empty graph: no nodes, no edges.
    pub fn new() -> (g: Graph)
        ensures
            g.wf(),
            g.node_count_spec() == 0,
            g.edge_count_spec() == 0,
    {
        Graph { adj: Vec::new(), edges: 0 }
    }

    /// Number of nodes.
    pub fn node_count(&self) -> (n: usize)
        ensures
            n == self.node_count_spec(),
    {
        self.adj.len()
    }

    /// Number of distinct edges.
    pub fn edge_count(&self) -> (m: usize)
        requires
            self.wf(),
        ensures
            m == self.edge_count_spec(),
    {
        self.edges
    }

    /// Append a fresh isolated node and return its id.
    pub fn add_node(&mut self) -> (id: usize)
        requires
            old(self).wf(),
        ensures
            final(self).wf(),
            id == old(self).node_count_spec(),
            final(self).node_count_spec() == old(self).node_count_spec() + 1,
            final(self).edge_count_spec() == old(self).edge_count_spec(),
            forall|a: int, b: int| final(self).edge(a, b) <==> old(self).edge(a, b),
    {
        let id = self.adj.len();
        self.adj.push(Vec::new());
        proof {
            lemma_sum_lens_push(old(self).adj@, self.adj@[id as int]);
            assert forall|a: int, b: int| self.edge(a, b) <==> old(self).edge(a, b) by {
                if a != id && 0 <= a < self.adj@.len() {
                    assert(self.adj@[a] == old(self).adj@[a]);
                }
                if self.edge(a, b) {
                    assert(a != id) by {
                        assert(self.succ_seq(id as int).len() == 0);
                    }
                    if b == id {
                        let j = choose|j: int|
                            0 <= j < old(self).adj@[a]@.len() && old(self).adj@[a]@[j]
                                == b as usize;
                        assert(old(self).adj@[a]@[j] < old(self).adj@.len());
                        assert(false);
                    }
                }
            }
        }
        id
    }

    /// Does the graph contain the edge `u -> v`?
    pub fn has_edge(&self, u: usize, v: usize) -> (b: bool)
        requires
            self.wf(),
            u < self.node_count_spec(),
        ensures
            b == self.edge(u as int, v as int),
    {
        let row = &self.adj[u];
        let found = vec_contains(row, v);
        proof {
            if found {
                let j = choose|j: int| 0 <= j < row@.len() && row@[j] == v;
                assert(self.adj@[u as int]@[j] < self.adj@.len());
            }
        }
        found
    }

    /// The successor list of `u`; its entries are the distinct direct
    /// successors of `u`.
    pub fn successors(&self, u: usize) -> (row: &Vec<usize>)
        requires
            u < self.node_count_spec(),
        ensures
            row@ == self.succ_seq(u as int),
    {
        &self.adj[u]
    }

    /// The out-degree of `u`: its number of distinct direct successors.
    pub fn successor_count(&self, u: usize) -> (c: usize)
        requires
            self.wf(),
            u < self.node_count_spec(),
        ensures
            c == self.out_degree(u as int),
            c <= self.node_count_spec(),
    {
        proof {
            self.lemma_out_degree(u as int);
        }
        self.adj[u].len()
    }

    /// Insert the edge `u -> v`.  An edge already present is not duplicated;
    /// a fresh edge raises the edge count by one.
    pub fn add_edge(&mut self, u: usize, v: usize)
        requires
            old(self).wf(),
            u < old(self).node_count_spec(),
            v < old(self).node_count_spec(),
            old(self).edge_count_spec() < usize::MAX,
        ensures
            final(self).wf(),
            final(self).node_count_spec() == old(self).node_count_spec(),
            forall|a: int, b: int|
                final(self).edge(a, b) <==> (old(self).edge(a, b) || (a == u as int && b
                    == v as int)),
            final(self).edge_count_spec() == old(self).edge_count_spec() + (if old(self).edge(
                u as int,
                v as int,
            ) {
                0int
            } else {
                1int
            }),
    {
        let present = vec_contains(&self.adj[u], v);
        if !present {
            self.adj[u].push(v);
            self.edges = self.edges + 1;
            proof {
                old(self).lemma_node_count_bound();
                let old_row = old(self).adj@[u as int];
                let new_row = old_row@.push(v);
                assert(self.adj@ =~= old(self).adj@.update(u as int, self.adj@[u as int]));
                assert(self.adj@[u as int]@ =~= new_row);
                lemma_sum_lens_update(old(self).adj@, u as int, self.adj@[u as int]);
                assert forall|a: int, b: int|
                    self.edge(a, b) <==> (old(self).edge(a, b) || (a == u as int && b
                        == v as int)) by {
                    if a != u as int && 0 <= a < self.adj@.len() {
                        assert(self.adj@[a] == old(self).adj@[a]);
                    }
                    if a == u as int {
                        assert forall|w: usize| new_row.contains(w) implies old_row@.contains(w)
                            || w == v by {
                            let j = choose|j: int| 0 <= j < new_row.len() && new_row[j] == w;
                            if j < old_row@.len() {
                                assert(old_row@[j] == w);
                            }
                        }
                        assert(new_row[old_row@.len() as int] == v);
                        assert(new_row.contains(v));
                        assert forall|w: usize| old_row@.contains(w) implies new_row.contains(
                            w,
                        ) by {
                            let j = choose|j: int| 0 <= j < old_row@.len() && old_row@[j] == w;
                            assert(new_row[j] == w);
                        }
                    }
                }
            }
        } else {
            proof {
                assert(self.edge(u as int, v as int));
            }
        }
    }
}

/// Linear membership scan of a list of node ids.
pub(crate) fn vec_contains(row: &Vec<usize>, x: usize) -> (b: bool)
    ensures
        b == row@.contains(x),
{
    let mut i: usize = 0;
    while i < row.len()
        invariant
            i <= row@.len(),
            forall|k: int| 0 <= k < i ==> row@[k] != x,
        decreases row@.len() - i,
    {
        if row[i] == x {
            return true;
        }
        i = i + 1;
    }
    false
}

} // verus!
