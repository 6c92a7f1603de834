//! Building a graph from raw (source label, target label) records.

use vstd::prelude::*;

verus! {

use crate::graph::Graph;
use crate::intern::Interner;
use crate::intern::intern_result;

/// Why a load failed.
#[derive(Clone, Copy, Debug, PartialEq, Eq, Structural)]
pub enum LoadError {
    /// A record had fewer than two fields.
    MissingField,
}

/// A record is usable when it has at least a source and a target field.
pub open spec fn record_well_formed(rec: Seq<Seq<char>>) -> bool {
    rec.len() >= 2
}

/// Label table and edge set after loading the first `k` records: each step
/// interns the record's source label, then its target label, and inserts
/// the edge between the two ids.
pub open spec fn load_state(recs: Seq<Seq<Seq<char>>>, k: int) -> (Seq<Seq<char>>, Set<(int, int)>)
    decreases k,
{
    if k <= 0 {
        (Seq::empty(), Set::empty())
    } else {
        let prev = load_state(recs, k - 1);
        let r1 = intern_result(prev.0, recs[k - 1][0]);
        let r2 = intern_result(r1.0, recs[k - 1][1]);
        (r2.0, prev.1.insert((r1.1, r2.1)))
    }
}

/// Build the graph described by `records`.
///
/// Fields `0` and `1` of each record are the source and target labels.
/// Labels are interned to dense ids in first-seen order, the source field
/// of a record before its target field, and one edge is inserted per
/// record; an edge inserted twice does not duplicate.  A record with fewer
/// than two fields fails the whole load: no partial graph is returned.
pub fn load_graph(records: &Vec<Vec<String>>) -> (r: Result<(Graph, Interner), LoadError>)
    ensures
        match r {
            Ok(p) => ({
                let st = load_state(records.deep_view(), records@.len() as int);
                &&& forall|i: int|
                    0 <= i < records@.len() ==> record_well_formed(
                        #[trigger] records.deep_view()[i],
                    )
                &&& p.1.wf()
                &&& p.1@ == st.0
                &&& p.0.wf()
                &&& p.0.node_count_spec() == st.0.len()
                &&& forall|u: int, v: int| #[trigger] p.0.edge(u, v) <==> st.1.contains((u, v))
                &&& p.0.edge_count_spec() == st.1.len()
            }),
            Err(e) => {
                &&& exists|i: int|
                    0 <= i < records@.len() && !record_well_formed(
                        #[trigger] records.deep_view()[i],
                    )
                &&& e == LoadError::MissingField
            },
        },
{
    let mut g = Graph::new();
    let mut it = Interner::new();
    let ghost rv = records.deep_view();
    let mut i: usize = 0;
    while i < records.len()
        invariant
            rv == records.deep_view(),
            i <= records@.len(),
            it.wf(),
            g.wf(),
            it@ == load_state(rv, i as int).0,
            g.node_count_spec() == it@.len(),
            forall|u: int, v: int| #[trigger] g.edge(u, v) <==> load_state(
                rv,
                i as int,
            ).1.contains((u, v)),
            g.edge_count_spec() == load_state(rv, i as int).1.len(),
            load_state(rv, i as int).1.finite(),
            g.edge_count_spec() <= i,
            forall|k: int| 0 <= k < i ==> record_well_formed(#[trigger] rv[k]),
        decreases records@.len() - i,
    {
        let rec = &records[i];
        if rec.len() < 2 {
            proof {
                assert(rv[i as int].len() == records@[i as int]@.len());
                assert(!record_well_formed(rv[i as int]));
            }
            return Err(LoadError::MissingField);
        }
        let ghost st_pre = load_state(rv, i as int);
        let ghost l_src = rv[i as int][0];
        let ghost l_tgt = rv[i as int][1];
        proof {
            assert(l_src == records@[i as int]@[0]@);
            assert(l_tgt == records@[i as int]@[1]@);
        }
        let s = it.intern(&rec[0]);
        let ghost r1 = intern_result(st_pre.0, l_src);
        proof {
            assert((it@, s as int) == r1);
        }
        if s == g.node_count() {
            g.add_node();
        }
        let t = it.intern(&rec[1]);
        let ghost r2 = intern_result(r1.0, l_tgt);
        proof {
            assert((it@, t as int) == r2);
        }
        if t == g.node_count() {
            g.add_node();
        }
        proof {
            assert(s < g.node_count_spec());
            assert(t < g.node_count_spec());
            assert(g.edge_count_spec() < usize::MAX);
        }
        let ghost g_pre_edge = g;
        g.add_edge(s, t);
        proof {
            let st_post = load_state(rv, i as int + 1);
            assert(st_post.0 == r2.0);
            assert(st_post.1 == st_pre.1.insert((s as int, t as int)));
            assert(it@ == st_post.0);
            assert forall|u: int, v: int| #[trigger] g.edge(u, v) <==> st_post.1.contains(
                (u, v),
            ) by {
                assert(g.edge(u, v) <==> (g_pre_edge.edge(u, v) || (u == s as int && v
                    == t as int)));
                assert(g_pre_edge.edge(u, v) <==> st_pre.1.contains((u, v)));
            }
            if st_pre.1.contains((s as int, t as int)) {
                assert(g_pre_edge.edge(s as int, t as int));
                assert(st_post.1 =~= st_pre.1);
            } else {
                assert(!g_pre_edge.edge(s as int, t as int));
                assert(st_post.1.len() == st_pre.1.len() + 1);
            }
            assert(g.edge_count_spec() == st_post.1.len());
            assert(st_post.1.finite());
        }
        i = i + 1;
    }
    proof {
        assert(i == records@.len());
    }
    Ok((g, it))
}

} // verus!
