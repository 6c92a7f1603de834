//! Histograms: ascending (value, count) summaries of per-node metrics.

use vstd::prelude::*;

verus! {

/// How many entries of `vals` equal `v`.
pub open spec fn count_eq(vals: Seq<nat>, v: nat) -> nat
    decreases vals.len(),
{
    if vals.len() == 0 {
        0
    } else {
        count_eq(vals.drop_last(), v) + (if vals.last() == v {
            1nat
        } else {
            0nat
        })
    }
}

/// Sum of the count components of a histogram.
pub open spec fn sum_counts(h: Seq<(usize, usize)>) -> int
    decreases h.len(),
{
    if h.len() == 0 {
        0
    } else {
        sum_counts(h.drop_last()) + h.last().1
    }
}

/// Entry values grow strictly from left to right: the entries are sorted
/// ascending and no value appears twice.
pub open spec fn strictly_ascending(h: Seq<(usize, usize)>) -> bool {
    forall|i: int, j: int| 0 <= i < j < h.len() ==> (#[trigger] h[i]).0 < (#[trigger] h[j]).0
}

/// Some entry of `h` is for the value `v`.
pub open spec fn has_value(h: Seq<(usize, usize)>, v: nat) -> bool {
    exists|i: int| 0 <= i < h.len() && (#[trigger] h[i]).0 as nat == v
}

/// `h` is the histogram of `vals`: one entry per distinct value occurring in
/// `vals`, in strictly ascending order of value, each entry carrying the
/// number of occurrences of its value.
pub open spec fn is_histogram_of(h: Seq<(usize, usize)>, vals: Seq<nat>) -> bool {
    &&& strictly_ascending(h)
    &&& forall|i: int|
        0 <= i < h.len() ==> (#[trigger] h[i]).1 == count_eq(vals, h[i].0 as nat) && h[i].1 >= 1
    &&& forall|v: nat| count_eq(vals, v) > 0 ==> has_value(h, v)
}

/// A value cannot occur more often than the sequence is long.
pub proof fn lemma_count_eq_le_len(vals: Seq<nat>, v: nat)
    ensures
        count_eq(vals, v) <= vals.len(),
    decreases vals.len(),
{
    if vals.len() > 0 {
        lemma_count_eq_le_len(vals.drop_last(), v);
    }
}

/// A value occurs at least once exactly when the sequence contains it.
pub proof fn lemma_count_eq_pos(vals: Seq<nat>, v: nat)
    ensures
        count_eq(vals, v) > 0 <==> vals.contains(v),
    decreases vals.len(),
{
    if vals.len() > 0 {
        lemma_count_eq_pos(vals.drop_last(), v);
        if vals.contains(v) {
            let i = choose|i: int| 0 <= i < vals.len() && vals[i] == v;
            if i < vals.len() - 1 {
                assert(vals.drop_last()[i] == v);
                assert(vals.drop_last().contains(v));
            }
        }
        if vals.drop_last().contains(v) {
            let i = choose|i: int| 0 <= i < vals.drop_last().len() && vals.drop_last()[i] == v;
            assert(vals[i] == v);
            assert(vals.contains(v));
        }
    }
}

/// Appending one value raises its count by one and no other count.
pub proof fn lemma_count_eq_push(vals: Seq<nat>, x: nat, v: nat)
    ensures
        count_eq(vals.push(x), v) == count_eq(vals, v) + (if x == v {
            1nat
        } else {
            0nat
        }),
{
    assert(vals.push(x).drop_last() =~= vals);
}

/// Appending one entry adds its count to the sum.
pub proof fn lemma_sum_counts_push(h: Seq<(usize, usize)>, e: (usize, usize))
    ensures
        sum_counts(h.push(e)) == sum_counts(h) + e.1,
{
    assert(h.push(e).drop_last() =~= h);
}

/// Sum of the first `k` entries of a tally.
pub open spec fn sum_prefix(t: Seq<usize>, k: int) -> int
    decreases k,
{
    if k <= 0 {
        0
    } else {
        sum_prefix(t, k - 1) + t[k - 1]
    }
}

proof fn lemma_sum_prefix_zero(t: Seq<usize>, k: int)
    requires
        0 <= k <= t.len(),
        forall|d: int| 0 <= d < t.len() ==> t[d] == 0,
    ensures
        sum_prefix(t, k) == 0,
    decreases k,
{
    if k > 0 {
        lemma_sum_prefix_zero(t, k - 1);
    }
}

proof fn lemma_sum_prefix_update(t: Seq<usize>, d: int, x: usize, k: int)
    requires
        0 <= d < t.len(),
        k <= t.len(),
    ensures
        sum_prefix(t.update(d, x), k) == sum_prefix(t, k) + (if d < k {
            x - t[d]
        } else {
            0int
        }),
    decreases k,
{
    if k > 0 {
        lemma_sum_prefix_update(t, d, x, k - 1);
    }
}

/// The elements of `s`, read as mathematical naturals.
pub open spec fn nat_values(s: Seq<usize>) -> Seq<nat> {
    s.map_values(|x: usize| x as nat)
}

/// Build the histogram of `vals`, whose values all lie in `0 ..= bound`.
///
/// The result pairs each distinct value with its number of occurrences, in
/// strictly ascending order of value; the counts sum to the number of
/// values tallied.
pub fn histogram_from_values(vals: &Vec<usize>, bound: usize) -> (r: Vec<(usize, usize)>)
    requires
        bound < usize::MAX,
        forall|k: int| 0 <= k < vals@.len() ==> vals@[k] <= bound,
    ensures
        is_histogram_of(r@, nat_values(vals@)),
        sum_counts(r@) == vals@.len(),
{
    let mut tally: Vec<usize> = Vec::new();
    while tally.len() <= bound
        invariant
            tally@.len() <= bound + 1,
            forall|d: int| 0 <= d < tally@.len() ==> tally@[d] == 0,
        decreases bound + 1 - tally@.len(),
    {
        tally.push(0);
    }
    proof {
        lemma_sum_prefix_zero(tally@, tally@.len() as int);
        assert(vals@.take(0) =~= Seq::<usize>::empty());
        assert(nat_values(vals@.take(0)) =~= Seq::<nat>::empty());
    }
    let mut idx: usize = 0;
    while idx < vals.len()
        invariant
            idx <= vals@.len(),
            tally@.len() == bound + 1,
            forall|k: int| 0 <= k < vals@.len() ==> vals@[k] <= bound,
            forall|d: int|
                0 <= d < tally@.len() ==> tally@[d] == count_eq(
                    nat_values(vals@.take(idx as int)),
                    d as nat,
                ),
            sum_prefix(tally@, tally@.len() as int) == idx,
        decreases vals@.len() - idx,
    {
        let ghost pre = nat_values(vals@.take(idx as int));
        let ghost t0 = tally@;
        let d = vals[idx];
        let c = tally[d];
        proof {
            assert(pre.len() == idx);
            lemma_count_eq_le_len(pre, d as nat);
        }
        tally[d] = c + 1;
        proof {
            lemma_sum_prefix_update(t0, d as int, tally@[d as int], t0.len() as int);
            let post = nat_values(vals@.take(idx as int + 1));
            assert(post =~= pre.push(vals@[idx as int] as nat));
            assert forall|dd: int|
                0 <= dd < tally@.len() implies tally@[dd] == count_eq(post, dd as nat) by {
                lemma_count_eq_push(pre, vals@[idx as int] as nat, dd as nat);
            }
        }
        idx = idx + 1;
    }
    let ghost all = nat_values(vals@);
    proof {
        assert(vals@.take(vals@.len() as int) =~= vals@);
    }
    let mut r: Vec<(usize, usize)> = Vec::new();
    let mut d: usize = 0;
    while d < tally.len()
        invariant
            d <= tally@.len(),
            tally@.len() == bound + 1,
            all == nat_values(vals@),
            forall|dd: int| 0 <= dd < tally@.len() ==> tally@[dd] == count_eq(all, dd as nat),
            sum_prefix(tally@, tally@.len() as int) == vals@.len(),
            strictly_ascending(r@),
            forall|i: int| 0 <= i < r@.len() ==> (#[trigger] r@[i]).0 < d,
            forall|i: int|
                0 <= i < r@.len() ==> (#[trigger] r@[i]).1 == count_eq(all, r@[i].0 as nat)
                    && r@[i].1 >= 1,
            forall|v: nat| v < d && count_eq(all, v) > 0 ==> has_value(r@, v),
            sum_counts(r@) == sum_prefix(tally@, d as int),
        decreases tally@.len() - d,
    {
        let ghost r0 = r@;
        let c = tally[d];
        if c > 0 {
            r.push((d, c));
            proof {
                lemma_sum_counts_push(r0, (d, c));
                assert(r@ == r0.push((d, c)));
                assert forall|v: nat| v < d + 1 && count_eq(all, v) > 0 implies has_value(
                    r@,
                    v,
                ) by {
                    if v < d as nat {
                        assert(has_value(r0, v));
                        let i = choose|i: int|
                            0 <= i < r0.len() && (#[trigger] r0[i]).0 as nat == v;
                        assert(r@[i] == r0[i]);
                    } else {
                        assert(r@[r@.len() - 1] == (d, c));
                    }
                }
            }
        } else {
            proof {
                assert forall|v: nat| v < d + 1 && count_eq(all, v) > 0 implies has_value(
                    r@,
                    v,
                ) by {
                    if !(v < d as nat) {
                        assert(count_eq(all, d as nat) == tally@[d as int]);
                        assert(false);
                    }
                }
            }
        }
        d = d + 1;
    }
    proof {
        assert forall|v: nat| count_eq(all, v) > 0 implies has_value(r@, v) by {
            lemma_count_eq_pos(all, v);
            let i = choose|i: int| 0 <= i < all.len() && all[i] == v;
            assert(vals@[i] <= bound);
            assert(all[i] == vals@[i] as nat);
            assert(v < tally@.len());
        }
    }
    r
}

proof fn lemma_ascending_same_support(
    a: Seq<(usize, usize)>,
    b: Seq<(usize, usize)>,
    vals: Seq<nat>,
)
    requires
        strictly_ascending(a),
        strictly_ascending(b),
        forall|i: int| 0 <= i < a.len() ==> (#[trigger] a[i]).1 == count_eq(vals, a[i].0 as nat),
        forall|j: int| 0 <= j < b.len() ==> (#[trigger] b[j]).1 == count_eq(vals, b[j].0 as nat),
        forall|v: nat| has_value(a, v) <==> has_value(b, v),
    ensures
        a == b,
    decreases a.len(),
{
    if a.len() == 0 {
        if b.len() > 0 {
            assert(has_value(b, b[0].0 as nat));
            assert(has_value(a, b[0].0 as nat));
            assert(false);
        }
        assert(a =~= b);
    } else if b.len() == 0 {
        assert(has_value(a, a[0].0 as nat));
        assert(has_value(b, a[0].0 as nat));
        assert(false);
    } else {
        let va = a[0].0;
        let vb = b[0].0;
        assert(has_value(a, va as nat));
        assert(has_value(b, va as nat));
        let j = choose|j: int| 0 <= j < b.len() && (#[trigger] b[j]).0 as nat == va as nat;
        assert(vb <= b[j].0);
        assert(has_value(b, vb as nat));
        assert(has_value(a, vb as nat));
        let i = choose|i: int| 0 <= i < a.len() && (#[trigger] a[i]).0 as nat == vb as nat;
        assert(va <= a[i].0);
        assert(va == vb);
        assert(a[0].1 == count_eq(vals, va as nat));
        assert(b[0].1 == count_eq(vals, va as nat));
        let a2 = a.drop_first();
        let b2 = b.drop_first();
        assert forall|v: nat| has_value(a2, v) implies has_value(b2, v) by {
            let k = choose|k: int| 0 <= k < a2.len() && (#[trigger] a2[k]).0 as nat == v;
            assert(a2[k] == a[k + 1]);
            assert(a[0].0 < a[k + 1].0);
            assert(has_value(a, v));
            assert(has_value(b, v));
            let m = choose|m: int| 0 <= m < b.len() && (#[trigger] b[m]).0 as nat == v;
            assert(m != 0);
            assert(b2[m - 1] == b[m]);
            assert(b2[m - 1].0 as nat == v);
        }
        assert forall|v: nat| has_value(b2, v) implies has_value(a2, v) by {
            let k = choose|k: int| 0 <= k < b2.len() && (#[trigger] b2[k]).0 as nat == v;
            assert(b2[k] == b[k + 1]);
            assert(b[0].0 < b[k + 1].0);
            assert(has_value(b, v));
            assert(has_value(a, v));
            let m = choose|m: int| 0 <= m < a.len() && (#[trigger] a[m]).0 as nat == v;
            assert(m != 0);
            assert(a2[m - 1] == a[m]);
            assert(a2[m - 1].0 as nat == v);
        }
        assert(forall|k: int| 0 <= k < a2.len() ==> a2[k] == a[k + 1]);
        assert(forall|k: int| 0 <= k < b2.len() ==> b2[k] == b[k + 1]);
        lemma_ascending_same_support(a2, b2, vals);
        assert(a.len() == b.len());
        assert forall|k: int| 0 <= k < a.len() implies a[k] == b[k] by {
            if k == 0 {
            } else {
                assert(a[k] == a2[k - 1]);
                assert(b[k] == b2[k - 1]);
            }
        }
        assert(a =~= b);
    }
}

/// A value sequence has exactly one histogram: any two sequences that both
/// satisfy `is_histogram_of` for the same values are equal.  The histogram
/// is thus a pure function of its input, and recomputing it from the same
/// data always yields an identical result.
pub proof fn lemma_histogram_unique(
    h1: Seq<(usize, usize)>,
    h2: Seq<(usize, usize)>,
    vals: Seq<nat>,
)
    requires
        is_histogram_of(h1, vals),
        is_histogram_of(h2, vals),
    ensures
        h1 == h2,
{
    assert forall|v: nat| has_value(h1, v) implies has_value(h2, v) by {
        let i = choose|i: int| 0 <= i < h1.len() && (#[trigger] h1[i]).0 as nat == v;
        assert(h1[i].1 == count_eq(vals, v));
        assert(count_eq(vals, v) > 0);
    }
    assert forall|v: nat| has_value(h2, v) implies has_value(h1, v) by {
        let i = choose|i: int| 0 <= i < h2.len() && (#[trigger] h2[i]).0 as nat == v;
        assert(h2[i].1 == count_eq(vals, v));
        assert(count_eq(vals, v) > 0);
    }
    lemma_ascending_same_support(h1, h2, vals);
}

} // verus!
