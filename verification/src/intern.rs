//! Interning of node labels to dense zero-based integer ids.

use vstd::prelude::*;

verus! {

/// Index of the first occurrence of `l` in `labels`, or `-1` if absent.
pub open spec fn find_label(labels: Seq<Seq<char>>, l: Seq<char>) -> int
    decreases labels.len(),
{
    if labels.len() == 0 {
        -1
    } else if labels[0] == l {
        0
    } else {
        let r = find_label(labels.drop_first(), l);
        if r < 0 {
            -1
        } else {
            r + 1
        }
    }
}

/// What one interning step yields: the new label table and the id given out.
pub open spec fn intern_result(labels: Seq<Seq<char>>, l: Seq<char>) -> (Seq<Seq<char>>, int) {
    let f = find_label(labels, l);
    if f >= 0 {
        (labels, f)
    } else {
        (labels.push(l), labels.len() as int)
    }
}

/// `find_label` succeeds exactly on contained labels and yields the first
/// occurrence.
pub proof fn lemma_find_label(labels: Seq<Seq<char>>, l: Seq<char>)
    ensures
        find_label(labels, l) >= 0 <==> labels.contains(l),
        find_label(labels, l) >= 0 ==> {
            let f = find_label(labels, l);
            &&& f < labels.len()
            &&& labels[f] == l
            &&& forall|k: int| 0 <= k < f ==> labels[k] != l
        },
    decreases labels.len(),
{
    if labels.len() > 0 && labels[0] != l {
        let rest = labels.drop_first();
        lemma_find_label(rest, l);
        if labels.contains(l) {
            let i = choose|i: int| 0 <= i < labels.len() && labels[i] == l;
            assert(rest[i - 1] == l);
            assert(rest.contains(l));
        }
        if rest.contains(l) {
            let i = choose|i: int| 0 <= i < rest.len() && rest[i] == l;
            assert(labels[i + 1] == l);
            assert(labels.contains(l));
        }
        if find_label(labels, l) >= 0 {
            let f = find_label(labels, l);
            assert(labels[f] == rest[f - 1]);
            assert forall|k: int| 0 <= k < f implies labels[k] != l by {
                if k > 0 {
                    assert(rest[k - 1] == labels[k]);
                }
            }
        }
    }
}

/// `find_label` returns the position of the first occurrence.
pub proof fn lemma_find_label_at(labels: Seq<Seq<char>>, l: Seq<char>, i: int)
    requires
        0 <= i < labels.len(),
        labels[i] == l,
        forall|k: int| 0 <= k < i ==> labels[k] != l,
    ensures
        find_label(labels, l) == i,
    decreases labels.len(),
{
    if i > 0 {
        let rest = labels.drop_first();
        assert(rest[i - 1] == l);
        assert forall|k: int| 0 <= k < i - 1 implies rest[k] != l by {
            assert(rest[k] == labels[k + 1]);
        }
        lemma_find_label_at(rest, l, i - 1);
    }
}

/// A table mapping each distinct label to a dense id: the id of a label is
/// its position, positions are assigned in first-seen order.
#[derive(Debug)]
pub struct Interner {
    labels: Vec<String>,
}

impl View for Interner {
    type V = Seq<Seq<char>>;

    closed spec fn view(&self) -> Seq<Seq<char>> {
        self.labels@.map_values(|s: String| s@)
    }
}

impl Interner {
    /// No label occurs twice, so each maps to exactly one id.
    pub open spec fn wf(self) -> bool {
        self@.no_duplicates()
    }

    /// An empty table: nothing interned yet.
    pub fn new() -> (it: Interner)
        ensures
            it.wf(),
            it@ == Seq::<Seq<char>>::empty(),
    {
        let it = Interner { labels: Vec::new() };
        proof {
            assert(it@ =~= Seq::<Seq<char>>::empty());
        }
        it
    }

    /// Number of labels interned so far; also the next fresh id.
    pub fn len(&self) -> (n: usize)
        ensures
            n == self@.len(),
    {
        self.labels.len()
    }

    /// Intern `label`: the id of a label seen before is returned again and
    /// the table stays as it is; a fresh label is appended and receives the
    /// next dense id, the table's previous size.
    pub fn intern(&mut self, label: &String) -> (id: usize)
        requires
            old(self).wf(),
        ensures
            final(self).wf(),
            (final(self)@, id as int) == intern_result(old(self)@, label@),
            id < final(self)@.len(),
            final(self)@[id as int] == label@,
            final(self)@.len() == old(self)@.len() + (if old(self)@.contains(label@) {
                0int
            } else {
                1int
            }),
    {
        proof {
            lemma_find_label(old(self)@, label@);
        }
        let ghost init = *self;
        let mut i: usize = 0;
        while i < self.labels.len()
            invariant
                *self == init,
                init == *old(self),
                init.wf(),
                i <= self.labels@.len(),
                forall|k: int| 0 <= k < i ==> self@[k] != label@,
            decreases self.labels@.len() - i,
        {
            if self.labels[i] == *label {
                proof {
                    assert(self@[i as int] == label@);
                    lemma_find_label_at(self@, label@, i as int);
                    assert(self@.contains(label@));
                    assert(self.wf());
                }
                return i;
            }
            proof {
                assert(self@[i as int] == self.labels@[i as int]@);
            }
            i = i + 1;
        }
        proof {
            if old(self)@.contains(label@) {
                let k = choose|k: int|
                    0 <= k < old(self)@.len() && old(self)@[k] == label@;
                assert(false);
            }
        }
        let id = self.labels.len();
        self.labels.push(label.clone());
        proof {
            assert(self@ =~= old(self)@.push(label@));
            assert forall|p: int, q: int| 0 <= p < q < self@.len() implies self@[p]
                != self@[q] by {
                if q == self@.len() - 1 {
                    if self@[p] == label@ {
                        assert(old(self)@[p] == label@);
                        assert(old(self)@.contains(label@));
                    }
                }
            }
        }
        id
    }
}

/// Interning the same label twice yields the same id both times, and the
/// second interning leaves the table unchanged.
pub proof fn lemma_intern_twice(labels: Seq<Seq<char>>, l: Seq<char>)
    ensures
        ({
            let r1 = intern_result(labels, l);
            let r2 = intern_result(r1.0, l);
            r2.0 == r1.0 && r2.1 == r1.1
        }),
{
    let f = find_label(labels, l);
    lemma_find_label(labels, l);
    if f < 0 {
        let pushed = labels.push(l);
        assert(pushed[labels.len() as int] == l);
        assert forall|k: int| 0 <= k < labels.len() implies pushed[k] != l by {
            if pushed[k] == l {
                assert(labels[k] == l);
                assert(labels.contains(l));
            }
        }
        lemma_find_label_at(pushed, l, labels.len() as int);
    }
}

/// The label table after interning the first `k` of a sequence of labels,
/// starting from an empty table.
pub open spec fn intern_fold(labels: Seq<Seq<char>>, k: int) -> Seq<Seq<char>>
    decreases k,
{
    if k <= 0 {
        Seq::empty()
    } else {
        intern_result(intern_fold(labels, k - 1), labels[k - 1]).0
    }
}

/// Interning distinct labels into an empty table assigns exactly the dense
/// ids `0, 1, ...` in order: the `i`-th label receives id `i`, and the table
/// afterwards holds the labels in their first-seen order.
pub proof fn lemma_intern_distinct_dense(labels: Seq<Seq<char>>, k: int)
    requires
        labels.no_duplicates(),
        0 <= k <= labels.len(),
    ensures
        intern_fold(labels, k) == labels.take(k),
        forall|i: int|
            0 <= i < k ==> intern_result(#[trigger] intern_fold(labels, i), labels[i]).1 == i,
    decreases k,
{
    if k == 0 {
        assert(intern_fold(labels, 0) =~= labels.take(0));
    } else {
        lemma_intern_distinct_dense(labels, k - 1);
        let pre = labels.take(k - 1);
        lemma_find_label(pre, labels[k - 1]);
        if pre.contains(labels[k - 1]) {
            let i = choose|i: int| 0 <= i < pre.len() && pre[i] == labels[k - 1];
            assert(labels[i] == labels[k - 1]);
            assert(false);
        }
        assert(intern_fold(labels, k) == pre.push(labels[k - 1]));
        assert(pre.push(labels[k - 1]) =~= labels.take(k));
        assert(intern_result(intern_fold(labels, k - 1), labels[k - 1]).1 == k - 1);
    }
}

} // verus!
