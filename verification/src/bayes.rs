//! A two-level frequency table for Bayesian bookkeeping.
//!
//! A [`BayesianCounter`] tallies joint (example, label) observations and a
//! running total, and derives marginal and conditional probabilities from
//! the raw counts as [`CountingRatio`] values — no floating point, no
//! caching, no reduction.
//!
//! The table is modelled as a sequence of cells, each holding a label, an
//! example and the number of times that pair was observed; every count the
//! counter reports is a filtered sum over that sequence.

use vstd::prelude::*;

verus! {

use core::cmp::Ordering;
use crate::ratio::ratio_cmp;
use crate::ratio::CountingRatio;
use vstd::laws_eq::obeys_concrete_eq;
use vstd::pervasive::VecAdditionalExecFns;

/// Stable insertion of a scored label into a ranked sequence: the new pair
/// goes immediately before the first pair whose ratio compares strictly
/// greater under the custom order, so pairs that compare equal keep their
/// relative order.
pub open spec fn insert_ranked<L>(
    s: Seq<(CountingRatio, L)>,
    x: (CountingRatio, L),
) -> Seq<(CountingRatio, L)>
    decreases s.len(),
{
    if s.len() == 0 {
        seq![x]
    } else if ratio_cmp(s[0].0, x.0) == Ordering::Greater {
        seq![x] + s
    } else {
        seq![s[0]] + insert_ranked(s.drop_first(), x)
    }
}

/// Stable insertion sort of scored labels, ascending by the custom ratio
/// order.
pub open spec fn sort_ranked<L>(s: Seq<(CountingRatio, L)>) -> Seq<(CountingRatio, L)>
    decreases s.len(),
{
    if s.len() == 0 {
        Seq::empty()
    } else {
        insert_ranked(sort_ranked(s.drop_last()), s.last())
    }
}

proof fn lemma_insert_ranked_at<L>(s: Seq<(CountingRatio, L)>, x: (CountingRatio, L), idx: int)
    requires
        0 <= idx <= s.len(),
        forall|k: int| 0 <= k < idx ==> ratio_cmp(#[trigger] s[k].0, x.0) != Ordering::Greater,
        idx < s.len() ==> ratio_cmp(s[idx].0, x.0) == Ordering::Greater,
    ensures
        insert_ranked(s, x) == s.insert(idx, x),
    decreases s.len(),
{
    if s.len() == 0 {
        assert(insert_ranked(s, x) =~= s.insert(idx, x));
    } else if idx == 0 {
        assert(seq![x] + s =~= s.insert(0, x));
    } else {
        lemma_insert_ranked_at(s.drop_first(), x, idx - 1);
        assert(seq![s[0]] + s.drop_first().insert(idx - 1, x) =~= s.insert(idx, x));
    }
}

/// Whether every adjacent pair of scored labels is ascending under the
/// custom ratio order: no score compares strictly greater than its right
/// neighbour.  The custom order is not transitive — two ratios with equal
/// `observations` compare equal regardless of their `matches` — so
/// adjacent ascent is the strongest ordering statement the sort can make.
pub open spec fn adjacent_ordered<L>(s: Seq<(CountingRatio, L)>) -> bool {
    forall|i: int|
        0 <= i < s.len() - 1 ==> ratio_cmp(#[trigger] s[i].0, s[i + 1].0) != Ordering::Greater
}

#[verifier::rlimit(60)]
proof fn lemma_insert_ranked_ordered<L>(s: Seq<(CountingRatio, L)>, x: (CountingRatio, L))
    requires
        adjacent_ordered(s),
    ensures
        insert_ranked(s, x).len() == s.len() + 1,
        adjacent_ordered(insert_ranked(s, x)),
    decreases s.len(),
{
    let r = insert_ranked(s, x);
    if s.len() == 0 {
        assert(adjacent_ordered(r));
    } else if ratio_cmp(s[0].0, x.0) == Ordering::Greater {
        crate::ratio::lemma_cmp_antisymmetric(x.0, s[0].0);
        assert forall|i: int| 0 <= i < r.len() - 1 implies ratio_cmp(#[trigger] r[i].0, r[i + 1].0)
            != Ordering::Greater by {
            if i == 0 {
                assert(r[0] == x && r[1] == s[0]);
            } else {
                assert(r[i] == s[i - 1] && r[i + 1] == s[i]);
            }
        }
    } else {
        let rest = s.drop_first();
        assert(adjacent_ordered(rest)) by {
            assert forall|i: int| 0 <= i < rest.len() - 1 implies ratio_cmp(
                #[trigger] rest[i].0,
                rest[i + 1].0,
            ) != Ordering::Greater by {
                assert(rest[i] == s[i + 1] && rest[i + 1] == s[i + 2]);
            }
        }
        lemma_insert_ranked_ordered(rest, x);
        let ins = insert_ranked(rest, x);
        assert(ratio_cmp(s[0].0, ins[0].0) != Ordering::Greater) by {
            if rest.len() == 0 {
                assert(ins[0] == x);
            } else if ratio_cmp(rest[0].0, x.0) == Ordering::Greater {
                assert(ins[0] == x);
            } else {
                assert(ins[0] == rest[0] && rest[0] == s[1]);
            }
        }
        assert forall|i: int| 0 <= i < r.len() - 1 implies ratio_cmp(#[trigger] r[i].0, r[i + 1].0)
            != Ordering::Greater by {
            if i == 0 {
                assert(r[0] == s[0] && r[1] == ins[0]);
            } else {
                assert(r[i] == ins[i - 1] && r[i + 1] == ins[i]);
            }
        }
    }
}

proof fn lemma_sort_ranked_ordered<L>(s: Seq<(CountingRatio, L)>)
    ensures
        sort_ranked(s).len() == s.len(),
        adjacent_ordered(sort_ranked(s)),
    decreases s.len(),
{
    if s.len() == 0 {
        assert(adjacent_ordered(sort_ranked(s)));
    } else {
        lemma_sort_ranked_ordered(s.drop_last());
        lemma_insert_ranked_ordered(sort_ranked(s.drop_last()), s.last());
    }
}

/// The number of positions of a sequence holding a given value.
pub open spec fn occurrence_count<A>(s: Seq<A>, x: A) -> nat
    decreases s.len(),
{
    if s.len() == 0 {
        0
    } else {
        (if s[0] == x {
            1nat
        } else {
            0nat
        }) + occurrence_count(s.drop_first(), x)
    }
}

/// The number of scored pairs carrying a given label.
pub open spec fn label_occurrences<L>(s: Seq<(CountingRatio, L)>, l: L) -> nat
    decreases s.len(),
{
    if s.len() == 0 {
        0
    } else {
        (if s[0].1 == l {
            1nat
        } else {
            0nat
        }) + label_occurrences(s.drop_first(), l)
    }
}

proof fn lemma_insert_ranked_occ<L>(s: Seq<(CountingRatio, L)>, x: (CountingRatio, L), l: L)
    ensures
        label_occurrences(insert_ranked(s, x), l) == label_occurrences(s, l) + if x.1 == l {
            1nat
        } else {
            0nat
        },
    decreases s.len(),
{
    let r = insert_ranked(s, x);
    if s.len() == 0 {
        assert(r[0] == x);
        assert(r.drop_first() =~= Seq::<(CountingRatio, L)>::empty());
        assert(label_occurrences(r.drop_first(), l) == 0);
        assert(label_occurrences(r, l) == (if r[0].1 == l { 1nat } else { 0nat })
            + label_occurrences(r.drop_first(), l));
        assert(label_occurrences(s, l) == 0);
    } else if ratio_cmp(s[0].0, x.0) == Ordering::Greater {
        assert(r[0] == x);
        assert(r.drop_first() =~= s);
        assert(label_occurrences(r, l) == (if r[0].1 == l { 1nat } else { 0nat })
            + label_occurrences(r.drop_first(), l));
    } else {
        lemma_insert_ranked_occ(s.drop_first(), x, l);
        assert(r[0] == s[0]);
        assert(r.drop_first() =~= insert_ranked(s.drop_first(), x));
        assert(label_occurrences(r, l) == (if r[0].1 == l { 1nat } else { 0nat })
            + label_occurrences(r.drop_first(), l));
        assert(label_occurrences(s, l) == (if s[0].1 == l { 1nat } else { 0nat })
            + label_occurrences(s.drop_first(), l));
    }
}

proof fn lemma_label_occ_push<L>(s: Seq<(CountingRatio, L)>, a: (CountingRatio, L), l: L)
    ensures
        label_occurrences(s.push(a), l) == label_occurrences(s, l) + if a.1 == l {
            1nat
        } else {
            0nat
        },
    decreases s.len(),
{
    let t = s.push(a);
    assert(t.len() == s.len() + 1);
    if s.len() == 0 {
        assert(t[0] == a);
        assert(t.drop_first() =~= Seq::<(CountingRatio, L)>::empty());
        assert(label_occurrences(t.drop_first(), l) == 0);
        assert(label_occurrences(t, l) == (if t[0].1 == l { 1nat } else { 0nat })
            + label_occurrences(t.drop_first(), l));
        assert(label_occurrences(s, l) == 0);
    } else {
        lemma_label_occ_push(s.drop_first(), a, l);
        assert(t[0] == s[0]);
        assert(t.drop_first() =~= s.drop_first().push(a));
        assert(label_occurrences(t, l) == (if t[0].1 == l { 1nat } else { 0nat })
            + label_occurrences(t.drop_first(), l));
        assert(label_occurrences(s, l) == (if s[0].1 == l { 1nat } else { 0nat })
            + label_occurrences(s.drop_first(), l));
    }
}

proof fn lemma_sort_ranked_occ<L>(s: Seq<(CountingRatio, L)>, l: L)
    ensures
        label_occurrences(sort_ranked(s), l) == label_occurrences(s, l),
    decreases s.len(),
{
    if s.len() > 0 {
        lemma_sort_ranked_occ(s.drop_last(), l);
        lemma_insert_ranked_occ(sort_ranked(s.drop_last()), s.last(), l);
        lemma_label_occ_push(s.drop_last(), s.last(), l);
        assert(s.drop_last().push(s.last()) =~= s);
    }
}

proof fn lemma_map_values_occ<L>(s: Seq<(CountingRatio, L)>, l: L)
    ensures
        occurrence_count(s.map_values(|p: (CountingRatio, L)| p.1), l) == label_occurrences(s, l),
    decreases s.len(),
{
    let f = |p: (CountingRatio, L)| p.1;
    if s.len() > 0 {
        lemma_map_values_occ(s.drop_first(), l);
        assert(s.map_values(f).drop_first() =~= s.drop_first().map_values(f));
        assert(s.map_values(f)[0] == s[0].1);
    }
}

proof fn lemma_paired_occ<L>(q: Seq<(CountingRatio, L)>, ls: Seq<L>, l: L)
    requires
        q.len() == ls.len(),
        forall|j: int| 0 <= j < q.len() ==> (#[trigger] q[j].1) == ls[j],
    ensures
        label_occurrences(q, l) == occurrence_count(ls, l),
    decreases q.len(),
{
    if q.len() > 0 {
        assert forall|j: int| 0 <= j < q.drop_first().len() implies (#[trigger] q.drop_first()[
        j].1) == ls.drop_first()[j] by {
            assert(q.drop_first()[j] == q[j + 1]);
        }
        lemma_paired_occ(q.drop_first(), ls.drop_first(), l);
    }
}

proof fn lemma_occ_not_contains<A>(s: Seq<A>, x: A)
    requires
        !s.contains(x),
    ensures
        occurrence_count(s, x) == 0,
    decreases s.len(),
{
    if s.len() > 0 {
        assert(s[0] != x);
        assert(!s.drop_first().contains(x)) by {
            if s.drop_first().contains(x) {
                let k = choose|k: int|
                    0 <= k < s.drop_first().len() && s.drop_first()[k] == x;
                assert(s[k + 1] == x);
            }
        }
        lemma_occ_not_contains(s.drop_first(), x);
    }
}

proof fn lemma_occ_distinct<A>(s: Seq<A>, x: A)
    requires
        forall|i: int, j: int|
            #![trigger s[i], s[j]]
            0 <= i < j < s.len() ==> s[i] != s[j],
    ensures
        occurrence_count(s, x) == if s.contains(x) {
            1nat
        } else {
            0nat
        },
    decreases s.len(),
{
    if s.len() > 0 {
        let rest = s.drop_first();
        assert forall|i: int, j: int|
            #![trigger rest[i], rest[j]]
            0 <= i < j < rest.len() implies rest[i] != rest[j] by {
            assert(rest[i] == s[i + 1] && rest[j] == s[j + 1]);
        }
        lemma_occ_distinct(rest, x);
        if s[0] == x {
            assert(!rest.contains(x)) by {
                if rest.contains(x) {
                    let k = choose|k: int| 0 <= k < rest.len() && rest[k] == x;
                    assert(s[k + 1] == x && s[0] == x);
                }
            }
            lemma_occ_not_contains(rest, x);
            assert(s.contains(x)) by {
                assert(s[0] == x);
            }
        } else {
            assert(s.contains(x) <==> rest.contains(x)) by {
                if s.contains(x) {
                    let k = choose|k: int| 0 <= k < s.len() && s[k] == x;
                    assert(rest[k - 1] == x);
                }
                if rest.contains(x) {
                    let k = choose|k: int| 0 <= k < rest.len() && rest[k] == x;
                    assert(s[k + 1] == x);
                }
            }
        }
    }
}

fn find_slot<L: Copy>(v: &Vec<(CountingRatio, L)>, x: CountingRatio) -> (idx: usize)
    ensures
        idx <= v.len(),
        forall|k: int| 0 <= k < idx ==> ratio_cmp(#[trigger] v@[k].0, x) != Ordering::Greater,
        idx < v.len() ==> ratio_cmp(v@[idx as int].0, x) == Ordering::Greater,
{
    let n = v.len();
    let mut pos: usize = 0;
    let mut found: bool = false;
    while pos < n && !found
        invariant
            n == v.len(),
            pos <= n,
            found ==> pos < n && ratio_cmp(v@[pos as int].0, x) == Ordering::Greater,
            forall|k: int| 0 <= k < pos ==> ratio_cmp(#[trigger] v@[k].0, x) != Ordering::Greater,
        decreases n - pos + if found {
            0int
        } else {
            1int
        },
    {
        let c = v[pos].0;
        let ord = c.partial_cmp(&x);
        let is_greater = match ord {
            Some(Ordering::Greater) => true,
            _ => false,
        };
        if is_greater {
            found = true;
        } else {
            pos = pos + 1;
        }
    }
    pos
}

/// The weight an entry contributes to a filtered sum: its count when the
/// filter holds of it, zero otherwise.
pub open spec fn entry_weight<L, S>(t: (L, S, u64), p: spec_fn((L, S, u64)) -> bool) -> nat {
    if p(t) {
        t.2 as nat
    } else {
        0
    }
}

/// The sum of the counts of the entries a filter selects.
pub open spec fn filtered_sum<L, S>(s: Seq<(L, S, u64)>, p: spec_fn((L, S, u64)) -> bool) -> nat
    decreases s.len(),
{
    if s.len() == 0 {
        0
    } else {
        filtered_sum(s.drop_last(), p) + entry_weight(s.last(), p)
    }
}

/// The filter that selects every entry.
pub open spec fn any_entry<L, S>() -> spec_fn((L, S, u64)) -> bool {
    |t: (L, S, u64)| true
}

/// The filter that selects the entries carrying a given label.
pub open spec fn label_is<L, S>(label: L) -> spec_fn((L, S, u64)) -> bool {
    |t: (L, S, u64)| t.0 == label
}

/// The filter that selects the entries carrying a given example.
pub open spec fn example_is<L, S>(example: S) -> spec_fn((L, S, u64)) -> bool {
    |t: (L, S, u64)| t.1 == example
}

/// The filter that selects the single cell of a (label, example) pair.
pub open spec fn cell_is<L, S>(example: S, label: L) -> spec_fn((L, S, u64)) -> bool {
    |t: (L, S, u64)| t.0 == label && t.1 == example
}

proof fn lemma_filtered_sum_le<L, S>(
    s: Seq<(L, S, u64)>,
    p: spec_fn((L, S, u64)) -> bool,
    q: spec_fn((L, S, u64)) -> bool,
)
    requires
        forall|t: (L, S, u64)| #[trigger] p(t) ==> q(t),
    ensures
        filtered_sum(s, p) <= filtered_sum(s, q),
    decreases s.len(),
{
    if s.len() > 0 {
        lemma_filtered_sum_le(s.drop_last(), p, q);
    }
}

proof fn lemma_filtered_sum_take_step<L, S>(
    s: Seq<(L, S, u64)>,
    p: spec_fn((L, S, u64)) -> bool,
    i: int,
)
    requires
        0 <= i < s.len(),
    ensures
        filtered_sum(s.take(i + 1), p) == filtered_sum(s.take(i), p) + entry_weight(s[i], p),
{
    assert(s.take(i + 1).drop_last() =~= s.take(i));
    assert(s.take(i + 1).last() == s[i]);
}

proof fn lemma_filtered_sum_take_le<L, S>(
    s: Seq<(L, S, u64)>,
    p: spec_fn((L, S, u64)) -> bool,
    i: int,
)
    requires
        0 <= i <= s.len(),
    ensures
        filtered_sum(s.take(i), p) <= filtered_sum(s, p),
    decreases s.len() - i,
{
    if i == s.len() {
        assert(s.take(i) =~= s);
    } else {
        lemma_filtered_sum_take_step(s, p, i);
        lemma_filtered_sum_take_le(s, p, i + 1);
    }
}

proof fn lemma_filtered_sum_update<L, S>(
    s: Seq<(L, S, u64)>,
    p: spec_fn((L, S, u64)) -> bool,
    i: int,
    t: (L, S, u64),
)
    requires
        0 <= i < s.len(),
    ensures
        filtered_sum(s.update(i, t), p) == filtered_sum(s, p) - entry_weight(s[i], p)
            + entry_weight(t, p),
    decreases s.len(),
{
    if i == s.len() - 1 {
        assert(s.update(i, t).drop_last() =~= s.drop_last());
        assert(s.update(i, t).last() == t);
    } else {
        assert(s.update(i, t).drop_last() =~= s.drop_last().update(i, t));
        assert(s.update(i, t).last() == s.last());
        lemma_filtered_sum_update(s.drop_last(), p, i, t);
    }
}

proof fn lemma_filtered_sum_push<L, S>(
    s: Seq<(L, S, u64)>,
    p: spec_fn((L, S, u64)) -> bool,
    t: (L, S, u64),
)
    ensures
        filtered_sum(s.push(t), p) == filtered_sum(s, p) + entry_weight(t, p),
{
    assert(s.push(t).drop_last() =~= s);
    assert(s.push(t).last() == t);
}

proof fn lemma_filtered_sum_none<L, S>(s: Seq<(L, S, u64)>, p: spec_fn((L, S, u64)) -> bool)
    requires
        forall|i: int| 0 <= i < s.len() ==> !p(#[trigger] s[i]),
    ensures
        filtered_sum(s, p) == 0,
    decreases s.len(),
{
    if s.len() > 0 {
        lemma_filtered_sum_none(s.drop_last(), p);
        assert(!p(s[s.len() - 1]));
    }
}

proof fn lemma_filtered_sum_agree<L, S>(
    s: Seq<(L, S, u64)>,
    p: spec_fn((L, S, u64)) -> bool,
    q: spec_fn((L, S, u64)) -> bool,
)
    requires
        forall|i: int| 0 <= i < s.len() ==> p(#[trigger] s[i]) == q(s[i]),
    ensures
        filtered_sum(s, p) == filtered_sum(s, q),
    decreases s.len(),
{
    if s.len() > 0 {
        lemma_filtered_sum_agree(s.drop_last(), p, q);
        assert(p(s[s.len() - 1]) == q(s[s.len() - 1]));
    }
}

proof fn lemma_filtered_sum_split<L, S>(
    s: Seq<(L, S, u64)>,
    p: spec_fn((L, S, u64)) -> bool,
    q: spec_fn((L, S, u64)) -> bool,
    u: spec_fn((L, S, u64)) -> bool,
)
    requires
        forall|t: (L, S, u64)| #[trigger] u(t) == (p(t) || q(t)),
        forall|t: (L, S, u64)| #![trigger p(t), q(t)] !(p(t) && q(t)),
    ensures
        filtered_sum(s, u) == filtered_sum(s, p) + filtered_sum(s, q),
    decreases s.len(),
{
    if s.len() > 0 {
        lemma_filtered_sum_split(s.drop_last(), p, q, u);
        assert(u(s.last()) == (p(s.last()) || q(s.last())));
        assert(!(p(s.last()) && q(s.last())));
    }
}

proof fn lemma_entry_le_sum<L, S>(s: Seq<(L, S, u64)>, i: int)
    requires
        0 <= i < s.len(),
    ensures
        s[i].2 as nat <= filtered_sum(s, any_entry::<L, S>()),
    decreases s.len(),
{
    if i < s.len() - 1 {
        lemma_entry_le_sum(s.drop_last(), i);
    }
}

/// A two-level frequency table: a tally for each observed (label, example)
/// pair, plus a running total of all recorded observations.
///
/// Keys are stored by copy and compared by equality; values of the key
/// types are never borrowed past a call.
pub struct BayesianCounter<L, S> {
    items: Vec<(L, S, u64)>,
    label_list: Vec<L>,
    total: u64,
}

impl<L: Copy + PartialEq, S: Copy + PartialEq> BayesianCounter<L, S> {
    /// The tallied cells: one entry per observed (label, example) pair.
    pub closed spec fn entries(self) -> Seq<(L, S, u64)> {
        self.items@
    }

    /// Every label ever observed, in order of first observation.
    pub closed spec fn labels(self) -> Seq<L> {
        self.label_list@
    }

    /// The running total of recorded observations.
    pub closed spec fn spec_total(self) -> u64 {
        self.total
    }

    /// The raw joint count of a (label, example) pair.
    pub open spec fn spec_count(self, example: S, label: L) -> nat {
        filtered_sum(self.entries(), cell_is(example, label))
    }

    /// The number of observations carrying a label, over all examples.
    pub open spec fn spec_label_count(self, label: L) -> nat {
        filtered_sum(self.entries(), label_is(label))
    }

    /// The number of observations carrying an example, over all labels.
    pub open spec fn spec_example_count(self, example: S) -> nat {
        filtered_sum(self.entries(), example_is(example))
    }

    /// True iff some cell carries the given label.
    pub open spec fn has_entry_with(self, label: L) -> bool {
        exists|i: int| 0 <= i < self.entries().len() && #[trigger] self.entries()[i].0 == label
    }

    /// Well-formedness: one cell per (label, example) pair, each label
    /// listed exactly once and exactly when some cell carries it, and the
    /// running total equal to the sum of all cell counts.
    pub open spec fn wf(self) -> bool {
        &&& forall|i: int, j: int|
            #![trigger self.entries()[i], self.entries()[j]]
            0 <= i < j < self.entries().len() ==> !(self.entries()[i].0 == self.entries()[j].0
                && self.entries()[i].1 == self.entries()[j].1)
        &&& forall|i: int, j: int|
            #![trigger self.labels()[i], self.labels()[j]]
            0 <= i < j < self.labels().len() ==> self.labels()[i] != self.labels()[j]
        &&& forall|i: int|
            0 <= i < self.entries().len() ==> self.labels().contains(
                #[trigger] self.entries()[i].0,
            )
        &&& forall|j: int|
            0 <= j < self.labels().len() ==> self.has_entry_with(#[trigger] self.labels()[j])
        &&& filtered_sum(self.entries(), any_entry::<L, S>()) == self.spec_total() as nat
    }

    /// An empty table: no cells, no labels, total zero.
    pub fn new() -> (r: Self)
        ensures
            r.wf(),
            r.entries().len() == 0,
            r.labels().len() == 0,
            r.spec_total() == 0,
    {
        BayesianCounter { items: Vec::new(), label_list: Vec::new(), total: 0 }
    }

    /// Records one joint observation: the cell of the (label, example) pair
    /// and the running total each grow by one, every other cell is
    /// untouched, and the label is added to the label list iff it was never
    /// observed before.
    pub fn observe(&mut self, example: S, label: L)
        requires
            obeys_concrete_eq::<L>(),
            obeys_concrete_eq::<S>(),
            old(self).wf(),
            old(self).spec_total() < u64::MAX,
        ensures
            final(self).wf(),
            final(self).spec_total() == old(self).spec_total() + 1,
            forall|e2: S, l2: L|
                #![trigger final(self).spec_count(e2, l2)]
                final(self).spec_count(e2, l2) == old(self).spec_count(e2, l2) + if l2 == label
                    && e2 == example {
                    1nat
                } else {
                    0nat
                },
            forall|l2: L|
                #![trigger final(self).spec_label_count(l2)]
                final(self).spec_label_count(l2) == old(self).spec_label_count(l2) + if l2
                    == label {
                    1nat
                } else {
                    0nat
                },
            forall|e2: S|
                #![trigger final(self).spec_example_count(e2)]
                final(self).spec_example_count(e2) == old(self).spec_example_count(e2) + if e2
                    == example {
                    1nat
                } else {
                    0nat
                },
            old(self).labels().contains(label) ==> final(self).labels() == old(self).labels(),
            !old(self).labels().contains(label) ==> final(self).labels() == old(
                self,
            ).labels().push(label),
    {
        proof {
            reveal(vstd::laws_eq::obeys_concrete_eq);
        }
        let ghost old_items = self.items@;
        let n = self.items.len();
        let mut i: usize = 0;
        let mut found: bool = false;
        while i < n && !found
            invariant
                obeys_concrete_eq::<L>(),
                obeys_concrete_eq::<S>(),
                n == self.items.len(),
                i <= n,
                self.items@ == old_items,
                found ==> i < n && self.items@[i as int].0 == label && self.items@[i as int].1
                    == example,
                !found ==> forall|k: int|
                    #![trigger self.items@[k]]
                    0 <= k < i ==> !(self.items@[k].0 == label && self.items@[k].1 == example),
            decreases n - i + if found {
                0int
            } else {
                1int
            },
        {
            proof {
                reveal(vstd::laws_eq::obeys_concrete_eq);
            }
            let t = self.items[i];
            if t.0 == label && t.1 == example {
                found = true;
            } else {
                i = i + 1;
            }
        }
        if found {
            let t = self.items[i];
            let c = t.2;
            proof {
                lemma_entry_le_sum(self.items@, i as int);
            }
            self.items.set(i, (t.0, t.1, c + 1));
            proof {
                let ghost nt = (t.0, t.1, (c + 1) as u64);
                assert forall|e2: S, l2: L|
                    #![trigger filtered_sum(self.items@, cell_is::<L, S>(e2, l2))]
                    filtered_sum(self.items@, cell_is::<L, S>(e2, l2)) == filtered_sum(
                        old_items,
                        cell_is::<L, S>(e2, l2),
                    ) + if l2 == label && e2 == example {
                        1nat
                    } else {
                        0nat
                    } by {
                    lemma_filtered_sum_update(old_items, cell_is::<L, S>(e2, l2), i as int, nt);
                }
                assert forall|l2: L|
                    #![trigger filtered_sum(self.items@, label_is::<L, S>(l2))]
                    filtered_sum(self.items@, label_is::<L, S>(l2)) == filtered_sum(
                        old_items,
                        label_is::<L, S>(l2),
                    ) + if l2 == label {
                        1nat
                    } else {
                        0nat
                    } by {
                    lemma_filtered_sum_update(old_items, label_is::<L, S>(l2), i as int, nt);
                }
                assert forall|e2: S|
                    #![trigger filtered_sum(self.items@, example_is::<L, S>(e2))]
                    filtered_sum(self.items@, example_is::<L, S>(e2)) == filtered_sum(
                        old_items,
                        example_is::<L, S>(e2),
                    ) + if e2 == example {
                        1nat
                    } else {
                        0nat
                    } by {
                    lemma_filtered_sum_update(old_items, example_is::<L, S>(e2), i as int, nt);
                }
                lemma_filtered_sum_update(old_items, any_entry::<L, S>(), i as int, nt);
            }
        } else {
            let ghost nt = (label, example, 1u64);
            self.items.push((label, example, 1));
            proof {
                assert forall|e2: S, l2: L|
                    #![trigger filtered_sum(self.items@, cell_is::<L, S>(e2, l2))]
                    filtered_sum(self.items@, cell_is::<L, S>(e2, l2)) == filtered_sum(
                        old_items,
                        cell_is::<L, S>(e2, l2),
                    ) + if l2 == label && e2 == example {
                        1nat
                    } else {
                        0nat
                    } by {
                    lemma_filtered_sum_push(old_items, cell_is::<L, S>(e2, l2), nt);
                }
                assert forall|l2: L|
                    #![trigger filtered_sum(self.items@, label_is::<L, S>(l2))]
                    filtered_sum(self.items@, label_is::<L, S>(l2)) == filtered_sum(
                        old_items,
                        label_is::<L, S>(l2),
                    ) + if l2 == label {
                        1nat
                    } else {
                        0nat
                    } by {
                    lemma_filtered_sum_push(old_items, label_is::<L, S>(l2), nt);
                }
                assert forall|e2: S|
                    #![trigger filtered_sum(self.items@, example_is::<L, S>(e2))]
                    filtered_sum(self.items@, example_is::<L, S>(e2)) == filtered_sum(
                        old_items,
                        example_is::<L, S>(e2),
                    ) + if e2 == example {
                        1nat
                    } else {
                        0nat
                    } by {
                    lemma_filtered_sum_push(old_items, example_is::<L, S>(e2), nt);
                }
                lemma_filtered_sum_push(old_items, any_entry::<L, S>(), nt);
            }
        }
        let ghost old_labels = self.label_list@;
        let m = self.label_list.len();
        let mut j: usize = 0;
        let mut lfound: bool = false;
        while j < m && !lfound
            invariant
                obeys_concrete_eq::<L>(),
                m == self.label_list.len(),
                j <= m,
                self.label_list@ == old_labels,
                lfound ==> j < m && self.label_list@[j as int] == label,
                !lfound ==> forall|k: int| 0 <= k < j ==> self.label_list@[k] != label,
            decreases m - j + if lfound {
                0int
            } else {
                1int
            },
        {
            proof {
                reveal(vstd::laws_eq::obeys_concrete_eq);
            }
            let cur = self.label_list[j];
            if cur == label {
                lfound = true;
            } else {
                j = j + 1;
            }
        }
        if !lfound {
            self.label_list.push(label);
        }
        self.total = self.total + 1;
        proof {
            let es = self.items@;
            let ls = self.label_list@;
            assert forall|k: int| 0 <= k < es.len() implies ls.contains(#[trigger] es[k].0) by {
                if k < old_items.len() {
                    assert(es[k].0 == old_items[k].0);
                    assert(old_labels.contains(old_items[k].0));
                    let w = choose|w: int|
                        0 <= w < old_labels.len() && old_labels[w] == old_items[k].0;
                    assert(ls[w] == es[k].0);
                } else {
                    assert(es[k].0 == label);
                    if lfound {
                        assert(ls[j as int] == label);
                    } else {
                        assert(ls[old_labels.len() as int] == label);
                    }
                }
            }
            assert forall|k: int| 0 <= k < ls.len() implies self.has_entry_with(ls[k])
                by {
                if k < old_labels.len() {
                    assert(old(self).has_entry_with(old_labels[k]));
                    let w2 = choose|w2: int|
                        0 <= w2 < old(self).entries().len() && #[trigger] old(
                            self,
                        ).entries()[w2].0 == old_labels[k];
                    assert(self.entries()[w2].0 == ls[k]);
                } else {
                    if found {
                        assert(self.entries()[i as int].0 == label);
                    } else {
                        assert(self.entries()[old_items.len() as int].0 == label);
                    }
                }
            }
        }
    }

    /// The raw joint count of the (label, example) pair, zero if the pair
    /// was never observed.
    pub fn count(&self, example: S, label: L) -> (r: u64)
        requires
            obeys_concrete_eq::<L>(),
            obeys_concrete_eq::<S>(),
            self.wf(),
        ensures
            r as nat == self.spec_count(example, label),
    {
        proof {
            reveal(vstd::laws_eq::obeys_concrete_eq);
        }
        let ghost p = cell_is::<L, S>(example, label);
        let n = self.items.len();
        let mut acc: u64 = 0;
        let mut i: usize = 0;
        while i < n
            invariant
                obeys_concrete_eq::<L>(),
                obeys_concrete_eq::<S>(),
                self.wf(),
                n == self.items.len(),
                i <= n,
                p == cell_is::<L, S>(example, label),
                acc as nat == filtered_sum(self.items@.take(i as int), p),
            decreases n - i,
        {
            proof {
                reveal(vstd::laws_eq::obeys_concrete_eq);
                lemma_filtered_sum_take_step(self.items@, p, i as int);
                lemma_filtered_sum_take_le(self.items@, p, i as int + 1);
                lemma_filtered_sum_le(self.items@, p, any_entry::<L, S>());
            }
            let t = self.items[i];
            if t.0 == label && t.1 == example {
                acc = acc + t.2;
            }
            i = i + 1;
        }
        proof {
            assert(self.items@.take(n as int) =~= self.items@);
        }
        acc
    }

    /// The number of observations carrying the label, summed over all
    /// examples; zero if the label was never observed.
    pub fn label_count(&self, label: L) -> (r: u64)
        requires
            obeys_concrete_eq::<L>(),
            self.wf(),
        ensures
            r as nat == self.spec_label_count(label),
    {
        proof {
            reveal(vstd::laws_eq::obeys_concrete_eq);
        }
        let ghost p = label_is::<L, S>(label);
        let n = self.items.len();
        let mut acc: u64 = 0;
        let mut i: usize = 0;
        while i < n
            invariant
                obeys_concrete_eq::<L>(),
                self.wf(),
                n == self.items.len(),
                i <= n,
                p == label_is::<L, S>(label),
                acc as nat == filtered_sum(self.items@.take(i as int), p),
            decreases n - i,
        {
            proof {
                reveal(vstd::laws_eq::obeys_concrete_eq);
                lemma_filtered_sum_take_step(self.items@, p, i as int);
                lemma_filtered_sum_take_le(self.items@, p, i as int + 1);
                lemma_filtered_sum_le(self.items@, p, any_entry::<L, S>());
            }
            let t = self.items[i];
            if t.0 == label {
                acc = acc + t.2;
            }
            i = i + 1;
        }
        proof {
            assert(self.items@.take(n as int) =~= self.items@);
        }
        acc
    }

    /// The number of observations carrying the example, summed over all
    /// labels; zero if the example was never observed.
    pub fn example_count(&self, example: S) -> (r: u64)
        requires
            obeys_concrete_eq::<S>(),
            self.wf(),
        ensures
            r as nat == self.spec_example_count(example),
    {
        proof {
            reveal(vstd::laws_eq::obeys_concrete_eq);
        }
        let ghost p = example_is::<L, S>(example);
        let n = self.items.len();
        let mut acc: u64 = 0;
        let mut i: usize = 0;
        while i < n
            invariant
                obeys_concrete_eq::<S>(),
                self.wf(),
                n == self.items.len(),
                i <= n,
                p == example_is::<L, S>(example),
                acc as nat == filtered_sum(self.items@.take(i as int), p),
            decreases n - i,
        {
            proof {
                reveal(vstd::laws_eq::obeys_concrete_eq);
                lemma_filtered_sum_take_step(self.items@, p, i as int);
                lemma_filtered_sum_take_le(self.items@, p, i as int + 1);
                lemma_filtered_sum_le(self.items@, p, any_entry::<L, S>());
            }
            let t = self.items[i];
            if t.1 == example {
                acc = acc + t.2;
            }
            i = i + 1;
        }
        proof {
            assert(self.items@.take(n as int) =~= self.items@);
        }
        acc
    }

    /// The marginal probability of a label: its count over the total.
    /// A never-observed label yields a zero numerator; an empty counter
    /// yields a zero denominator, which converts to a not-a-number
    /// proportion rather than an error.
    pub fn p_label(&self, label: L) -> (r: CountingRatio)
        requires
            obeys_concrete_eq::<L>(),
            self.wf(),
        ensures
            r.matches as nat == self.spec_label_count(label),
            r.observations == self.spec_total(),
    {
        CountingRatio::ratio(self.label_count(label), self.total)
    }

    /// The marginal probability of an example: its count over the total.
    pub fn p_example(&self, example: S) -> (r: CountingRatio)
        requires
            obeys_concrete_eq::<S>(),
            self.wf(),
        ensures
            r.matches as nat == self.spec_example_count(example),
            r.observations == self.spec_total(),
    {
        CountingRatio::ratio(self.example_count(example), self.total)
    }

    /// The conditional probability of an example among the observations
    /// carrying a label: the joint count over the label count.
    pub fn p_example_given_label(&self, example: S, label: L) -> (r: CountingRatio)
        requires
            obeys_concrete_eq::<L>(),
            obeys_concrete_eq::<S>(),
            self.wf(),
        ensures
            r.matches as nat == self.spec_count(example, label),
            r.observations as nat == self.spec_label_count(label),
    {
        CountingRatio::ratio(self.count(example, label), self.label_count(label))
    }

    /// The raw numerator the Bayes-rule query produces: the unsimplified
    /// product of the three underlying counts.
    pub open spec fn bayes_numerator(self, label: L, example: S) -> nat {
        self.spec_count(example, label) * self.spec_label_count(label) * (self.spec_total() as nat)
    }

    /// The raw denominator the Bayes-rule query produces.
    pub open spec fn bayes_denominator(self, label: L, example: S) -> nat {
        self.spec_label_count(label) * (self.spec_total() as nat) * self.spec_example_count(
            example,
        )
    }

    /// The posterior probability of a label given an example, computed by
    /// Bayes' rule as the literal operation sequence
    /// `p_example_given_label * p_label / p_example` with the componentwise
    /// ratio product and the cross-multiplying ratio division.  The raw
    /// numerator and denominator are the full unsimplified products, by
    /// design.
    pub fn p_label_given_example(&self, label: L, example: S) -> (r: CountingRatio)
        requires
            obeys_concrete_eq::<L>(),
            obeys_concrete_eq::<S>(),
            self.wf(),
            self.spec_count(example, label) * self.spec_label_count(label) <= u64::MAX,
            self.spec_label_count(label) * self.spec_total() <= u64::MAX,
            self.bayes_numerator(label, example) <= u64::MAX,
            self.bayes_denominator(label, example) <= u64::MAX,
        ensures
            r.matches as nat == self.bayes_numerator(label, example),
            r.observations as nat == self.bayes_denominator(label, example),
    {
        self.p_example_given_label(example, label).times(self.p_label(label)).divided_by(
            self.p_example(example),
        )
    }

    /// The ranking score of a label for an example: the conditional
    /// probability of the example given the label, with the numerator alone
    /// scaled by the label count — the denominator stays the label count.
    pub open spec fn spec_score(self, example: S, label: L) -> CountingRatio {
        CountingRatio {
            matches: (self.spec_count(example, label) * self.spec_label_count(label)) as u64,
            observations: self.spec_label_count(label) as u64,
        }
    }

    /// Every observed label paired with its score, in first-observation
    /// order.
    pub open spec fn scored_pairs(self, example: S) -> Seq<(CountingRatio, L)> {
        Seq::new(
            self.labels().len(),
            |j: int| (self.spec_score(example, self.labels()[j]), self.labels()[j]),
        )
    }

    /// The ranking of the observed labels for an example: scored, stably
    /// sorted ascending by the custom ratio order, least likely first.
    pub open spec fn spec_ranking(self, example: S) -> Seq<L> {
        sort_ranked(self.scored_pairs(example)).map_values(|p: (CountingRatio, L)| p.1)
    }

    /// Ranks every label ever observed for the given example, ascending by
    /// the custom ratio order of the scores, least likely first; labels
    /// whose scores compare equal (including the equal-observations quirk
    /// of the order) keep their first-observation order.
    pub fn label_ranking_for(&self, example: S) -> (r: Vec<L>)
        requires
            obeys_concrete_eq::<L>(),
            obeys_concrete_eq::<S>(),
            self.wf(),
            forall|j: int|
                0 <= j < self.labels().len() ==> self.spec_count(
                    example,
                    #[trigger] self.labels()[j],
                ) * self.spec_label_count(self.labels()[j]) <= u64::MAX,
        ensures
            r@ == self.spec_ranking(example),
    {
        let m = self.label_list.len();
        let mut scored: Vec<(CountingRatio, L)> = Vec::new();
        let mut j: usize = 0;
        while j < m
            invariant
                obeys_concrete_eq::<L>(),
                obeys_concrete_eq::<S>(),
                self.wf(),
                m == self.label_list.len(),
                j <= m,
                forall|j2: int|
                    0 <= j2 < self.labels().len() ==> self.spec_count(
                        example,
                        #[trigger] self.labels()[j2],
                    ) * self.spec_label_count(self.labels()[j2]) <= u64::MAX,
                scored@ == self.scored_pairs(example).take(j as int),
            decreases m - j,
        {
            let l = self.label_list[j];
            let cr = self.p_example_given_label(example, l);
            let lc = self.label_count(l);
            let sc = cr.scale_numerator(lc);
            scored.push((sc, l));
            proof {
                assert(scored@ =~= self.scored_pairs(example).take(j as int + 1));
            }
            j = j + 1;
        }
        proof {
            assert(self.scored_pairs(example).take(m as int) =~= self.scored_pairs(example));
        }
        let ghost full = self.scored_pairs(example);
        let mut sorted: Vec<(CountingRatio, L)> = Vec::new();
        let mut k: usize = 0;
        while k < m
            invariant
                m == scored.len(),
                k <= m,
                full == scored@,
                sorted@ == sort_ranked(full.take(k as int)),
            decreases m - k,
        {
            let x = scored[k];
            let idx = find_slot(&sorted, x.0);
            let ghost pre = sorted@;
            sorted.insert(idx, x);
            proof {
                lemma_insert_ranked_at(pre, x, idx as int);
                assert(full.take(k as int + 1).drop_last() =~= full.take(k as int));
                assert(full.take(k as int + 1).last() == full[k as int]);
            }
            k = k + 1;
        }
        proof {
            assert(full.take(m as int) =~= full);
        }
        let mut out: Vec<L> = Vec::new();
        let mut q: usize = 0;
        let n2 = sorted.len();
        while q < n2
            invariant
                n2 == sorted.len(),
                q <= n2,
                sorted@ == sort_ranked(full),
                out@.len() == q,
                forall|i: int| 0 <= i < q ==> out@[i] == sorted@[i].1,
            decreases n2 - q,
        {
            let p = sorted[q];
            out.push(p.1);
            q = q + 1;
        }
        proof {
            assert(out@ =~= self.spec_ranking(example));
        }
        out
    }

    /// Law: the ranking lists every label ever observed exactly once.  The
    /// occurrence counts of the ranking and of the observed-label list
    /// agree for every label, so each observed label appears at exactly one
    /// position and no other label appears at all.
    pub proof fn lemma_ranking_each_label_once(self, example: S)
        requires
            self.wf(),
        ensures
            self.spec_ranking(example).len() == self.labels().len(),
            forall|l: L|
                #[trigger] occurrence_count(self.spec_ranking(example), l) == occurrence_count(
                    self.labels(),
                    l,
                ),
            forall|l: L|
                self.labels().contains(l) ==> #[trigger] occurrence_count(
                    self.spec_ranking(example),
                    l,
                ) == 1,
            forall|l: L|
                !self.labels().contains(l) ==> #[trigger] occurrence_count(
                    self.spec_ranking(example),
                    l,
                ) == 0,
    {
        let sp = self.scored_pairs(example);
        lemma_sort_ranked_ordered(sp);
        assert forall|l: L|
            #[trigger] occurrence_count(self.spec_ranking(example), l) == occurrence_count(
                self.labels(),
                l,
            ) by {
            lemma_map_values_occ(sort_ranked(sp), l);
            lemma_sort_ranked_occ(sp, l);
            lemma_paired_occ(sp, self.labels(), l);
        }
        assert forall|l: L|
            #[trigger] occurrence_count(self.labels(), l) == if self.labels().contains(l) {
                1nat
            } else {
                0nat
            } by {
            lemma_occ_distinct(self.labels(), l);
        }
    }

    /// The filter selecting the entries whose label stands among the first
    /// `j` observed labels.
    pub open spec fn among_first_labels(self, j: int) -> spec_fn((L, S, u64)) -> bool {
        |t: (L, S, u64)| exists|k: int| 0 <= k < j && self.labels()[k] == t.0
    }

    /// The sum of the label counts over the first `j` observed labels.
    pub open spec fn label_count_prefix_sum(self, j: int) -> nat
        decreases j,
    {
        if j <= 0 {
            0
        } else {
            self.label_count_prefix_sum(j - 1) + self.spec_label_count(self.labels()[j - 1])
        }
    }

    proof fn lemma_label_prefix(self, j: int)
        requires
            self.wf(),
            0 <= j <= self.labels().len(),
        ensures
            filtered_sum(self.entries(), self.among_first_labels(j))
                == self.label_count_prefix_sum(j),
        decreases j,
    {
        if j == 0 {
            assert forall|i: int| 0 <= i < self.entries().len() implies !self.among_first_labels(
                0,
            )(#[trigger] self.entries()[i]) by {}
            lemma_filtered_sum_none(self.entries(), self.among_first_labels(0));
        } else {
            self.lemma_label_prefix(j - 1);
            let p = self.among_first_labels(j - 1);
            let q = label_is::<L, S>(self.labels()[j - 1]);
            let u = self.among_first_labels(j);
            assert forall|t: (L, S, u64)| #[trigger] u(t) == (p(t) || q(t)) by {
                if u(t) {
                    let k = choose|k: int| 0 <= k < j && self.labels()[k] == t.0;
                    if k == j - 1 {
                        assert(q(t));
                    } else {
                        assert(p(t));
                    }
                }
                if p(t) {
                    let k = choose|k: int| 0 <= k < j - 1 && self.labels()[k] == t.0;
                    assert(0 <= k < j && self.labels()[k] == t.0);
                }
                if q(t) {
                    assert(0 <= j - 1 < j && self.labels()[j - 1] == t.0);
                }
            }
            assert forall|t: (L, S, u64)| #![trigger p(t), q(t)] !(p(t) && q(t)) by {
                if p(t) && q(t) {
                    let k = choose|k: int| 0 <= k < j - 1 && self.labels()[k] == t.0;
                    assert(self.labels()[k] == self.labels()[j - 1]);
                }
            }
            lemma_filtered_sum_split(self.entries(), p, q, u);
        }
    }

    /// Law: the observed labels partition the total — the label counts of
    /// all labels ever observed, summed in list order, equal the running
    /// total of observations.
    pub proof fn lemma_labels_partition_total(self)
        requires
            self.wf(),
        ensures
            self.label_count_prefix_sum(self.labels().len() as int) == self.spec_total() as nat,
    {
        let m = self.labels().len() as int;
        self.lemma_label_prefix(m);
        assert forall|i: int| 0 <= i < self.entries().len() implies self.among_first_labels(m)(
            #[trigger] self.entries()[i],
        ) == any_entry::<L, S>()(self.entries()[i]) by {
            assert(self.labels().contains(self.entries()[i].0));
            let k = choose|k: int|
                0 <= k < self.labels().len() && self.labels()[k] == self.entries()[i].0;
            assert(self.among_first_labels(m)(self.entries()[i]));
        }
        lemma_filtered_sum_agree(
            self.entries(),
            self.among_first_labels(m),
            any_entry::<L, S>(),
        );
    }

    /// Law: the ranking ascends by the custom ratio order — in the sorted
    /// scored sequence behind it no score compares strictly greater than
    /// its right neighbour, and the ranking is exactly that sequence's
    /// labels in order.  Because the custom order treats nonzero ratios
    /// with equal `observations` as equal, adjacent ascent is the
    /// strongest ordering guarantee the comparison admits.
    pub proof fn lemma_ranking_ordered(self, example: S)
        ensures
            adjacent_ordered(sort_ranked(self.scored_pairs(example))),
            self.spec_ranking(example).len() == self.scored_pairs(example).len(),
            forall|i: int|
                0 <= i < self.spec_ranking(example).len() ==> #[trigger] self.spec_ranking(
                    example,
                )[i] == sort_ranked(self.scored_pairs(example))[i].1,
    {
        lemma_sort_ranked_ordered(self.scored_pairs(example));
    }
}

} // verus!
