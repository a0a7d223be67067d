//! Enumeration of the search jobs: every non-decreasing sequence of available
//! word lengths, of a size within the cardinality range, whose lengths sum to
//! the target's letter count.

use vstd::prelude::*;

verus! {

/// The sum of a sequence of lengths.
pub open spec fn seq_sum(s: Seq<usize>) -> int
    decreases s.len(),
{
    if s.len() == 0 {
        0
    } else {
        seq_sum(s.drop_last()) + s.last()
    }
}

/// Every element is at most the next one.
pub open spec fn non_decreasing(s: Seq<usize>) -> bool {
    forall|i: int, j: int| 0 <= i <= j < s.len() ==> s[i] <= s[j]
}

/// Every element is strictly below the next one: sorted, without repeats.
pub open spec fn strictly_increasing(s: Seq<usize>) -> bool {
    forall|i: int, j: int| 0 <= i < j < s.len() ==> s[i] < s[j]
}

/// Splitting off the first element of a non-empty sequence splits its sum.
pub proof fn lemma_seq_sum_first(s: Seq<usize>)
    requires
        s.len() > 0,
    ensures
        seq_sum(s) == s[0] + seq_sum(s.skip(1)),
    decreases s.len(),
{
    if s.len() == 1 {
        assert(s.skip(1) =~= Seq::<usize>::empty());
        assert(s.drop_last() =~= Seq::<usize>::empty());
        assert(s.last() == s[0]);
    } else {
        lemma_seq_sum_first(s.drop_last());
        assert(s.skip(1).drop_last() =~= s.drop_last().skip(1));
        assert(s.drop_last()[0] == s[0]);
        assert(s.skip(1).last() == s.last());
    }
}

/// A sum of lengths is never negative.
pub proof fn lemma_seq_sum_nonneg(s: Seq<usize>)
    ensures
        seq_sum(s) >= 0,
    decreases s.len(),
{
    if s.len() > 0 {
        lemma_seq_sum_nonneg(s.drop_last());
    }
}

/// When every element is at least one, a sequence is no longer than its sum.
pub proof fn lemma_seq_sum_ge_len(s: Seq<usize>)
    requires
        forall|t: int| 0 <= t < s.len() ==> s[t] >= 1,
    ensures
        seq_sum(s) >= s.len(),
    decreases s.len(),
{
    if s.len() > 0 {
        lemma_seq_sum_ge_len(s.drop_last());
    }
}

/// Two non-decreasing sequences holding the same multiset of lengths are the
/// same sequence: a job's length multiset has exactly one written form.
pub proof fn lemma_sorted_same_multiset_equal(a: Seq<usize>, b: Seq<usize>)
    requires
        non_decreasing(a),
        non_decreasing(b),
        a.to_multiset() == b.to_multiset(),
    ensures
        a == b,
    decreases a.len(),
{
    a.to_multiset_ensures();
    b.to_multiset_ensures();
    if a.len() == 0 {
        assert(a.to_multiset().len() == b.to_multiset().len());
        assert(b.len() == 0);
        assert(a =~= b);
    } else {
        assert(a.to_multiset().len() == b.to_multiset().len());
        assert(a.len() == b.len());
        assert(a.contains(a.first()));
        assert(a.to_multiset().count(a.first()) > 0);
        assert(b.to_multiset().count(a.first()) > 0);
        assert(b.contains(a.first()));
        let ia = choose|i: int| 0 <= i < b.len() && b[i] == a.first();
        assert(b.first() <= a.first());
        assert(b.contains(b.first()));
        assert(b.to_multiset().count(b.first()) > 0);
        assert(a.to_multiset().count(b.first()) > 0);
        assert(a.contains(b.first()));
        let ib = choose|i: int| 0 <= i < a.len() && a[i] == b.first();
        assert(a.first() <= b.first());
        assert(a.first() == b.first());
        let a2 = a.drop_first();
        let b2 = b.drop_first();
        assert(a.remove(0) =~= a2);
        assert(b.remove(0) =~= b2);
        assert(a2.to_multiset() =~= a.to_multiset().remove(a.first()));
        assert(b2.to_multiset() =~= b.to_multiset().remove(b.first()));
        assert(non_decreasing(a2)) by {
            assert(forall|t: int| 0 <= t < a2.len() ==> a2[t] == a[t + 1]);
        }
        assert(non_decreasing(b2)) by {
            assert(forall|t: int| 0 <= t < b2.len() ==> b2[t] == b[t + 1]);
        }
        lemma_sorted_same_multiset_equal(a2, b2);
        assert(a =~= b) by {
            assert(forall|t: int| 1 <= t < a.len() ==> a[t] == a2[t - 1] && b[t] == b2[t - 1]);
        }
    }
}

/// One way to finish a partial combination: `need` more values, drawn in
/// non-decreasing order from `values` at index `start` or later, reaching
/// exactly `budget`.
pub open spec fn tail_ok(
    values: Seq<usize>,
    tail: Seq<usize>,
    need: int,
    start: int,
    budget: int,
) -> bool {
    &&& tail.len() == need
    &&& seq_sum(tail) == budget
    &&& non_decreasing(tail)
    &&& forall|t: int|
        0 <= t < tail.len() ==> exists|j: int|
            start <= j < values.len() && #[trigger] tail[t] == values[j]
}

/// Generates the repeated combinations of `values` whose sum equals `sum` and
/// whose size lies within the cardinality range. Each combination is kept in
/// non-decreasing order, so no multiset of values appears twice.
pub struct RepeatedCombinationsWithSum {
    sum: usize,
    min_cardinality: usize,
    max_cardinality: usize,
    values: Vec<usize>,
    sets: Vec<Vec<usize>>,
}

impl RepeatedCombinationsWithSum {
    /// The sum every combination must reach.
    pub closed spec fn spec_sum(&self) -> int {
        self.sum as int
    }

    /// The smallest allowed combination size.
    pub closed spec fn spec_min(&self) -> int {
        self.min_cardinality as int
    }

    /// The largest allowed combination size.
    pub closed spec fn spec_max(&self) -> int {
        self.max_cardinality as int
    }

    /// The values combinations draw from.
    pub closed spec fn spec_values(&self) -> Seq<usize> {
        self.values@
    }

    /// The combinations found, each as a sequence of values.
    pub closed spec fn spec_sets(&self) -> Seq<Seq<usize>> {
        self.sets@.map_values(|v: Vec<usize>| v@)
    }

    /// One well-formed combination for this generator's parameters.
    pub open spec fn valid_set(&self, s: Seq<usize>) -> bool {
        &&& self.spec_min() <= s.len() <= self.spec_max()
        &&& seq_sum(s) == self.spec_sum()
        &&& non_decreasing(s)
        &&& forall|t: int| 0 <= t < s.len() ==> self.spec_values().contains(s[t])
    }

    /// Builds the generator and enumerates every combination at once.
    ///
    /// `values` must be sorted and without repeats, as a list of available
    /// word lengths is; every combination found is valid, and no two of them
    /// are equal.
    pub fn new(
        sum: usize,
        min_cardinality: usize,
        max_cardinality: usize,
        values: Vec<usize>,
    ) -> (r: RepeatedCombinationsWithSum)
        requires
            sum >= 1,
            min_cardinality >= 1,
            min_cardinality <= max_cardinality,
            max_cardinality < usize::MAX,
            values@.len() >= 1,
            strictly_increasing(values@),
        ensures
            r.spec_sum() == sum,
            r.spec_min() == min_cardinality,
            r.spec_max() == max_cardinality,
            r.spec_values() == values@,
            forall|m: int| 0 <= m < r.spec_sets().len() ==> r.valid_set(#[trigger] r.spec_sets()[m]),
            forall|m1: int, m2: int|
                0 <= m1 < m2 < r.spec_sets().len() ==> r.spec_sets()[m1] != r.spec_sets()[m2],
            forall|s: Seq<usize>|
                #[trigger] r.valid_set(s) ==> exists|m: int|
                    0 <= m < r.spec_sets().len() && r.spec_sets()[m] == s,
    {
        let mut rcs = RepeatedCombinationsWithSum {
            sum,
            min_cardinality,
            max_cardinality,
            values,
            sets: Vec::new(),
        };
        proof {
            assert(rcs.spec_sets() =~= Seq::<Seq<usize>>::empty());
        }
        rcs.generate_sets();
        rcs
    }

    /// How many combinations were found.
    pub fn get_sets_number(&self) -> (r: usize)
        ensures
            r == self.spec_sets().len(),
    {
        self.sets.len()
    }

    /// The `i`-th combination found.
    pub fn get_set(&self, i: usize) -> (r: &Vec<usize>)
        requires
            i < self.spec_sets().len(),
        ensures
            r@ == self.spec_sets()[i as int],
    {
        &self.sets[i]
    }

    /// Runs the recursive enumeration once for each allowed size.
    fn generate_sets(&mut self)
        requires
            old(self).spec_sets().len() == 0,
            old(self).spec_sum() >= 1,
            old(self).spec_min() >= 1,
            old(self).spec_min() <= old(self).spec_max(),
            1 <= old(self).spec_max() < usize::MAX,
            strictly_increasing(old(self).spec_values()),
        ensures
            final(self).spec_sum() == old(self).spec_sum(),
            final(self).spec_min() == old(self).spec_min(),
            final(self).spec_max() == old(self).spec_max(),
            final(self).spec_values() == old(self).spec_values(),
            forall|m: int|
                0 <= m < final(self).spec_sets().len() ==> final(self).valid_set(
                    #[trigger] final(self).spec_sets()[m],
                ),
            forall|m1: int, m2: int|
                0 <= m1 < m2 < final(self).spec_sets().len() ==> final(self).spec_sets()[m1]
                    != final(self).spec_sets()[m2],
            forall|s: Seq<usize>|
                #[trigger] final(self).valid_set(s) ==> exists|m: int|
                    0 <= m < final(self).spec_sets().len() && final(self).spec_sets()[m] == s,
    {
        let n = self.values.len();
        let mut solution: Vec<usize> = Vec::new();
        let mut f: usize = 0;
        while f < self.max_cardinality
            invariant
                f <= self.max_cardinality,
                solution@.len() == f,
                self == old(self),
            decreases self.max_cardinality - f,
        {
            solution.push(0);
            f = f + 1;
        }

        let mut k: usize = self.min_cardinality;
        while k <= self.max_cardinality
            invariant
                old(self).spec_min() <= k <= old(self).spec_max() + 1,
                self.spec_sum() == old(self).spec_sum(),
                self.spec_min() == old(self).spec_min(),
                self.spec_max() == old(self).spec_max(),
                self.spec_values() == old(self).spec_values(),
                old(self).spec_sum() >= 1,
                old(self).spec_min() >= 1,
                1 <= old(self).spec_max() < usize::MAX,
                strictly_increasing(old(self).spec_values()),
                solution@.len() == old(self).spec_max(),
                forall|m: int|
                    0 <= m < self.spec_sets().len() ==> self.valid_set(
                        #[trigger] self.spec_sets()[m],
                    ),
                forall|m: int|
                    0 <= m < self.spec_sets().len() ==> #[trigger] self.spec_sets()[m].len() < k,
                forall|m1: int, m2: int|
                    0 <= m1 < m2 < self.spec_sets().len() ==> self.spec_sets()[m1]
                        != self.spec_sets()[m2],
                forall|s: Seq<usize>|
                    #![trigger seq_sum(s)]
                    {
                        &&& old(self).spec_min() <= s.len() < k
                        &&& seq_sum(s) == old(self).spec_sum()
                        &&& non_decreasing(s)
                        &&& (forall|t: int|
                            0 <= t < s.len() ==> old(self).spec_values().contains(#[trigger] s[t]))
                    } ==> exists|m: int|
                        0 <= m < self.spec_sets().len() && #[trigger] self.spec_sets()[m] == s,
            decreases old(self).spec_max() + 1 - k,
        {
            proof {
                assert(solution@.take(0) =~= Seq::<usize>::empty());
            }
            let ghost sets_entry = self.spec_sets();
            let ghost pre_take = solution@.take(0);
            self.combine(k, &mut solution, 0, 0, 0);
            proof {
                let svals = old(self).spec_values();
                assert forall|s: Seq<usize>|
                    #![trigger seq_sum(s)]
                    {
                        &&& old(self).spec_min() <= s.len() < k + 1
                        &&& seq_sum(s) == old(self).spec_sum()
                        &&& non_decreasing(s)
                        &&& (forall|t: int| 0 <= t < s.len() ==> svals.contains(#[trigger] s[t]))
                    } implies exists|m: int|
                    0 <= m < self.spec_sets().len() && #[trigger] self.spec_sets()[m] == s by {
                    if s.len() < k {
                        let m0 = choose|m: int|
                            0 <= m < sets_entry.len() && #[trigger] sets_entry[m] == s;
                        assert(self.spec_sets()[m0] == s);
                    } else {
                        assert forall|t: int| 0 <= t < s.len() implies exists|j: int|
                            0 <= j < svals.len() && #[trigger] s[t] == svals[j] by {
                            assert(svals.contains(s[t]));
                        }
                        assert(tail_ok(svals, s, k as int, 0, old(self).spec_sum()));
                        assert(pre_take + s =~= s);
                        let m0 = choose|m: int|
                            sets_entry.len() <= m < self.spec_sets().len() && self.spec_sets()[m]
                                == pre_take + s;
                        assert(self.spec_sets()[m0] == s);
                    }
                }
            }
            k = k + 1;
        }
        proof {
            // a valid set's size sits in [min, max], below the final `k`
            assert forall|s: Seq<usize>| #[trigger] self.valid_set(s) implies exists|m: int|
                0 <= m < self.spec_sets().len() && self.spec_sets()[m] == s by {
                assert(seq_sum(s) == old(self).spec_sum());
            }
        }
    }

    /// Extends the partial combination `solution[..pos]` with values at index
    /// `start` or later, emitting every completion of size `k` that reaches
    /// the sum.
    #[verifier::rlimit(60)]
    fn combine(&mut self, k: usize, solution: &mut Vec<usize>, pos: usize, start: usize,
        items_sum: usize)
        requires
            pos <= k <= old(self).spec_max(),
            start <= old(self).spec_values().len(),
            old(solution)@.len() == old(self).spec_max(),
            items_sum == seq_sum(old(solution)@.take(pos as int)),
            items_sum <= old(self).spec_sum(),
            strictly_increasing(old(self).spec_values()),
            non_decreasing(old(solution)@.take(pos as int)),
            forall|t: int|
                0 <= t < pos ==> old(self).spec_values().contains(#[trigger] old(solution)@[t]),
            pos > 0 && start < old(self).spec_values().len() ==> old(solution)@[pos - 1]
                <= old(self).spec_values()[start as int],
        ensures
            final(self).spec_sum() == old(self).spec_sum(),
            final(self).spec_min() == old(self).spec_min(),
            final(self).spec_max() == old(self).spec_max(),
            final(self).spec_values() == old(self).spec_values(),
            final(solution)@.len() == old(solution)@.len(),
            final(solution)@.take(pos as int) == old(solution)@.take(pos as int),
            final(self).spec_sets().len() >= old(self).spec_sets().len(),
            forall|m: int|
                0 <= m < old(self).spec_sets().len() ==> final(self).spec_sets()[m] == old(self).spec_sets()[m],
            forall|m: int|
                old(self).spec_sets().len() <= m < final(self).spec_sets().len() ==> {
                    &&& (#[trigger] final(self).spec_sets()[m]).len() == k
                    &&& final(self).spec_sets()[m].take(pos as int) == old(solution)@.take(
                        pos as int,
                    )
                    &&& seq_sum(final(self).spec_sets()[m]) == old(self).spec_sum()
                    &&& non_decreasing(final(self).spec_sets()[m])
                    &&& forall|t: int|
                        0 <= t < k ==> old(self).spec_values().contains(
                            #[trigger] final(self).spec_sets()[m][t],
                        )
                },
            forall|m1: int, m2: int|
                old(self).spec_sets().len() <= m1 < m2 < final(self).spec_sets().len()
                    ==> final(self).spec_sets()[m1] != final(self).spec_sets()[m2],
            forall|tail: Seq<usize>|
                #![trigger seq_sum(tail)]
                tail_ok(
                    old(self).spec_values(),
                    tail,
                    k - pos,
                    start as int,
                    old(self).spec_sum() - items_sum,
                ) ==> exists|m: int|
                    old(self).spec_sets().len() <= m < final(self).spec_sets().len()
                        && final(self).spec_sets()[m] == old(solution)@.take(pos as int) + tail,
        decreases k - pos,
    {
        let ghost prefix = old(solution)@.take(pos as int);
        let ghost old_len = old(self).spec_sets().len();

        if pos == k {
            if items_sum == self.sum {
                let mut found: Vec<usize> = Vec::new();
                let mut t: usize = 0;
                while t < k
                    invariant
                        t <= k,
                        k <= solution@.len(),
                        solution == old(solution),
                        self == old(self),
                        found@ =~= solution@.take(t as int),
                    decreases k - t,
                {
                    found.push(solution[t]);
                    proof {
                        assert(found@ =~= solution@.take(t as int + 1));
                    }
                    t = t + 1;
                }
                proof {
                    assert(found@ =~= prefix);
                }
                self.sets.push(found);
                proof {
                    assert(self.spec_sets() =~= old(self).spec_sets().push(prefix));
                    assert(prefix.take(pos as int) =~= prefix);
                    assert forall|tail: Seq<usize>|
                        #![trigger seq_sum(tail)]
                        tail_ok(old(self).spec_values(), tail, 0, start as int, 0) implies exists|m: int|
                        old_len <= m < self.spec_sets().len() && self.spec_sets()[m] == prefix
                            + tail by {
                        assert(tail =~= Seq::<usize>::empty());
                        assert(prefix + tail =~= prefix);
                        assert(self.spec_sets()[old_len as int] == prefix);
                    }
                }
            } else {
                proof {
                    assert forall|tail: Seq<usize>|
                        #![trigger seq_sum(tail)]
                        tail_ok(
                            old(self).spec_values(),
                            tail,
                            0,
                            start as int,
                            old(self).spec_sum() - items_sum,
                        ) implies exists|m: int|
                        old_len <= m < self.spec_sets().len() && self.spec_sets()[m] == prefix
                            + tail by {
                        assert(tail.len() == 0);
                        assert(tail =~= Seq::<usize>::empty());
                        assert(seq_sum(tail) == 0);
                        assert(false);
                    }
                }
            }
            return ;
        }

        let n = self.values.len();
        let mut i: usize = start;
        while i < n
            invariant
                pos < k <= old(self).spec_max(),
                start <= i <= n,
                n == old(self).spec_values().len(),
                self.spec_sum() == old(self).spec_sum(),
                self.spec_min() == old(self).spec_min(),
                self.spec_max() == old(self).spec_max(),
                self.spec_values() == old(self).spec_values(),
                solution@.len() == old(solution)@.len() == old(self).spec_max(),
                solution@.take(pos as int) == prefix,
                items_sum == seq_sum(prefix),
                items_sum <= old(self).spec_sum(),
                strictly_increasing(old(self).spec_values()),
                non_decreasing(prefix),
                forall|t: int|
                    0 <= t < pos ==> old(self).spec_values().contains(#[trigger] prefix[t]),
                pos > 0 && start < n ==> prefix[pos - 1] <= old(self).spec_values()[start as int],
                self.spec_sets().len() >= old_len,
                forall|m: int|
                    0 <= m < old_len ==> self.spec_sets()[m] == old(self).spec_sets()[m],
                forall|m: int|
                    old_len <= m < self.spec_sets().len() ==> {
                        &&& (#[trigger] self.spec_sets()[m]).len() == k
                        &&& self.spec_sets()[m].take(pos as int) == prefix
                        &&& seq_sum(self.spec_sets()[m]) == old(self).spec_sum()
                        &&& non_decreasing(self.spec_sets()[m])
                        &&& forall|t: int|
                            0 <= t < k ==> old(self).spec_values().contains(
                                #[trigger] self.spec_sets()[m][t],
                            )
                    },
                forall|m: int|
                    old_len <= m < self.spec_sets().len() ==> exists|j: int|
                        start <= j < i && (#[trigger] self.spec_sets()[m])[pos as int] == old(
                            self,
                        ).spec_values()[j],
                forall|m1: int, m2: int|
                    old_len <= m1 < m2 < self.spec_sets().len() ==> self.spec_sets()[m1]
                        != self.spec_sets()[m2],
                forall|tail: Seq<usize>|
                    #![trigger seq_sum(tail)]
                    (tail_ok(
                        old(self).spec_values(),
                        tail,
                        k - pos,
                        start as int,
                        old(self).spec_sum() - items_sum,
                    ) && exists|j: int|
                        start <= j < i && tail[0] == old(self).spec_values()[j]) ==> exists|m: int|
                        old_len <= m < self.spec_sets().len() && self.spec_sets()[m] == prefix
                            + tail,
            decreases n - i,
        {
            let v = self.values[i];
            if v <= self.sum - items_sum {
                let ghost sets_before = self.spec_sets();
                solution[pos] = v;
                proof {
                    assert(solution@.take(pos as int) =~= prefix);
                    assert(solution@.take(pos as int + 1) =~= prefix.push(v));
                    assert(solution@.take(pos as int + 1).drop_last() =~= prefix);
                    assert(seq_sum(solution@.take(pos as int + 1)) == items_sum + v);
                    assert(non_decreasing(solution@.take(pos as int + 1))) by {
                        if pos > 0 {
                            assert(prefix[pos - 1] <= old(self).spec_values()[start as int]);
                            assert(old(self).spec_values()[start as int]
                                <= old(self).spec_values()[i as int]) by {
                                if start < i {
                                    assert(strictly_increasing(old(self).spec_values()));
                                }
                            }
                        }
                    }
                    assert(forall|t: int|
                        0 <= t < pos + 1 ==> old(self).spec_values().contains(
                            #[trigger] solution@.take(pos as int + 1)[t],
                        )) by {
                        assert(old(self).spec_values()[i as int] == v);
                        assert(old(self).spec_values().contains(v));
                    }
                    assert forall|t: int|
                        0 <= t < pos + 1 implies old(self).spec_values().contains(
                        #[trigger] solution@[t],
                    ) by {
                        assert(solution@[t] == solution@.take(pos as int + 1)[t]);
                        assert(old(self).spec_values().contains(solution@.take(pos as int + 1)[t]));
                    }
                    assert(solution@[pos as int] == v);
                }
                self.combine(k, solution, pos + 1, i, items_sum + v);
                proof {
                    let svals = old(self).spec_values();
                    assert(solution@.take(pos as int) =~= prefix) by {
                        assert(solution@.take(pos as int + 1).take(pos as int) =~= solution@.take(
                            pos as int,
                        ));
                    }
                    assert forall|m: int|
                        old_len <= m < self.spec_sets().len() implies {
                        &&& (#[trigger] self.spec_sets()[m]).len() == k
                        &&& self.spec_sets()[m].take(pos as int) == prefix
                        &&& seq_sum(self.spec_sets()[m]) == old(self).spec_sum()
                        &&& non_decreasing(self.spec_sets()[m])
                        &&& (forall|t: int|
                            0 <= t < k ==> svals.contains(#[trigger] self.spec_sets()[m][t]))
                        &&& exists|j: int|
                            start <= j < i + 1 && self.spec_sets()[m][pos as int] == svals[j]
                    } by {
                        if m < sets_before.len() {
                            assert(self.spec_sets()[m] == sets_before[m]);
                        } else {
                            let s = self.spec_sets()[m];
                            assert(s.take(pos as int + 1) == prefix.push(v));
                            assert(s.take(pos as int) =~= s.take(pos as int + 1).take(pos as int));
                            assert(s.take(pos as int) =~= prefix);
                            assert(s[pos as int] == prefix.push(v)[pos as int]);
                            assert(s[pos as int] == svals[i as int]);
                        }
                    }
                    assert forall|m1: int, m2: int|
                        old_len <= m1 < m2 < self.spec_sets().len() implies self.spec_sets()[m1]
                        != self.spec_sets()[m2] by {
                        if m1 < sets_before.len() && sets_before.len() <= m2 {
                            let j1 = choose|j: int|
                                start <= j < i && sets_before[m1][pos as int] == svals[j];
                            assert(svals[j1] < svals[i as int]);
                            assert(self.spec_sets()[m2].take(pos as int + 1) == prefix.push(v));
                            assert(self.spec_sets()[m2][pos as int] == svals[i as int]);
                        }
                    }
                    let budget = old(self).spec_sum() - items_sum;
                    assert forall|tail: Seq<usize>|
                        #![trigger seq_sum(tail)]
                        (tail_ok(svals, tail, k - pos, start as int, budget) && exists|
                            j: int,
                        |
                            start <= j < i + 1 && tail[0] == svals[j]) implies exists|m: int|
                        old_len <= m < self.spec_sets().len() && self.spec_sets()[m] == prefix
                            + tail by {
                        let j0 = choose|j: int| start <= j < i + 1 && tail[0] == svals[j];
                        if j0 < i {
                            assert(exists|m: int|
                                old_len <= m < sets_before.len() && sets_before[m] == prefix
                                    + tail);
                            let m0 = choose|m: int|
                                old_len <= m < sets_before.len() && sets_before[m] == prefix
                                    + tail;
                            assert(self.spec_sets()[m0] == prefix + tail);
                        } else {
                            assert(tail[0] == svals[i as int] == v);
                            let tail2 = tail.skip(1);
                            lemma_seq_sum_first(tail);
                            assert(tail2.len() == k - pos - 1);
                            assert(seq_sum(tail2) == budget - v);
                            assert(non_decreasing(tail2)) by {
                                assert(forall|a: int, b: int|
                                    0 <= a <= b < tail2.len() ==> tail2[a] == tail[a + 1]
                                        && tail2[b] == tail[b + 1]);
                            }
                            assert forall|t: int|
                                0 <= t < tail2.len() implies exists|j: int|
                                i <= j < svals.len() && #[trigger] tail2[t] == svals[j] by {
                                assert(tail2[t] == tail[t + 1]);
                                let j2 = choose|j: int|
                                    start <= j < svals.len() && tail[t + 1] == svals[j];
                                assert(tail[t + 1] >= tail[0]);
                                assert(j2 >= i) by {
                                    if j2 < i {
                                        assert(svals[j2] < svals[i as int]);
                                    }
                                }
                            }
                            assert(tail_ok(
                                svals,
                                tail2,
                                k - (pos + 1),
                                i as int,
                                old(self).spec_sum() - (items_sum + v),
                            ));
                            let m0 = choose|m: int|
                                sets_before.len() <= m < self.spec_sets().len()
                                    && self.spec_sets()[m] == prefix.push(v) + tail2;
                            assert(prefix.push(v) + tail2 =~= prefix + tail);
                            assert(self.spec_sets()[m0] == prefix + tail);
                        }
                    }
                }
            } else {
                proof {
                    let budget = old(self).spec_sum() - items_sum;
                    assert forall|tail: Seq<usize>|
                        #![trigger seq_sum(tail)]
                        (tail_ok(
                            old(self).spec_values(),
                            tail,
                            k - pos,
                            start as int,
                            budget,
                        ) && exists|j: int|
                            start <= j < i + 1 && tail[0] == old(self).spec_values()[j]) implies
                        exists|m: int|
                            old_len <= m < self.spec_sets().len() && self.spec_sets()[m] == prefix
                                + tail by {
                        let j0 = choose|j: int|
                            start <= j < i + 1 && tail[0] == old(self).spec_values()[j];
                        if j0 == i {
                            assert(tail[0] == old(self).spec_values()[i as int]);
                            assert(tail[0] > budget);
                            lemma_seq_sum_first(tail);
                            lemma_seq_sum_nonneg(tail.skip(1));
                            assert(false);
                        } else {
                            let m0 = choose|m: int|
                                old_len <= m < self.spec_sets().len() && self.spec_sets()[m]
                                    == prefix + tail;
                            assert(self.spec_sets()[m0] == prefix + tail);
                        }
                    }
                }
            }
            i = i + 1;
        }
    }
}

} // verus!
