//! Statistics of a simulation run: per-iteration samples and histograms.

use vstd::prelude::*;

verus! {

/// Addition that sticks to the largest value instead of overflowing.
pub open spec fn sat_add_spec(a: u64, b: u64) -> u64 {
    if a + b > u64::MAX {
        u64::MAX
    } else {
        (a + b) as u64
    }
}

/// Adds two counters, saturating at the largest value.
pub fn sat_add(a: u64, b: u64) -> (r: u64)
    ensures
        r == sat_add_spec(a, b),
{
    if b > u64::MAX - a {
        u64::MAX
    } else {
        a + b
    }
}

/// One recorded sample: the population and the cumulative event counts
/// after an iteration.
#[derive(Clone, Copy, PartialEq, Eq, Structural, Debug)]
pub struct Sample {
    pub iteration: u64,
    pub nodes: u64,
    pub sections: u64,
    pub merges: u64,
    pub splits: u64,
    pub relocations: u64,
    pub rejections: u64,
}

/// The sample reported before any iteration ran.
pub open spec fn zero_sample() -> Sample {
    Sample {
        iteration: 0,
        nodes: 0,
        sections: 0,
        merges: 0,
        splits: 0,
        relocations: 0,
        rejections: 0,
    }
}

impl Default for Sample {
    /// All counts zero.
    fn default() -> (r: Sample)
        ensures
            r == zero_sample(),
    {
        Sample {
            iteration: 0,
            nodes: 0,
            sections: 0,
            merges: 0,
            splits: 0,
            relocations: 0,
            rejections: 0,
        }
    }
}

/// How often `v` occurs in `s`.
pub open spec fn count_occurrences(s: Seq<u64>, v: u64) -> nat
    decreases s.len(),
{
    if s.len() == 0 {
        0
    } else {
        count_occurrences(s.drop_last(), v) + if s.last() == v {
            1nat
        } else {
            0nat
        }
    }
}

proof fn lemma_count_occurrences_not_contained(s: Seq<u64>, v: u64)
    requires
        !s.contains(v),
    ensures
        count_occurrences(s, v) == 0,
    decreases s.len(),
{
    if s.len() > 0 {
        assert(s[s.len() - 1] != v);
        assert(forall|i: int| 0 <= i < s.len() - 1 ==> s.drop_last()[i] == s[i]);
        assert(!s.drop_last().contains(v)) by {
            if s.drop_last().contains(v) {
                let i = choose|i: int| 0 <= i < s.drop_last().len() && s.drop_last()[i] == v;
                assert(s[i] == v);
            }
        }
        lemma_count_occurrences_not_contained(s.drop_last(), v);
    }
}

proof fn lemma_count_occurrences_le_len(s: Seq<u64>, v: u64)
    ensures
        count_occurrences(s, v) <= s.len(),
    decreases s.len(),
{
    if s.len() > 0 {
        lemma_count_occurrences_le_len(s.drop_last(), v);
    }
}

/// A histogram: how often each value occurred, keyed by value ascending.
#[derive(Clone, PartialEq, Eq, Debug)]
pub struct Distribution {
    pub counts: Vec<(u64, u64)>,
}

/// Whether a row for `v` exists.
pub open spec fn hist_has_key(cs: Seq<(u64, u64)>, v: u64) -> bool {
    exists|i: int| 0 <= i < cs.len() && (#[trigger] cs[i]).0 == v
}

/// Whether `cs` is exactly the tally of `values`: keys strictly ascending,
/// every count positive and correct, and a row for exactly the values seen.
pub open spec fn histogram_ok(cs: Seq<(u64, u64)>, values: Seq<u64>) -> bool {
    &&& forall|i: int, j: int| 0 <= i < j < cs.len() ==> (#[trigger] cs[i]).0 < (#[trigger] cs[j]).0
    &&& forall|i: int| 0 <= i < cs.len() ==> (#[trigger] cs[i]).1 > 0
    &&& forall|i: int|
        0 <= i < cs.len() ==> (#[trigger] cs[i]).1 == count_occurrences(values, cs[i].0)
    &&& forall|v: u64| hist_has_key(cs, v) <==> values.contains(v)
}

impl Distribution {
    /// Whether the histogram is exactly the tally of `values`.
    pub open spec fn is_histogram_of(self, values: Seq<u64>) -> bool {
        histogram_ok(self.counts@, values)
    }

    /// Tallies the values into a histogram sorted by value.
    pub fn new(values: &Vec<u64>) -> (r: Distribution)
        ensures
            r.is_histogram_of(values@),
    {
        let mut counts: Vec<(u64, u64)> = Vec::new();
        let mut i: usize = 0;
        proof {
            assert(values@.take(0) =~= Seq::<u64>::empty());
        }
        while i < values.len()
            invariant
                0 <= i <= values@.len(),
                histogram_ok(counts@, values@.take(i as int)),
            decreases values@.len() - i,
        {
            let ghost prev = values@.take(i as int);
            let v = values[i];
            proof {
                assert(values@.take(i + 1).drop_last() =~= prev);
                assert(values@.take(i + 1).last() == v);
                assert forall|w: u64| values@.take(i + 1).contains(w) implies (prev.contains(w) || w
                    == v) by {
                    let k = choose|k: int|
                        0 <= k < values@.take(i + 1).len() && #[trigger] values@.take(i + 1)[k]
                            == w;
                    if k < i {
                        assert(prev[k] == w);
                    }
                }
                assert forall|w: u64| prev.contains(w) implies values@.take(i + 1).contains(w) by {
                    let k = choose|k: int| 0 <= k < prev.len() && #[trigger] prev[k] == w;
                    assert(values@.take(i + 1)[k] == w);
                }
                assert(values@.take(i + 1)[i as int] == v);
                assert(values@.take(i + 1).contains(v));
                assert forall|w: u64| w != v implies count_occurrences(values@.take(i + 1), w)
                    == count_occurrences(prev, w) by {}
                assert(count_occurrences(values@.take(i + 1), v) == count_occurrences(prev, v)
                    + 1);
            }
            let mut p: usize = 0;
            while p < counts.len() && counts[p].0 < v
                invariant
                    0 <= p <= counts@.len(),
                    histogram_ok(counts@, prev),
                    forall|j: int| 0 <= j < p ==> (#[trigger] counts@[j]).0 < v,
                decreases counts@.len() - p,
            {
                p += 1;
            }
            let ghost cs = counts@;
            if p < counts.len() && counts[p].0 == v {
                proof {
                    lemma_count_occurrences_le_len(prev, v);
                    assert(cs[p as int].1 == count_occurrences(prev, v));
                }
                let c = counts[p];
                counts[p] = (v, c.1 + 1);
                proof {
                    assert(forall|j: int|
                        0 <= j < counts@.len() && j != p ==> #[trigger] counts@[j] == cs[j]);
                    assert(forall|j: int|
                        0 <= j < counts@.len() ==> (#[trigger] counts@[j]).0 == cs[j].0);
                    assert forall|j: int|
                        0 <= j < counts@.len() implies (#[trigger] counts@[j]).1
                        == count_occurrences(values@.take(i + 1), counts@[j].0) by {
                        if j != p {
                            assert(cs[j].0 != v) by {
                                if j < p {
                                    assert(cs[j].0 < cs[p as int].0);
                                } else {
                                    assert(cs[p as int].0 < cs[j].0);
                                }
                            }
                        }
                    }
                    assert(cs[p as int].0 == v);
                    assert(prev.contains(v)) by {
                        assert(hist_has_key(cs, v));
                    }
                    assert forall|w: u64|
                        hist_has_key(counts@, w) <==> values@.take(i + 1).contains(
                            w,
                        ) by {
                        if hist_has_key(counts@, w) {
                            let j = choose|j: int|
                                0 <= j < counts@.len() && (#[trigger] counts@[j]).0 == w;
                            assert(cs[j].0 == w);
                            assert(prev.contains(w));
                        }
                        if values@.take(i + 1).contains(w) {
                            if w == v {
                                assert(counts@[p as int].0 == v);
                            } else {
                                assert(prev.contains(w));
                                let j = choose|j: int|
                                    0 <= j < cs.len() && (#[trigger] cs[j]).0 == w;
                                assert(counts@[j].0 == w);
                            }
                        }
                    }
                }
            } else {
                proof {
                    assert forall|j: int| p <= j < cs.len() implies (#[trigger] cs[j]).0 > v by {
                        if j > p {
                            assert(cs[p as int].0 < cs[j].0);
                        }
                    }
                    assert(!hist_has_key(cs, v)) by {
                        if hist_has_key(cs, v) {
                            let j = choose|j: int|
                                0 <= j < cs.len() && (#[trigger] cs[j]).0 == v;
                            if j < p {
                                assert(cs[j].0 < v);
                            } else {
                                assert(cs[j].0 > v);
                            }
                        }
                    }
                    assert(!prev.contains(v));
                    assert(count_occurrences(prev, v) == 0) by {
                        lemma_count_occurrences_not_contained(prev, v);
                    }
                }
                counts.insert(p, (v, 1));
                proof {
                    assert(forall|j: int| 0 <= j < p ==> #[trigger] counts@[j] == cs[j]);
                    assert(forall|j: int|
                        p < j < counts@.len() ==> #[trigger] counts@[j] == cs[j - 1]);
                    assert(counts@[p as int] == (v, 1u64));
                    assert forall|j: int, k: int|
                        0 <= j < k < counts@.len() implies (#[trigger] counts@[j]).0 < (
                        #[trigger] counts@[k]).0 by {}
                    assert forall|j: int|
                        0 <= j < counts@.len() implies (#[trigger] counts@[j]).1
                        == count_occurrences(values@.take(i + 1), counts@[j].0) by {
                        if j != p {
                            let cj = if j < p {
                                cs[j]
                            } else {
                                cs[j - 1]
                            };
                            assert(counts@[j] == cj);
                            assert(cj.0 != v);
                        }
                    }
                    assert forall|w: u64|
                        hist_has_key(counts@, w) <==> values@.take(i + 1).contains(
                            w,
                        ) by {
                        if hist_has_key(counts@, w) {
                            let j = choose|j: int|
                                0 <= j < counts@.len() && (#[trigger] counts@[j]).0 == w;
                            if j != p {
                                if j < p {
                                    assert(cs[j].0 == w);
                                } else {
                                    assert(cs[j - 1].0 == w);
                                }
                                assert(prev.contains(w));
                            }
                        }
                        if values@.take(i + 1).contains(w) {
                            if w == v {
                                assert(counts@[p as int].0 == v);
                            } else {
                                assert(prev.contains(w));
                                let j = choose|j: int|
                                    0 <= j < cs.len() && (#[trigger] cs[j]).0 == w;
                                if j < p {
                                    assert(counts@[j].0 == w);
                                } else {
                                    assert(counts@[j + 1].0 == w);
                                }
                            }
                        }
                    }
                }
            }
            i += 1;
        }
        proof {
            assert(values@.take(values@.len() as int) =~= values@);
        }
        Distribution { counts }
    }
}

/// Cumulative statistics of a run: one sample per iteration plus running
/// totals.
#[derive(Clone, PartialEq, Eq, Debug)]
pub struct Stats {
    pub samples: Vec<Sample>,
    pub total_merges: u64,
    pub total_splits: u64,
    pub total_relocations: u64,
    pub total_rejections: u64,
}

impl Stats {
    /// Creates empty statistics.
    pub fn new() -> (r: Stats)
        ensures
            r.samples@.len() == 0,
            r.total_merges == 0,
            r.total_splits == 0,
            r.total_relocations == 0,
            r.total_rejections == 0,
    {
        Stats {
            samples: Vec::new(),
            total_merges: 0,
            total_splits: 0,
            total_relocations: 0,
            total_rejections: 0,
        }
    }

    /// Records one iteration: the event counts are added to the running
    /// totals (saturating) and one cumulative sample is appended.
    pub fn record(
        &mut self,
        iteration: u64,
        total_nodes: u64,
        total_sections: u64,
        merges: u64,
        splits: u64,
        relocations: u64,
        rejections: u64,
    )
        ensures
            final(self).total_merges == sat_add_spec(old(self).total_merges, merges),
            final(self).total_splits == sat_add_spec(old(self).total_splits, splits),
            final(self).total_relocations == sat_add_spec(old(self).total_relocations, relocations),
            final(self).total_rejections == sat_add_spec(old(self).total_rejections, rejections),
            final(self).samples@ == old(self).samples@.push(
                Sample {
                    iteration,
                    nodes: total_nodes,
                    sections: total_sections,
                    merges: final(self).total_merges,
                    splits: final(self).total_splits,
                    relocations: final(self).total_relocations,
                    rejections: final(self).total_rejections,
                },
            ),
    {
        self.total_merges = sat_add(self.total_merges, merges);
        self.total_splits = sat_add(self.total_splits, splits);
        self.total_relocations = sat_add(self.total_relocations, relocations);
        self.total_rejections = sat_add(self.total_rejections, rejections);
        self.samples.push(
            Sample {
                iteration,
                nodes: total_nodes,
                sections: total_sections,
                merges: self.total_merges,
                splits: self.total_splits,
                relocations: self.total_relocations,
                rejections: self.total_rejections,
            },
        );
    }

    /// The most recent sample, or the zero sample before any was recorded.
    pub fn summary(&self) -> (r: Sample)
        ensures
            r == if self.samples@.len() > 0 {
                self.samples@.last()
            } else {
                zero_sample()
            },
    {
        if self.samples.len() > 0 {
            self.samples[self.samples.len() - 1]
        } else {
            Sample::default()
        }
    }

    /// The recorded samples, one per iteration.
    pub fn samples(&self) -> (r: &Vec<Sample>)
        ensures
            r@ == self.samples@,
    {
        &self.samples
    }
}

} // verus!
