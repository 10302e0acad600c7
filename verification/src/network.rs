//! The network dispatcher.
//!
//! The network owns the map from prefix to section, drives every section's
//! protocol pass, routes the resulting actions and messages, and executes
//! splits and merges until the system is quiescent.  It is the sole mutator
//! of the partition; sections only return action values.

use vstd::prelude::*;

use crate::message::{Action, Message};
use crate::node::Node;
use crate::params::Params;
use crate::prefix::{covered, is_partition, uniquely_covered, Name, Prefix};
use crate::random::{reseed, Rng};
use crate::section::Section;
use crate::stats::{histogram_ok, sat_add, Distribution, Stats};

verus! {

/// The defensive cap on protocol rounds within one tick; reaching it counts
/// as a simulation failure.
pub const MAX_PROTOCOL_ROUNDS: usize = 10000;

/// The strict iteration order of sections: by prefix bits, then length.
pub open spec fn prefix_lt(a: Prefix, b: Prefix) -> bool {
    a.bits < b.bits || (a.bits == b.bits && a.len < b.len)
}

fn prefix_lt_exec(a: Prefix, b: Prefix) -> (r: bool)
    ensures
        r == prefix_lt(a, b),
{
    a.bits < b.bits || (a.bits == b.bits && a.len < b.len)
}

/// Sections are kept strictly ordered by prefix, so prefixes are unique and
/// every walk over them is deterministic.
pub open spec fn sections_sorted(s: Seq<Section>) -> bool {
    forall|i: int, j: int|
        0 <= i < j < s.len() ==> prefix_lt((#[trigger] s[i]).prefix, (#[trigger] s[j]).prefix)
}

pub open spec fn sections_wf(s: Seq<Section>) -> bool {
    forall|i: int| 0 <= i < s.len() ==> (#[trigger] s[i]).wf()
}

/// The prefixes of the sections, in section order.
pub open spec fn prefixes_of(s: Seq<Section>) -> Seq<Prefix> {
    s.map_values(|sec: Section| sec.prefix)
}

/// Strictly ordered sections have pairwise distinct prefixes.
proof fn lemma_sorted_prefixes_distinct(s: Seq<Section>)
    requires
        sections_sorted(s),
    ensures
        forall|i: int, j: int|
            0 <= i < j < prefixes_of(s).len() ==> prefixes_of(s)[i] != prefixes_of(s)[j],
{
    assert forall|i: int, j: int|
        0 <= i < j < prefixes_of(s).len() implies prefixes_of(s)[i] != prefixes_of(s)[j] by {
        assert(prefix_lt(s[i].prefix, s[j].prefix));
    }
}

/// Whether some section carries exactly this prefix.
pub open spec fn sections_has_prefix(s: Seq<Section>, p: Prefix) -> bool {
    exists|i: int| 0 <= i < s.len() && (#[trigger] s[i]).prefix == p
}

/// The first section whose prefix matches the name, in section order.
pub open spec fn first_match(s: Seq<Section>, t: Name, i: int) -> bool {
    &&& 0 <= i < s.len()
    &&& s[i].prefix.spec_matches(t)
    &&& forall|j: int| 0 <= j < i ==> !(#[trigger] s[j]).prefix.spec_matches(t)
}

/// Folding every absorbed section into a fresh section under the target
/// prefix, in the order the dispatcher merges them (last collected first).
pub open spec fn merged_fold(
    target: Prefix,
    params: Params,
    srcs: Seq<Section>,
    merged: Section,
) -> bool
    decreases srcs.len(),
{
    if srcs.len() == 0 {
        &&& merged.prefix == target
        &&& merged.wf()
        &&& merged.nodes@.len() == 0
        &&& merged.messages@.len() == 0
        &&& merged.incoming_relocations.spec_len() == 0
        &&& merged.outgoing_relocations.spec_len() == 0
        &&& merged.chain == (crate::chain::Chain { last_live: None::<crate::chain::Block> })
        &&& merged.recent_join == false
        &&& merged.recent_drop == false
    } else {
        exists|m0: Section|
            #![trigger crate::section::merge_outcome(m0, params, srcs.first(), merged)]
            merged_fold(target, params, srcs.drop_first(), m0) && crate::section::merge_outcome(
                m0,
                params,
                srcs.first(),
                merged,
            )
    }
}

/// Everything dispatching one action does: the section-list transformation
/// and the counter deltas `(merges, splits, relocations, rejections,
/// violations)`, each zero or one.
pub open spec fn action_outcome(
    pre: Seq<Section>,
    params: Params,
    a: Action,
    post: Seq<Section>,
    d: (int, int, int, int, int),
) -> bool {
    match a {
        Action::Reject(_) => post == pre && d == (0int, 0int, 0int, 1int, 0int),
        Action::Merge(target) => {
            if !target.wf() {
                post == pre && d == (0int, 0int, 0int, 0int, 1int)
            } else if !(exists|i: int|
                0 <= i < pre.len() && target.spec_is_ancestor((#[trigger] pre[i]).prefix)) {
                post == pre && d == (0int, 0int, 0int, 0int, 0int)
            } else {
                &&& d == (1int, 0int, 0int, 0int, 0int)
                &&& exists|merged: Section, srcs: Seq<Section>|
                    #![trigger merged_fold(target, params, srcs, merged)]
                    {
                        &&& srcs.len() >= 1
                        &&& (forall|s: Section|
                            srcs.contains(s) <==> (pre.contains(s) && target.spec_is_ancestor(
                                s.prefix,
                            )))
                        &&& merged_fold(target, params, srcs, merged)
                        &&& (forall|s: Section|
                            post.contains(s) <==> ((pre.contains(s) && !target.spec_is_ancestor(
                                s.prefix,
                            )) || s == merged))
                    }
            }
        },
        Action::Split(source) => {
            if !sections_has_prefix(pre, source) {
                post == pre && d == (0int, 0int, 0int, 0int, 1int)
            } else if source.len >= 64 {
                post == pre && d == (0int, 0int, 0int, 0int, 1int)
            } else {
                exists|idx: int, c0: Section, c1: Section|
                    #![trigger crate::section::split_post(pre[idx], params, c0, c1)]
                    {
                        &&& 0 <= idx < pre.len() && pre[idx].prefix == source
                        &&& crate::section::split_post(pre[idx], params, c0, c1)
                        &&& d.0 == 0 && d.1 == 1 && d.2 == 0 && d.3 == 0
                        &&& 0 <= d.4 <= 1
                        &&& (is_partition(prefixes_of(pre)) ==> d.4 == 0)
                        &&& (d.4 == 0 ==> (forall|s: Section|
                            post.contains(s) <==> ((pre.contains(s) && s != pre[idx]) || s == c0
                                || s == c1)))
                    }
            }
        },
        Action::Send(message) => {
            let t = crate::message::spec_target(message);
            if !(exists|i: int|
                0 <= i < pre.len() && (#[trigger] pre[i]).prefix.spec_matches(t)) {
                post == pre && d == (0int, 0int, 0int, 0int, 1int)
            } else {
                &&& d == (
                    0int,
                    0int,
                    (if message matches Message::RelocateCommit { .. } {
                        1int
                    } else {
                        0int
                    }),
                    0int,
                    0int,
                )
                &&& exists|i: int|
                    #![trigger pre[i]]
                    {
                        &&& first_match(pre, t, i)
                        &&& post == pre.update(i, post[i])
                        &&& post[i].messages@ == pre[i].messages@.push(message)
                        &&& post[i] == (Section { messages: post[i].messages, ..pre[i] })
                    }
            }
        },
    }
}

/// Dispatching a batch of actions in emission order: the fold of
/// `action_outcome`, with the counters accumulated.
pub open spec fn actions_outcome(
    pre: Seq<Section>,
    params: Params,
    acts: Seq<Action>,
    post: Seq<Section>,
    c: (int, int, int, int, int),
) -> bool
    decreases acts.len(),
{
    if acts.len() == 0 {
        post == pre && c == (0int, 0int, 0int, 0int, 0int)
    } else {
        exists|mid: Seq<Section>, d: (int, int, int, int, int)|
            #![trigger action_outcome(mid, params, acts.last(), post, d)]
            actions_outcome(
                pre,
                params,
                acts.drop_last(),
                mid,
                (c.0 - d.0, c.1 - d.1, c.2 - d.2, c.3 - d.3, c.4 - d.4),
            ) && action_outcome(mid, params, acts.last(), post, d)
    }
}

/// The population of the network: the member counts of all sections summed
/// in section order, saturating.
pub open spec fn total_nodes_spec(s: Seq<Section>) -> u64
    decreases s.len(),
{
    if s.len() == 0 {
        0u64
    } else {
        crate::stats::sat_add_spec(total_nodes_spec(s.drop_last()), s.last().nodes@.len() as u64)
    }
}

/// The whole-network safety condition checked after each tick: no section
/// over the size cap and no relocation cache left populated at quiescence.
pub open spec fn quiescent_ok(s: Seq<Section>, params: Params) -> bool {
    forall|i: int|
        0 <= i < s.len() ==> ((#[trigger] s[i]).nodes@.len() <= params.max_section_size
            && s[i].incoming_relocations.spec_len() == 0 && s[i].outgoing_relocations.spec_len()
            == 0)
}

/// How many sections hold a complete group.
pub open spec fn count_complete_spec(s: Seq<Section>, params: Params) -> nat
    decreases s.len(),
{
    if s.len() == 0 {
        0
    } else {
        count_complete_spec(s.drop_last(), params) + if crate::node::count_adults_spec(
            s.last().nodes@,
            params,
        ) >= params.group_size {
            1nat
        } else {
            0nat
        }
    }
}

/// The ages of a membership, in membership order.
pub open spec fn ages_of(ns: Seq<Node>) -> Seq<u64> {
    ns.map_values(|n: Node| n.age)
}

/// The ages of every node of the network, walking sections in order.
pub open spec fn all_ages(s: Seq<Section>) -> Seq<u64>
    decreases s.len(),
{
    if s.len() == 0 {
        Seq::empty()
    } else {
        all_ages(s.drop_last()) + ages_of(s.last().nodes@)
    }
}

/// The member count of every section, in section order.
pub open spec fn all_sizes(s: Seq<Section>) -> Seq<u64> {
    s.map_values(|sec: Section| sec.nodes@.len() as u64)
}

/// The prefix length of every section, in section order.
pub open spec fn all_prefix_lens(s: Seq<Section>) -> Seq<u64> {
    s.map_values(|sec: Section| sec.prefix.len)
}

/// The simulated network: the partition of the name space into sections,
/// the collected statistics, and the seeded random generator.
#[derive(Clone, Debug)]
pub struct Network {
    pub params: Params,
    pub stats: Stats,
    pub sections: Vec<Section>,
    pub rng: Rng,
}

impl Network {
    /// Parameters are sane, sections are strictly ordered by prefix, and
    /// every section is well formed (in particular, every member's name
    /// matches its section's prefix).
    pub open spec fn wf(self) -> bool {
        &&& self.params.wf()
        &&& sections_sorted(self.sections@)
        &&& sections_wf(self.sections@)
    }

    /// Creates a simulated network holding one empty section under the
    /// empty prefix, with the generator seeded from the parameters.
    pub fn new(params: Params) -> (r: Network)
        requires
            params.wf(),
        ensures
            r.wf(),
            r.params == params,
            r.sections@.len() == 1,
            r.sections@[0].prefix == Prefix::empty_spec(),
            r.sections@[0].nodes@.len() == 0,
            r.stats.samples@.len() == 0,
            r.rng == crate::random::reseed_spec(params.seed),
            is_partition(prefixes_of(r.sections@)),
    {
        let mut sections: Vec<Section> = Vec::new();
        sections.push(Section::new(Prefix::empty()));
        proof {
            crate::prefix::lemma_single_empty_partition();
            assert(prefixes_of(sections@) =~= seq![Prefix { bits: 0, len: 0 }]);
        }
        Network { params, stats: Stats::new(), sections, rng: reseed(params.seed) }
    }

    /// The number of sections of the network.
    pub fn num_sections(&self) -> (r: usize)
        ensures
            r == self.sections@.len(),
    {
        self.sections.len()
    }

    /// The collected statistics.
    pub fn stats(&self) -> (r: &Stats)
        ensures
            r == &self.stats,
    {
        &self.stats
    }

    /// How many sections hold at least `group_size` adults.
    pub fn num_complete_sections(&self) -> (r: u64)
        requires
            self.wf(),
        ensures
            r == count_complete_spec(self.sections@, self.params),
    {
        let params = self.params;
        let mut count: u64 = 0;
        let mut i: usize = 0;
        while i < self.sections.len()
            invariant
                0 <= i <= self.sections@.len(),
                params == self.params,
                count == count_complete_spec(self.sections@.take(i as int), params),
                count <= i,
            decreases self.sections@.len() - i,
        {
            proof {
                assert(self.sections@.take(i + 1).drop_last() =~= self.sections@.take(i as int));
            }
            if self.sections[i].is_complete(&params) {
                count += 1;
            }
            i += 1;
        }
        proof {
            assert(self.sections@.take(self.sections@.len() as int) =~= self.sections@);
        }
        count
    }

    /// The distribution of node ages over the whole network.
    pub fn age_dist(&self) -> (r: Distribution)
        ensures
            r.is_histogram_of(all_ages(self.sections@)),
    {
        let mut values: Vec<u64> = Vec::new();
        let mut i: usize = 0;
        proof {
            assert(all_ages(self.sections@.take(0)) =~= Seq::<u64>::empty());
            assert(self.sections@.take(0) =~= Seq::<Section>::empty());
        }
        while i < self.sections.len()
            invariant
                0 <= i <= self.sections@.len(),
                values@ == all_ages(self.sections@.take(i as int)),
            decreases self.sections@.len() - i,
        {
            let ghost base = values@;
            let section = &self.sections[i];
            let mut j: usize = 0;
            while j < section.nodes.len()
                invariant
                    0 <= j <= section.nodes@.len(),
                    section == &self.sections[i as int],
                    values@ == base + ages_of(section.nodes@.take(j as int)),
                decreases section.nodes@.len() - j,
            {
                proof {
                    assert(values@.push(section.nodes@[j as int].age) =~= base + ages_of(
                        section.nodes@.take(j + 1),
                    ));
                }
                values.push(section.nodes[j].age);
                j += 1;
            }
            proof {
                assert(section.nodes@.take(section.nodes@.len() as int) =~= section.nodes@);
                assert(self.sections@.take(i + 1).drop_last() =~= self.sections@.take(i as int));
                assert(values@ == all_ages(self.sections@.take(i + 1)));
            }
            i += 1;
        }
        proof {
            assert(self.sections@.take(self.sections@.len() as int) =~= self.sections@);
        }
        Distribution::new(&values)
    }

    /// The distribution of section sizes.
    pub fn section_size_dist(&self) -> (r: Distribution)
        ensures
            r.is_histogram_of(all_sizes(self.sections@)),
    {
        let mut values: Vec<u64> = Vec::new();
        let mut i: usize = 0;
        while i < self.sections.len()
            invariant
                0 <= i <= self.sections@.len(),
                values@ == all_sizes(self.sections@.take(i as int)),
            decreases self.sections@.len() - i,
        {
            proof {
                assert(values@.push(self.sections@[i as int].nodes@.len() as u64) =~= all_sizes(
                    self.sections@.take(i + 1),
                ));
            }
            values.push(self.sections[i].nodes.len() as u64);
            i += 1;
        }
        proof {
            assert(self.sections@.take(self.sections@.len() as int) =~= self.sections@);
        }
        Distribution::new(&values)
    }

    /// The distribution of prefix lengths.
    pub fn prefix_len_dist(&self) -> (r: Distribution)
        ensures
            r.is_histogram_of(all_prefix_lens(self.sections@)),
    {
        let mut values: Vec<u64> = Vec::new();
        let mut i: usize = 0;
        while i < self.sections.len()
            invariant
                0 <= i <= self.sections@.len(),
                values@ == all_prefix_lens(self.sections@.take(i as int)),
            decreases self.sections@.len() - i,
        {
            proof {
                assert(values@.push(self.sections@[i as int].prefix.len) =~= all_prefix_lens(
                    self.sections@.take(i + 1),
                ));
            }
            values.push(self.sections[i].prefix.len());
            i += 1;
        }
        proof {
            assert(self.sections@.take(self.sections@.len() as int) =~= self.sections@);
        }
        Distribution::new(&values)
    }

    /// Inserts a section keeping prefixes strictly ordered; a duplicate
    /// prefix is refused and the network is left unchanged.
    fn insert_section(&mut self, section: Section) -> (r: bool)
        requires
            old(self).wf(),
            section.wf(),
        ensures
            final(self).wf(),
            final(self).params == old(self).params,
            final(self).stats == old(self).stats,
            final(self).rng == old(self).rng,
            !r ==> *final(self) == *old(self),
            r == !sections_has_prefix(old(self).sections@, section.prefix),
            r ==> final(self).sections@.len() == old(self).sections@.len() + 1,
            r ==> (forall|q: Prefix|
                prefixes_of(final(self).sections@).contains(q) <==> (prefixes_of(
                    old(self).sections@,
                ).contains(q) || q == section.prefix)),
            r ==> (forall|s: Section|
                final(self).sections@.contains(s) <==> (old(self).sections@.contains(s) || s
                    == section)),
    {
        let ghost s0 = self.sections@;
        let mut p: usize = 0;
        while p < self.sections.len() && prefix_lt_exec(self.sections[p].prefix, section.prefix)
            invariant
                0 <= p <= s0.len(),
                old(self).wf(),
                section.wf(),
                *self == *old(self),
                s0 == self.sections@,
                forall|j: int| 0 <= j < p ==> prefix_lt((#[trigger] s0[j]).prefix, section.prefix),
            decreases s0.len() - p,
        {
            p += 1;
        }
        if p < self.sections.len() && !prefix_lt_exec(section.prefix, self.sections[p].prefix) {
            proof {
                assert(self.sections@[p as int].prefix == section.prefix);
            }
            return false;
        }
        proof {
            assert forall|j: int| p <= j < s0.len() implies prefix_lt(
                section.prefix,
                (#[trigger] s0[j]).prefix,
            ) by {
                if j > p {
                    assert(prefix_lt(s0[p as int].prefix, s0[j].prefix));
                }
            }
            assert(!sections_has_prefix(s0, section.prefix)) by {
                if sections_has_prefix(s0, section.prefix) {
                    let j = choose|j: int|
                        0 <= j < s0.len() && (#[trigger] s0[j]).prefix == section.prefix;
                    if j < p {
                        assert(prefix_lt(s0[j].prefix, section.prefix));
                    }
                }
            }
        }
        self.sections.insert(p, section);
        proof {
            let s1 = self.sections@;
            assert(s1 == s0.insert(p as int, section));
            assert(sections_sorted(s1));
            assert(sections_wf(s1));
            let q0 = prefixes_of(s0);
            let q1 = prefixes_of(s1);
            assert(q1 =~= q0.insert(p as int, section.prefix));
            assert forall|q: Prefix| q1.contains(q) implies (q0.contains(q) || q
                == section.prefix) by {
                let j = choose|j: int| 0 <= j < q1.len() && q1[j] == q;
                if j < p {
                    assert(q0[j] == q);
                } else if j > p {
                    assert(q0[j - 1] == q);
                }
            }
            assert forall|q: Prefix| q0.contains(q) implies q1.contains(q) by {
                let j = choose|j: int| 0 <= j < q0.len() && q0[j] == q;
                if j < p {
                    assert(q1[j] == q);
                } else {
                    assert(q1[j + 1] == q);
                }
            }
            assert(q1[p as int] == section.prefix);
            assert(q1.contains(section.prefix));
            assert forall|s: Section| s1.contains(s) implies (s0.contains(s) || s == section) by {
                let j = choose|j: int| 0 <= j < s1.len() && s1[j] == s;
                if j < p {
                    assert(s0[j] == s);
                } else if j > p {
                    assert(s0[j - 1] == s);
                }
            }
            assert forall|s: Section| s0.contains(s) implies s1.contains(s) by {
                let j = choose|j: int| 0 <= j < s0.len() && s0[j] == s;
                if j < p {
                    assert(s1[j] == s);
                } else {
                    assert(s1[j + 1] == s);
                }
            }
            assert(s1[p as int] == section);
            assert(s1.contains(section));
        }
        true
    }

    /// Handles one batch of actions, in emission order: the returned
    /// counters and the transformation of the section list are exactly the
    /// fold of `action_outcome` over the batch, and the final flag is true
    /// exactly when no action was a protocol violation.  As long as nothing
    /// was violated, the sections' prefixes keep partitioning the name
    /// space.
    pub fn handle_actions(&mut self, actions: Vec<Action>) -> (r: (u64, u64, u64, u64, bool))
        requires
            old(self).wf(),
        ensures
            final(self).wf(),
            final(self).params == old(self).params,
            final(self).stats == old(self).stats,
            final(self).rng == old(self).rng,
            is_partition(prefixes_of(old(self).sections@)) && r.4 ==> is_partition(
                prefixes_of(final(self).sections@),
            ),
            exists|m: int, s: int, rl: int, rj: int, v: int|
                #![trigger actions_outcome(old(self).sections@, old(self).params, actions@, final(self).sections@, (m, s, rl, rj, v))]
                {
                    &&& m == r.0 as int && s == r.1 as int && rl == r.2 as int && rj == r.3 as int
                    &&& v >= 0
                    &&& (r.4 <==> v == 0)
                    &&& actions_outcome(
                        old(self).sections@,
                        old(self).params,
                        actions@,
                        final(self).sections@,
                        (m, s, rl, rj, v),
                    )
                },
    {
        let ghost g = is_partition(prefixes_of(old(self).sections@));
        let params = self.params;
        let mut merges: u64 = 0;
        let mut splits: u64 = 0;
        let mut relocations: u64 = 0;
        let mut rejections: u64 = 0;
        let mut ok = true;
        let ghost mut viol: int = 0;
        let mut i: usize = 0;
        proof {
            assert(actions@.take(0) =~= Seq::<Action>::empty());
        }
        while i < actions.len()
            invariant
                0 <= i <= actions@.len(),
                self.wf(),
                params == self.params,
                self.params == old(self).params,
                self.stats == old(self).stats,
                self.rng == old(self).rng,
                merges <= i && splits <= i && relocations <= i && rejections <= i,
                g == is_partition(prefixes_of(old(self).sections@)),
                g && ok ==> is_partition(prefixes_of(self.sections@)),
                viol >= 0,
                ok <==> viol == 0,
                actions_outcome(
                    old(self).sections@,
                    params,
                    actions@.take(i as int),
                    self.sections@,
                    (merges as int, splits as int, relocations as int, rejections as int, viol),
                ),
            decreases actions@.len() - i,
        {
            let ghost pre_i = self.sections@;
            let ghost d: (int, int, int, int, int);
            let action = actions[i];
            match action {
                Action::Reject(_) => {
                    rejections += 1;
                    proof {
                        d = (0int, 0int, 0int, 1int, 0int);
                        assert(action_outcome(pre_i, params, actions@[i as int], self.sections@, d));
                    }
                },
                Action::Merge(target) => {
                    if !target.check_wf() {
                        ok = false;
                        proof {
                            viol = viol + 1;
                            d = (0int, 0int, 0int, 0int, 1int);
                            assert(action_outcome(
                                pre_i,
                                params,
                                actions@[i as int],
                                self.sections@,
                                d,
                            ));
                        }
                    } else {
                        let ghost entry_secs = self.sections@;
                        let ghost entry_ps = prefixes_of(self.sections@);
                        let mut sources: Vec<Section> = Vec::new();
                        let mut k: usize = 0;
                        while k < self.sections.len()
                            invariant
                                0 <= k <= self.sections@.len(),
                                self.wf(),
                                params == self.params,
                                self.params == old(self).params,
                                self.stats == old(self).stats,
                                self.rng == old(self).rng,
                                target.wf(),
                                g && ok ==> is_partition(entry_ps),
                                entry_ps == prefixes_of(entry_secs),
                                forall|j: int|
                                    0 <= j < sources@.len() ==> (#[trigger] sources@[j]).wf()
                                        && target.spec_is_ancestor(sources@[j].prefix),
                                forall|j: int|
                                    0 <= j < sources@.len() ==> entry_secs.contains(
                                        #[trigger] sources@[j],
                                    ),
                                forall|j: int|
                                    0 <= j < k ==> !target.spec_is_ancestor(
                                        (#[trigger] self.sections@[j]).prefix,
                                    ),
                                sources@.len() == 0 ==> self.sections@ == entry_secs,
                                forall|q: Prefix|
                                    entry_ps.contains(q) <==> (prefixes_of(
                                        self.sections@,
                                    ).contains(q) || (exists|j: int|
                                        0 <= j < sources@.len() && (
                                        #[trigger] sources@[j]).prefix == q)),
                                forall|s: Section|
                                    entry_secs.contains(s) <==> (self.sections@.contains(s)
                                        || sources@.contains(s)),
                            decreases self.sections@.len() - k,
                        {
                            if self.sections[k].prefix().is_descendant(&target) {
                                let ghost s_old = self.sections@;
                                let ghost sources_old = sources@;
                                let src = self.sections.remove(k);
                                sources.push(src);
                                proof {
                                    let s_new = self.sections@;
                                    assert(sections_sorted(s_new));
                                    assert(sections_wf(s_new));
                                    assert forall|q: Prefix|
                                        entry_ps.contains(q) implies (prefixes_of(
                                        s_new,
                                    ).contains(q) || (exists|j: int|
                                        0 <= j < sources@.len() && (
                                        #[trigger] sources@[j]).prefix == q)) by {
                                        if prefixes_of(s_old).contains(q) {
                                            let j = choose|j: int|
                                                0 <= j < prefixes_of(s_old).len()
                                                    && prefixes_of(s_old)[j] == q;
                                            if j < k {
                                                assert(prefixes_of(s_new)[j] == q);
                                            } else if j > k {
                                                assert(prefixes_of(s_new)[j - 1] == q);
                                            } else {
                                                assert(sources@[sources@.len() - 1].prefix == q);
                                            }
                                        } else {
                                            let j = choose|j: int|
                                                0 <= j < sources_old.len() && (
                                                #[trigger] sources_old[j]).prefix == q;
                                            assert(sources@[j].prefix == q);
                                        }
                                    }
                                    assert forall|q: Prefix|
                                        (prefixes_of(s_new).contains(q) || (exists|j: int|
                                            0 <= j < sources@.len() && (
                                            #[trigger] sources@[j]).prefix
                                                == q)) implies entry_ps.contains(q) by {
                                        if prefixes_of(s_new).contains(q) {
                                            let j = choose|j: int|
                                                0 <= j < prefixes_of(s_new).len()
                                                    && prefixes_of(s_new)[j] == q;
                                            if j < k {
                                                assert(prefixes_of(s_old)[j] == q);
                                            } else {
                                                assert(prefixes_of(s_old)[j + 1] == q);
                                            }
                                        } else {
                                            let j = choose|j: int|
                                                0 <= j < sources@.len() && (
                                                #[trigger] sources@[j]).prefix == q;
                                            if j < sources_old.len() {
                                                assert(sources_old[j].prefix == q);
                                            } else {
                                                assert(prefixes_of(s_old)[k as int] == q);
                                            }
                                        }
                                    }
                                    assert forall|s: Section|
                                        entry_secs.contains(s) implies (s_new.contains(s)
                                        || sources@.contains(s)) by {
                                        if s_old.contains(s) {
                                            let j = choose|j: int|
                                                0 <= j < s_old.len() && s_old[j] == s;
                                            if j < k {
                                                assert(s_new[j] == s);
                                            } else if j > k {
                                                assert(s_new[j - 1] == s);
                                            } else {
                                                assert(sources@[sources@.len() - 1] == s);
                                            }
                                        } else {
                                            let j = choose|j: int|
                                                0 <= j < sources_old.len() && sources_old[j] == s;
                                            assert(sources@[j] == s);
                                        }
                                    }
                                    assert forall|s: Section|
                                        (s_new.contains(s) || sources@.contains(
                                            s,
                                        )) implies entry_secs.contains(s) by {
                                        if s_new.contains(s) {
                                            let j = choose|j: int|
                                                0 <= j < s_new.len() && s_new[j] == s;
                                            if j < k {
                                                assert(s_old[j] == s);
                                            } else {
                                                assert(s_old[j + 1] == s);
                                            }
                                        } else {
                                            let j = choose|j: int|
                                                0 <= j < sources@.len() && sources@[j] == s;
                                            if j < sources_old.len() {
                                                assert(sources_old[j] == s);
                                            } else {
                                                assert(s_old[k as int] == s);
                                            }
                                        }
                                    }
                                }
                            } else {
                                k += 1;
                            }
                        }
                        let ghost pc = *self;
                        let ghost src_list = sources@;
                        if sources.len() > 0 {
                            merges += 1;
                            let mut merged = Section::new(target);
                            proof {
                                assert(src_list.take(src_list.len() as int) =~= src_list);
                                assert(src_list.skip(src_list.len() as int) =~= Seq::<
                                    Section,
                                >::empty());
                                assert(merged_fold(
                                    target,
                                    params,
                                    src_list.skip(src_list.len() as int),
                                    merged,
                                ));
                            }
                            while sources.len() > 0
                                invariant
                                    *self == pc,
                                    self.wf(),
                                    params == self.params,
                                    params.wf(),
                                    target.wf(),
                                    merged.wf(),
                                    merged.prefix == target,
                                    sources@.len() <= src_list.len(),
                                    sources@ == src_list.take(sources@.len() as int),
                                    merged_fold(
                                        target,
                                        params,
                                        src_list.skip(sources@.len() as int),
                                        merged,
                                    ),
                                    forall|j: int|
                                        0 <= j < src_list.len() ==> (#[trigger] src_list[j]).wf()
                                            && target.spec_is_ancestor(src_list[j].prefix),
                                decreases sources@.len(),
                            {
                                let ghost j = sources@.len() as int;
                                let ghost m_prev = merged;
                                let src = sources.pop().unwrap();
                                proof {
                                    assert(src == src_list[j - 1]);
                                    assert(sources@ =~= src_list.take(j - 1));
                                }
                                merged.merge(&params, src);
                                proof {
                                    let rest = src_list.skip(j - 1);
                                    assert(rest.first() == src_list[j - 1]);
                                    assert(rest.drop_first() =~= src_list.skip(j));
                                    assert(crate::section::merge_outcome(
                                        m_prev,
                                        params,
                                        rest.first(),
                                        merged,
                                    ));
                                    assert(merged_fold(target, params, rest, merged));
                                }
                            }
                            proof {
                                assert(src_list.skip(0) =~= src_list);
                                assert(merged_fold(target, params, src_list, merged));
                            }
                            let ghost pc_ps = prefixes_of(pc.sections@);
                            proof {
                                assert(!sections_has_prefix(pc.sections@, target)) by {
                                    if sections_has_prefix(pc.sections@, target) {
                                        let j = choose|j: int|
                                            0 <= j < pc.sections@.len() && (
                                            #[trigger] pc.sections@[j]).prefix == target;
                                        crate::prefix::lemma_matches_own_bits(target);
                                        assert(target.spec_is_ancestor(pc.sections@[j].prefix));
                                    }
                                }
                            }
                            let inserted = self.insert_section(merged);
                            if !inserted {
                                ok = false;
                                proof {
                                    viol = viol + 1;
                                    assert(false);
                                    d = (0int, 0int, 0int, 0int, 0int);
                                }
                            } else {
                                proof {
                                    if g && ok {
                                        let sv = crate::prefix::survivors(entry_ps, target);
                                        let rform = sv.push(target);
                                        assert(entry_ps.contains(src_list[0].prefix)) by {
                                            assert(entry_secs.contains(src_list[0]));
                                            let j = choose|j: int|
                                                0 <= j < entry_secs.len() && entry_secs[j]
                                                    == src_list[0];
                                            assert(prefixes_of(entry_secs)[j]
                                                == src_list[0].prefix);
                                        }
                                        let di = choose|di: int|
                                            0 <= di < entry_ps.len() && entry_ps[di]
                                                == src_list[0].prefix;
                                        assert(target.spec_is_ancestor(#[trigger] entry_ps[di]));
                                        crate::prefix::lemma_merge_preserves_partition(
                                            entry_ps,
                                            target,
                                        );
                                        let fin = prefixes_of(self.sections@);
                                        lemma_sorted_prefixes_distinct(self.sections@);
                                        assert forall|q: Prefix|
                                            rform.contains(q) implies fin.contains(q) by {
                                            let j = choose|j: int|
                                                0 <= j < rform.len() && rform[j] == q;
                                            if j < sv.len() {
                                                assert(sv.contains(q));
                                                crate::prefix::lemma_survivors_contains(
                                                    entry_ps,
                                                    target,
                                                    q,
                                                );
                                                assert(pc_ps.contains(q));
                                            }
                                        }
                                        assert forall|q: Prefix|
                                            fin.contains(q) implies rform.contains(q) by {
                                            if q != target {
                                                assert(pc_ps.contains(q));
                                                let j = choose|j: int|
                                                    0 <= j < pc_ps.len() && pc_ps[j] == q;
                                                assert(!target.spec_is_ancestor(
                                                    pc.sections@[j].prefix,
                                                ));
                                                assert(entry_ps.contains(q));
                                                crate::prefix::lemma_survivors_contains(
                                                    entry_ps,
                                                    target,
                                                    q,
                                                );
                                                let v = choose|v: int|
                                                    0 <= v < sv.len() && sv[v] == q;
                                                assert(rform[v] == q);
                                            } else {
                                                assert(rform[rform.len() - 1] == q);
                                            }
                                        }
                                        crate::prefix::lemma_partition_transfer(rform, fin);
                                    }
                                    d = (1int, 0int, 0int, 0int, 0int);
                                    assert(exists|ii: int|
                                        0 <= ii < pre_i.len() && target.spec_is_ancestor(
                                            (#[trigger] pre_i[ii]).prefix,
                                        )) by {
                                        assert(entry_secs.contains(src_list[0]));
                                        let j = choose|j: int|
                                            0 <= j < entry_secs.len() && entry_secs[j]
                                                == src_list[0];
                                        assert(target.spec_is_ancestor(pre_i[j].prefix));
                                    }
                                    assert forall|s: Section|
                                        src_list.contains(s) implies (pre_i.contains(s)
                                        && target.spec_is_ancestor(s.prefix)) by {
                                        let j = choose|j: int|
                                            0 <= j < src_list.len() && src_list[j] == s;
                                    }
                                    assert forall|s: Section|
                                        (pre_i.contains(s) && target.spec_is_ancestor(
                                            s.prefix,
                                        )) implies src_list.contains(s) by {
                                        if pc.sections@.contains(s) {
                                            let j = choose|j: int|
                                                0 <= j < pc.sections@.len() && pc.sections@[j]
                                                    == s;
                                            assert(!target.spec_is_ancestor(
                                                pc.sections@[j].prefix,
                                            ));
                                        }
                                    }
                                    assert forall|s: Section|
                                        self.sections@.contains(s) implies ((pre_i.contains(s)
                                        && !target.spec_is_ancestor(s.prefix)) || s == merged) by {
                                        if s != merged {
                                            assert(pc.sections@.contains(s));
                                            let j = choose|j: int|
                                                0 <= j < pc.sections@.len() && pc.sections@[j]
                                                    == s;
                                            assert(!target.spec_is_ancestor(
                                                pc.sections@[j].prefix,
                                            ));
                                        }
                                    }
                                    assert forall|s: Section|
                                        ((pre_i.contains(s) && !target.spec_is_ancestor(
                                            s.prefix,
                                        )) || s == merged) implies self.sections@.contains(s) by {
                                        if s != merged {
                                            assert(pc.sections@.contains(s) || src_list.contains(
                                                s,
                                            ));
                                        }
                                    }
                                    assert(action_outcome(
                                        pre_i,
                                        params,
                                        actions@[i as int],
                                        self.sections@,
                                        d,
                                    ));
                                }
                            }
                        } else {
                            proof {
                                if g && ok {
                                    let cur = prefixes_of(self.sections@);
                                    lemma_sorted_prefixes_distinct(self.sections@);
                                    crate::prefix::lemma_partition_transfer(entry_ps, cur);
                                }
                                d = (0int, 0int, 0int, 0int, 0int);
                                assert(!(exists|ii: int|
                                    0 <= ii < pre_i.len() && target.spec_is_ancestor(
                                        (#[trigger] pre_i[ii]).prefix,
                                    ))) by {
                                    if exists|ii: int|
                                        0 <= ii < pre_i.len() && target.spec_is_ancestor(
                                            (#[trigger] pre_i[ii]).prefix,
                                        ) {
                                        let ii = choose|ii: int|
                                            0 <= ii < pre_i.len() && target.spec_is_ancestor(
                                                (#[trigger] pre_i[ii]).prefix,
                                            );
                                        assert(self.sections@[ii] == pre_i[ii]);
                                    }
                                }
                                assert(action_outcome(
                                    pre_i,
                                    params,
                                    actions@[i as int],
                                    self.sections@,
                                    d,
                                ));
                            }
                        }
                    }
                },
                Action::Split(source) => {
                    let ghost entry_ps = prefixes_of(self.sections@);
                    let ghost snap = *self;
                    let mut found: Option<usize> = None;
                    let mut k: usize = 0;
                    while k < self.sections.len() && found.is_none()
                        invariant
                            0 <= k <= self.sections@.len(),
                            *self == snap,
                            self.wf(),
                            entry_ps == prefixes_of(self.sections@),
                            match found {
                                Some(idx) => 0 <= idx < self.sections@.len()
                                    && self.sections@[idx as int].prefix == source,
                                None => forall|j: int|
                                    0 <= j < k ==> (#[trigger] self.sections@[j]).prefix != source,
                            },
                        decreases self.sections@.len() - k + (if found.is_none() {
                            1int
                        } else {
                            0int
                        }),
                    {
                        if self.sections[k].prefix.bits == source.bits && self.sections[k].prefix.len
                            == source.len {
                            found = Some(k);
                        } else {
                            k += 1;
                        }
                    }
                    match found {
                        None => {
                            ok = false;
                            proof {
                                viol = viol + 1;
                                d = (0int, 0int, 0int, 0int, 1int);
                                assert(!sections_has_prefix(pre_i, source));
                                assert(action_outcome(
                                    pre_i,
                                    params,
                                    actions@[i as int],
                                    self.sections@,
                                    d,
                                ));
                            }
                        },
                        Some(idx) => {
                            if self.sections[idx].prefix.len() >= 64 {
                                ok = false;
                                proof {
                                    viol = viol + 1;
                                    d = (0int, 0int, 0int, 0int, 1int);
                                    assert(sections_has_prefix(pre_i, source)) by {
                                        assert(pre_i[idx as int].prefix == source);
                                    }
                                    assert(action_outcome(
                                        pre_i,
                                        params,
                                        actions@[i as int],
                                        self.sections@,
                                        d,
                                    ));
                                }
                            } else {
                                let section = self.sections.remove(idx);
                                proof {
                                    assert(sections_sorted(self.sections@));
                                    assert(sections_wf(self.sections@));
                                    assert(prefixes_of(self.sections@) =~= entry_ps.remove(
                                        idx as int,
                                    ));
                                }
                                let ghost removed = self.sections@;
                                let ghost removed_ps = prefixes_of(self.sections@);
                                splits += 1;
                                let (section0, section1) = section.split(&params);
                                let ghost c0p = section0.prefix;
                                let ghost c1p = section1.prefix;
                                let ghost c0s = section0;
                                let ghost c1s = section1;
                                let ok0 = self.insert_section(section0);
                                let ghost mid_secs = self.sections@;
                                let ghost mid_ps = prefixes_of(self.sections@);
                                let ok1 = self.insert_section(section1);
                                if !ok0 || !ok1 {
                                    ok = false;
                                    proof {
                                        viol = viol + 1;
                                        d = (0int, 1int, 0int, 0int, 1int);
                                        assert(sections_has_prefix(pre_i, source)) by {
                                            assert(pre_i[idx as int].prefix == source);
                                        }
                                        if is_partition(prefixes_of(pre_i)) {
                                            Self::lemma_split_inserts_succeed(
                                                pre_i,
                                                params,
                                                idx as int,
                                                removed,
                                                c0s,
                                                c1s,
                                                mid_secs,
                                                ok0,
                                                ok1,
                                            );
                                        }
                                        assert(action_outcome(
                                            pre_i,
                                            params,
                                            actions@[i as int],
                                            self.sections@,
                                            d,
                                        ));
                                    }
                                } else {
                                    proof {
                                        if g && ok {
                                            crate::prefix::lemma_split_preserves_partition(
                                                entry_ps,
                                                idx as int,
                                            );
                                            let rform = entry_ps.remove(idx as int).push(
                                                c0p,
                                            ).push(c1p);
                                            let fin = prefixes_of(self.sections@);
                                            lemma_sorted_prefixes_distinct(self.sections@);
                                            assert forall|q: Prefix|
                                                rform.contains(q) implies fin.contains(q) by {
                                                let j = choose|j: int|
                                                    0 <= j < rform.len() && rform[j] == q;
                                                if j < removed_ps.len() {
                                                    assert(removed_ps[j] == q);
                                                    assert(mid_ps.contains(q));
                                                }
                                            }
                                            assert forall|q: Prefix|
                                                fin.contains(q) implies rform.contains(q) by {
                                                if q != c1p {
                                                    assert(mid_ps.contains(q));
                                                    if q != c0p {
                                                        assert(removed_ps.contains(q));
                                                        let j = choose|j: int|
                                                            0 <= j < removed_ps.len()
                                                                && removed_ps[j] == q;
                                                        assert(rform[j] == q);
                                                    } else {
                                                        assert(rform[rform.len() - 2] == q);
                                                    }
                                                } else {
                                                    assert(rform[rform.len() - 1] == q);
                                                }
                                            }
                                            crate::prefix::lemma_partition_transfer(rform, fin);
                                        }
                                        d = (0int, 1int, 0int, 0int, 0int);
                                        assert(sections_has_prefix(pre_i, source)) by {
                                            assert(pre_i[idx as int].prefix == source);
                                        }
                                        assert forall|a: int, b: int|
                                            0 <= a < b < pre_i.len() implies pre_i[a]
                                            != pre_i[b] by {
                                            assert(prefix_lt(pre_i[a].prefix, pre_i[b].prefix));
                                        }
                                        assert forall|s: Section|
                                            self.sections@.contains(s) implies ((pre_i.contains(s)
                                            && s != pre_i[idx as int]) || s == c0s || s
                                            == c1s) by {
                                            if s != c1s && s != c0s {
                                                assert(mid_secs.contains(s));
                                                assert(removed.contains(s));
                                                let j = choose|j: int|
                                                    0 <= j < removed.len() && removed[j] == s;
                                                if j < idx {
                                                    assert(pre_i[j] == s);
                                                } else {
                                                    assert(pre_i[j + 1] == s);
                                                }
                                            }
                                        }
                                        assert forall|s: Section|
                                            ((pre_i.contains(s) && s != pre_i[idx as int]) || s
                                                == c0s || s == c1s) implies
                                            self.sections@.contains(s) by {
                                            if s != c0s && s != c1s {
                                                let j = choose|j: int|
                                                    0 <= j < pre_i.len() && pre_i[j] == s;
                                                assert(j != idx);
                                                if j < idx {
                                                    assert(removed[j] == s);
                                                } else {
                                                    assert(removed[j - 1] == s);
                                                }
                                                assert(mid_secs.contains(s));
                                            }
                                        }
                                        assert(crate::section::split_post(
                                            pre_i[idx as int],
                                            params,
                                            c0s,
                                            c1s,
                                        ));
                                        assert(action_outcome(
                                            pre_i,
                                            params,
                                            actions@[i as int],
                                            self.sections@,
                                            d,
                                        ));
                                    }
                                }
                            }
                        },
                    }
                },
                Action::Send(message) => {
                    let target = message.target();
                    let ghost snap = *self;
                    let mut found: Option<usize> = None;
                    let mut k: usize = 0;
                    while k < self.sections.len() && found.is_none()
                        invariant
                            0 <= k <= self.sections@.len(),
                            *self == snap,
                            self.wf(),
                            target == crate::message::spec_target(message),
                            match found {
                                Some(idx) => first_match(
                                    self.sections@,
                                    crate::message::spec_target(message),
                                    idx as int,
                                ),
                                None => forall|j: int|
                                    0 <= j < k ==> !(#[trigger] self.sections@[j]).prefix.spec_matches(
                                        crate::message::spec_target(message),
                                    ),
                            },
                        decreases self.sections@.len() - k + (if found.is_none() {
                            1int
                        } else {
                            0int
                        }),
                    {
                        if self.sections[k].prefix.matches(target) {
                            found = Some(k);
                        } else {
                            k += 1;
                        }
                    }
                    match found {
                        None => {
                            ok = false;
                            proof {
                                viol = viol + 1;
                                d = (0int, 0int, 0int, 0int, 1int);
                                assert(action_outcome(
                                    pre_i,
                                    params,
                                    actions@[i as int],
                                    self.sections@,
                                    d,
                                ));
                            }
                        },
                        Some(idx) => {
                            if let Message::RelocateCommit { .. } = message {
                                relocations += 1;
                            }
                            self.sections[idx].receive(message);
                            proof {
                                assert(sections_sorted(self.sections@));
                                assert(sections_wf(self.sections@));
                                assert(prefixes_of(self.sections@) =~= prefixes_of(snap.sections@));
                                d = (
                                    0int,
                                    0int,
                                    (if message matches Message::RelocateCommit { .. } {
                                        1int
                                    } else {
                                        0int
                                    }),
                                    0int,
                                    0int,
                                );
                                assert(self.sections@ =~= pre_i.update(
                                    idx as int,
                                    self.sections@[idx as int],
                                ));
                                assert(action_outcome(
                                    pre_i,
                                    params,
                                    actions@[i as int],
                                    self.sections@,
                                    d,
                                ));
                            }
                        },
                    }
                },
            }
            proof {
                assert(actions@.take(i + 1).drop_last() =~= actions@.take(i as int));
                assert(actions@.take(i + 1).last() == actions@[i as int]);
                assert(action_outcome(
                    pre_i,
                    params,
                    actions@.take(i + 1).last(),
                    self.sections@,
                    d,
                ));
                assert(actions_outcome(
                    old(self).sections@,
                    params,
                    actions@.take(i + 1).drop_last(),
                    pre_i,
                    (
                        merges as int - d.0,
                        splits as int - d.1,
                        relocations as int - d.2,
                        rejections as int - d.3,
                        viol - d.4,
                    ),
                ));
                assert(actions_outcome(
                    old(self).sections@,
                    params,
                    actions@.take(i + 1),
                    self.sections@,
                    (merges as int, splits as int, relocations as int, rejections as int, viol),
                ));
            }
            i += 1;
        }
        proof {
            assert(actions@.take(actions@.len() as int) =~= actions@);
            assert(actions_outcome(
                old(self).sections@,
                old(self).params,
                actions@,
                self.sections@,
                (merges as int, splits as int, relocations as int, rejections as int, viol),
            ));
        }
        (merges, splits, relocations, rejections, ok)
    }

    /// Under a partition, the two children of a split collide with nothing:
    /// both insertions succeed.
    proof fn lemma_split_inserts_succeed(
        pre: Seq<Section>,
        params: Params,
        idx: int,
        removed: Seq<Section>,
        c0: Section,
        c1: Section,
        mid: Seq<Section>,
        ok0: bool,
        ok1: bool,
    )
        requires
            is_partition(prefixes_of(pre)),
            sections_wf(pre),
            0 <= idx < pre.len(),
            pre[idx].prefix.len < 64,
            removed =~= pre.remove(idx),
            crate::section::split_post(pre[idx], params, c0, c1),
            ok0 == !sections_has_prefix(removed, c0.prefix),
            ok0 ==> (forall|q: Prefix|
                prefixes_of(mid).contains(q) <==> (prefixes_of(removed).contains(q) || q
                    == c0.prefix)),
            ok0 ==> ok1 == !sections_has_prefix(mid, c1.prefix),
        ensures
            ok0,
            ok1,
    {
        let source = pre[idx].prefix;
        let ps = prefixes_of(pre);
        crate::prefix::lemma_spec_extend_wf(source, 0);
        crate::prefix::lemma_spec_extend_wf(source, 1);
        let w0 = Name(c0.prefix.bits);
        let w1 = Name(c1.prefix.bits);
        crate::prefix::lemma_matches_own_bits(c0.prefix);
        crate::prefix::lemma_matches_own_bits(c1.prefix);
        crate::prefix::lemma_split_cover(source, w0);
        crate::prefix::lemma_split_cover(source, w1);
        assert(covered(ps, w0) && uniquely_covered(ps, w0));
        assert(covered(ps, w1) && uniquely_covered(ps, w1));
        if sections_has_prefix(removed, c0.prefix) {
            let j = choose|j: int|
                0 <= j < removed.len() && (#[trigger] removed[j]).prefix == c0.prefix;
            let oj: int = if j < idx {
                j
            } else {
                j + 1
            };
            assert(pre[oj].prefix == c0.prefix);
            assert(ps[oj].spec_matches(w0));
            assert(ps[idx].spec_matches(w0));
            assert(oj == idx);
            assert(false);
        }
        assert(ok0);
        assert(c1.prefix != c0.prefix) by {
            if c1.prefix == c0.prefix {
                assert(c0.prefix.spec_matches(w0) && c1.prefix.spec_matches(w0));
            }
        }
        if sections_has_prefix(mid, c1.prefix) {
            let j = choose|j: int| 0 <= j < mid.len() && (#[trigger] mid[j]).prefix == c1.prefix;
            assert(prefixes_of(mid)[j] == c1.prefix);
            assert(prefixes_of(mid).contains(c1.prefix));
            assert(prefixes_of(removed).contains(c1.prefix));
            let v = choose|v: int|
                0 <= v < prefixes_of(removed).len() && prefixes_of(removed)[v] == c1.prefix;
            let ov: int = if v < idx {
                v
            } else {
                v + 1
            };
            assert(pre[ov].prefix == c1.prefix);
            assert(ps[ov].spec_matches(w1));
            assert(ps[idx].spec_matches(w1));
            assert(ov == idx);
            assert(false);
        }
        assert(ok1);
    }

    /// Checks the safety conditions after quiescence: every section is
    /// within the size cap and both relocation caches are empty.
    pub fn validate(&self) -> (r: bool)
        ensures
            r == quiescent_ok(self.sections@, self.params),
    {
        let mut i: usize = 0;
        while i < self.sections.len()
            invariant
                0 <= i <= self.sections@.len(),
                forall|j: int|
                    0 <= j < i ==> ((#[trigger] self.sections@[j]).nodes@.len()
                        <= self.params.max_section_size
                        && self.sections@[j].incoming_relocations.spec_len() == 0
                        && self.sections@[j].outgoing_relocations.spec_len() == 0),
            decreases self.sections@.len() - i,
        {
            if self.sections[i].nodes.len() > self.params.max_section_size {
                return false;
            }
            if !self.sections[i].incoming_relocations.is_empty() {
                return false;
            }
            if !self.sections[i].outgoing_relocations.is_empty() {
                return false;
            }
            i += 1;
        }
        true
    }

    /// Executes one simulation iteration: every section gets its churn
    /// flags reset, the protocol runs to quiescence (bounded by the round
    /// cap), a cumulative sample is recorded, and the safety conditions are
    /// checked.  Returns false when the simulation failed: a protocol
    /// violation, an exhausted round cap, an oversized section, or a
    /// relocation cache left populated.
    pub fn tick(&mut self, iteration: u64) -> (r: bool)
        requires
            old(self).wf(),
            is_partition(prefixes_of(old(self).sections@)),
        ensures
            final(self).wf(),
            final(self).params == old(self).params,
            final(self).stats.samples@.len() == old(self).stats.samples@.len() + 1,
            final(self).stats.samples@ == old(self).stats.samples@.push(
                crate::stats::Sample {
                    iteration,
                    nodes: total_nodes_spec(final(self).sections@),
                    sections: final(self).sections@.len() as u64,
                    merges: final(self).stats.total_merges,
                    splits: final(self).stats.total_splits,
                    relocations: final(self).stats.total_relocations,
                    rejections: final(self).stats.total_rejections,
                },
            ),
            r ==> quiescent_ok(final(self).sections@, final(self).params),
            r ==> is_partition(prefixes_of(final(self).sections@)),
    {
        let params = self.params;
        let mut i: usize = 0;
        while i < self.sections.len()
            invariant
                0 <= i <= self.sections@.len(),
                self.wf(),
                params == self.params,
                self.params == old(self).params,
                self.stats == old(self).stats,
                is_partition(prefixes_of(self.sections@)),
            decreases self.sections@.len() - i,
        {
            let ghost before = self.sections@;
            self.sections[i].prepare();
            proof {
                assert(sections_sorted(self.sections@));
                assert(sections_wf(self.sections@));
                assert(prefixes_of(self.sections@) =~= prefixes_of(before));
            }
            i += 1;
        }
        let mut merges: u64 = 0;
        let mut splits: u64 = 0;
        let mut relocations: u64 = 0;
        let mut rejections: u64 = 0;
        let mut ok = true;
        let mut quiet = false;
        let mut rounds: usize = 0;
        while rounds < MAX_PROTOCOL_ROUNDS && !quiet
            invariant
                self.wf(),
                params == self.params,
                self.params == old(self).params,
                self.stats == old(self).stats,
                rounds <= MAX_PROTOCOL_ROUNDS,
                ok ==> is_partition(prefixes_of(self.sections@)),
            decreases MAX_PROTOCOL_ROUNDS - rounds,
        {
            let mut actions: Vec<Action> = Vec::new();
            let mut k: usize = 0;
            while k < self.sections.len()
                invariant
                    0 <= k <= self.sections@.len(),
                    self.wf(),
                    params == self.params,
                    self.params == old(self).params,
                    self.stats == old(self).stats,
                    params.wf(),
                    ok ==> is_partition(prefixes_of(self.sections@)),
                decreases self.sections@.len() - k,
            {
                let ghost before = self.sections@;
                let mut acts = self.sections[k].tick(&params, &mut self.rng);
                proof {
                    assert(sections_sorted(self.sections@));
                    assert(sections_wf(self.sections@));
                    assert(prefixes_of(self.sections@) =~= prefixes_of(before));
                }
                actions.append(&mut acts);
                k += 1;
            }
            if actions.len() == 0 {
                quiet = true;
            } else {
                let (m, s, rl, rj, okk) = self.handle_actions(actions);
                merges = sat_add(merges, m);
                splits = sat_add(splits, s);
                relocations = sat_add(relocations, rl);
                rejections = sat_add(rejections, rj);
                if !okk {
                    ok = false;
                }
            }
            rounds += 1;
        }
        if !quiet {
            ok = false;
        }
        let mut total_nodes: u64 = 0;
        let mut n: usize = 0;
        proof {
            assert(self.sections@.take(0) =~= Seq::<Section>::empty());
        }
        while n < self.sections.len()
            invariant
                0 <= n <= self.sections@.len(),
                self.wf(),
                self.params == old(self).params,
                self.stats == old(self).stats,
                ok ==> is_partition(prefixes_of(self.sections@)),
                total_nodes == total_nodes_spec(self.sections@.take(n as int)),
            decreases self.sections@.len() - n,
        {
            proof {
                assert(self.sections@.take(n + 1).drop_last() =~= self.sections@.take(n as int));
            }
            total_nodes = sat_add(total_nodes, self.sections[n].nodes.len() as u64);
            n += 1;
        }
        proof {
            assert(self.sections@.take(self.sections@.len() as int) =~= self.sections@);
        }
        let num_sections = self.sections.len() as u64;
        self.stats.record(
            iteration,
            total_nodes,
            num_sections,
            merges,
            splits,
            relocations,
            rejections,
        );
        let valid = self.validate();
        ok && valid
    }
}

} // verus!
