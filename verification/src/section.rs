//! The per-section protocol state machine.
//!
//! A section owns the nodes whose names its prefix matches.  It promotes and
//! demotes elders, decides splits and merges, and drives the relocation
//! handshake with other sections.  All cross-section effects are returned as
//! [`Action`] values; the network dispatcher is the only mutator of the
//! partition.

use vstd::multiset::Multiset;
use vstd::prelude::*;

use crate::chain::{be_u64_of, block_bytes, tz_bytes, Block, Chain, Event};
use crate::message::{Action, Message};
use crate::node::{
    count_adults, count_infants, count_matching_adults, count_adults_spec, count_infants_spec,
    count_matching_adults_spec, Node,
};
use crate::params::{Params, RelocationStrategy};
use crate::prefix::{Name, Prefix};
use crate::random::Rng;

verus! {

broadcast use vstd::seq_lib::group_to_multiset_ensures, vstd::multiset::group_multiset_axioms, vstd::multiset::group_multiset_properties, vstd::seq_lib::group_filter_ensures;

/// A membership vector is kept sorted by name, strictly: names are unique
/// and iteration order is deterministic.
pub open spec fn nodes_sorted(s: Seq<Node>) -> bool {
    forall|i: int, j: int| 0 <= i < j < s.len() ==> s[i].name.0 < s[j].name.0
}

/// Whether the membership holds a node of the given name.
pub open spec fn contains_name(s: Seq<Node>, name: Name) -> bool {
    exists|i: int| 0 <= i < s.len() && s[i].name == name
}

/// The position of the node with the given name.
pub open spec fn index_of_name(s: Seq<Node>, name: Name) -> int {
    choose|i: int| 0 <= i < s.len() && s[i].name == name
}

/// The node with the given name.
pub open spec fn node_of(s: Seq<Node>, name: Name) -> Node {
    s[index_of_name(s, name)]
}

/// The name/age content of a node, with the elder flag stripped.
pub open spec fn core_of(n: Node) -> (u64, u64) {
    (n.name.0, n.age)
}

/// The multiset of name/age pairs of a membership.  The elder ranking is a
/// function of this multiset alone: it ignores elder flags and ordering.
pub open spec fn cores(s: Seq<Node>) -> Multiset<(u64, u64)> {
    s.map_values(|n: Node| core_of(n)).to_multiset()
}

/// Whether core `a` strictly precedes core `b` in the elder ranking: older
/// first, ties broken by name ascending.
pub open spec fn core_precedes(a: (u64, u64), b: (u64, u64)) -> bool {
    a.1 > b.1 || (a.1 == b.1 && a.0 < b.0)
}

/// The candidates counted by the rank of `n`: adult cores preceding `n`.
pub open spec fn rank_pred(params: Params, n: Node) -> spec_fn((u64, u64)) -> bool {
    |c: (u64, u64)| c.1 >= params.adult_age && core_precedes(c, core_of(n))
}

/// How many adults of the membership strictly precede `n` in the ranking.
pub open spec fn elder_rank(s: Seq<Node>, params: Params, n: Node) -> nat {
    cores(s).filter(rank_pred(params, n)).len()
}

/// The elder set of a membership: its adults of rank below `group_size` are
/// exactly the `group_size` oldest adults, ties broken by name ascending.
pub open spec fn is_elder_spec(s: Seq<Node>, params: Params, n: Node) -> bool {
    n.spec_is_adult(params) && elder_rank(s, params, n) < params.group_size
}

/// `n` with its elder flag set as the membership `s` dictates.
pub open spec fn flag_set(s: Seq<Node>, params: Params, n: Node) -> Node {
    Node { elder: is_elder_spec(s, params, n), ..n }
}

/// The membership with every elder flag recomputed.
pub open spec fn refreshed(s: Seq<Node>, params: Params) -> Seq<Node> {
    s.map_values(|n: Node| flag_set(s, params, n))
}

/// Whether position `i` of the membership is newly promoted when the elder
/// flags are recomputed.
pub open spec fn promoted_at(s: Seq<Node>, params: Params, i: int) -> bool {
    !s[i].elder && is_elder_spec(s, params, s[i])
}

/// The chain after the elder update walked the first `i` members in order:
/// every newly promoted member contributes a `Live` block (the `Gone` blocks
/// of demotions are not retained by the chain).
pub open spec fn chain_after_update(s: Seq<Node>, params: Params, c: Chain, i: int) -> Chain
    decreases i,
{
    if i <= 0 {
        c
    } else {
        let prev = chain_after_update(s, params, c, i - 1);
        if promoted_at(s, params, i - 1) {
            Chain {
                last_live: Some(
                    Block { event: Event::Live, name: s[i - 1].name, age: s[i - 1].age },
                ),
            }
        } else {
            prev
        }
    }
}

/// Two memberships with equal names and ages everywhere have equal cores.
proof fn lemma_cores_congruent(s: Seq<Node>, t: Seq<Node>)
    requires
        s.len() == t.len(),
        forall|i: int|
            0 <= i < s.len() ==> (#[trigger] s[i]).name == t[i].name && s[i].age == t[i].age,
    ensures
        cores(s) == cores(t),
{
    assert(s.map_values(|n: Node| core_of(n)) =~= t.map_values(|n: Node| core_of(n)));
}

/// Extending a membership by one node inserts its core.
proof fn lemma_cores_take_step(s: Seq<Node>, i: int)
    requires
        0 <= i < s.len(),
    ensures
        cores(s.take(i + 1)) == cores(s.take(i)).insert(core_of(s[i])),
{
    assert(s.take(i + 1).map_values(|n: Node| core_of(n)) =~= s.take(i).map_values(
        |n: Node| core_of(n),
    ).push(core_of(s[i])));
}

/// Inserting one core into a multiset grows a filtered count by one exactly
/// when the new core passes the filter.
proof fn lemma_filter_insert_len(m: Multiset<(u64, u64)>, x: (u64, u64), f: spec_fn((u64, u64) ) -> bool)
    ensures
        m.insert(x).filter(f).len() == m.filter(f).len() + if f(x) {
            1nat
        } else {
            0nat
        },
{
    if f(x) {
        assert(m.insert(x).filter(f) =~= m.filter(f).insert(x));
    } else {
        assert(m.insert(x).filter(f) =~= m.filter(f));
    }
}

/// Recomputing elder flags changes no name, age or ranking: the elders of
/// the refreshed membership are the same, so recomputing them is idempotent.
pub proof fn lemma_refreshed_elders(s: Seq<Node>, params: Params)
    ensures
        refreshed(s, params).len() == s.len(),
        forall|i: int|
            0 <= i < s.len() ==> (#[trigger] refreshed(s, params)[i]) == flag_set(s, params, s[i]),
        forall|n: Node, m: Node|
            n.name == m.name && n.age == m.age ==> #[trigger] is_elder_spec(
                refreshed(s, params),
                params,
                n,
            ) == #[trigger] is_elder_spec(s, params, m),
{
    let r = refreshed(s, params);
    assert forall|n: Node, m: Node| n.name == m.name && n.age == m.age implies #[trigger] is_elder_spec(
        r,
        params,
        n,
    ) == #[trigger] is_elder_spec(s, params, m) by {
        lemma_cores_congruent(r, s);
        assert(rank_pred(params, n) == rank_pred(params, m)) by {
            assert(core_of(n) == core_of(m));
        }
    }
}

/// Recomputing the elder flags twice gives the flags of one recomputation,
/// and the second recomputation promotes nobody, leaving the chain alone.
pub proof fn lemma_recompute_elders_idempotent(s: Seq<Node>, params: Params, c: Chain)
    ensures
        refreshed(refreshed(s, params), params) == refreshed(s, params),
        chain_after_update(refreshed(s, params), params, c, refreshed(s, params).len() as int)
            == c,
{
    let r = refreshed(s, params);
    lemma_refreshed_elders(s, params);
    assert(refreshed(r, params) =~= r) by {
        assert forall|i: int| 0 <= i < r.len() implies refreshed(r, params)[i] == r[i] by {
            assert(is_elder_spec(r, params, r[i]) == is_elder_spec(s, params, s[i]));
        }
    }
    assert forall|i: int| 0 <= i < r.len() implies !promoted_at(r, params, i) by {
        assert(is_elder_spec(r, params, r[i]) == is_elder_spec(s, params, s[i]));
    }
    lemma_chain_no_promotions(r, params, c, r.len() as int);
}

/// A walk over members none of whom is promoted leaves the chain unchanged.
proof fn lemma_chain_no_promotions(s: Seq<Node>, params: Params, c: Chain, i: int)
    requires
        i <= s.len(),
        forall|j: int| 0 <= j < s.len() ==> !promoted_at(s, params, j),
    ensures
        chain_after_update(s, params, c, i) == c,
    decreases i,
{
    if i > 0 {
        lemma_chain_no_promotions(s, params, c, i - 1);
    }
}

/// Computes the elder rank of `n` within `nodes`.
fn elder_rank_exec(nodes: &Vec<Node>, params: &Params, n: &Node) -> (r: usize)
    ensures
        r == elder_rank(nodes@, *params, *n),
{
    let ghost f = rank_pred(*params, *n);
    let mut count: usize = 0;
    let mut i: usize = 0;
    proof {
        assert(nodes@.take(0).map_values(|nd: Node| core_of(nd)) =~= Seq::<(u64, u64)>::empty());
        assert(cores(nodes@.take(0)) =~= Multiset::<(u64, u64)>::empty());
        assert(cores(nodes@.take(0)).filter(f) =~= Multiset::<(u64, u64)>::empty());
    }
    while i < nodes.len()
        invariant
            0 <= i <= nodes@.len(),
            count <= i,
            f == rank_pred(*params, *n),
            count == cores(nodes@.take(i as int)).filter(f).len(),
        decreases nodes@.len() - i,
    {
        proof {
            lemma_cores_take_step(nodes@, i as int);
            lemma_filter_insert_len(cores(nodes@.take(i as int)), core_of(nodes@[i as int]), f);
        }
        if nodes[i].age >= params.adult_age && (nodes[i].age > n.age || (nodes[i].age == n.age
            && nodes[i].name.0 < n.name.0)) {
            count += 1;
        }
        i += 1;
    }
    proof {
        assert(nodes@.take(nodes@.len() as int) =~= nodes@);
    }
    count
}

/// A small map from node name to target name, held as a vector of pairs with
/// unique keys.
#[derive(Clone, PartialEq, Eq, Debug)]
pub struct NameCache {
    pub entries: Vec<(Name, Name)>,
}

/// A key list mirroring the cache entries holds exactly the cached keys.
proof fn lemma_cache_keys_contains(c: NameCache, keys: Seq<Name>)
    requires
        keys.len() == c.entries@.len(),
        forall|i: int| 0 <= i < keys.len() ==> keys[i] == (#[trigger] c.entries@[i]).0,
    ensures
        forall|k: Name| c.contains_key(k) <==> keys.contains(k),
{
    assert forall|k: Name| c.contains_key(k) implies keys.contains(k) by {
        let i = choose|i: int| 0 <= i < c.entries@.len() && (#[trigger] c.entries@[i]).0 == k;
        assert(keys[i] == k);
    }
    assert forall|k: Name| keys.contains(k) implies c.contains_key(k) by {
        let i = choose|i: int| 0 <= i < keys.len() && keys[i] == k;
        assert(c.entries@[i].0 == k);
    }
}

/// With unique keys, the entry at any position is what lookup finds.
proof fn lemma_cache_at(c: NameCache, j: int)
    requires
        c.wf(),
        0 <= j < c.entries@.len(),
    ensures
        c.contains_key(c.entries@[j].0),
        c.index_of(c.entries@[j].0) == j,
        c.at(c.entries@[j].0) == c.entries@[j].1,
{
    let k = c.entries@[j].0;
    assert(c.contains_key(k));
    let i = c.index_of(k);
    assert(0 <= i < c.entries@.len() && c.entries@[i].0 == k);
    if i != j {
        assert(c.entries@[i].0 != c.entries@[j].0);
    }
}

impl NameCache {
    /// Keys are unique, so the cache is a map.
    pub open spec fn wf(self) -> bool {
        forall|i: int, j: int|
            0 <= i < j < self.entries@.len() ==> (#[trigger] self.entries@[i]).0 != (
            #[trigger] self.entries@[j]).0
    }

    pub open spec fn contains_key(self, k: Name) -> bool {
        exists|i: int| 0 <= i < self.entries@.len() && (#[trigger] self.entries@[i]).0 == k
    }

    pub open spec fn index_of(self, k: Name) -> int {
        choose|i: int| 0 <= i < self.entries@.len() && (#[trigger] self.entries@[i]).0 == k
    }

    /// The target recorded under key `k`.
    pub open spec fn at(self, k: Name) -> Name {
        self.entries@[self.index_of(k)].1
    }

    pub open spec fn spec_len(self) -> nat {
        self.entries@.len()
    }

    pub fn new() -> (r: NameCache)
        ensures
            r.spec_len() == 0,
            r.wf(),
            forall|k: Name| !r.contains_key(k),
    {
        NameCache { entries: Vec::new() }
    }

    pub fn len(&self) -> (r: usize)
        ensures
            r == self.spec_len(),
    {
        self.entries.len()
    }

    pub fn is_empty(&self) -> (r: bool)
        ensures
            r == (self.spec_len() == 0),
    {
        self.entries.len() == 0
    }

    /// Looks the key up.
    pub fn get(&self, k: Name) -> (r: Option<Name>)
        requires
            self.wf(),
        ensures
            match r {
                Some(v) => self.contains_key(k) && v == self.at(k),
                None => !self.contains_key(k),
            },
    {
        let mut i: usize = 0;
        while i < self.entries.len()
            invariant
                0 <= i <= self.entries@.len(),
                self.wf(),
                forall|j: int| 0 <= j < i ==> (#[trigger] self.entries@[j]).0 != k,
            decreases self.entries@.len() - i,
        {
            if self.entries[i].0 .0 == k.0 {
                proof {
                    assert(self.entries@[i as int].0 == k);
                    lemma_cache_at(*self, i as int);
                }
                return Some(self.entries[i].1);
            }
            i += 1;
        }
        None
    }

    pub fn contains(&self, k: Name) -> (r: bool)
        requires
            self.wf(),
        ensures
            r == self.contains_key(k),
    {
        self.get(k).is_some()
    }

    /// Inserts or replaces the entry under key `k`.
    pub fn insert(&mut self, k: Name, v: Name)
        requires
            old(self).wf(),
        ensures
            final(self).wf(),
            forall|q: Name| final(self).contains_key(q) <==> (old(self).contains_key(q) || q == k),
            final(self).at(k) == v,
            forall|q: Name|
                q != k && old(self).contains_key(q) ==> final(self).at(q) == old(self).at(q),
            final(self).spec_len() == old(self).spec_len() + if old(self).contains_key(k) {
                0nat
            } else {
                1nat
            },
    {
        let mut i: usize = 0;
        while i < self.entries.len()
            invariant
                0 <= i <= self.entries@.len(),
                self.wf(),
                *self == *old(self),
                forall|j: int| 0 <= j < i ==> (#[trigger] self.entries@[j]).0 != k,
            decreases self.entries@.len() - i,
        {
            if self.entries[i].0 .0 == k.0 {
                proof {
                    assert(self.entries@[i as int].0 == k);
                }
                self.entries[i] = (k, v);
                proof {
                    let c0 = *old(self);
                    let c1 = *self;
                    assert(forall|a: int|
                        0 <= a < c1.entries@.len() ==> (#[trigger] c1.entries@[a]).0
                            == c0.entries@[a].0);
                    assert(c1.wf());
                    assert forall|q: Name| c1.contains_key(q) implies c0.contains_key(q) by {
                        let j = choose|j: int|
                            0 <= j < c1.entries@.len() && (#[trigger] c1.entries@[j]).0 == q;
                        assert(c0.entries@[j].0 == q);
                    }
                    assert forall|q: Name| c0.contains_key(q) implies c1.contains_key(q) by {
                        let j = choose|j: int|
                            0 <= j < c0.entries@.len() && (#[trigger] c0.entries@[j]).0 == q;
                        assert(c1.entries@[j].0 == q);
                    }
                    lemma_cache_at(c1, i as int);
                    assert forall|q: Name|
                        q != k && c0.contains_key(q) implies c1.at(q) == c0.at(q) by {
                        let j = choose|j: int|
                            0 <= j < c0.entries@.len() && (#[trigger] c0.entries@[j]).0 == q;
                        lemma_cache_at(c0, j);
                        lemma_cache_at(c1, j);
                    }
                    assert(c0.contains_key(k));
                }
                return ;
            }
            i += 1;
        }
        self.entries.push((k, v));
        proof {
            let c0 = *old(self);
            let c1 = *self;
            assert(c1.entries@.drop_last() =~= c0.entries@);
            assert(c1.wf());
            assert forall|q: Name| c1.contains_key(q) implies c0.contains_key(q) || q == k by {
                let j = choose|j: int|
                    0 <= j < c1.entries@.len() && (#[trigger] c1.entries@[j]).0 == q;
                if j < c0.entries@.len() {
                    assert(c0.entries@[j].0 == q);
                }
            }
            assert forall|q: Name| c0.contains_key(q) implies c1.contains_key(q) by {
                let j = choose|j: int|
                    0 <= j < c0.entries@.len() && (#[trigger] c0.entries@[j]).0 == q;
                assert(c1.entries@[j].0 == q);
            }
            lemma_cache_at(c1, c1.entries@.len() - 1);
            assert forall|q: Name| q != k && c0.contains_key(q) implies c1.at(q) == c0.at(q) by {
                let j = choose|j: int|
                    0 <= j < c0.entries@.len() && (#[trigger] c0.entries@[j]).0 == q;
                lemma_cache_at(c0, j);
                lemma_cache_at(c1, j);
            }
            assert(!c0.contains_key(k));
        }
    }

    /// Removes the entry under key `k`, returning its target.
    pub fn remove(&mut self, k: Name) -> (r: Option<Name>)
        requires
            old(self).wf(),
        ensures
            final(self).wf(),
            forall|q: Name| final(self).contains_key(q) <==> (old(self).contains_key(q) && q != k),
            forall|q: Name|
                q != k && old(self).contains_key(q) ==> final(self).at(q) == old(self).at(q),
            r == if old(self).contains_key(k) {
                Some(old(self).at(k))
            } else {
                None::<Name>
            },
            final(self).spec_len() == old(self).spec_len() - if old(self).contains_key(k) {
                1nat
            } else {
                0nat
            },
    {
        let mut i: usize = 0;
        while i < self.entries.len()
            invariant
                0 <= i <= self.entries@.len(),
                self.wf(),
                *self == *old(self),
                forall|j: int| 0 <= j < i ==> (#[trigger] self.entries@[j]).0 != k,
            decreases self.entries@.len() - i,
        {
            if self.entries[i].0 .0 == k.0 {
                proof {
                    assert(self.entries@[i as int].0 == k);
                    lemma_cache_at(*self, i as int);
                }
                let v = self.entries[i].1;
                self.entries.remove(i);
                proof {
                    let c0 = *old(self);
                    let c1 = *self;
                    assert(forall|a: int|
                        0 <= a < c1.entries@.len() ==> #[trigger] c1.entries@[a] == (if a < i {
                            c0.entries@[a]
                        } else {
                            c0.entries@[a + 1]
                        }));
                    assert(c1.wf());
                    assert forall|q: Name| c1.contains_key(q) implies c0.contains_key(q) && q != k by {
                        let j = choose|j: int|
                            0 <= j < c1.entries@.len() && (#[trigger] c1.entries@[j]).0 == q;
                        if j < i {
                            assert(c0.entries@[j].0 == q);
                        } else {
                            assert(c0.entries@[j + 1].0 == q);
                        }
                    }
                    assert forall|q: Name|
                        c0.contains_key(q) && q != k implies c1.contains_key(q) && c1.at(q)
                        == c0.at(q) by {
                        let j = choose|j: int|
                            0 <= j < c0.entries@.len() && (#[trigger] c0.entries@[j]).0 == q;
                        lemma_cache_at(c0, j);
                        if j < i {
                            lemma_cache_at(c1, j);
                        } else {
                            assert(j != i);
                            assert(c1.entries@[j - 1] == c0.entries@[j]);
                            lemma_cache_at(c1, j - 1);
                        }
                    }
                }
                return Some(v);
            }
            i += 1;
        }
        None
    }

    /// The keys of the cache, in storage order.
    pub fn cache_keys(&self) -> (r: Vec<Name>)
        ensures
            r@.len() == self.spec_len(),
            forall|i: int| 0 <= i < r@.len() ==> r@[i] == (#[trigger] self.entries@[i]).0,
    {
        let mut out: Vec<Name> = Vec::new();
        let mut i: usize = 0;
        while i < self.entries.len()
            invariant
                0 <= i <= self.entries@.len(),
                out@.len() == i,
                forall|j: int| 0 <= j < i ==> out@[j] == (#[trigger] self.entries@[j]).0,
            decreases self.entries@.len() - i,
        {
            out.push(self.entries[i].0);
            i += 1;
        }
        out
    }
}

/// With strictly sorted names, the node at any position is what lookup by
/// name finds.
proof fn lemma_node_at(s: Seq<Node>, j: int)
    requires
        nodes_sorted(s),
        0 <= j < s.len(),
    ensures
        contains_name(s, s[j].name),
        index_of_name(s, s[j].name) == j,
        node_of(s, s[j].name) == s[j],
{
    let k = s[j].name;
    assert(contains_name(s, k));
    let i = index_of_name(s, k);
    assert(0 <= i < s.len() && s[i].name == k);
    if i < j {
        assert(s[i].name.0 < s[j].name.0);
    }
    if j < i {
        assert(s[j].name.0 < s[i].name.0);
    }
}

/// Inserting an element anywhere inserts it into the multiset of the
/// sequence.
proof fn lemma_to_multiset_insert<T>(s: Seq<T>, p: int, x: T)
    requires
        0 <= p <= s.len(),
    ensures
        s.insert(p, x).to_multiset() == s.to_multiset().insert(x),
{
    let t = s.insert(p, x);
    assert(t.remove(p) =~= s);
    assert(t[p] == x);
    assert(t.to_multiset().remove(x) == s.to_multiset());
    assert(t.contains(x));
    assert(t.to_multiset().count(x) > 0);
    assert(t.to_multiset() =~= s.to_multiset().insert(x));
}

/// The per-partition state machine: the nodes whose names the prefix
/// matches, the chain driving relocation, undelivered messages, and the two
/// relocation caches.
#[derive(Clone, Debug)]
pub struct Section {
    pub prefix: Prefix,
    pub nodes: Vec<Node>,
    pub chain: Chain,
    pub messages: Vec<Message>,
    pub incoming_relocations: NameCache,
    pub outgoing_relocations: NameCache,
    pub recent_join: bool,
    pub recent_drop: bool,
}

impl Section {
    /// The prefix is well formed, every member's name matches it, members
    /// are strictly sorted by name, and the caches are maps.
    pub open spec fn wf(self) -> bool {
        &&& self.prefix.wf()
        &&& nodes_sorted(self.nodes@)
        &&& forall|i: int|
            0 <= i < self.nodes@.len() ==> self.prefix.spec_matches(
                (#[trigger] self.nodes@[i]).name,
            )
        &&& self.incoming_relocations.wf()
        &&& self.outgoing_relocations.wf()
    }

    /// Elder discipline: every member's elder flag agrees with the ranking,
    /// so the elders are exactly the `group_size` oldest adults.
    pub open spec fn elders_current(self, params: Params) -> bool {
        forall|i: int|
            0 <= i < self.nodes@.len() ==> (#[trigger] self.nodes@[i]).elder == is_elder_spec(
                self.nodes@,
                params,
                self.nodes@[i],
            )
    }

    /// Creates an empty section owning the given prefix.
    pub fn new(prefix: Prefix) -> (r: Section)
        requires
            prefix.wf(),
        ensures
            r.wf(),
            r.prefix == prefix,
            r.nodes@.len() == 0,
            r.chain == (Chain { last_live: None::<Block> }),
            r.messages@.len() == 0,
            r.incoming_relocations.spec_len() == 0,
            r.outgoing_relocations.spec_len() == 0,
            r.recent_join == false,
            r.recent_drop == false,
    {
        Section {
            prefix,
            nodes: Vec::new(),
            chain: Chain::new(),
            messages: Vec::new(),
            incoming_relocations: NameCache::new(),
            outgoing_relocations: NameCache::new(),
            recent_join: false,
            recent_drop: false,
        }
    }

    pub fn prefix(&self) -> (r: Prefix)
        ensures
            r == self.prefix,
    {
        self.prefix
    }

    /// The number of members of the section.
    pub fn len(&self) -> (r: usize)
        ensures
            r == self.nodes@.len(),
    {
        self.nodes.len()
    }

    /// The members carrying the elder flag, in name order.
    pub fn elders(&self) -> (r: Vec<Node>)
        ensures
            r@ == self.nodes@.filter(elder_pred()),
    {
        let ghost p = elder_pred();
        let mut out: Vec<Node> = Vec::new();
        let mut i: usize = 0;
        proof {
            assert(self.nodes@.take(0).filter(p) =~= Seq::<Node>::empty());
        }
        while i < self.nodes.len()
            invariant
                0 <= i <= self.nodes@.len(),
                p == elder_pred(),
                out@ == self.nodes@.take(i as int).filter(p),
            decreases self.nodes@.len() - i,
        {
            proof {
                lemma_filter_take_step(self.nodes@, p, i as int);
            }
            if self.nodes[i].elder {
                out.push(self.nodes[i]);
            }
            i += 1;
        }
        proof {
            assert(self.nodes@.take(self.nodes@.len() as int) =~= self.nodes@);
        }
        out
    }

    /// Whether the section would currently decide to split.
    pub fn should_split(&self, params: &Params) -> (r: bool)
        requires
            self.wf(),
            params.wf(),
        ensures
            r == split_decision(*self, *params),
    {
        self.try_split(params).is_some()
    }

    /// Whether the section would currently ask to merge.
    pub fn should_merge(&self, params: &Params) -> (r: bool)
        requires
            self.wf(),
            params.wf(),
        ensures
            r == merge_decision(*self, *params),
    {
        self.try_merge(params).is_some()
    }

    /// The members of the section, sorted by name.
    pub fn nodes(&self) -> (r: &Vec<Node>)
        ensures
            r@ == self.nodes@,
    {
        &self.nodes
    }

    /// Whether the section holds at least `group_size` adults.
    pub fn is_complete(&self, params: &Params) -> (r: bool)
        ensures
            r == (count_adults_spec(self.nodes@, *params) >= params.group_size),
    {
        count_adults(params, &self.nodes) >= params.group_size
    }

    /// The names of nodes whose relocation into this section is under way.
    pub fn incoming_relocations(&self) -> (r: Vec<Name>)
        ensures
            r@.len() == self.incoming_relocations.spec_len(),
            forall|i: int|
                0 <= i < r@.len() ==> r@[i] == (#[trigger] self.incoming_relocations.entries@[i]).0,
            forall|k: Name| self.incoming_relocations.contains_key(k) <==> r@.contains(k),
    {
        let keys = self.incoming_relocations.cache_keys();
        proof {
            lemma_cache_keys_contains(self.incoming_relocations, keys@);
        }
        keys
    }

    /// The names of nodes this section is relocating away.
    pub fn outgoing_relocations(&self) -> (r: Vec<Name>)
        ensures
            r@.len() == self.outgoing_relocations.spec_len(),
            forall|i: int|
                0 <= i < r@.len() ==> r@[i] == (#[trigger] self.outgoing_relocations.entries@[i]).0,
            forall|k: Name| self.outgoing_relocations.contains_key(k) <==> r@.contains(k),
    {
        let keys = self.outgoing_relocations.cache_keys();
        proof {
            lemma_cache_keys_contains(self.outgoing_relocations, keys@);
        }
        keys
    }

    /// Resets the once-per-tick churn flags; call at the start of each tick.
    pub fn prepare(&mut self)
        ensures
            *final(self) == (Section { recent_join: false, recent_drop: false, ..*old(self) }),
    {
        self.recent_join = false;
        self.recent_drop = false;
    }

    /// Queues a message; messages are handled on the next `tick`.
    pub fn receive(&mut self, message: Message)
        ensures
            final(self).messages@ == old(self).messages@.push(message),
            *final(self) == (Section { messages: final(self).messages, ..*old(self) }),
    {
        self.messages.push(message)
    }

    /// Adds a node to the membership, keeping it sorted by name; a node of
    /// the same name is replaced.
    fn join_node(&mut self, node: Node)
        requires
            old(self).wf(),
            old(self).prefix.spec_matches(node.name),
        ensures
            final(self).wf(),
            forall|q: Name|
                contains_name(final(self).nodes@, q) <==> (contains_name(old(self).nodes@, q) || q
                    == node.name),
            forall|q: Name|
                q != node.name && contains_name(old(self).nodes@, q) ==> node_of(
                    final(self).nodes@,
                    q,
                ) == node_of(old(self).nodes@, q),
            node_of(final(self).nodes@, node.name) == node,
            final(self).nodes@.len() == old(self).nodes@.len() + if contains_name(
                old(self).nodes@,
                node.name,
            ) {
                0nat
            } else {
                1nat
            },
            !contains_name(old(self).nodes@, node.name) ==> final(self).nodes@.to_multiset()
                == old(self).nodes@.to_multiset().insert(node),
            !contains_name(old(self).nodes@, node.name) ==> cores(final(self).nodes@) == cores(
                old(self).nodes@,
            ).insert(core_of(node)),
            *final(self) == (Section { nodes: final(self).nodes, ..*old(self) }),
    {
        let ghost s0 = self.nodes@;
        let mut i: usize = 0;
        while i < self.nodes.len() && self.nodes[i].name.0 < node.name.0
            invariant
                0 <= i <= s0.len(),
                old(self).wf(),
                *self == *old(self),
                s0 == self.nodes@,
                forall|j: int| 0 <= j < i ==> (#[trigger] s0[j]).name.0 < node.name.0,
            decreases s0.len() - i,
        {
            i += 1;
        }
        if i < self.nodes.len() && self.nodes[i].name.0 == node.name.0 {
            proof {
                lemma_node_at(s0, i as int);
            }
            self.nodes[i] = node;
            proof {
                let s1 = self.nodes@;
                assert(forall|a: int| 0 <= a < s1.len() ==> (#[trigger] s1[a]).name == s0[a].name);
                assert forall|q: Name| contains_name(s1, q) implies contains_name(s0, q) by {
                    let j = choose|j: int| 0 <= j < s1.len() && (#[trigger] s1[j]).name == q;
                    assert(s0[j].name == q);
                }
                assert forall|q: Name| contains_name(s0, q) implies contains_name(s1, q) by {
                    let j = choose|j: int| 0 <= j < s0.len() && (#[trigger] s0[j]).name == q;
                    assert(s1[j].name == q);
                }
                lemma_node_at(s1, i as int);
                assert forall|q: Name|
                    q != node.name && contains_name(s0, q) implies node_of(s1, q) == node_of(
                    s0,
                    q,
                ) by {
                    let j = choose|j: int| 0 <= j < s0.len() && (#[trigger] s0[j]).name == q;
                    lemma_node_at(s0, j);
                    lemma_node_at(s1, j);
                }
            }
            return ;
        }
        proof {
            assert forall|j: int| i <= j < s0.len() implies (#[trigger] s0[j]).name.0
                > node.name.0 by {
                if j > i {
                    assert(s0[i as int].name.0 < s0[j].name.0);
                }
            }
            assert(!contains_name(s0, node.name)) by {
                if contains_name(s0, node.name) {
                    let j = index_of_name(s0, node.name);
                    assert(0 <= j < s0.len() && s0[j].name == node.name);
                }
            }
        }
        self.nodes.insert(i, node);
        proof {
            let s1 = self.nodes@;
            assert(s1 == s0.insert(i as int, node));
            assert(nodes_sorted(s1));
            lemma_to_multiset_insert(s0, i as int, node);
            assert(s1.map_values(|n: Node| core_of(n)) =~= s0.map_values(
                |n: Node| core_of(n),
            ).insert(i as int, core_of(node)));
            lemma_to_multiset_insert(s0.map_values(|n: Node| core_of(n)), i as int, core_of(node));
            assert forall|q: Name| contains_name(s1, q) implies contains_name(s0, q) || q
                == node.name by {
                let j = choose|j: int| 0 <= j < s1.len() && (#[trigger] s1[j]).name == q;
                if j < i {
                    assert(s0[j].name == q);
                } else if j > i {
                    assert(s0[j - 1].name == q);
                }
            }
            assert forall|q: Name| contains_name(s0, q) implies contains_name(s1, q) by {
                let j = choose|j: int| 0 <= j < s0.len() && (#[trigger] s0[j]).name == q;
                if j < i {
                    assert(s1[j].name == q);
                } else {
                    assert(s1[j + 1].name == q);
                }
            }
            lemma_node_at(s1, i as int);
            assert forall|q: Name|
                q != node.name && contains_name(s0, q) implies node_of(s1, q) == node_of(
                s0,
                q,
            ) by {
                let j = choose|j: int| 0 <= j < s0.len() && (#[trigger] s0[j]).name == q;
                lemma_node_at(s0, j);
                if j < i {
                    lemma_node_at(s1, j);
                } else {
                    assert(s1[j + 1] == s0[j]);
                    lemma_node_at(s1, j + 1);
                }
            }
        }
    }

    /// Removes the node of the given name, if present.
    fn drop_node(&mut self, name: Name) -> (r: Option<Node>)
        requires
            old(self).wf(),
        ensures
            final(self).wf(),
            r == if contains_name(old(self).nodes@, name) {
                Some(node_of(old(self).nodes@, name))
            } else {
                None::<Node>
            },
            forall|q: Name|
                contains_name(final(self).nodes@, q) <==> (contains_name(old(self).nodes@, q) && q
                    != name),
            forall|q: Name|
                q != name && contains_name(old(self).nodes@, q) ==> node_of(final(self).nodes@, q)
                    == node_of(old(self).nodes@, q),
            contains_name(old(self).nodes@, name) ==> final(self).nodes@.to_multiset() == old(
                self,
            ).nodes@.to_multiset().remove(node_of(old(self).nodes@, name)),
            final(self).nodes@.len() == old(self).nodes@.len() - if contains_name(
                old(self).nodes@,
                name,
            ) {
                1nat
            } else {
                0nat
            },
            !contains_name(old(self).nodes@, name) ==> *final(self) == *old(self),
            *final(self) == (Section { nodes: final(self).nodes, ..*old(self) }),
    {
        let ghost s0 = self.nodes@;
        let mut i: usize = 0;
        while i < self.nodes.len()
            invariant
                0 <= i <= s0.len(),
                old(self).wf(),
                *self == *old(self),
                s0 == self.nodes@,
                forall|j: int| 0 <= j < i ==> (#[trigger] s0[j]).name != name,
            decreases s0.len() - i,
        {
            if self.nodes[i].name.0 == name.0 {
                proof {
                    lemma_node_at(s0, i as int);
                }
                let node = self.nodes.remove(i);
                proof {
                    let s1 = self.nodes@;
                    assert(s1 == s0.remove(i as int));
                    assert(nodes_sorted(s1));
                    assert forall|q: Name| contains_name(s1, q) implies contains_name(s0, q) && q
                        != name by {
                        let j = choose|j: int| 0 <= j < s1.len() && (#[trigger] s1[j]).name == q;
                        if j < i {
                            assert(s0[j].name == q);
                        } else {
                            assert(s0[j + 1].name == q);
                        }
                    }
                    assert forall|q: Name| contains_name(s0, q) && q != name implies contains_name(
                        s1,
                        q,
                    ) && node_of(s1, q) == node_of(s0, q) by {
                        let j = choose|j: int| 0 <= j < s0.len() && (#[trigger] s0[j]).name == q;
                        lemma_node_at(s0, j);
                        if j < i {
                            lemma_node_at(s1, j);
                        } else {
                            assert(s1[j - 1] == s0[j]);
                            lemma_node_at(s1, j - 1);
                        }
                    }
                }
                return Some(node);
            }
            i += 1;
        }
        proof {
            assert(!contains_name(s0, name)) by {
                if contains_name(s0, name) {
                    let j = index_of_name(s0, name);
                    assert(0 <= j < s0.len() && s0[j].name == name);
                }
            }
        }
        None
    }

    /// Promotes and demotes members so that the elders are exactly the
    /// `group_size` oldest adults, ties broken by name ascending; every
    /// promotion appends a `Live` block to the chain (`Gone` blocks of
    /// demotions are not retained).
    pub fn update_elders(&mut self, params: &Params)
        requires
            old(self).wf(),
        ensures
            final(self).wf(),
            final(self).nodes@ == refreshed(old(self).nodes@, *params),
            final(self).elders_current(*params),
            final(self).chain == chain_after_update(
                old(self).nodes@,
                *params,
                old(self).chain,
                old(self).nodes@.len() as int,
            ),
            *final(self) == (Section {
                nodes: final(self).nodes,
                chain: final(self).chain,
                ..*old(self)
            }),
    {
        let ghost s0 = self.nodes@;
        let ghost c0 = self.chain;
        let mut i: usize = 0;
        while i < self.nodes.len()
            invariant
                0 <= i <= s0.len(),
                self.nodes@.len() == s0.len(),
                old(self).wf(),
                s0 == old(self).nodes@,
                c0 == old(self).chain,
                forall|j: int| i <= j < s0.len() ==> self.nodes@[j] == s0[j],
                forall|j: int|
                    0 <= j < i ==> self.nodes@[j] == flag_set(s0, *params, #[trigger] s0[j]),
                self.chain == chain_after_update(s0, *params, c0, i as int),
                *self == (Section { nodes: self.nodes, chain: self.chain, ..*old(self) }),
            decreases s0.len() - i,
        {
            let node = self.nodes[i];
            proof {
                assert(node == s0[i as int]);
                lemma_cores_congruent(self.nodes@, s0);
            }
            let rank = elder_rank_exec(&self.nodes, params, &node);
            let now = node.age >= params.adult_age && rank < params.group_size;
            proof {
                assert(elder_rank(self.nodes@, *params, node) == elder_rank(s0, *params, node));
                assert(now == is_elder_spec(s0, *params, s0[i as int]));
            }
            if node.elder && !now {
                self.nodes[i] = Node { elder: false, ..node };
                self.chain.insert(Block::new(Event::Gone, node.name, node.age));
            } else if !node.elder && now {
                self.nodes[i] = Node { elder: true, ..node };
                self.chain.insert(Block::new(Event::Live, node.name, node.age));
            }
            i += 1;
        }
        proof {
            assert(self.nodes@ =~= refreshed(s0, *params));
            lemma_refreshed_elders(s0, *params);
            let r = refreshed(s0, *params);
            assert forall|j: int| 0 <= j < r.len() implies (#[trigger] r[j]).elder == is_elder_spec(
                r,
                *params,
                r[j],
            ) by {
                assert(is_elder_spec(r, *params, r[j]) == is_elder_spec(s0, *params, s0[j]));
            }
        }
    }

    /// Collects the members passing the digest's trailing-zero age gate.
    fn relocation_candidates(&self, hash: &crate::chain::Hash) -> (r: Vec<Node>)
        requires
            hash.wf(),
        ensures
            r@ == self.nodes@.filter(candidate_pred(tz_bytes(hash.bytes@))),
    {
        let ghost p = candidate_pred(tz_bytes(hash.bytes@));
        let tz = hash.trailing_zeros();
        let mut out: Vec<Node> = Vec::new();
        let mut i: usize = 0;
        proof {
            assert(self.nodes@.take(0).filter(p) =~= Seq::<Node>::empty());
        }
        while i < self.nodes.len()
            invariant
                0 <= i <= self.nodes@.len(),
                p == candidate_pred(tz_bytes(hash.bytes@)),
                tz == tz_bytes(hash.bytes@),
                out@ == self.nodes@.take(i as int).filter(p),
            decreases self.nodes@.len() - i,
        {
            proof {
                lemma_filter_take_step(self.nodes@, p, i as int);
            }
            if self.nodes[i].age <= tz {
                out.push(self.nodes[i]);
            }
            i += 1;
        }
        proof {
            assert(self.nodes@.take(self.nodes@.len() as int) =~= self.nodes@);
        }
        out
    }

    /// Picks the member the relocation rule chooses at the given digest:
    /// the extreme-age candidate, ties broken by XOR distance.
    fn check_relocate(&self, params: &Params, hash: &crate::chain::Hash) -> (r: Option<Name>)
        requires
            hash.wf(),
        ensures
            r == chosen_spec(self.nodes@, *params, hash.bytes@),
    {
        let cands = self.relocation_candidates(hash);
        if cands.len() == 0 {
            return None;
        }
        let oldest = match params.relocation_strategy {
            RelocationStrategy::OldestFirst => true,
            RelocationStrategy::YoungestFirst => false,
        };
        let mut ext: u64 = cands[0].age;
        let mut i: usize = 1;
        proof {
            assert(ext == extreme_age(cands@.take(1), params.relocation_strategy));
        }
        while i < cands.len()
            invariant
                1 <= i <= cands@.len(),
                oldest == (params.relocation_strategy == RelocationStrategy::OldestFirst),
                ext == extreme_age(cands@.take(i as int), params.relocation_strategy),
            decreases cands@.len() - i,
        {
            proof {
                assert(cands@.take(i + 1).drop_last() =~= cands@.take(i as int));
            }
            if oldest {
                if cands[i].age > ext {
                    ext = cands[i].age;
                }
            } else {
                if cands[i].age < ext {
                    ext = cands[i].age;
                }
            }
            i += 1;
        }
        proof {
            assert(cands@.take(cands@.len() as int) =~= cands@);
        }
        let ghost q = age_pred(ext);
        let mut ties: Vec<Node> = Vec::new();
        let mut j: usize = 0;
        proof {
            assert(cands@.take(0).filter(q) =~= Seq::<Node>::empty());
        }
        while j < cands.len()
            invariant
                0 <= j <= cands@.len(),
                q == age_pred(ext),
                ties@ == cands@.take(j as int).filter(q),
            decreases cands@.len() - j,
        {
            proof {
                lemma_filter_take_step(cands@, q, j as int);
            }
            if cands[j].age == ext {
                ties.push(cands[j]);
            }
            j += 1;
        }
        proof {
            assert(cands@.take(cands@.len() as int) =~= cands@);
            lemma_extreme_is_age(cands@, params.relocation_strategy);
            let w = choose|w: int|
                0 <= w < cands@.len() && (#[trigger] cands@[w]).age == extreme_age(
                    cands@,
                    params.relocation_strategy,
                );
            assert(ties@.contains(cands@[w]));
        }
        let mut t: u64 = 0;
        let mut a: usize = 0;
        proof {
            assert(xor_names(ties@.take(0)) == 0) by {
                assert(ties@.take(0) =~= Seq::<Node>::empty());
            }
        }
        while a < ties.len()
            invariant
                0 <= a <= ties@.len(),
                t == xor_names(ties@.take(a as int)),
            decreases ties@.len() - a,
        {
            proof {
                assert(ties@.take(a + 1).drop_last() =~= ties@.take(a as int));
            }
            t = t ^ ties[a].name.0;
            a += 1;
        }
        proof {
            assert(ties@.take(ties@.len() as int) =~= ties@);
        }
        let mut winner: Node = ties[0];
        let mut b: usize = 1;
        proof {
            assert(winner == xor_min(ties@.take(1), t));
        }
        while b < ties.len()
            invariant
                1 <= b <= ties@.len(),
                winner == xor_min(ties@.take(b as int), t),
            decreases ties@.len() - b,
        {
            proof {
                assert(ties@.take(b + 1).drop_last() =~= ties@.take(b as int));
            }
            if (ties[b].name.0 ^ t) < (winner.name.0 ^ t) {
                winner = ties[b];
            }
            b += 1;
        }
        proof {
            assert(ties@.take(ties@.len() as int) =~= ties@);
        }
        Some(winner.name)
    }

    /// Attempts to start a relocation, seeded by the digest of the given
    /// `Live` block and rehashing up to `max_relocation_attempts` times
    /// until the age gate lets a member through.
    pub fn try_relocate(&mut self, params: &Params, live_block: &Block) -> (r: Option<Action>)
        requires
            old(self).wf(),
        ensures
            final(self).wf(),
            relocate_outcome(*old(self), *params, *live_block, *final(self), r),
    {
        let ghost max = params.max_relocation_attempts as nat;
        let ghost s = self.nodes@;
        if self.prefix.len() == 0 {
            return None;
        }
        if count_adults(params, &self.nodes) <= params.group_size {
            return None;
        }
        if !self.outgoing_relocations.is_empty() {
            return None;
        }
        let mut hash = live_block.hash();
        let mut attempt: usize = 0;
        while attempt < params.max_relocation_attempts
            invariant
                0 <= attempt <= max,
                max == params.max_relocation_attempts as nat,
                s == self.nodes@,
                old(self).wf(),
                *self == *old(self),
                may_relocate(*self, *params),
                hash.wf(),
                hash.bytes@ == nth_hash(*live_block, attempt as nat),
                first_attempt(s, *live_block, 0, max) == first_attempt(
                    s,
                    *live_block,
                    attempt as nat,
                    max,
                ),
            decreases max - attempt,
        {
            let found = self.check_relocate(params, &hash);
            if let Some(node_name) = found {
                proof {
                    assert(has_candidate(s, hash.bytes@));
                    assert(first_attempt(s, *live_block, attempt as nat, max) == attempt as nat);
                    lemma_chosen_is_member(s, *params, hash.bytes@);
                }
                let target = hash.to_name();
                self.outgoing_relocations.insert(node_name, target);
                return Some(Action::Send(Message::RelocateRequest { node_name, target }));
            }
            proof {
                assert(!has_candidate(s, hash.bytes@));
                assert(first_attempt(s, *live_block, attempt as nat, max) == first_attempt(
                    s,
                    *live_block,
                    (attempt + 1) as nat,
                    max,
                ));
            }
            hash = hash.rehash();
            attempt += 1;
        }
        proof {
            assert(first_attempt(s, *live_block, max, max) == max);
        }
        None
    }

    /// Handles a relocation request from another section: reject when a
    /// relocation is already inbound or the section is full, else reserve
    /// the slot and accept.
    pub fn handle_relocate_request(&mut self, params: &Params, node_name: Name, target: Name) -> (r:
        Action)
        requires
            old(self).wf(),
        ensures
            final(self).wf(),
            request_outcome(*old(self), *params, node_name, target, *final(self), r),
    {
        if !self.incoming_relocations.is_empty() || self.nodes.len() >= params.max_section_size {
            Action::Send(Message::RelocateReject { node_name, target })
        } else {
            self.incoming_relocations.insert(node_name, target);
            Action::Send(Message::RelocateAccept { node_name, target })
        }
    }

    /// Handles the acceptance of a relocation this section requested: the
    /// node leaves with its age incremented and its elder flag dropped, and
    /// the receiver is asked to commit.
    pub fn handle_relocate_accept(&mut self, node_name: Name, target: Name) -> (r: Option<Action>)
        requires
            old(self).wf(),
        ensures
            final(self).wf(),
            accept_outcome(*old(self), node_name, target, *final(self), r),
    {
        if !self.outgoing_relocations.contains(node_name) {
            return None;
        }
        self.outgoing_relocations.remove(node_name);
        let dropped = self.drop_node(node_name);
        if let Some(node) = dropped {
            let mut node = node;
            node.increment_age();
            if node.is_elder() {
                node.demote();
                self.chain.insert(Block::new(Event::Dead, node_name, node.age()));
            }
            proof {
                assert(self.chain == old(self).chain);
            }
            Some(Action::Send(Message::RelocateCommit { node, target }))
        } else {
            None
        }
    }

    /// Handles the rejection of a relocation this section requested: give
    /// up when retrying is no longer worthwhile, else rehash the target and
    /// ask again.
    pub fn handle_relocate_reject(&mut self, params: &Params, node_name: Name, target: Name) -> (r:
        Option<Action>)
        requires
            old(self).wf(),
        ensures
            final(self).wf(),
            reject_outcome(*old(self), *params, node_name, target, *final(self), r),
    {
        if !self.outgoing_relocations.contains(node_name) {
            return None;
        }
        if self.prefix.len() == 0 || count_adults(params, &self.nodes) <= params.group_size {
            self.outgoing_relocations.remove(node_name);
            None
        } else {
            let target = crate::chain::Hash::from_name(target).rehash().to_name();
            self.outgoing_relocations.insert(node_name, target);
            Some(Action::Send(Message::RelocateRequest { node_name, target }))
        }
    }

    /// Handles a node joining: the root admits it at adult age, a full
    /// section rejects one infant too many, everyone else joins; elders are
    /// recomputed, then the section considers splitting, and an adult join
    /// may seed a relocation.
    pub fn handle_live(&mut self, params: &Params, node: Node) -> (r: Option<Action>)
        requires
            old(self).wf(),
            params.wf(),
            old(self).prefix.spec_matches(node.name),
        ensures
            final(self).wf(),
            live_outcome(*old(self), *params, node, *final(self), r),
    {
        let ghost pre = *old(self);
        let adj = if self.prefix.len() == 0 {
            Node::new(node.name, params.adult_age)
        } else {
            node
        };
        if self.prefix.len() != 0 && adj.age < params.adult_age {
            if count_infants(params, &self.nodes) >= params.max_infants_per_section {
                return Some(Action::Reject(node));
            }
        }
        proof {
            assert(!live_rejects(pre, *params, node));
        }
        let name = adj.name;
        let age = adj.age;
        let is_adult = adj.age >= params.adult_age;
        self.join_node(adj);
        let ghost joined = *self;
        self.update_elders(params);
        let ghost updated = *self;
        proof {
            lemma_refreshed_names(joined.nodes@, *params);
        }
        proof {
            assert(updated.outgoing_relocations == pre.outgoing_relocations);
        }
        let split_action = self.try_split(params);
        if let Some(action) = split_action {
            proof {
                assert(Section { outgoing_relocations: pre.outgoing_relocations, ..*self }
                    == updated);
            }
            return Some(action);
        }
        if is_adult {
            let r = self.try_relocate(params, &Block::new(Event::Live, name, age));
            proof {
                assert(Section { outgoing_relocations: pre.outgoing_relocations, ..*self }
                    == updated);
            }
            r
        } else {
            proof {
                assert(Section { outgoing_relocations: pre.outgoing_relocations, ..*self }
                    == updated);
            }
            None
        }
    }

    /// Handles a node leaving: the member is removed, its own outstanding
    /// relocation is cancelled, scarce adults trigger a merge request, and
    /// an adult departure may seed a relocation from the chain.
    pub fn handle_dead(&mut self, params: &Params, name: Name) -> (r: Vec<Action>)
        requires
            old(self).wf(),
            params.wf(),
        ensures
            final(self).wf(),
            dead_outcome(*old(self), *params, name, *final(self), r@),
    {
        let ghost pre = *old(self);
        let mut actions: Vec<Action> = Vec::new();
        let dropped = self.drop_node(name);
        if let Some(node) = dropped {
            let ghost cancels: Seq<Action> = if pre.outgoing_relocations.contains_key(name) {
                seq![
                    Action::Send(
                        Message::RelocateCancel {
                            node_name: name,
                            target: pre.outgoing_relocations.at(name),
                        },
                    ),
                ]
            } else {
                Seq::empty()
            };
            let removed = self.outgoing_relocations.remove(name);
            if let Some(target) = removed {
                actions.push(Action::Send(Message::RelocateCancel { node_name: name, target }));
            }
            proof {
                assert(actions@ =~= cancels);
            }
            let merge_action = self.try_merge(params);
            if let Some(a) = merge_action {
                actions.push(a);
            }
            let ghost merges: Seq<Action> = if merge_action is Some {
                seq![merge_action.unwrap()]
            } else {
                Seq::empty()
            };
            let ghost base = cancels + merges;
            proof {
                assert(actions@ =~= base);
            }
            let ghost before_update = *self;
            if node.age >= params.adult_age {
                self.update_elders(params);
                proof {
                    lemma_refreshed_names(before_update.nodes@, *params);
                    lemma_count_adults_congruent(self.nodes@, before_update.nodes@, *params);
                }
                let last = self.chain.last_live();
                if let Some(block) = last {
                    let reloc = self.try_relocate(params, &block);
                    if let Some(a) = reloc {
                        actions.push(a);
                    }
                }
            }
            proof {
                assert(self.nodes@.len() == before_update.nodes@.len());
                assert(count_adults_spec(self.nodes@, *params) == count_adults_spec(
                    before_update.nodes@,
                    *params,
                )) by {
                    lemma_count_adults_congruent(self.nodes@, before_update.nodes@, *params);
                }
                assert(actions@.take(base.len() as int) =~= base);
            }
        }
        actions
    }

    /// Handles the commitment of a relocation into this section: the node
    /// is renamed under the emptier child half of the prefix, keeping its
    /// age, and is then handled as a local join.  A commitment for a node
    /// that was never accepted here is ignored rather than treated as a
    /// failure; the contract states the case explicitly.
    pub fn handle_relocate_commit(&mut self, params: &Params, rng: &mut Rng, node: &Node) -> (r: Option<
        Action,
    >)
        requires
            old(self).wf(),
            params.wf(),
        ensures
            final(self).wf(),
            commit_outcome(*old(self), *params, *old(rng), *node, *final(self), *final(rng), r),
    {
        let ghost pre = *old(self);
        if !self.incoming_relocations.contains(node.name) {
            return None;
        }
        self.incoming_relocations.remove(node.name);
        let ghost mid = *self;
        let target_prefix = if self.prefix.len() >= 64 {
            self.prefix
        } else {
            let (prefix0, prefix1) = self.prefix.split();
            let count0 = count_matching_adults(params, prefix0, &self.nodes);
            let count1 = count_matching_adults(params, prefix1, &self.nodes);
            if count0 < count1 {
                prefix0
            } else {
                prefix1
            }
        };
        let new_name = target_prefix.substituted_in(Name(rng.next_u64()));
        proof {
            crate::prefix::lemma_matches_substituted(target_prefix, Name(crate::random::combine(
                crate::random::step(*old(rng)).w,
                crate::random::step(crate::random::step(*old(rng))).w,
            )));
            if pre.prefix.len < 64 {
                crate::prefix::lemma_split_cover(pre.prefix, new_name);
            }
            assert(mid.prefix.spec_matches(new_name));
        }
        self.handle_live(params, Node::new(new_name, node.age()))
    }

    /// Attempts one simulated random join this tick: a fresh name under the
    /// section's prefix, at the initial age.
    pub fn random_join(&mut self, params: &Params, rng: &mut Rng) -> (r: Option<Action>)
        requires
            old(self).wf(),
            params.wf(),
        ensures
            final(self).wf(),
            join_outcome(*old(self), *params, *old(rng), *final(self), *final(rng), r),
    {
        if self.recent_join {
            return None;
        }
        self.recent_join = true;
        let name = self.prefix.substituted_in(Name(rng.next_u64()));
        proof {
            crate::prefix::lemma_matches_substituted(self.prefix, Name(crate::random::combine(
                crate::random::step(*old(rng)).w,
                crate::random::step(crate::random::step(*old(rng))).w,
            )));
        }
        self.handle_live(params, Node::new(name, params.init_age))
    }

    /// Attempts one simulated random disconnection this tick: walking the
    /// members from youngest to oldest, each drops with probability
    /// `2^-age`, and the first hit leaves the network.
    pub fn random_drop(&mut self, params: &Params, rng: &mut Rng) -> (r: Vec<Action>)
        requires
            old(self).wf(),
            params.wf(),
        ensures
            final(self).wf(),
            drop_outcome(*old(self), *params, *old(rng), *final(self), *final(rng), r@),
    {
        if self.recent_drop {
            return Vec::new();
        }
        self.recent_drop = true;
        let ghost mid = *self;
        let order = crate::node::by_age(&self.nodes);
        let mut i: usize = 0;
        while i < order.len()
            invariant
                0 <= i <= order@.len(),
                mid.wf(),
                params.wf(),
                *self == mid,
                !old(self).recent_drop,
                mid == (Section { recent_drop: true, ..*old(self) }),
                order@ == crate::node::by_age_spec(old(self).nodes@),
                drop_choice(order@, *old(rng), 0) == drop_choice(order@, *rng, i as int),
            decreases order@.len() - i,
        {
            let ghost rng_before = *rng;
            let hit = rng.age_flip(order[i].age());
            proof {
                assert(drop_choice(order@, rng_before, i as int) == (if hit {
                    (Some(order@[i as int].name), *rng)
                } else {
                    drop_choice(order@, *rng, i + 1)
                }));
            }
            if hit {
                let name = order[i].name();
                let acts = self.handle_dead(params, name);
                proof {
                    assert(dead_outcome(mid, *params, name, *self, acts@));
                }
                return acts;
            }
            i += 1;
        }
        proof {
            assert(drop_choice(order@, *rng, order@.len() as int) == (None::<Name>, *rng));
        }
        Vec::new()
    }

    /// One protocol pass of this section: every queued message is handled
    /// in arrival order (requests arriving after a commitment in the same
    /// pass are turned away), then — unless a relocation just landed — a
    /// fair coin orders one random join attempt and one random drop attempt
    /// (only the drop while a relocation into this section is pending).
    /// There can be several such passes per network tick.
    #[verifier::rlimit(100)]
    pub fn tick(&mut self, params: &Params, rng: &mut Rng) -> (r: Vec<Action>)
        requires
            old(self).wf(),
            params.wf(),
        ensures
            final(self).wf(),
            final(self).messages@.len() == 0,
            final(self).prefix == old(self).prefix,
            forall|j: int|
                0 <= j < r@.len() ==> action_scoped(#[trigger] r@[j], old(self).prefix),
            exists|drained: Section, mid: Section, reloc: bool, rngm: Rng, k: int|
                #![trigger messages_outcome(drained, *params, old(self).messages@, false, *old(rng), mid, reloc, rngm, r@.take(k)), churn_outcome(mid, *params, reloc, rngm, *final(self), *final(rng), r@.skip(k))]
                {
                    &&& 0 <= k <= r@.len()
                    &&& drained.messages@.len() == 0
                    &&& drained == (Section { messages: drained.messages, ..*old(self) })
                    &&& messages_outcome(
                        drained,
                        *params,
                        old(self).messages@,
                        false,
                        *old(rng),
                        mid,
                        reloc,
                        rngm,
                        r@.take(k),
                    )
                    &&& churn_outcome(mid, *params, reloc, rngm, *final(self), *final(rng), r@.skip(k))
                },
            old(self).messages@.len() == 0 && old(self).recent_join && old(self).recent_drop
                ==> *final(self) == *old(self) && r@.len() == 0,
    {
        let mut actions: Vec<Action> = Vec::new();
        let mut relocated_in = false;
        let mut msgs: Vec<Message> = Vec::new();
        if self.messages.len() > 0 {
            let mut i: usize = 0;
            while i < self.messages.len()
                invariant
                    0 <= i <= self.messages@.len(),
                    *self == *old(self),
                    msgs@ == self.messages@.take(i as int),
                decreases self.messages@.len() - i,
            {
                msgs.push(self.messages[i]);
                i += 1;
            }
            proof {
                assert(self.messages@.take(self.messages@.len() as int) =~= self.messages@);
            }
            self.messages = Vec::new();
        }
        let ghost drained = *self;
        let ghost rng0 = *rng;
        proof {
            assert(msgs@.take(0) =~= Seq::<Message>::empty());
        }
        let mut j: usize = 0;
        while j < msgs.len()
            invariant
                0 <= j <= msgs@.len(),
                old(self).wf(),
                params.wf(),
                self.wf(),
                self.prefix == old(self).prefix,
                msgs@ == old(self).messages@,
                rng0 == *old(rng),
                drained.messages@.len() == 0,
                drained == (Section { messages: drained.messages, ..*old(self) }),
                msgs@.len() > 0 ==> self.messages@.len() == 0,
                messages_outcome(
                    drained,
                    *params,
                    msgs@.take(j as int),
                    false,
                    rng0,
                    *self,
                    relocated_in,
                    *rng,
                    actions@,
                ),
                forall|a: int|
                    0 <= a < actions@.len() ==> action_scoped(
                        #[trigger] actions@[a],
                        old(self).prefix,
                    ),
                msgs@.len() == 0 ==> *self == *old(self) && actions@.len() == 0 && relocated_in
                    == false,
            decreases msgs@.len() - j,
        {
            let ghost pre_m = *self;
            let ghost r_m = relocated_in;
            let ghost g_m = *rng;
            let ghost base = actions@;
            let message = msgs[j];
            match message {
                Message::RelocateRequest { node_name, target } => {
                    if relocated_in {
                        actions.push(
                            Action::Send(Message::RelocateReject { node_name, target }),
                        );
                        proof {
                            assert(actions@.skip(base.len() as int) =~= seq![
                                Action::Send(Message::RelocateReject { node_name, target }),
                            ]);
                        }
                    } else {
                        let a = self.handle_relocate_request(params, node_name, target);
                        actions.push(a);
                        proof {
                            assert(actions@.skip(base.len() as int) =~= seq![a]);
                        }
                    }
                },
                Message::RelocateAccept { node_name, target } => {
                    let a = self.handle_relocate_accept(node_name, target);
                    let ghost o = a;
                    if let Some(a) = a {
                        actions.push(a);
                    }
                    proof {
                        assert(actions@.skip(base.len() as int) =~= opt_acts(o));
                    }
                },
                Message::RelocateReject { node_name, target } => {
                    let a = self.handle_relocate_reject(params, node_name, target);
                    let ghost o = a;
                    if let Some(a) = a {
                        actions.push(a);
                    }
                    proof {
                        assert(actions@.skip(base.len() as int) =~= opt_acts(o));
                    }
                },
                Message::RelocateCommit { node, .. } => {
                    let a = self.handle_relocate_commit(params, rng, &node);
                    let ghost o = a;
                    if let Some(a) = a {
                        relocated_in = true;
                        actions.push(a);
                    }
                    proof {
                        assert(actions@.skip(base.len() as int) =~= opt_acts(o));
                        assert(relocated_in == (r_m || o is Some));
                    }
                },
                Message::RelocateCancel { node_name, .. } => {
                    self.handle_relocate_cancel(node_name);
                    proof {
                        assert(actions@.skip(base.len() as int) =~= Seq::<Action>::empty());
                    }
                },
            }
            proof {
                let t = msgs@.take(j + 1);
                assert(t.drop_last() =~= msgs@.take(j as int));
                assert(t.last() == msgs@[j as int]);
                assert(actions@.take(base.len() as int) =~= base);
                assert(message_outcome(
                    pre_m,
                    *params,
                    t.last(),
                    r_m,
                    g_m,
                    *self,
                    relocated_in,
                    *rng,
                    actions@.skip(base.len() as int),
                ));
                assert(messages_outcome(
                    drained,
                    *params,
                    t.drop_last(),
                    false,
                    rng0,
                    pre_m,
                    r_m,
                    g_m,
                    actions@.take(base.len() as int),
                ));
                assert(messages_outcome(
                    drained,
                    *params,
                    t,
                    false,
                    rng0,
                    *self,
                    relocated_in,
                    *rng,
                    actions@,
                ));
            }
            j += 1;
        }
        proof {
            assert(msgs@.take(msgs@.len() as int) =~= msgs@);
        }
        let ghost mid_s = *self;
        let ghost reloc = relocated_in;
        let ghost rngm = *rng;
        let ghost a1 = actions@;
        if !relocated_in {
            if self.incoming_relocations.is_empty() {
                let coin = rng.next_bool();
                let ghost rngc = *rng;
                if coin {
                    let a = self.random_join(params, rng);
                    let ghost jr = a;
                    let ghost mid2 = *self;
                    let ghost rngj = *rng;
                    if let Some(a) = a {
                        proof {
                            assert(action_scoped(a, old(self).prefix));
                        }
                        actions.push(a);
                    }
                    let ghost pre_drop = *self;
                    let drops = self.random_drop(params, rng);
                    let ghost da = drops@;
                    proof {
                        lemma_dead_actions_scoped(pre_drop, *params, *self, drops@);
                        assert(pre_drop.prefix == old(self).prefix);
                    }
                    let mut drops = drops;
                    actions.append(&mut drops);
                    proof {
                        let a2 = actions@.skip(a1.len() as int);
                        assert(a2.take(opt_acts(jr).len() as int) =~= opt_acts(jr));
                        assert(a2.skip(opt_acts(jr).len() as int) =~= da);
                        assert(join_outcome(mid_s, *params, rngc, mid2, rngj, jr));
                        assert(drop_outcome(
                            mid2,
                            *params,
                            rngj,
                            *self,
                            *rng,
                            a2.skip(opt_acts(jr).len() as int),
                        ));
                        assert(churn_outcome(mid_s, *params, reloc, rngm, *self, *rng, a2));
                    }
                } else {
                    let ghost pre_drop = *self;
                    let drops = self.random_drop(params, rng);
                    let ghost da = drops@;
                    let ghost mid2 = *self;
                    let ghost rngd = *rng;
                    proof {
                        lemma_dead_actions_scoped(pre_drop, *params, *self, drops@);
                        assert(pre_drop.prefix == old(self).prefix);
                    }
                    let mut drops = drops;
                    actions.append(&mut drops);
                    let a = self.random_join(params, rng);
                    let ghost jr = a;
                    if let Some(a) = a {
                        proof {
                            assert(action_scoped(a, old(self).prefix));
                        }
                        actions.push(a);
                    }
                    proof {
                        let a2 = actions@.skip(a1.len() as int);
                        assert(a2.len() == da.len() + opt_acts(jr).len());
                        assert(a2.take((a2.len() - opt_acts(jr).len()) as int) =~= da);
                        assert(a2.skip((a2.len() - opt_acts(jr).len()) as int) =~= opt_acts(jr));
                        assert(drop_outcome(
                            mid_s,
                            *params,
                            rngc,
                            mid2,
                            rngd,
                            a2.take((a2.len() - opt_acts(jr).len()) as int),
                        ));
                        assert(join_outcome(mid2, *params, rngd, *self, *rng, jr));
                        assert(churn_outcome(mid_s, *params, reloc, rngm, *self, *rng, a2));
                    }
                }
            } else {
                let ghost pre_drop = *self;
                let drops = self.random_drop(params, rng);
                let ghost da = drops@;
                proof {
                    lemma_dead_actions_scoped(pre_drop, *params, *self, drops@);
                    assert(pre_drop.prefix == old(self).prefix);
                }
                let mut drops = drops;
                actions.append(&mut drops);
                proof {
                    assert(actions@.skip(a1.len() as int) =~= da);
                    assert(churn_outcome(
                        mid_s,
                        *params,
                        reloc,
                        rngm,
                        *self,
                        *rng,
                        actions@.skip(a1.len() as int),
                    ));
                }
            }
        } else {
            proof {
                assert(actions@.skip(a1.len() as int) =~= Seq::<Action>::empty());
                assert(churn_outcome(
                    mid_s,
                    *params,
                    reloc,
                    rngm,
                    *self,
                    *rng,
                    actions@.skip(a1.len() as int),
                ));
            }
        }
        proof {
            assert(actions@.take(a1.len() as int) =~= a1);
            assert(messages_outcome(
                drained,
                *params,
                old(self).messages@,
                false,
                *old(rng),
                mid_s,
                reloc,
                rngm,
                actions@.take(a1.len() as int),
            ));
            assert(churn_outcome(
                mid_s,
                *params,
                reloc,
                rngm,
                *self,
                *rng,
                actions@.skip(a1.len() as int),
            ));
        }
        actions
    }

    /// Splits the section into its two children: members, queued messages
    /// and both relocation caches are partitioned between the children, the
    /// chain is copied into each, and both children recompute their elders.
    pub fn split(self, params: &Params) -> (r: (Section, Section))
        requires
            self.wf(),
            params.wf(),
            self.prefix.len < 64,
        ensures
            split_post(self, *params, r.0, r.1),
    {
        let (prefix0, prefix1) = self.prefix.split();
        let ghost mp0 = match_pred(prefix0);
        let ghost mp1 = match_pred(prefix1);
        let mut nodes0: Vec<Node> = Vec::new();
        let mut nodes1: Vec<Node> = Vec::new();
        let mut i: usize = 0;
        proof {
            assert(self.nodes@.take(0).filter(mp0) =~= Seq::<Node>::empty());
            assert(self.nodes@.take(0).filter(mp1) =~= Seq::<Node>::empty());
        }
        while i < self.nodes.len()
            invariant
                0 <= i <= self.nodes@.len(),
                self.wf(),
                self.prefix.len < 64,
                prefix0 == self.prefix.spec_extend(0),
                prefix1 == self.prefix.spec_extend(1),
                prefix0.wf(),
                prefix1.wf(),
                mp0 == match_pred(prefix0),
                mp1 == match_pred(prefix1),
                nodes0@ == self.nodes@.take(i as int).filter(mp0),
                nodes1@ == self.nodes@.take(i as int).filter(mp1),
            decreases self.nodes@.len() - i,
        {
            proof {
                lemma_filter_take_step(self.nodes@, mp0, i as int);
                lemma_filter_take_step(self.nodes@, mp1, i as int);
                crate::prefix::lemma_split_cover(self.prefix, self.nodes@[i as int].name);
            }
            if prefix0.matches(self.nodes[i].name) {
                nodes0.push(self.nodes[i]);
            } else {
                nodes1.push(self.nodes[i]);
            }
            i += 1;
        }
        let ghost msp = msg_pred(prefix0);
        let ghost msn = msg_negpred(prefix0);
        let mut msgs0: Vec<Message> = Vec::new();
        let mut msgs1: Vec<Message> = Vec::new();
        let mut j: usize = 0;
        proof {
            assert(self.messages@.take(0).filter(msp) =~= Seq::<Message>::empty());
            assert(self.messages@.take(0).filter(msn) =~= Seq::<Message>::empty());
        }
        while j < self.messages.len()
            invariant
                0 <= j <= self.messages@.len(),
                self.wf(),
                prefix0.wf(),
                msp == msg_pred(prefix0),
                msn == msg_negpred(prefix0),
                msgs0@ == self.messages@.take(j as int).filter(msp),
                msgs1@ == self.messages@.take(j as int).filter(msn),
            decreases self.messages@.len() - j,
        {
            proof {
                lemma_filter_take_step(self.messages@, msp, j as int);
                lemma_filter_take_step(self.messages@, msn, j as int);
            }
            let m = self.messages[j];
            if prefix0.matches(m.target()) {
                msgs0.push(m);
            } else {
                msgs1.push(m);
            }
            j += 1;
        }
        let ghost kp = key_pred(prefix0);
        let ghost kn = key_negpred(prefix0);
        let mut out0: Vec<(Name, Name)> = Vec::new();
        let mut out1: Vec<(Name, Name)> = Vec::new();
        let mut a: usize = 0;
        proof {
            assert(self.outgoing_relocations.entries@.take(0).filter(kp) =~= Seq::<
                (Name, Name),
            >::empty());
            assert(self.outgoing_relocations.entries@.take(0).filter(kn) =~= Seq::<
                (Name, Name),
            >::empty());
        }
        while a < self.outgoing_relocations.entries.len()
            invariant
                0 <= a <= self.outgoing_relocations.entries@.len(),
                self.wf(),
                prefix0.wf(),
                kp == key_pred(prefix0),
                kn == key_negpred(prefix0),
                out0@ == self.outgoing_relocations.entries@.take(a as int).filter(kp),
                out1@ == self.outgoing_relocations.entries@.take(a as int).filter(kn),
            decreases self.outgoing_relocations.entries@.len() - a,
        {
            proof {
                lemma_filter_take_step(self.outgoing_relocations.entries@, kp, a as int);
                lemma_filter_take_step(self.outgoing_relocations.entries@, kn, a as int);
            }
            let e = self.outgoing_relocations.entries[a];
            if prefix0.matches(e.0) {
                out0.push(e);
            } else {
                out1.push(e);
            }
            a += 1;
        }
        let ghost vp = val_pred(prefix0);
        let ghost vn = val_negpred(prefix0);
        let mut inc0: Vec<(Name, Name)> = Vec::new();
        let mut inc1: Vec<(Name, Name)> = Vec::new();
        let mut b: usize = 0;
        proof {
            assert(self.incoming_relocations.entries@.take(0).filter(vp) =~= Seq::<
                (Name, Name),
            >::empty());
            assert(self.incoming_relocations.entries@.take(0).filter(vn) =~= Seq::<
                (Name, Name),
            >::empty());
        }
        while b < self.incoming_relocations.entries.len()
            invariant
                0 <= b <= self.incoming_relocations.entries@.len(),
                self.wf(),
                prefix0.wf(),
                vp == val_pred(prefix0),
                vn == val_negpred(prefix0),
                inc0@ == self.incoming_relocations.entries@.take(b as int).filter(vp),
                inc1@ == self.incoming_relocations.entries@.take(b as int).filter(vn),
            decreases self.incoming_relocations.entries@.len() - b,
        {
            proof {
                lemma_filter_take_step(self.incoming_relocations.entries@, vp, b as int);
                lemma_filter_take_step(self.incoming_relocations.entries@, vn, b as int);
            }
            let e = self.incoming_relocations.entries[b];
            if prefix0.matches(e.1) {
                inc0.push(e);
            } else {
                inc1.push(e);
            }
            b += 1;
        }
        proof {
            assert(self.nodes@.take(self.nodes@.len() as int) =~= self.nodes@);
            assert(self.messages@.take(self.messages@.len() as int) =~= self.messages@);
            assert(self.outgoing_relocations.entries@.take(
                self.outgoing_relocations.entries@.len() as int,
            ) =~= self.outgoing_relocations.entries@);
            assert(self.incoming_relocations.entries@.take(
                self.incoming_relocations.entries@.len() as int,
            ) =~= self.incoming_relocations.entries@);
            lemma_filter_sorted(self.nodes@, mp0);
            lemma_filter_sorted(self.nodes@, mp1);
            lemma_filter_unique_keys(self.outgoing_relocations.entries@, kp);
            lemma_filter_unique_keys(self.outgoing_relocations.entries@, kn);
            lemma_filter_unique_keys(self.incoming_relocations.entries@, vp);
            lemma_filter_unique_keys(self.incoming_relocations.entries@, vn);
        }
        let mut section0 = Section {
            prefix: prefix0,
            nodes: nodes0,
            chain: self.chain,
            messages: msgs0,
            incoming_relocations: NameCache { entries: inc0 },
            outgoing_relocations: NameCache { entries: out0 },
            recent_join: false,
            recent_drop: false,
        };
        let mut section1 = Section {
            prefix: prefix1,
            nodes: nodes1,
            chain: self.chain,
            messages: msgs1,
            incoming_relocations: NameCache { entries: inc1 },
            outgoing_relocations: NameCache { entries: out1 },
            recent_join: false,
            recent_drop: false,
        };
        section0.update_elders(params);
        section1.update_elders(params);
        (section0, section1)
    }

    /// Absorbs a section from under this section's prefix: members,
    /// messages and caches are taken over (the absorbed section winning a
    /// name clash), the chain keeps the newer `Live` block, and the elders
    /// are recomputed.
    #[verifier::rlimit(50)]
    pub fn merge(&mut self, params: &Params, other: Section)
        requires
            old(self).wf(),
            other.wf(),
            params.wf(),
            old(self).prefix.spec_is_ancestor(other.prefix),
        ensures
            merge_outcome(*old(self), *params, other, *final(self)),
    {
        self.chain.extend(other.chain);
        let mut i: usize = 0;
        proof {
            assert(other.nodes@.take(0).len() == 0);
            assert(cores(other.nodes@.take(0)) =~= Multiset::<(u64, u64)>::empty()) by {
                assert(other.nodes@.take(0).map_values(|n: Node| core_of(n)) =~= Seq::<
                    (u64, u64),
                >::empty());
            }
        }
        while i < other.nodes.len()
            invariant
                0 <= i <= other.nodes@.len(),
                old(self).wf(),
                other.wf(),
                params.wf(),
                old(self).prefix.spec_is_ancestor(other.prefix),
                self.wf(),
                self.prefix == old(self).prefix,
                forall|q: Name|
                    contains_name(self.nodes@, q) <==> (contains_name(old(self).nodes@, q)
                        || contains_name(other.nodes@.take(i as int), q)),
                forall|q: Name|
                    contains_name(other.nodes@.take(i as int), q) ==> node_of(self.nodes@, q)
                        == node_of(other.nodes@, q),
                forall|q: Name|
                    !contains_name(other.nodes@.take(i as int), q) && contains_name(
                        old(self).nodes@,
                        q,
                    ) ==> node_of(self.nodes@, q) == node_of(old(self).nodes@, q),
                (forall|q: Name|
                    !(contains_name(old(self).nodes@, q) && contains_name(other.nodes@, q)))
                    ==> cores(self.nodes@) == cores(old(self).nodes@).add(
                    cores(other.nodes@.take(i as int)),
                ),
                self.chain == crate::chain::chain_extend(old(self).chain, other.chain),
                *self == (Section {
                    nodes: self.nodes,
                    chain: self.chain,
                    ..*old(self)
                }),
            decreases other.nodes@.len() - i,
        {
            let node = other.nodes[i];
            proof {
                lemma_node_at(other.nodes@, i as int);
                crate::prefix::lemma_ancestor_matches(
                    old(self).prefix,
                    other.prefix,
                    node.name,
                );
                assert(other.nodes@.take(i + 1).drop_last() =~= other.nodes@.take(i as int));
                lemma_cores_take_step(other.nodes@, i as int);
                assert forall|q: Name|
                    contains_name(other.nodes@.take(i + 1), q) implies (contains_name(
                    other.nodes@.take(i as int),
                    q,
                ) || q == node.name) by {
                    let j = choose|j: int|
                        0 <= j < other.nodes@.take(i + 1).len() && (#[trigger] other.nodes@.take(
                            i + 1,
                        )[j]).name == q;
                    if j < i {
                        assert(other.nodes@.take(i as int)[j].name == q);
                    }
                }
                assert forall|q: Name|
                    q != node.name && contains_name(other.nodes@.take(i as int), q) implies
                    contains_name(other.nodes@.take(i + 1), q) by {
                    let j = choose|j: int|
                        0 <= j < other.nodes@.take(i as int).len() && (
                        #[trigger] other.nodes@.take(i as int)[j]).name == q;
                    assert(other.nodes@.take(i + 1)[j].name == q);
                }
                assert(!contains_name(other.nodes@.take(i as int), node.name)) by {
                    if contains_name(other.nodes@.take(i as int), node.name) {
                        let j = choose|j: int|
                            0 <= j < other.nodes@.take(i as int).len() && (
                            #[trigger] other.nodes@.take(i as int)[j]).name == node.name;
                        assert(other.nodes@[j].name.0 < other.nodes@[i as int].name.0);
                    }
                }
            }
            let ghost before = *self;
            self.join_node(node);
            proof {
                assert(contains_name(other.nodes@.take(i + 1), node.name)) by {
                    assert(other.nodes@.take(i + 1)[i as int].name == node.name);
                }
                assert forall|q: Name|
                    contains_name(self.nodes@, q) implies (contains_name(old(self).nodes@, q)
                    || contains_name(other.nodes@.take(i + 1), q)) by {
                    if q != node.name {
                        assert(contains_name(before.nodes@, q));
                        if !contains_name(old(self).nodes@, q) {
                            assert(contains_name(other.nodes@.take(i as int), q));
                        }
                    }
                }
                assert forall|q: Name|
                    contains_name(old(self).nodes@, q) || contains_name(
                        other.nodes@.take(i + 1),
                        q,
                    ) implies contains_name(self.nodes@, q) by {
                    if q != node.name {
                        assert(contains_name(old(self).nodes@, q) || contains_name(
                            other.nodes@.take(i as int),
                            q,
                        ));
                        assert(contains_name(before.nodes@, q));
                    }
                }
                assert forall|q: Name|
                    contains_name(other.nodes@.take(i + 1), q) implies node_of(self.nodes@, q)
                    == node_of(other.nodes@, q) by {
                    if q != node.name {
                        assert(contains_name(other.nodes@.take(i as int), q));
                        assert(contains_name(before.nodes@, q));
                        assert(node_of(self.nodes@, q) == node_of(before.nodes@, q));
                    }
                }
                assert forall|q: Name|
                    !contains_name(other.nodes@.take(i + 1), q) && contains_name(
                        old(self).nodes@,
                        q,
                    ) implies node_of(self.nodes@, q) == node_of(old(self).nodes@, q) by {
                    assert(q != node.name);
                    assert(!contains_name(other.nodes@.take(i as int), q));
                    assert(contains_name(before.nodes@, q));
                    assert(node_of(self.nodes@, q) == node_of(before.nodes@, q));
                }
            }
            i += 1;
        }
        proof {
            assert(other.nodes@.take(other.nodes@.len() as int) =~= other.nodes@);
        }
        let ghost s1 = *self;
        let mut other_msgs = other.messages;
        self.messages.append(&mut other_msgs);
        let ghost s2 = *self;
        let mut a: usize = 0;
        let other_out = other.outgoing_relocations;
        while a < other_out.entries.len()
            invariant
                0 <= a <= other_out.entries@.len(),
                s2.wf(),
                other_out.wf(),
                self.wf(),
                forall|j: int|
                    0 <= j < a ==> self.outgoing_relocations.contains_key(
                        (#[trigger] other_out.entries@[j]).0,
                    ) && self.outgoing_relocations.at(other_out.entries@[j].0)
                        == other_out.entries@[j].1,
                forall|k: Name|
                    #[trigger] self.outgoing_relocations.contains_key(k) ==> (
                    s2.outgoing_relocations.contains_key(k) || other_out.contains_key(k)),
                forall|k: Name|
                    #[trigger] s2.outgoing_relocations.contains_key(k)
                        ==> self.outgoing_relocations.contains_key(k),
                forall|k: Name|
                    !other_out.contains_key(k) && #[trigger] s2.outgoing_relocations.contains_key(
                        k,
                    ) ==> self.outgoing_relocations.at(k) == s2.outgoing_relocations.at(k),
                *self == (Section { outgoing_relocations: self.outgoing_relocations, ..s2 }),
            decreases other_out.entries@.len() - a,
        {
            let e = other_out.entries[a];
            proof {
                assert(other_out.entries@[a as int].0 == e.0);
                lemma_cache_at(other_out, a as int);
            }
            self.outgoing_relocations.insert(e.0, e.1);
            a += 1;
        }
        proof {
            assert forall|k: Name|
                other_out.contains_key(k) implies self.outgoing_relocations.contains_key(k) by {
                let j = choose|j: int|
                    0 <= j < other_out.entries@.len() && (#[trigger] other_out.entries@[j]).0 == k;
                assert(self.outgoing_relocations.contains_key(other_out.entries@[j].0));
            }
        }
        let ghost s3 = *self;
        let mut b: usize = 0;
        let other_inc = other.incoming_relocations;
        while b < other_inc.entries.len()
            invariant
                0 <= b <= other_inc.entries@.len(),
                s3.wf(),
                other_inc.wf(),
                self.wf(),
                forall|j: int|
                    0 <= j < b ==> self.incoming_relocations.contains_key(
                        (#[trigger] other_inc.entries@[j]).0,
                    ) && self.incoming_relocations.at(other_inc.entries@[j].0)
                        == other_inc.entries@[j].1,
                forall|k: Name|
                    #[trigger] self.incoming_relocations.contains_key(k) ==> (
                    s3.incoming_relocations.contains_key(k) || other_inc.contains_key(k)),
                forall|k: Name|
                    #[trigger] s3.incoming_relocations.contains_key(k)
                        ==> self.incoming_relocations.contains_key(k),
                forall|k: Name|
                    !other_inc.contains_key(k) && #[trigger] s3.incoming_relocations.contains_key(
                        k,
                    ) ==> self.incoming_relocations.at(k) == s3.incoming_relocations.at(k),
                *self == (Section { incoming_relocations: self.incoming_relocations, ..s3 }),
            decreases other_inc.entries@.len() - b,
        {
            let e = other_inc.entries[b];
            proof {
                assert(other_inc.entries@[b as int].0 == e.0);
                lemma_cache_at(other_inc, b as int);
            }
            self.incoming_relocations.insert(e.0, e.1);
            b += 1;
        }
        proof {
            assert forall|k: Name|
                other_inc.contains_key(k) implies self.incoming_relocations.contains_key(k) by {
                let j = choose|j: int|
                    0 <= j < other_inc.entries@.len() && (#[trigger] other_inc.entries@[j]).0 == k;
                assert(self.incoming_relocations.contains_key(other_inc.entries@[j].0));
            }
        }
        let ghost s4 = *self;
        self.update_elders(params);
        proof {
            lemma_refreshed_names(s4.nodes@, *params);
            lemma_cores_congruent(self.nodes@, s4.nodes@);
            lemma_count_adults_congruent(self.nodes@, s4.nodes@, *params);
            assert(s4.nodes == s1.nodes);
            assert(other.nodes@.take(other.nodes@.len() as int) =~= other.nodes@);
            assert forall|q: Name|
                contains_name(self.nodes@, q) <==> (contains_name(old(self).nodes@, q)
                    || contains_name(other.nodes@, q)) by {
                assert(contains_name(self.nodes@, q) <==> contains_name(s4.nodes@, q));
                assert(contains_name(s1.nodes@, q) <==> (contains_name(old(self).nodes@, q)
                    || contains_name(other.nodes@.take(other.nodes@.len() as int), q)));
            }
            assert forall|q: Name|
                contains_name(other.nodes@, q) implies node_of(self.nodes@, q).age == node_of(
                other.nodes@,
                q,
            ).age by {
                assert(contains_name(s4.nodes@, q));
                assert(node_of(s4.nodes@, q) == node_of(other.nodes@, q));
                assert(node_of(self.nodes@, q).age == node_of(s4.nodes@, q).age);
            }
            assert forall|q: Name|
                !contains_name(other.nodes@, q) && contains_name(
                    old(self).nodes@,
                    q,
                ) implies node_of(self.nodes@, q).age == node_of(old(self).nodes@, q).age by {
                assert(contains_name(s4.nodes@, q));
                assert(node_of(s4.nodes@, q) == node_of(old(self).nodes@, q));
                assert(node_of(self.nodes@, q).age == node_of(s4.nodes@, q).age);
            }
            assert(s4.chain == crate::chain::chain_extend(old(self).chain, other.chain));
            assert(nodes_sorted(s4.nodes@));
            assert(self.nodes@ == refreshed(s4.nodes@, *params));
            assert forall|k: Name|
                other.outgoing_relocations.contains_key(k) implies
                self.outgoing_relocations.at(k) == other.outgoing_relocations.at(k) by {
                let j = choose|j: int|
                    0 <= j < other_out.entries@.len() && (#[trigger] other_out.entries@[j]).0 == k;
                lemma_cache_at(other_out, j);
            }
            assert forall|k: Name|
                other.incoming_relocations.contains_key(k) implies
                self.incoming_relocations.at(k) == other.incoming_relocations.at(k) by {
                let j = choose|j: int|
                    0 <= j < other_inc.entries@.len() && (#[trigger] other_inc.entries@[j]).0 == k;
                lemma_cache_at(other_inc, j);
            }
        }
    }

    /// Handles the cancellation of a relocation into this section.
    pub fn handle_relocate_cancel(&mut self, node_name: Name)
        requires
            old(self).wf(),
        ensures
            final(self).wf(),
            cancel_outcome(*old(self), node_name, *final(self)),
    {
        self.incoming_relocations.remove(node_name);
    }

    /// Decides a split: the section splits only when both children would
    /// keep at least `2 * group_size - quorum` adults, and a prefix of the
    /// maximum length cannot be extended.
    fn try_split(&self, params: &Params) -> (r: Option<Action>)
        requires
            self.wf(),
            params.wf(),
        ensures
            r == if split_decision(*self, *params) {
                Some(Action::Split(self.prefix))
            } else {
                None::<Action>
            },
    {
        if self.prefix.len() >= 64 {
            return None;
        }
        let (prefix0, prefix1) = self.prefix.split();
        let num_adults0 = count_matching_adults(params, prefix0, &self.nodes);
        let num_adults1 = count_matching_adults(params, prefix1, &self.nodes);
        let limit = 2 * params.group_size - params.quorum();
        if num_adults0 >= limit && num_adults1 >= limit {
            Some(Action::Split(self.prefix))
        } else {
            None
        }
    }

    /// Decides a merge: a non-root section with fewer than `group_size`
    /// adults asks the network to merge everything under its parent prefix.
    fn try_merge(&self, params: &Params) -> (r: Option<Action>)
        requires
            self.wf(),
            params.wf(),
        ensures
            r == if merge_decision(*self, *params) {
                Some(Action::Merge(self.prefix.spec_shorten()))
            } else {
                None::<Action>
            },
    {
        if self.prefix.len() == 0 {
            return None;
        }
        if count_adults(params, &self.nodes) >= params.group_size {
            return None;
        }
        Some(Action::Merge(self.prefix.shorten()))
    }
}

/// One step of a filtering loop: the filter of one more element either
/// appends that element or not.
proof fn lemma_filter_take_step<T>(s: Seq<T>, p: spec_fn(T) -> bool, i: int)
    requires
        0 <= i < s.len(),
    ensures
        s.take(i + 1).filter(p) == if p(s[i]) {
            s.take(i).filter(p).push(s[i])
        } else {
            s.take(i).filter(p)
        },
{
    reveal(Seq::filter);
    assert(s.take(i + 1).drop_last() =~= s.take(i));
    assert(s.take(i + 1).last() == s[i]);
}

/// How many members carry the elder flag.
pub open spec fn count_elders_spec(s: Seq<Node>) -> nat
    decreases s.len(),
{
    if s.len() == 0 {
        0
    } else {
        count_elders_spec(s.drop_last()) + if s.last().elder {
            1nat
        } else {
            0nat
        }
    }
}

/// Of two distinct adults, the one preceding in the ranking has the
/// strictly smaller rank.
proof fn lemma_rank_strict(s: Seq<Node>, params: Params, i: int, j: int)
    requires
        0 <= i < s.len(),
        0 <= j < s.len(),
        s[i].spec_is_adult(params),
        s[j].spec_is_adult(params),
        core_precedes(core_of(s[i]), core_of(s[j])),
    ensures
        elder_rank(s, params, s[i]) < elder_rank(s, params, s[j]),
{
    let ci = core_of(s[i]);
    let fi = cores(s).filter(rank_pred(params, s[i]));
    let fj = cores(s).filter(rank_pred(params, s[j]));
    assert(s.map_values(|n: Node| core_of(n))[i] == ci);
    assert(s.map_values(|n: Node| core_of(n)).contains(ci));
    assert(cores(s).count(ci) > 0);
    assert(rank_pred(params, s[j])(ci));
    assert(!rank_pred(params, s[i])(ci));
    assert(fj.count(ci) == cores(s).count(ci));
    assert(fi.count(ci) == 0);
    let d = fj.sub(fi);
    assert forall|c: (u64, u64)| true implies fi.count(c) <= #[trigger] fj.count(c) by {
        if rank_pred(params, s[i])(c) {
            assert(core_precedes(c, core_of(s[i])));
            assert(core_precedes(c, core_of(s[j])));
            assert(rank_pred(params, s[j])(c));
        }
    }
    assert(fj =~= fi.add(d));
    assert(fj.len() == fi.len() + d.len());
    assert(d.count(ci) > 0);
    assert(d.len() >= d.count(ci));
}

/// Elder discipline: when every elder flag agrees with the ranking, every
/// elder is an adult and there are at most `group_size` elders — the elder
/// set is exactly the `group_size` oldest adults, ties broken by name.
pub proof fn lemma_elder_discipline(s: Seq<Node>, params: Params)
    requires
        nodes_sorted(s),
        forall|i: int|
            0 <= i < s.len() ==> (#[trigger] s[i]).elder == is_elder_spec(s, params, s[i]),
    ensures
        forall|i: int|
            0 <= i < s.len() && (#[trigger] s[i]).elder ==> s[i].spec_is_adult(params),
        count_elders_spec(s) <= params.group_size,
{
    let e = Set::new(|i: int| 0 <= i < s.len() && s[i].elder);
    let rk = |i: int| elder_rank(s, params, s[i]) as int;
    let f = e.map(rk);
    let range = vstd::set_lib::set_int_range(0, params.group_size as int);
    vstd::set_lib::lemma_int_range(0, params.group_size as int);
    lemma_count_elders_is_set_len(s);
    assert(e.finite() && e.len() == count_elders_spec(s)) by {
        assert(e =~= elder_index_set(s));
    }
    assert(vstd::relations::injective_on(rk, e)) by {
        assert forall|i: int, j: int|
            e.contains(i) && e.contains(j) && #[trigger] rk(i) == #[trigger] rk(j) implies i
            == j by {
            if i != j {
                assert(s[i].name.0 != s[j].name.0);
                assert(core_of(s[i]) != core_of(s[j]));
                if core_precedes(core_of(s[i]), core_of(s[j])) {
                    lemma_rank_strict(s, params, i, j);
                } else {
                    assert(core_precedes(core_of(s[j]), core_of(s[i])));
                    lemma_rank_strict(s, params, j, i);
                }
            }
        }
    }
    vstd::set_lib::lemma_map_size(e, f, rk);
    assert(f.subset_of(range)) by {
        assert forall|x: int| f.contains(x) implies range.contains(x) by {
            let i = choose|i: int| e.contains(i) && rk(i) == x;
            assert(s[i].elder);
            assert(is_elder_spec(s, params, s[i]));
        }
    }
    vstd::set_lib::lemma_len_subset(f, range);
}

/// The set of positions carrying the elder flag.
pub open spec fn elder_index_set(s: Seq<Node>) -> Set<int> {
    Set::new(|i: int| 0 <= i < s.len() && s[i].elder)
}

/// The elder count equals the size of the set of elder positions.
proof fn lemma_count_elders_is_set_len(s: Seq<Node>)
    ensures
        elder_index_set(s).finite(),
        elder_index_set(s).len() == count_elders_spec(s),
    decreases s.len(),
{
    let e = elder_index_set(s);
    if s.len() == 0 {
        assert(e =~= Set::<int>::empty());
    } else {
        lemma_count_elders_is_set_len(s.drop_last());
        let ed = elder_index_set(s.drop_last());
        if s.last().elder {
            assert(e =~= ed.insert(s.len() - 1));
            assert(!ed.contains(s.len() - 1));
        } else {
            assert(e =~= ed);
        }
    }
}

/// Every structural action a section emits names the section itself: a
/// split carries its own prefix and a merge carries its parent prefix.
pub open spec fn action_scoped(a: Action, prefix: Prefix) -> bool {
    &&& (a matches Action::Split(p) ==> p == prefix)
    &&& (a matches Action::Merge(p) ==> p == prefix.spec_shorten())
}

/// The actions of a random drop are scoped to the section: a possible
/// cancellation, a merge request under the parent prefix, and a possible
/// relocation request.
proof fn lemma_dead_actions_scoped(pre: Section, params: Params, post: Section, r: Seq<Action>)
    requires
        r.len() == 0 || (exists|nm: Name|
            #[trigger] dead_outcome(Section { recent_drop: true, ..pre }, params, nm, post, r)),
    ensures
        forall|x: int| 0 <= x < r.len() ==> action_scoped(#[trigger] r[x], pre.prefix),
{
    if r.len() > 0 {
        let mid = Section { recent_drop: true, ..pre };
        let nm = choose|nm: Name| #[trigger] dead_outcome(mid, params, nm, post, r);
        assert(contains_name(mid.nodes@, nm));
        let cancels: Seq<Action> = if mid.outgoing_relocations.contains_key(nm) {
            seq![
                Action::Send(
                    Message::RelocateCancel {
                        node_name: nm,
                        target: mid.outgoing_relocations.at(nm),
                    },
                ),
            ]
        } else {
            Seq::empty()
        };
        let merges: Seq<Action> = if mid.prefix.len > 0 && count_adults_spec(post.nodes@, params)
            < params.group_size {
            seq![Action::Merge(mid.prefix.spec_shorten())]
        } else {
            Seq::empty()
        };
        assert forall|x: int| 0 <= x < r.len() implies action_scoped(#[trigger] r[x], pre.prefix) by {
            if x < cancels.len() + merges.len() {
                assert(r.take((cancels.len() + merges.len()) as int)[x] == r[x]);
                assert(r[x] == (cancels + merges)[x]);
            } else {
                assert(x == r.len() - 1);
                assert(r.last() matches Action::Send(Message::RelocateRequest { .. }));
            }
        }
    }
}

/// The members carrying the elder flag.
pub open spec fn elder_pred() -> spec_fn(Node) -> bool {
    |n: Node| n.elder
}

/// The members whose name the prefix matches.
pub open spec fn match_pred(p: Prefix) -> spec_fn(Node) -> bool {
    |n: Node| p.spec_matches(n.name)
}

/// The messages whose target the prefix matches.
pub open spec fn msg_pred(p: Prefix) -> spec_fn(Message) -> bool {
    |m: Message| p.spec_matches(crate::message::spec_target(m))
}

/// The messages whose target the prefix does not match.
pub open spec fn msg_negpred(p: Prefix) -> spec_fn(Message) -> bool {
    |m: Message| !p.spec_matches(crate::message::spec_target(m))
}

/// The cache entries whose key the prefix matches.
pub open spec fn key_pred(p: Prefix) -> spec_fn((Name, Name)) -> bool {
    |e: (Name, Name)| p.spec_matches(e.0)
}

/// The cache entries whose key the prefix does not match.
pub open spec fn key_negpred(p: Prefix) -> spec_fn((Name, Name)) -> bool {
    |e: (Name, Name)| !p.spec_matches(e.0)
}

/// The cache entries whose target value the prefix matches.
pub open spec fn val_pred(p: Prefix) -> spec_fn((Name, Name)) -> bool {
    |e: (Name, Name)| p.spec_matches(e.1)
}

/// The cache entries whose target value the prefix does not match.
pub open spec fn val_negpred(p: Prefix) -> spec_fn((Name, Name)) -> bool {
    |e: (Name, Name)| !p.spec_matches(e.1)
}

/// Filtering a strictly name-sorted membership keeps it sorted.
proof fn lemma_filter_sorted(s: Seq<Node>, p: spec_fn(Node) -> bool)
    requires
        nodes_sorted(s),
    ensures
        nodes_sorted(s.filter(p)),
    decreases s.len(),
{
    reveal(Seq::filter);
    if s.len() > 0 {
        assert(nodes_sorted(s.drop_last()));
        lemma_filter_sorted(s.drop_last(), p);
        if p(s.last()) {
            let f = s.drop_last().filter(p);
            assert forall|i: int| 0 <= i < f.len() implies f[i].name.0 < s.last().name.0 by {
                assert(f.contains(f[i]));
                lemma_filter_subset(s.drop_last(), p, f[i]);
                let j = choose|j: int| 0 <= j < s.drop_last().len() && s.drop_last()[j] == f[i];
                assert(s[j] == f[i]);
            }
        }
    }
}

/// Filtering a unique-key cache keeps its keys unique.
proof fn lemma_filter_unique_keys(s: Seq<(Name, Name)>, p: spec_fn((Name, Name)) -> bool)
    requires
        forall|i: int, j: int| 0 <= i < j < s.len() ==> (#[trigger] s[i]).0 != (#[trigger] s[j]).0,
    ensures
        forall|i: int, j: int|
            0 <= i < j < s.filter(p).len() ==> (#[trigger] s.filter(p)[i]).0 != (
            #[trigger] s.filter(p)[j]).0,
    decreases s.len(),
{
    reveal(Seq::filter);
    if s.len() > 0 {
        assert(forall|i: int, j: int|
            0 <= i < j < s.drop_last().len() ==> (#[trigger] s.drop_last()[i]).0 != (
            #[trigger] s.drop_last()[j]).0);
        lemma_filter_unique_keys(s.drop_last(), p);
        if p(s.last()) {
            let f = s.drop_last().filter(p);
            assert forall|i: int| 0 <= i < f.len() implies f[i].0 != s.last().0 by {
                assert(f.contains(f[i]));
                lemma_filter_subset(s.drop_last(), p, f[i]);
                let j = choose|j: int| 0 <= j < s.drop_last().len() && s.drop_last()[j] == f[i];
                assert(s[j] == f[i]);
            }
        }
    }
}

/// `cores` of a push.
proof fn lemma_cores_push(s: Seq<Node>, n: Node)
    ensures
        cores(s.push(n)) == cores(s).insert(core_of(n)),
{
    assert(s.push(n).map_values(|x: Node| core_of(x)) =~= s.map_values(|x: Node| core_of(x)).push(
        core_of(n),
    ));
}

/// Membership and lookup in a filtered sorted membership: a name is there
/// exactly when its node passes the filter, and it maps to the same node.
proof fn lemma_filter_node_of(s: Seq<Node>, h: spec_fn(Node) -> bool, q: Name)
    requires
        nodes_sorted(s),
    ensures
        contains_name(s.filter(h), q) <==> (contains_name(s, q) && h(node_of(s, q))),
        contains_name(s.filter(h), q) ==> node_of(s.filter(h), q) == node_of(s, q),
    decreases s.len(),
{
    reveal(Seq::filter);
    lemma_filter_sorted(s, h);
    if s.len() == 0 {
        assert(!contains_name(s, q));
        assert(!contains_name(s.filter(h), q));
    } else {
        let dl = s.drop_last();
        let last = s.last();
        assert(nodes_sorted(dl));
        lemma_filter_node_of(dl, h, q);
        lemma_filter_sorted(dl, h);
        assert(contains_name(s, q) <==> (contains_name(dl, q) || q == last.name)) by {
            if contains_name(s, q) {
                let i = choose|i: int| 0 <= i < s.len() && (#[trigger] s[i]).name == q;
                if i < s.len() - 1 {
                    assert(dl[i].name == q);
                }
            }
            if contains_name(dl, q) {
                let i = choose|i: int| 0 <= i < dl.len() && (#[trigger] dl[i]).name == q;
                assert(s[i].name == q);
            }
            assert(s[s.len() - 1].name == last.name);
        }
        if contains_name(dl, q) {
            let j = index_of_name(dl, q);
            assert(dl[j].name == q && 0 <= j < dl.len());
            lemma_node_at(dl, j);
            assert(s[j] == dl[j]);
            lemma_node_at(s, j);
        }
        if q == last.name {
            assert(!contains_name(dl, q)) by {
                if contains_name(dl, q) {
                    let i = choose|i: int| 0 <= i < dl.len() && (#[trigger] dl[i]).name == q;
                    assert(s[i].name.0 < s[s.len() - 1].name.0);
                }
            }
            lemma_node_at(s, s.len() - 1);
        }
        let fdl = dl.filter(h);
        if h(last) {
            assert(s.filter(h) == fdl.push(last));
            let fs = s.filter(h);
            assert(contains_name(fs, q) <==> (contains_name(fdl, q) || q == last.name)) by {
                if contains_name(fs, q) {
                    let i = choose|i: int| 0 <= i < fs.len() && (#[trigger] fs[i]).name == q;
                    if i < fs.len() - 1 {
                        assert(fdl[i].name == q);
                    } else {
                        assert(fs[fs.len() - 1] == last);
                    }
                }
                if contains_name(fdl, q) {
                    let i = choose|i: int| 0 <= i < fdl.len() && (#[trigger] fdl[i]).name == q;
                    assert(fs[i].name == q);
                }
                assert(fs[fs.len() - 1].name == last.name);
            }
            if contains_name(fdl, q) {
                let j = index_of_name(fdl, q);
                lemma_node_at(fdl, j);
                assert(fs[j] == fdl[j]);
                lemma_node_at(fs, j);
            }
            if q == last.name {
                lemma_node_at(fs, fs.len() - 1);
            }
        } else {
            assert(s.filter(h) == fdl);
        }
    }
}

/// A membership partitioned by two complementary conditions splits its
/// cores between the parts.
proof fn lemma_cores_partition(s: Seq<Node>, h0: spec_fn(Node) -> bool, h1: spec_fn(Node) -> bool)
    requires
        forall|i: int| 0 <= i < s.len() ==> (h0(#[trigger] s[i]) <==> !h1(s[i])),
    ensures
        cores(s.filter(h0)).add(cores(s.filter(h1))) == cores(s),
    decreases s.len(),
{
    reveal(Seq::filter);
    if s.len() == 0 {
        assert(s.map_values(|x: Node| core_of(x)) =~= Seq::<(u64, u64)>::empty());
        assert(s.filter(h0) == s);
        assert(s.filter(h1) == s);
        assert(cores(s).add(cores(s)) =~= cores(s));
    } else {
        let dl = s.drop_last();
        let last = s.last();
        lemma_cores_partition(dl, h0, h1);
        assert(dl.push(last) =~= s);
        lemma_cores_push(dl, last);
        if h0(last) {
            assert(s.filter(h0) == dl.filter(h0).push(last));
            assert(s.filter(h1) == dl.filter(h1));
            lemma_cores_push(dl.filter(h0), last);
            assert(cores(s.filter(h0)).add(cores(s.filter(h1))) =~= cores(s));
        } else {
            assert(s.filter(h1) == dl.filter(h1).push(last));
            assert(s.filter(h0) == dl.filter(h0));
            lemma_cores_push(dl.filter(h1), last);
            assert(cores(s.filter(h0)).add(cores(s.filter(h1))) =~= cores(s));
        }
    }
}

/// Two strictly sorted memberships holding the same node under every name
/// are equal.
proof fn lemma_sorted_eq(s: Seq<Node>, t: Seq<Node>)
    requires
        nodes_sorted(s),
        nodes_sorted(t),
        forall|q: Name| contains_name(s, q) <==> contains_name(t, q),
        forall|q: Name| contains_name(s, q) ==> node_of(s, q) == node_of(t, q),
    ensures
        s == t,
    decreases s.len(),
{
    if s.len() == 0 {
        assert(t.len() == 0) by {
            if t.len() > 0 {
                assert(t[0].name == t[0].name);
                assert(contains_name(t, t[0].name));
                let i = choose|i: int| 0 <= i < s.len() && (#[trigger] s[i]).name == t[0].name;
            }
        }
        assert(s =~= t);
    } else {
        assert(t.len() > 0) by {
            assert(s[0].name == s[0].name);
            assert(contains_name(s, s[0].name));
            if t.len() == 0 {
                let i = choose|i: int| 0 <= i < t.len() && (#[trigger] t[i]).name == s[0].name;
            }
        }
        assert(s[0].name == t[0].name) by {
            assert(contains_name(s, s[0].name));
            assert(contains_name(t, s[0].name));
            let j = choose|j: int| 0 <= j < t.len() && (#[trigger] t[j]).name == s[0].name;
            assert(t[0].name.0 <= t[j].name.0);
            assert(contains_name(t, t[0].name));
            assert(contains_name(s, t[0].name));
            let i = choose|i: int| 0 <= i < s.len() && (#[trigger] s[i]).name == t[0].name;
            assert(s[0].name.0 <= s[i].name.0);
        }
        assert(s[0] == t[0]) by {
            lemma_node_at(s, 0);
            lemma_node_at(t, 0);
        }
        let sd = s.drop_first();
        let td = t.drop_first();
        assert(nodes_sorted(sd));
        assert(nodes_sorted(td));
        assert forall|q: Name| contains_name(sd, q) implies contains_name(s, q) && q
            != s[0].name by {
            let i = choose|i: int| 0 <= i < sd.len() && (#[trigger] sd[i]).name == q;
            assert(s[i + 1].name == q);
            assert(s[0].name.0 < s[i + 1].name.0);
        }
        assert forall|q: Name| contains_name(s, q) && q != s[0].name implies contains_name(
            sd,
            q,
        ) by {
            let i = choose|i: int| 0 <= i < s.len() && (#[trigger] s[i]).name == q;
            assert(i != 0);
            assert(sd[i - 1].name == q);
        }
        assert forall|q: Name| contains_name(td, q) implies contains_name(t, q) && q
            != t[0].name by {
            let i = choose|i: int| 0 <= i < td.len() && (#[trigger] td[i]).name == q;
            assert(t[i + 1].name == q);
            assert(t[0].name.0 < t[i + 1].name.0);
        }
        assert forall|q: Name| contains_name(t, q) && q != t[0].name implies contains_name(
            td,
            q,
        ) by {
            let i = choose|i: int| 0 <= i < t.len() && (#[trigger] t[i]).name == q;
            assert(i != 0);
            assert(td[i - 1].name == q);
        }
        assert forall|q: Name| contains_name(sd, q) implies node_of(sd, q) == node_of(td, q) by {
            let i = choose|i: int| 0 <= i < sd.len() && (#[trigger] sd[i]).name == q;
            assert(s[i + 1].name == q);
            lemma_node_at(s, i + 1);
            lemma_node_at(sd, i);
            assert(contains_name(td, q));
            let j = choose|j: int| 0 <= j < td.len() && (#[trigger] td[j]).name == q;
            assert(t[j + 1].name == q);
            lemma_node_at(t, j + 1);
            lemma_node_at(td, j);
        }
        lemma_sorted_eq(sd, td);
        assert(s =~= t) by {
            assert forall|i: int| 0 <= i < s.len() implies s[i] == t[i] by {
                if i > 0 {
                    assert(sd[i - 1] == td[i - 1]);
                }
            }
        }
    }
}

/// Splitting a section and merging the two children into a fresh section
/// under the same prefix restores the membership exactly: the hypotheses
/// are literally `split_post` for the split and `merge_outcome` for the two
/// merges, so the law composes directly with the executable operations.
pub proof fn lemma_split_merge_roundtrip_composed(
    s: Section,
    params: Params,
    empty0: Section,
    c0: Section,
    c1: Section,
    m1: Section,
    m: Section,
)
    requires
        s.wf(),
        params.wf(),
        s.prefix.len < 64,
        s.elders_current(params),
        split_post(s, params, c0, c1),
        empty0.prefix == s.prefix,
        empty0.nodes@.len() == 0,
        merge_outcome(empty0, params, c0, m1),
        merge_outcome(m1, params, c1, m),
    ensures
        m.nodes@ == s.nodes@,
{
    let p0 = s.prefix.spec_extend(0);
    let p1 = s.prefix.spec_extend(1);
    let f0 = s.nodes@.filter(match_pred(p0));
    let f1 = s.nodes@.filter(match_pred(p1));
    let r0 = refreshed(f0, params);
    let r1 = refreshed(f1, params);
    assert(c0.nodes@ == r0 && c1.nodes@ == r1);
    // no name lives in both children
    assert forall|q: Name|
        contains_name(c0.nodes@, q) && contains_name(c1.nodes@, q) implies false by {
        let i = index_of_name(c0.nodes@, q);
        lemma_node_at(c0.nodes@, i);
        assert(c0.prefix.spec_matches(q));
        let j = index_of_name(c1.nodes@, q);
        lemma_node_at(c1.nodes@, j);
        assert(c1.prefix.spec_matches(q));
        crate::prefix::lemma_split_cover(s.prefix, q);
    }
    // membership of the merged section is the union of the children
    assert forall|q: Name|
        contains_name(m.nodes@, q) <==> (contains_name(r0, q) || contains_name(r1, q)) by {
        assert(contains_name(m.nodes@, q) <==> (contains_name(m1.nodes@, q) || contains_name(
            c1.nodes@,
            q,
        )));
        assert(!contains_name(empty0.nodes@, q)) by {
            if contains_name(empty0.nodes@, q) {
                let i = choose|i: int|
                    0 <= i < empty0.nodes@.len() && (#[trigger] empty0.nodes@[i]).name == q;
            }
        }
    }
    // ages are preserved from whichever child held the name
    assert forall|q: Name| contains_name(r0, q) implies node_of(m.nodes@, q).age == node_of(
        r0,
        q,
    ).age by {
        assert(!contains_name(c1.nodes@, q));
        assert(contains_name(m1.nodes@, q));
        assert(node_of(m.nodes@, q).age == node_of(m1.nodes@, q).age);
        assert(node_of(m1.nodes@, q).age == node_of(c0.nodes@, q).age);
    }
    assert forall|q: Name| contains_name(r1, q) implies node_of(m.nodes@, q).age == node_of(
        r1,
        q,
    ).age by {
        assert(node_of(m.nodes@, q).age == node_of(c1.nodes@, q).age);
    }
    // the cores add up
    assert(cores(empty0.nodes@) == Multiset::<(u64, u64)>::empty()) by {
        assert(empty0.nodes@.map_values(|n: Node| core_of(n)) =~= Seq::<(u64, u64)>::empty());
        assert(Seq::<(u64, u64)>::empty().to_multiset() =~= Multiset::<(u64, u64)>::empty());
    }
    assert(cores(m1.nodes@) == cores(empty0.nodes@).add(cores(c0.nodes@))) by {
        assert(forall|q: Name| !(contains_name(empty0.nodes@, q) && contains_name(c0.nodes@, q)))
            by {
            assert forall|q: Name| !contains_name(empty0.nodes@, q) by {
                if contains_name(empty0.nodes@, q) {
                    let i = choose|i: int|
                        0 <= i < empty0.nodes@.len() && (#[trigger] empty0.nodes@[i]).name == q;
                }
            }
        }
    }
    assert(cores(m.nodes@) == cores(m1.nodes@).add(cores(c1.nodes@))) by {
        assert(forall|q: Name| !(contains_name(m1.nodes@, q) && contains_name(c1.nodes@, q)));
    }
    assert(cores(m.nodes@) =~= cores(r0).add(cores(r1)));
    lemma_split_merge_roundtrip(s, params, m);
}

/// Splitting a section and immediately merging the two children back
/// restores an equivalent section: the same members with identical elder
/// flags.  The hypotheses on `m` are what merging the two children of `s`
/// into a fresh section under the parent prefix guarantees.
pub proof fn lemma_split_merge_roundtrip(s: Section, params: Params, m: Section)
    requires
        s.wf(),
        params.wf(),
        s.prefix.len < 64,
        s.elders_current(params),
        m.wf(),
        m.elders_current(params),
        ({
            let c0 = refreshed(s.nodes@.filter(match_pred(s.prefix.spec_extend(0))), params);
            let c1 = refreshed(s.nodes@.filter(match_pred(s.prefix.spec_extend(1))), params);
            &&& (forall|q: Name|
                contains_name(m.nodes@, q) <==> (contains_name(c0, q) || contains_name(c1, q)))
            &&& (forall|q: Name|
                contains_name(c0, q) ==> node_of(m.nodes@, q).age == node_of(c0, q).age)
            &&& (forall|q: Name|
                contains_name(c1, q) ==> node_of(m.nodes@, q).age == node_of(c1, q).age)
            &&& cores(m.nodes@) == cores(c0).add(cores(c1))
        }),
    ensures
        m.nodes@ == s.nodes@,
{
    let p0 = s.prefix.spec_extend(0);
    let p1 = s.prefix.spec_extend(1);
    let h0 = match_pred(p0);
    let h1 = match_pred(p1);
    let f0 = s.nodes@.filter(h0);
    let f1 = s.nodes@.filter(h1);
    let c0 = refreshed(f0, params);
    let c1 = refreshed(f1, params);
    lemma_filter_sorted(s.nodes@, h0);
    lemma_filter_sorted(s.nodes@, h1);
    lemma_refreshed_names(f0, params);
    lemma_refreshed_names(f1, params);
    assert forall|i: int| 0 <= i < s.nodes@.len() implies (h0(#[trigger] s.nodes@[i]) <==> !h1(
        s.nodes@[i],
    )) by {
        crate::prefix::lemma_split_cover(s.prefix, s.nodes@[i].name);
    }
    lemma_cores_partition(s.nodes@, h0, h1);
    assert(cores(c0) == cores(f0)) by {
        lemma_cores_congruent(c0, f0);
    }
    assert(cores(c1) == cores(f1)) by {
        lemma_cores_congruent(c1, f1);
    }
    assert(cores(m.nodes@) == cores(s.nodes@));
    assert forall|q: Name| contains_name(m.nodes@, q) implies contains_name(s.nodes@, q) by {
        lemma_filter_node_of(s.nodes@, h0, q);
        lemma_filter_node_of(s.nodes@, h1, q);
    }
    assert forall|q: Name| contains_name(s.nodes@, q) implies contains_name(m.nodes@, q) by {
        crate::prefix::lemma_split_cover(s.prefix, q);
        let i = index_of_name(s.nodes@, q);
        lemma_node_at(s.nodes@, i);
        assert(node_of(s.nodes@, q).name == q);
        lemma_filter_node_of(s.nodes@, h0, q);
        lemma_filter_node_of(s.nodes@, h1, q);
    }
    assert forall|q: Name| contains_name(s.nodes@, q) implies node_of(m.nodes@, q) == node_of(
        s.nodes@,
        q,
    ) by {
        let i = index_of_name(s.nodes@, q);
        lemma_node_at(s.nodes@, i);
        let sn = node_of(s.nodes@, q);
        assert(sn.name == q);
        crate::prefix::lemma_split_cover(s.prefix, q);
        lemma_filter_node_of(s.nodes@, h0, q);
        lemma_filter_node_of(s.nodes@, h1, q);
        let j = index_of_name(m.nodes@, q);
        lemma_node_at(m.nodes@, j);
        let mn = node_of(m.nodes@, q);
        assert(mn.name == q);
        assert(mn.age == sn.age) by {
            if h0(sn) {
                assert(contains_name(f0, q));
                assert(contains_name(c0, q));
                assert(node_of(c0, q).age == node_of(f0, q).age);
                assert(node_of(f0, q) == node_of(s.nodes@, q));
            } else {
                assert(contains_name(f1, q));
                assert(contains_name(c1, q));
                assert(node_of(c1, q).age == node_of(f1, q).age);
                assert(node_of(f1, q) == node_of(s.nodes@, q));
            }
        }
        assert(mn.elder == sn.elder) by {
            assert(mn.elder == is_elder_spec(m.nodes@, params, mn));
            assert(sn.elder == is_elder_spec(s.nodes@, params, sn));
            assert(rank_pred(params, mn) == rank_pred(params, sn)) by {
                assert(core_of(mn) == core_of(sn));
            }
            assert(elder_rank(m.nodes@, params, mn) == elder_rank(s.nodes@, params, sn));
        }
    }
    lemma_sorted_eq(m.nodes@, s.nodes@);
}

/// The relocation gate at a digest: members at most as old as the digest's
/// trailing zero count are candidates (equivalently, `h mod 2^age == 0`).
pub open spec fn candidate_pred(tz: nat) -> spec_fn(Node) -> bool {
    |n: Node| n.age <= tz
}

/// The members of the given age.
pub open spec fn age_pred(a: u64) -> spec_fn(Node) -> bool {
    |n: Node| n.age == a
}

/// The age the relocation strategy prefers among a non-empty candidate
/// list: the greatest under `OldestFirst`, the least under `YoungestFirst`.
pub open spec fn extreme_age(s: Seq<Node>, strategy: RelocationStrategy) -> u64
    decreases s.len(),
{
    if s.len() <= 1 {
        s[0].age
    } else {
        let rest = extreme_age(s.drop_last(), strategy);
        if strategy == RelocationStrategy::OldestFirst {
            if s.last().age > rest {
                s.last().age
            } else {
                rest
            }
        } else {
            if s.last().age < rest {
                s.last().age
            } else {
                rest
            }
        }
    }
}

/// The XOR of the names of all nodes in the sequence.
pub open spec fn xor_names(s: Seq<Node>) -> u64
    decreases s.len(),
{
    if s.len() == 0 {
        0
    } else {
        (xor_names(s.drop_last()) ^ s.last().name.0) as u64
    }
}

/// The node of a non-empty list whose name XOR `t` is smallest.
pub open spec fn xor_min(s: Seq<Node>, t: u64) -> Node
    decreases s.len(),
{
    if s.len() <= 1 {
        s[0]
    } else {
        let w = xor_min(s.drop_last(), t);
        if (s.last().name.0 ^ t) < (w.name.0 ^ t) {
            s.last()
        } else {
            w
        }
    }
}

/// The member the relocation rule picks at digest `h`, if any: candidates
/// pass the trailing-zero age gate, are narrowed to the strategy's extreme
/// age, and ties are broken by XOR distance to the combined tie names.
pub open spec fn chosen_spec(s: Seq<Node>, params: Params, h: Seq<u8>) -> Option<Name> {
    let cands = s.filter(candidate_pred(tz_bytes(h)));
    if cands.len() == 0 {
        None
    } else {
        let ties = cands.filter(age_pred(extreme_age(cands, params.relocation_strategy)));
        Some(xor_min(ties, xor_names(ties)).name)
    }
}

/// The extreme age of a non-empty list is the age of one of its members,
/// so the tie list at that age is never empty.
proof fn lemma_extreme_is_age(s: Seq<Node>, strategy: RelocationStrategy)
    requires
        s.len() > 0,
    ensures
        exists|i: int| 0 <= i < s.len() && (#[trigger] s[i]).age == extreme_age(s, strategy),
    decreases s.len(),
{
    if s.len() == 1 {
        assert(s[0].age == extreme_age(s, strategy));
    } else {
        lemma_extreme_is_age(s.drop_last(), strategy);
        let e = extreme_age(s, strategy);
        assert(e == s.last().age || e == extreme_age(s.drop_last(), strategy));
        if s.last().age == e {
            assert(s[s.len() - 1].age == e);
        } else {
            let i = choose|i: int|
                0 <= i < s.drop_last().len() && (#[trigger] s.drop_last()[i]).age == extreme_age(
                    s.drop_last(),
                    strategy,
                );
            assert(s[i].age == e);
        }
    }
}

/// The digest of the `k`-th relocation attempt seeded by a block: the
/// block's own digest, rehashed `k` times.
pub open spec fn nth_hash(b: Block, k: nat) -> Seq<u8>
    decreases k,
{
    if k == 0 {
        crate::chain::sha3_of(block_bytes(b))
    } else {
        crate::chain::sha3_of(nth_hash(b, (k - 1) as nat))
    }
}

/// Whether any member passes the age gate at digest `h`.
pub open spec fn has_candidate(s: Seq<Node>, h: Seq<u8>) -> bool {
    s.filter(candidate_pred(tz_bytes(h))).len() > 0
}

/// The first attempt index in `[k, max)` whose digest finds a candidate, or
/// `max` when none does.
pub open spec fn first_attempt(s: Seq<Node>, b: Block, k: nat, max: nat) -> nat
    decreases max - k,
{
    if k >= max {
        max
    } else if has_candidate(s, nth_hash(b, k)) {
        k
    } else {
        first_attempt(s, b, (k + 1) as nat, max)
    }
}

/// Whether a section may start a relocation: it is not the root, relocating
/// would not push it below `group_size` adults (which would trigger a
/// merge), and no relocation of its own is outstanding.
pub open spec fn may_relocate(s: Section, params: Params) -> bool {
    &&& s.prefix.len != 0
    &&& count_adults_spec(s.nodes@, params) > params.group_size
    &&& s.outgoing_relocations.spec_len() == 0
}

/// Everything `try_relocate` does: either nothing, when the section must
/// not relocate or every attempt came up empty, or it records the chosen
/// member under the target address read from the successful digest and
/// emits the matching request.
pub open spec fn relocate_outcome(
    pre: Section,
    params: Params,
    b: Block,
    post: Section,
    r: Option<Action>,
) -> bool {
    let max = params.max_relocation_attempts as nat;
    let k = first_attempt(pre.nodes@, b, 0, max);
    if !may_relocate(pre, params) || k == max {
        r == None::<Action> && post == pre
    } else {
        let h = nth_hash(b, k);
        let n = chosen_spec(pre.nodes@, params, h).unwrap();
        let t = Name(be_u64_of(h));
        &&& r == Some(Action::Send(Message::RelocateRequest { node_name: n, target: t }))
        &&& post.outgoing_relocations.spec_len() == 1
        &&& post.outgoing_relocations.contains_key(n)
        &&& post.outgoing_relocations.at(n) == t
        &&& contains_name(pre.nodes@, n)
        &&& post == (Section { outgoing_relocations: post.outgoing_relocations, ..pre })
    }
}

/// Every element of a filtered sequence is an element of the original.
proof fn lemma_filter_subset<T>(s: Seq<T>, p: spec_fn(T) -> bool, x: T)
    requires
        s.filter(p).contains(x),
    ensures
        s.contains(x),
    decreases s.len(),
{
    reveal(Seq::filter);
    if s.len() > 0 {
        if s.last() == x {
            assert(s[s.len() - 1] == x);
        } else {
            lemma_filter_subset(s.drop_last(), p, x);
            let i = choose|i: int| 0 <= i < s.drop_last().len() && s.drop_last()[i] == x;
            assert(s[i] == x);
        }
    }
}

/// The chosen member is a member.
proof fn lemma_chosen_is_member(s: Seq<Node>, params: Params, h: Seq<u8>)
    requires
        chosen_spec(s, params, h) is Some,
    ensures
        contains_name(s, chosen_spec(s, params, h).unwrap()),
{
    let cands = s.filter(candidate_pred(tz_bytes(h)));
    let ties = cands.filter(age_pred(extreme_age(cands, params.relocation_strategy)));
    lemma_extreme_is_age(cands, params.relocation_strategy);
    let w = choose|w: int|
        0 <= w < cands.len() && (#[trigger] cands[w]).age == extreme_age(
            cands,
            params.relocation_strategy,
        );
    assert(ties.contains(cands[w]));
    lemma_xor_min_is_member(ties, xor_names(ties));
    let n = xor_min(ties, xor_names(ties));
    assert(ties.contains(n));
    lemma_filter_subset(cands, age_pred(extreme_age(cands, params.relocation_strategy)), n);
    lemma_filter_subset(s, candidate_pred(tz_bytes(h)), n);
    let a = choose|a: int| 0 <= a < s.len() && s[a] == n;
    assert(s[a].name == n.name);
}

/// The XOR minimum of a non-empty list is one of its elements.
proof fn lemma_xor_min_is_member(s: Seq<Node>, t: u64)
    requires
        s.len() > 0,
    ensures
        s.contains(xor_min(s, t)),
    decreases s.len(),
{
    if s.len() == 1 {
        assert(s[0] == xor_min(s, t));
    } else {
        lemma_xor_min_is_member(s.drop_last(), t);
        let w = xor_min(s, t);
        if w == s.last() {
            assert(s[s.len() - 1] == w);
        } else {
            let i = choose|i: int|
                0 <= i < s.drop_last().len() && s.drop_last()[i] == xor_min(s.drop_last(), t);
            assert(s[i] == w);
        }
    }
}

/// Recomputing flags preserves every name and age, membership, sortedness
/// and lookups.
proof fn lemma_refreshed_names(s: Seq<Node>, params: Params)
    ensures
        refreshed(s, params).len() == s.len(),
        forall|i: int|
            0 <= i < s.len() ==> (#[trigger] refreshed(s, params)[i]).name == s[i].name
                && refreshed(s, params)[i].age == s[i].age,
        forall|q: Name| contains_name(refreshed(s, params), q) <==> contains_name(s, q),
        nodes_sorted(s) ==> nodes_sorted(refreshed(s, params)),
        nodes_sorted(s) ==> forall|q: Name|
            contains_name(s, q) ==> node_of(refreshed(s, params), q).age == node_of(s, q).age
                && node_of(refreshed(s, params), q).name == q,
{
    let r = refreshed(s, params);
    assert forall|q: Name| contains_name(r, q) implies contains_name(s, q) by {
        let j = choose|j: int| 0 <= j < r.len() && (#[trigger] r[j]).name == q;
        assert(s[j].name == q);
    }
    assert forall|q: Name| contains_name(s, q) implies contains_name(r, q) by {
        let j = choose|j: int| 0 <= j < s.len() && (#[trigger] s[j]).name == q;
        assert(r[j].name == q);
    }
    if nodes_sorted(s) {
        assert forall|q: Name| contains_name(s, q) implies node_of(r, q).age == node_of(s, q).age
            && node_of(r, q).name == q by {
            let j = choose|j: int| 0 <= j < s.len() && (#[trigger] s[j]).name == q;
            lemma_node_at(s, j);
            lemma_node_at(r, j);
        }
    }
}

/// Recomputing flags changes no age, so it changes no adult count.
proof fn lemma_count_adults_congruent(s: Seq<Node>, t: Seq<Node>, params: Params)
    requires
        s.len() == t.len(),
        forall|i: int| 0 <= i < s.len() ==> (#[trigger] s[i]).age == t[i].age,
    ensures
        count_adults_spec(s, params) == count_adults_spec(t, params),
    decreases s.len(),
{
    if s.len() > 0 {
        lemma_count_adults_congruent(s.drop_last(), t.drop_last(), params);
    }
}

/// The node a `Live` request admits: at the root every node starts adult
/// (the bootstrap rule), elsewhere it joins as it came.
pub open spec fn admitted_node(pre: Section, params: Params, node: Node) -> Node {
    if pre.prefix.len == 0 {
        Node { name: node.name, age: params.adult_age, elder: false }
    } else {
        node
    }
}

/// When a `Live` request is turned away: the section is not the root, the
/// node is an infant, and the infant cap is already reached.
pub open spec fn live_rejects(pre: Section, params: Params, node: Node) -> bool {
    &&& pre.prefix.len != 0
    &&& node.spec_is_infant(params)
    &&& count_infants_spec(pre.nodes@, params) >= params.max_infants_per_section
}

/// Everything handling `Live(node)` does.  Either the node is rejected and
/// nothing changes, or it joins (at adult age when the section is the
/// root), the elders are recomputed, and then exactly one of: the section
/// asks to split; an adult join seeds a relocation attempt; nothing more.
pub open spec fn live_outcome(
    pre: Section,
    params: Params,
    node: Node,
    post: Section,
    r: Option<Action>,
) -> bool {
    if live_rejects(pre, params, node) {
        r == Some(Action::Reject(node)) && post == pre
    } else {
        let adj = admitted_node(pre, params, node);
        let mid = Section { outgoing_relocations: pre.outgoing_relocations, ..post };
        &&& post.wf()
        &&& post.prefix == pre.prefix
        &&& post.messages@ == pre.messages@
        &&& post.incoming_relocations == pre.incoming_relocations
        &&& post.recent_join == pre.recent_join
        &&& post.recent_drop == pre.recent_drop
        &&& forall|q: Name|
            contains_name(post.nodes@, q) <==> (contains_name(pre.nodes@, q) || q == node.name)
        &&& node_of(post.nodes@, node.name).age == adj.age
        &&& node_of(post.nodes@, node.name).name == node.name
        &&& forall|q: Name|
            q != node.name && contains_name(pre.nodes@, q) ==> node_of(post.nodes@, q).age
                == node_of(pre.nodes@, q).age
        &&& post.nodes@.len() == pre.nodes@.len() + if contains_name(pre.nodes@, node.name) {
            0nat
        } else {
            1nat
        }
        &&& post.elders_current(params)
        &&& if split_decision(mid, params) {
            r == Some(Action::Split(pre.prefix)) && post == mid
        } else if adj.spec_is_adult(params) {
            relocate_outcome(
                mid,
                params,
                Block { event: Event::Live, name: adj.name, age: adj.age },
                post,
                r,
            )
        } else {
            r == None::<Action> && post == mid
        }
    }
}

/// Everything handling `Dead(name)` does: the node is removed, an
/// outstanding outbound relocation of it is cancelled, a merge is asked for
/// when adults became scarce, and an adult departure may seed a relocation
/// attempt from the chain's last `Live` block.
pub open spec fn dead_outcome(
    pre: Section,
    params: Params,
    name: Name,
    post: Section,
    r: Seq<Action>,
) -> bool {
    if !contains_name(pre.nodes@, name) {
        post == pre && r.len() == 0
    } else {
        let nd = node_of(pre.nodes@, name);
        let cancels: Seq<Action> = if pre.outgoing_relocations.contains_key(name) {
            seq![
                Action::Send(
                    Message::RelocateCancel {
                        node_name: name,
                        target: pre.outgoing_relocations.at(name),
                    },
                ),
            ]
        } else {
            Seq::empty()
        };
        let merges: Seq<Action> = if pre.prefix.len > 0 && count_adults_spec(post.nodes@, params)
            < params.group_size {
            seq![Action::Merge(pre.prefix.spec_shorten())]
        } else {
            Seq::empty()
        };
        &&& post.wf()
        &&& post.prefix == pre.prefix
        &&& post.messages@ == pre.messages@
        &&& post.incoming_relocations == pre.incoming_relocations
        &&& post.recent_join == pre.recent_join
        &&& post.recent_drop == pre.recent_drop
        &&& forall|q: Name|
            contains_name(post.nodes@, q) <==> (contains_name(pre.nodes@, q) && q != name)
        &&& forall|q: Name|
            q != name && contains_name(pre.nodes@, q) ==> node_of(post.nodes@, q).age == node_of(
                pre.nodes@,
                q,
            ).age
        &&& post.nodes@.len() == pre.nodes@.len() - 1
        &&& (nd.spec_is_adult(params) ==> post.elders_current(params))
        &&& cancels.len() + merges.len() <= r.len() <= cancels.len() + merges.len() + 1
        &&& r.take((cancels.len() + merges.len()) as int) == cancels + merges
        &&& (r.len() == cancels.len() + merges.len() + 1 ==> (r.last() matches Action::Send(
            Message::RelocateRequest { .. },
        )))
    }
}

/// The drop scan of a tick: walking the members in `by_age` order from
/// position `i`, each member's coin is drawn from two generator steps and
/// succeeds with probability `2^-age`; the first success names the dropped
/// member.  Returns the chosen name (if any) and the generator state after
/// the scan.
pub open spec fn drop_choice(order: Seq<Node>, rng: crate::random::Rng, i: int) -> (
    Option<Name>,
    crate::random::Rng,
)
    decreases order.len() - i,
{
    if i < 0 || i >= order.len() {
        (None, rng)
    } else {
        let draw = crate::random::combine(
            crate::random::step(rng).w,
            crate::random::step(crate::random::step(rng)).w,
        );
        let rng2 = crate::random::step(crate::random::step(rng));
        if crate::random::age_flip_spec(draw, order[i].age) {
            (Some(order[i].name), rng2)
        } else {
            drop_choice(order, rng2, i + 1)
        }
    }
}

/// Everything `handle_relocate_request` does.
pub open spec fn request_outcome(
    pre: Section,
    params: Params,
    node_name: Name,
    target: Name,
    post: Section,
    r: Action,
) -> bool {
    if pre.incoming_relocations.spec_len() != 0 || pre.nodes@.len() >= params.max_section_size {
        &&& r == Action::Send(Message::RelocateReject { node_name, target })
        &&& post == pre
    } else {
        &&& r == Action::Send(Message::RelocateAccept { node_name, target })
        &&& post.incoming_relocations.spec_len() == 1
        &&& post.incoming_relocations.contains_key(node_name)
        &&& post.incoming_relocations.at(node_name) == target
        &&& post == (Section { incoming_relocations: post.incoming_relocations, ..pre })
    }
}

/// Everything `handle_relocate_accept` does.
pub open spec fn accept_outcome(
    pre: Section,
    node_name: Name,
    target: Name,
    post: Section,
    r: Option<Action>,
) -> bool {
    if !pre.outgoing_relocations.contains_key(node_name) {
        r == None::<Action> && post == pre
    } else if !contains_name(pre.nodes@, node_name) {
        &&& r == None::<Action>
        &&& !post.outgoing_relocations.contains_key(node_name)
        &&& post.outgoing_relocations.spec_len() == pre.outgoing_relocations.spec_len() - 1
        &&& post == (Section { outgoing_relocations: post.outgoing_relocations, ..pre })
    } else {
        let nd = node_of(pre.nodes@, node_name);
        let moved = Node { name: node_name, age: crate::node::spec_inc_age(nd.age), elder: false };
        &&& r == Some(Action::Send(Message::RelocateCommit { node: moved, target }))
        &&& !post.outgoing_relocations.contains_key(node_name)
        &&& forall|q: Name|
            contains_name(post.nodes@, q) <==> (contains_name(pre.nodes@, q) && q != node_name)
        &&& forall|q: Name|
            q != node_name && contains_name(pre.nodes@, q) ==> node_of(post.nodes@, q) == node_of(
                pre.nodes@,
                q,
            )
        &&& post.chain == pre.chain
        &&& post == (Section {
            nodes: post.nodes,
            outgoing_relocations: post.outgoing_relocations,
            ..pre
        })
    }
}

/// Everything `handle_relocate_reject` does.
pub open spec fn reject_outcome(
    pre: Section,
    params: Params,
    node_name: Name,
    target: Name,
    post: Section,
    r: Option<Action>,
) -> bool {
    if !pre.outgoing_relocations.contains_key(node_name) {
        r == None::<Action> && post == pre
    } else if pre.prefix.len == 0 || count_adults_spec(pre.nodes@, params) <= params.group_size {
        &&& r == None::<Action>
        &&& !post.outgoing_relocations.contains_key(node_name)
        &&& post.outgoing_relocations.spec_len() == pre.outgoing_relocations.spec_len() - 1
        &&& post == (Section { outgoing_relocations: post.outgoing_relocations, ..pre })
    } else {
        let t2 = Name(be_u64_of(crate::chain::sha3_of(crate::chain::name_to_bytes(target.0))));
        &&& r == Some(Action::Send(Message::RelocateRequest { node_name, target: t2 }))
        &&& post.outgoing_relocations.contains_key(node_name)
        &&& post.outgoing_relocations.at(node_name) == t2
        &&& post.outgoing_relocations.spec_len() == pre.outgoing_relocations.spec_len()
        &&& post == (Section { outgoing_relocations: post.outgoing_relocations, ..pre })
    }
}

/// Everything `handle_relocate_cancel` does.
pub open spec fn cancel_outcome(pre: Section, node_name: Name, post: Section) -> bool {
    &&& forall|q: Name|
        post.incoming_relocations.contains_key(q) <==> (pre.incoming_relocations.contains_key(q)
            && q != node_name)
    &&& post == (Section { incoming_relocations: post.incoming_relocations, ..pre })
}

/// Everything `handle_relocate_commit` does.
pub open spec fn commit_outcome(
    pre: Section,
    params: Params,
    rng0: Rng,
    node: Node,
    post: Section,
    rng1: Rng,
    r: Option<Action>,
) -> bool {
    if !pre.incoming_relocations.contains_key(node.name) {
        r == None::<Action> && post == pre && rng1 == rng0
    } else {
        let name2 = commit_prefix(pre, params).spec_substituted_in(
            Name(
                crate::random::combine(
                    crate::random::step(rng0).w,
                    crate::random::step(crate::random::step(rng0)).w,
                ),
            ),
        );
        let mid = Section { incoming_relocations: post.incoming_relocations, ..pre };
        &&& rng1 == crate::random::step(crate::random::step(rng0))
        &&& !post.incoming_relocations.contains_key(node.name)
        &&& post.incoming_relocations.spec_len() == pre.incoming_relocations.spec_len() - 1
        &&& live_outcome(mid, params, Node { name: name2, age: node.age, elder: false }, post, r)
    }
}

/// Everything `random_join` does.
pub open spec fn join_outcome(
    pre: Section,
    params: Params,
    rng0: Rng,
    post: Section,
    rng1: Rng,
    r: Option<Action>,
) -> bool {
    if pre.recent_join {
        r == None::<Action> && post == pre && rng1 == rng0
    } else {
        let name = pre.prefix.spec_substituted_in(
            Name(
                crate::random::combine(
                    crate::random::step(rng0).w,
                    crate::random::step(crate::random::step(rng0)).w,
                ),
            ),
        );
        &&& rng1 == crate::random::step(crate::random::step(rng0))
        &&& live_outcome(
            Section { recent_join: true, ..pre },
            params,
            Node { name, age: params.init_age, elder: false },
            post,
            r,
        )
    }
}

/// Everything `random_drop` does.
pub open spec fn drop_outcome(
    pre: Section,
    params: Params,
    rng0: Rng,
    post: Section,
    rng1: Rng,
    acts: Seq<Action>,
) -> bool {
    if pre.recent_drop {
        acts.len() == 0 && post == pre && rng1 == rng0
    } else {
        let mid = Section { recent_drop: true, ..pre };
        let scan = drop_choice(crate::node::by_age_spec(pre.nodes@), rng0, 0);
        &&& rng1 == scan.1
        &&& match scan.0 {
            Some(nm) => dead_outcome(mid, params, nm, post, acts),
            None => post == mid && acts.len() == 0,
        }
    }
}

/// The actions an optional action contributes: one or none.
pub open spec fn opt_acts(o: Option<Action>) -> Seq<Action> {
    match o {
        Some(a) => seq![a],
        None => Seq::empty(),
    }
}

/// Everything handling one queued message does, threading the
/// relocated-this-pass flag and the generator: requests arriving after a
/// commitment in the same pass are turned away, a commitment that admits a
/// node raises the flag, and each message contributes the actions its
/// handler returns.
pub open spec fn message_outcome(
    pre: Section,
    params: Params,
    m: Message,
    reloc0: bool,
    rng0: Rng,
    post: Section,
    reloc1: bool,
    rng1: Rng,
    acts: Seq<Action>,
) -> bool {
    match m {
        Message::RelocateRequest { node_name, target } => {
            &&& rng1 == rng0
            &&& reloc1 == reloc0
            &&& if reloc0 {
                post == pre && acts == seq![
                    Action::Send(Message::RelocateReject { node_name, target }),
                ]
            } else {
                acts.len() == 1 && request_outcome(pre, params, node_name, target, post, acts[0])
            }
        },
        Message::RelocateAccept { node_name, target } => {
            &&& rng1 == rng0
            &&& reloc1 == reloc0
            &&& exists|o: Option<Action>|
                #![trigger accept_outcome(pre, node_name, target, post, o)]
                acts == opt_acts(o) && accept_outcome(pre, node_name, target, post, o)
        },
        Message::RelocateReject { node_name, target } => {
            &&& rng1 == rng0
            &&& reloc1 == reloc0
            &&& exists|o: Option<Action>|
                #![trigger reject_outcome(pre, params, node_name, target, post, o)]
                acts == opt_acts(o) && reject_outcome(pre, params, node_name, target, post, o)
        },
        Message::RelocateCommit { node, .. } => {
            exists|o: Option<Action>|
                #![trigger commit_outcome(pre, params, rng0, node, post, rng1, o)]
                acts == opt_acts(o) && reloc1 == (reloc0 || o is Some) && commit_outcome(
                    pre,
                    params,
                    rng0,
                    node,
                    post,
                    rng1,
                    o,
                )
        },
        Message::RelocateCancel { node_name, .. } => {
            &&& rng1 == rng0
            &&& reloc1 == reloc0
            &&& acts.len() == 0
            &&& cancel_outcome(pre, node_name, post)
        },
    }
}

/// Handling a queue of messages in order: the fold of `message_outcome`,
/// peeling the last message off a handled prefix.
pub open spec fn messages_outcome(
    pre: Section,
    params: Params,
    msgs: Seq<Message>,
    reloc0: bool,
    rng0: Rng,
    post: Section,
    reloc1: bool,
    rng1: Rng,
    acts: Seq<Action>,
) -> bool
    decreases msgs.len(),
{
    if msgs.len() == 0 {
        post == pre && reloc1 == reloc0 && rng1 == rng0 && acts.len() == 0
    } else {
        exists|mid: Section, mr: bool, mg: Rng, k: int|
            #![trigger message_outcome(mid, params, msgs.last(), mr, mg, post, reloc1, rng1, acts.skip(k))]
            0 <= k <= acts.len() && messages_outcome(
                pre,
                params,
                msgs.drop_last(),
                reloc0,
                rng0,
                mid,
                mr,
                mg,
                acts.take(k),
            ) && message_outcome(mid, params, msgs.last(), mr, mg, post, reloc1, rng1, acts.skip(k))
    }
}

/// The churn phase of one protocol pass: nothing when a relocation just
/// landed; otherwise a fair coin orders one join attempt and one drop
/// attempt (only the drop when a relocation into this section is pending).
pub open spec fn churn_outcome(
    pre: Section,
    params: Params,
    reloc: bool,
    rng0: Rng,
    post: Section,
    rng1: Rng,
    acts: Seq<Action>,
) -> bool {
    if reloc {
        post == pre && rng1 == rng0 && acts.len() == 0
    } else if pre.incoming_relocations.spec_len() == 0 {
        let rngc = crate::random::step(rng0);
        let coin = rngc.w & 1 == 0;
        if coin {
            exists|mid: Section, rngj: Rng, jr: Option<Action>|
                #![trigger drop_outcome(mid, params, rngj, post, rng1, acts.skip(opt_acts(jr).len() as int))]
                acts.len() >= opt_acts(jr).len() && acts.take(opt_acts(jr).len() as int)
                    == opt_acts(jr) && join_outcome(pre, params, rngc, mid, rngj, jr)
                    && drop_outcome(
                    mid,
                    params,
                    rngj,
                    post,
                    rng1,
                    acts.skip(opt_acts(jr).len() as int),
                )
        } else {
            exists|mid: Section, rngd: Rng, jr: Option<Action>|
                #![trigger join_outcome(mid, params, rngd, post, rng1, jr)]
                acts.len() >= opt_acts(jr).len() && acts.skip(
                    (acts.len() - opt_acts(jr).len()) as int,
                ) == opt_acts(jr) && drop_outcome(
                    pre,
                    params,
                    rngc,
                    mid,
                    rngd,
                    acts.take((acts.len() - opt_acts(jr).len()) as int),
                ) && join_outcome(mid, params, rngd, post, rng1, jr)
        }
    } else {
        drop_outcome(pre, params, rng0, post, rng1, acts)
    }
}

/// Everything `Section::split` guarantees of the two children.
pub open spec fn split_post(parent: Section, params: Params, c0: Section, c1: Section) -> bool {
                let p0 = parent.prefix.spec_extend(0);
                let p1 = parent.prefix.spec_extend(1);
                let f0 = parent.nodes@.filter(match_pred(p0));
                let f1 = parent.nodes@.filter(match_pred(p1));
                &&& c0.wf() && c1.wf()
                &&& c0.prefix == p0 && c1.prefix == p1
                &&& c0.nodes@ == refreshed(f0, params)
                &&& c1.nodes@ == refreshed(f1, params)
                &&& c0.elders_current(params) && c1.elders_current(params)
                &&& c0.chain == chain_after_update(f0, params, parent.chain, f0.len() as int)
                &&& c1.chain == chain_after_update(f1, params, parent.chain, f1.len() as int)
                &&& c0.messages@ == parent.messages@.filter(msg_pred(p0))
                &&& c1.messages@ == parent.messages@.filter(msg_negpred(p0))
                &&& c0.outgoing_relocations.entries@ == parent.outgoing_relocations.entries@.filter(
                    key_pred(p0),
                )
                &&& c1.outgoing_relocations.entries@ == parent.outgoing_relocations.entries@.filter(
                    key_negpred(p0),
                )
                &&& c0.incoming_relocations.entries@ == parent.incoming_relocations.entries@.filter(
                    val_pred(p0),
                )
                &&& c1.incoming_relocations.entries@ == parent.incoming_relocations.entries@.filter(
                    val_negpred(p0),
                )
                &&& c0.recent_join == false && c0.recent_drop == false
                &&& c1.recent_join == false && c1.recent_drop == false
            }

/// Everything `Section::merge` guarantees of the absorbing section.
pub open spec fn merge_outcome(pre: Section, params: Params, other: Section, post: Section) -> bool {
    &&& (post.wf())
    &&& (post.prefix == pre.prefix)
    &&& (post.elders_current(params))
    &&& (forall|q: Name|
                    contains_name(post.nodes@, q) <==> (contains_name(pre.nodes@, q)
                        || contains_name(other.nodes@, q)))
    &&& (forall|q: Name|
                    contains_name(other.nodes@, q) ==> node_of(post.nodes@, q).age == node_of(
                        other.nodes@,
                        q,
                    ).age)
    &&& (forall|q: Name|
                    !contains_name(other.nodes@, q) && contains_name(pre.nodes@, q) ==> node_of(
                        post.nodes@,
                        q,
                    ).age == node_of(pre.nodes@, q).age)
    &&& ((forall|q: Name|
                    !(contains_name(pre.nodes@, q) && contains_name(other.nodes@, q))) ==> cores(
                    post.nodes@,
                ) == cores(pre.nodes@).add(cores(other.nodes@)))
    &&& (post.messages@ == pre.messages@ + other.messages@)
    &&& (forall|k: Name|
                    post.outgoing_relocations.contains_key(k)
                        <==> (pre.outgoing_relocations.contains_key(k)
                        || other.outgoing_relocations.contains_key(k)))
    &&& (forall|k: Name|
                    post.incoming_relocations.contains_key(k)
                        <==> (pre.incoming_relocations.contains_key(k)
                        || other.incoming_relocations.contains_key(k)))
    &&& (post.recent_join == pre.recent_join)
    &&& (post.recent_drop == pre.recent_drop)
    &&& (exists|u: Seq<Node>|
        #![trigger refreshed(u, params)]
        {
            &&& nodes_sorted(u)
            &&& post.nodes@ == refreshed(u, params)
            &&& post.chain == chain_after_update(
                u,
                params,
                crate::chain::chain_extend(pre.chain, other.chain),
                u.len() as int,
            )
        })
    &&& (forall|k: Name|
        other.outgoing_relocations.contains_key(k) ==> post.outgoing_relocations.at(k)
            == other.outgoing_relocations.at(k))
    &&& (forall|k: Name|
        !other.outgoing_relocations.contains_key(k) && pre.outgoing_relocations.contains_key(k)
            ==> post.outgoing_relocations.at(k) == pre.outgoing_relocations.at(k))
    &&& (forall|k: Name|
        other.incoming_relocations.contains_key(k) ==> post.incoming_relocations.at(k)
            == other.incoming_relocations.at(k))
    &&& (forall|k: Name|
        !other.incoming_relocations.contains_key(k) && pre.incoming_relocations.contains_key(k)
            ==> post.incoming_relocations.at(k) == pre.incoming_relocations.at(k))
}

/// The child prefix a committed relocation renames the node under: the one
/// holding fewer adults, to keep the section balanced.
pub open spec fn commit_prefix(s: Section, params: Params) -> Prefix {
    if s.prefix.len >= 64 {
        s.prefix
    } else if count_matching_adults_spec(s.nodes@, params, s.prefix.spec_extend(0))
        < count_matching_adults_spec(s.nodes@, params, s.prefix.spec_extend(1)) {
        s.prefix.spec_extend(0)
    } else {
        s.prefix.spec_extend(1)
    }
}

/// When a section splits: both children keep `2 * group_size - quorum`
/// adults.
pub open spec fn split_decision(s: Section, params: Params) -> bool {
    &&& s.prefix.len < 64
    &&& count_matching_adults_spec(s.nodes@, params, s.prefix.spec_extend(0)) >= 2
        * params.group_size - params.spec_quorum()
    &&& count_matching_adults_spec(s.nodes@, params, s.prefix.spec_extend(1)) >= 2
        * params.group_size - params.spec_quorum()
}

/// When a section asks to merge: it is not the root and adults are scarce.
pub open spec fn merge_decision(s: Section, params: Params) -> bool {
    s.prefix.len > 0 && count_adults_spec(s.nodes@, params) < params.group_size
}

} // verus!
