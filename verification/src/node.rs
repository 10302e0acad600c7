//! Nodes: the members of sections.

use vstd::prelude::*;

use crate::params::Params;
use crate::prefix::{Name, Prefix};

verus! {

broadcast use vstd::seq_lib::group_to_multiset_ensures, vstd::multiset::group_multiset_axioms;

/// A member of a section: a name, an age and an elder flag.
#[derive(Clone, Copy, PartialEq, Eq, Structural, Debug)]
pub struct Node {
    pub name: Name,
    pub age: u64,
    pub elder: bool,
}

impl Node {
    pub open spec fn spec_is_adult(self, params: Params) -> bool {
        self.age >= params.adult_age
    }

    pub open spec fn spec_is_infant(self, params: Params) -> bool {
        self.age < params.adult_age
    }

    /// Creates a node; a new node is never an elder.
    pub fn new(name: Name, age: u64) -> (r: Node)
        ensures
            r == (Node { name, age, elder: false }),
    {
        Node { name, age, elder: false }
    }

    pub fn name(&self) -> (r: Name)
        ensures
            r == self.name,
    {
        self.name
    }

    pub fn set_name(&mut self, name: Name)
        ensures
            *final(self) == (Node { name, ..*old(self) }),
    {
        self.name = name;
    }

    pub fn age(&self) -> (r: u64)
        ensures
            r == self.age,
    {
        self.age
    }

    /// Whether the node is younger than the adult age.
    pub fn is_infant(&self, params: &Params) -> (r: bool)
        ensures
            r == self.spec_is_infant(*params),
    {
        self.age < params.adult_age
    }

    /// Whether the node has reached the adult age.
    pub fn is_adult(&self, params: &Params) -> (r: bool)
        ensures
            r == self.spec_is_adult(*params),
    {
        self.age >= params.adult_age
    }

    pub fn is_elder(&self) -> (r: bool)
        ensures
            r == self.elder,
    {
        self.elder
    }

    pub fn promote(&mut self)
        ensures
            *final(self) == (Node { elder: true, ..*old(self) }),
    {
        self.elder = true;
    }

    pub fn demote(&mut self)
        ensures
            *final(self) == (Node { elder: false, ..*old(self) }),
    {
        self.elder = false;
    }

    /// Increments the age, saturating at the largest value.
    pub fn increment_age(&mut self)
        ensures
            *final(self) == (Node { age: spec_inc_age(old(self).age), ..*old(self) }),
    {
        self.age = if self.age == u64::MAX {
            u64::MAX
        } else {
            self.age + 1
        };
    }
}

/// A saturating age increment.
pub open spec fn spec_inc_age(age: u64) -> u64 {
    if age == u64::MAX {
        u64::MAX
    } else {
        (age + 1) as u64
    }
}

/// How many of the nodes are adults.
pub open spec fn count_adults_spec(s: Seq<Node>, params: Params) -> nat
    decreases s.len(),
{
    if s.len() == 0 {
        0
    } else {
        count_adults_spec(s.drop_last(), params) + if s.last().spec_is_adult(params) {
            1nat
        } else {
            0nat
        }
    }
}

/// How many of the nodes are infants.
pub open spec fn count_infants_spec(s: Seq<Node>, params: Params) -> nat
    decreases s.len(),
{
    if s.len() == 0 {
        0
    } else {
        count_infants_spec(s.drop_last(), params) + if s.last().spec_is_infant(params) {
            1nat
        } else {
            0nat
        }
    }
}

/// How many of the nodes are adults whose name matches the prefix.
pub open spec fn count_matching_adults_spec(s: Seq<Node>, params: Params, prefix: Prefix) -> nat
    decreases s.len(),
{
    if s.len() == 0 {
        0
    } else {
        count_matching_adults_spec(s.drop_last(), params, prefix) + if s.last().spec_is_adult(
            params,
        ) && prefix.spec_matches(s.last().name) {
            1nat
        } else {
            0nat
        }
    }
}

/// Returns how many of the nodes are adults.
pub fn count_adults(params: &Params, nodes: &Vec<Node>) -> (r: usize)
    ensures
        r == count_adults_spec(nodes@, *params),
{
    let mut count: usize = 0;
    let mut i: usize = 0;
    while i < nodes.len()
        invariant
            0 <= i <= nodes@.len(),
            count == count_adults_spec(nodes@.take(i as int), *params),
            count <= i,
        decreases nodes@.len() - i,
    {
        proof {
            assert(nodes@.take(i + 1).drop_last() =~= nodes@.take(i as int));
        }
        if nodes[i].age >= params.adult_age {
            count += 1;
        }
        i += 1;
    }
    proof {
        assert(nodes@.take(nodes@.len() as int) =~= nodes@);
    }
    count
}

/// Returns how many of the nodes are infants.
pub fn count_infants(params: &Params, nodes: &Vec<Node>) -> (r: usize)
    ensures
        r == count_infants_spec(nodes@, *params),
{
    let mut count: usize = 0;
    let mut i: usize = 0;
    while i < nodes.len()
        invariant
            0 <= i <= nodes@.len(),
            count == count_infants_spec(nodes@.take(i as int), *params),
            count <= i,
        decreases nodes@.len() - i,
    {
        proof {
            assert(nodes@.take(i + 1).drop_last() =~= nodes@.take(i as int));
        }
        if nodes[i].age < params.adult_age {
            count += 1;
        }
        i += 1;
    }
    proof {
        assert(nodes@.take(nodes@.len() as int) =~= nodes@);
    }
    count
}

/// Returns how many of the nodes are adults matching the prefix.
pub fn count_matching_adults(params: &Params, prefix: Prefix, nodes: &Vec<Node>) -> (r: usize)
    requires
        prefix.wf(),
    ensures
        r == count_matching_adults_spec(nodes@, *params, prefix),
{
    let mut count: usize = 0;
    let mut i: usize = 0;
    while i < nodes.len()
        invariant
            0 <= i <= nodes@.len(),
            prefix.wf(),
            count == count_matching_adults_spec(nodes@.take(i as int), *params, prefix),
            count <= i,
        decreases nodes@.len() - i,
    {
        proof {
            assert(nodes@.take(i + 1).drop_last() =~= nodes@.take(i as int));
        }
        if nodes[i].age >= params.adult_age && prefix.matches(nodes[i].name) {
            count += 1;
        }
        i += 1;
    }
    proof {
        assert(nodes@.take(nodes@.len() as int) =~= nodes@);
    }
    count
}

/// The sorting order of `by_age`: by age ascending, ties by name ascending.
pub open spec fn age_le(a: Node, b: Node) -> bool {
    a.age < b.age || (a.age == b.age && a.name.0 <= b.name.0)
}

/// The position of the first minimal node in the `by_age` order.
pub open spec fn min_age_index(s: Seq<Node>) -> int
    decreases s.len(),
{
    if s.len() <= 1 {
        0
    } else {
        let m = min_age_index(s.drop_last());
        if age_le(s[m], s.last()) {
            m
        } else {
            s.len() - 1
        }
    }
}

/// The `by_age` order itself: repeatedly take the first minimal node.
pub open spec fn by_age_spec(s: Seq<Node>) -> Seq<Node>
    decreases s.len() via by_age_spec_decreases
{
    if s.len() == 0 {
        Seq::empty()
    } else {
        let m = min_age_index(s);
        seq![s[m]] + by_age_spec(s.remove(m))
    }
}

#[via_fn]
proof fn by_age_spec_decreases(s: Seq<Node>) {
    if s.len() > 0 {
        lemma_min_age_index_in_range(s);
    }
}

/// The first minimal position is in range.
proof fn lemma_min_age_index_in_range(s: Seq<Node>)
    requires
        s.len() > 0,
    ensures
        0 <= min_age_index(s) < s.len(),
    decreases s.len(),
{
    if s.len() > 1 {
        lemma_min_age_index_in_range(s.drop_last());
    }
}

fn age_le_exec(a: &Node, b: &Node) -> (r: bool)
    ensures
        r == age_le(*a, *b),
{
    a.age < b.age || (a.age == b.age && a.name.0 <= b.name.0)
}

/// Returns the nodes sorted by age from youngest to oldest, ties broken by
/// name ascending.
pub fn by_age(nodes: &Vec<Node>) -> (r: Vec<Node>)
    ensures
        r@ == by_age_spec(nodes@),
        r@.to_multiset() == nodes@.to_multiset(),
        r@.len() == nodes@.len(),
        forall|i: int, j: int| 0 <= i <= j < r@.len() ==> age_le(r@[i], r@[j]),
{
    let mut src: Vec<Node> = Vec::new();
    let mut k: usize = 0;
    while k < nodes.len()
        invariant
            0 <= k <= nodes@.len(),
            src@ == nodes@.take(k as int),
        decreases nodes@.len() - k,
    {
        src.push(nodes[k]);
        k += 1;
    }
    proof {
        assert(nodes@.take(nodes@.len() as int) =~= nodes@);
    }
    let ghost orig = nodes@;
    let mut out: Vec<Node> = Vec::new();
    proof {
        assert(out@ + by_age_spec(src@) =~= by_age_spec(orig));
    }
    while src.len() > 0
        invariant
            out@.to_multiset().add(src@.to_multiset()) == orig.to_multiset(),
            out@.len() + src@.len() == orig.len(),
            out@ + by_age_spec(src@) == by_age_spec(orig),
            forall|i: int, j: int| 0 <= i <= j < out@.len() ==> age_le(out@[i], out@[j]),
            forall|i: int, j: int|
                0 <= i < out@.len() && 0 <= j < src@.len() ==> age_le(out@[i], src@[j]),
        decreases src@.len(),
    {
        let mut m: usize = 0;
        let mut i: usize = 1;
        proof {
            assert(src@.take(1).len() == 1);
            assert(min_age_index(src@.take(1)) == 0);
        }
        while i < src.len()
            invariant
                0 < src@.len(),
                0 <= m < src@.len(),
                1 <= i <= src@.len(),
                m == min_age_index(src@.take(i as int)),
                forall|j: int| 0 <= j < i ==> age_le(src@[m as int], src@[j]),
            decreases src@.len() - i,
        {
            proof {
                assert(src@.take(i + 1).drop_last() =~= src@.take(i as int));
                assert(src@.take(i + 1).last() == src@[i as int]);
                lemma_min_age_index_in_range(src@.take(i + 1));
                lemma_min_age_index_in_range(src@.take(i as int));
                assert(src@.take(i + 1)[min_age_index(src@.take(i as int))] == src@[min_age_index(
                    src@.take(i as int),
                )]);
            }
            if !age_le_exec(&src[m], &src[i]) {
                m = i;
            }
            i += 1;
        }
        proof {
            assert(src@.take(src@.len() as int) =~= src@);
            assert(m == min_age_index(src@));
        }
        let ghost src_before = src@;
        let ghost out_before = out@;
        let x = src.remove(m);
        out.push(x);
        proof {
            assert(by_age_spec(src_before) == seq![src_before[m as int]] + by_age_spec(
                src_before.remove(m as int),
            ));
            assert(out@ + by_age_spec(src@) =~= out_before + by_age_spec(src_before));
        }
    }
    out
}

} // verus!
