use ageing_sim::chain::{Block, Chain, Event};
use ageing_sim::message::{Action, Message};
use ageing_sim::network::Network;
use ageing_sim::node::Node;
use ageing_sim::params::Params;
use ageing_sim::prefix::{Name, Prefix};
use ageing_sim::random::{reseed, Seed};
use ageing_sim::section::{NameCache, Section};
use ageing_sim::stats::Stats;

fn prefix_from(s: &str) -> Prefix {
    let mut p: Prefix = Prefix::empty();
    for c in s.chars() {
        p = p.extend(if c == '1' { 1 } else { 0 });
    }
    p
}

/// Builds a section by joining nodes through the protocol, so that the
/// elder flags are current.
fn build_section(prefix: Prefix, members: &[(u64, u64)], params: &Params) -> Section {
    let mut section: Section = Section::new(prefix);
    for (name, age) in members.iter() {
        let n: Name = prefix.substituted_in(Name(*name));
        let outcome = section.handle_live(params, Node::new(n, *age));
        match outcome {
            Some(Action::Reject(_)) => panic!("member rejected while building"),
            _ => {}
        }
        // discard any relocation bookkeeping the joins may have started
        section.outgoing_relocations = NameCache::new();
    }
    section
}

/// The expected elder names: the `group_size` oldest adults, ties broken by
/// name ascending.
fn expected_elders(section: &Section, params: &Params) -> Vec<Name> {
    let mut adults: Vec<Node> = section
        .nodes()
        .iter()
        .filter(|n| n.age >= params.adult_age)
        .cloned()
        .collect();
    adults.sort_by(|a, b| b.age.cmp(&a.age).then(a.name.0.cmp(&b.name.0)));
    adults.truncate(params.group_size);
    adults.iter().map(|n| n.name).collect()
}

fn check_elder_discipline(section: &Section, params: &Params) {
    let expected: Vec<Name> = expected_elders(section, params);
    let actual: Vec<Name> = section
        .nodes()
        .iter()
        .filter(|n| n.elder)
        .map(|n| n.name)
        .collect();
    let mut expected_sorted: Vec<u64> = expected.iter().map(|n| n.0).collect();
    expected_sorted.sort();
    let mut actual_sorted: Vec<u64> = actual.iter().map(|n| n.0).collect();
    actual_sorted.sort();
    assert_eq!(actual_sorted, expected_sorted);
    assert!(actual.len() <= params.group_size);
    for n in section.nodes().iter() {
        if n.elder {
            assert!(n.age >= params.adult_age);
        }
    }
}

#[test]
fn elders_are_the_oldest_adults() {
    let params: Params = Params::default();
    let members: [(u64, u64); 12] = [
        (0x0100, 9),
        (0x0200, 9),
        (0x0300, 8),
        (0x0400, 8),
        (0x0500, 7),
        (0x0600, 7),
        (0x0700, 6),
        (0x0800, 6),
        (0x0900, 6),
        (0x0a00, 5),
        (0x0b00, 4),
        (0x0c00, 5),
    ];
    let section: Section = build_section(prefix_from("0"), &members, &params);
    check_elder_discipline(&section, &params);
    assert_eq!(section.len(), 12);
    let elders: usize = section.nodes().iter().filter(|n| n.elder).count();
    assert_eq!(elders, 8);
    assert_eq!(section.elders().len(), 8);
    assert!(section.elders().iter().all(|n| n.elder));
    assert!(!section.should_merge(&params));
    assert!(!section.should_split(&params));
    // the two infants and the two youngest adults are not elders
    for n in section.nodes().iter() {
        if n.age < 6 {
            assert!(!n.elder);
        }
    }
}

#[test]
fn recompute_elders_is_idempotent() {
    let params: Params = Params::default();
    let members: [(u64, u64); 10] = [
        (0x0100, 9),
        (0x0200, 8),
        (0x0300, 8),
        (0x0400, 7),
        (0x0500, 7),
        (0x0600, 6),
        (0x0700, 6),
        (0x0800, 5),
        (0x0900, 5),
        (0x0a00, 4),
    ];
    let section: Section = build_section(prefix_from("1"), &members, &params);
    let mut again: Section = section.clone();
    again.update_elders(&params);
    assert_eq!(again.nodes(), section.nodes());
    assert_eq!(again.chain.last_live, section.chain.last_live);
}

#[test]
fn root_admits_at_adult_age() {
    let params: Params = Params::default();
    let mut root: Section = Section::new(Prefix::empty());
    let outcome = root.handle_live(&params, Node::new(Name(0x1234), params.init_age));
    assert!(outcome.is_none());
    assert_eq!(root.nodes().len(), 1);
    assert_eq!(root.nodes()[0].age, params.adult_age);
}

#[test]
fn bootstrap_twenty_joins_no_split() {
    let params: Params = Params::default();
    let mut root: Section = Section::new(Prefix::empty());
    for i in 0..20u64 {
        // names spread evenly over the top-bit halves
        let name: u64 = if i % 2 == 0 { i << 8 } else { (1u64 << 63) | (i << 8) };
        let outcome = root.handle_live(&params, Node::new(Name(name), params.init_age));
        assert!(outcome.is_none());
    }
    assert_eq!(root.nodes().len(), 20);
}

#[test]
fn root_splits_once_at_eleven_adults_per_half() {
    // group_size 8, quorum 5: each child half needs 2*8 - 5 = 11 adults
    let params: Params = Params::default();
    let mut root: Section = Section::new(Prefix::empty());
    let mut last: Option<Action> = None;
    for i in 0..22u64 {
        let name: u64 = if i % 2 == 0 { i << 8 } else { (1u64 << 63) | (i << 8) };
        last = root.handle_live(&params, Node::new(Name(name), params.init_age));
    }
    assert_eq!(last, Some(Action::Split(Prefix::empty())));
    // feed the split through the dispatcher
    let mut network: Network = Network {
        params,
        stats: Stats::new(),
        sections: vec![root],
        rng: reseed(Seed(1, 2, 3, 4)),
    };
    let (merges, splits, relocations, rejections, ok) =
        network.handle_actions(vec![last.unwrap()]);
    assert!(ok);
    assert_eq!((merges, splits, relocations, rejections), (0, 1, 0, 0));
    assert_eq!(network.sections.len(), 2);
    assert_eq!(network.sections[0].prefix, prefix_from("0"));
    assert_eq!(network.sections[1].prefix, prefix_from("1"));
    assert_eq!(network.sections[0].nodes().len(), 11);
    assert_eq!(network.sections[1].nodes().len(), 11);
    for section in network.sections.iter() {
        for n in section.nodes().iter() {
            assert!(section.prefix.matches(n.name));
        }
        check_elder_discipline(section, &network.params);
    }
}

#[test]
fn rejection_on_infant_cap() {
    // max_infants_per_section is 1 by default
    let params: Params = Params::default();
    let members: [(u64, u64); 8] = [
        (0x0100, 5),
        (0x0200, 5),
        (0x0300, 5),
        (0x0400, 5),
        (0x0500, 5),
        (0x0600, 5),
        (0x0700, 5),
        (0x0800, 5),
    ];
    let mut section: Section = build_section(prefix_from("0"), &members, &params);
    let first = section.handle_live(&params, Node::new(Name(0x0010), 4));
    assert!(first.is_none());
    assert_eq!(section.nodes().len(), 9);
    let infant: Node = Node::new(Name(0x0020), 4);
    let second = section.handle_live(&params, infant);
    assert_eq!(second, Some(Action::Reject(infant)));
    assert_eq!(section.nodes().len(), 9);
    // the dispatcher counts the rejection
    let mut network: Network = Network {
        params,
        stats: Stats::new(),
        sections: vec![section],
        rng: reseed(Seed(1, 2, 3, 4)),
    };
    let (_, _, _, rejections, ok) = network.handle_actions(vec![second.unwrap()]);
    assert!(ok);
    assert_eq!(rejections, 1);
}

#[test]
fn relocation_give_up_when_everyone_is_too_old() {
    // all members older than 64: the age gate can never pass, every rehash
    // attempt comes up empty and no request is sent
    let params: Params = Params::default();
    let mut members: Vec<(u64, u64)> = Vec::new();
    for i in 0..10u64 {
        members.push(((i + 1) << 8, 70 + i));
    }
    let mut section: Section = build_section(prefix_from("0"), &members, &params);
    let block: Block = Block::new(Event::Live, section.nodes()[0].name, 70);
    let outcome = section.try_relocate(&params, &block);
    assert!(outcome.is_none());
    assert_eq!(section.outgoing_relocations().len(), 0);
}

#[test]
fn relocation_picks_a_member_and_records_it() {
    // ten young adults: the age gate passes on the first attempt with
    // overwhelming probability; the chosen node is recorded under the
    // target read from the digest
    let params: Params = Params::default();
    let mut members: Vec<(u64, u64)> = Vec::new();
    for i in 0..12u64 {
        members.push(((i + 1) << 8, 5));
    }
    let mut section: Section = build_section(prefix_from("0"), &members, &params);
    // pick a seed block whose digest opens the age gate for age 5
    let mut chosen: Option<Block> = None;
    for i in 0..4096u64 {
        let candidate: Block = Block::new(Event::Live, Name(i), 5);
        if candidate.hash().trailing_zeros() >= 5 {
            chosen = Some(candidate);
            break;
        }
    }
    let block: Block = chosen.expect("no block with five trailing zero bits found");
    let outcome = section.try_relocate(&params, &block);
    match outcome {
        Some(Action::Send(Message::RelocateRequest { node_name, target })) => {
            assert!(section.nodes().iter().any(|n| n.name == node_name));
            assert_eq!(section.outgoing_relocations().len(), 1);
            assert_eq!(section.outgoing_relocations()[0], node_name);
            let _ = target;
        }
        other => panic!("expected a relocation request, got {:?}", other),
    }
}

#[test]
fn relocation_handshake_end_to_end() {
    let params: Params = Params::default();
    let mut rng = reseed(Seed(9, 9, 9, 9));
    // section A under prefix 0 holds the node to move; B under prefix 1
    // has capacity and only a few adults, so no follow-on relocation fires
    let moving: u64 = 0x0500;
    let a_members: [(u64, u64); 10] = [
        (0x0100, 6),
        (0x0200, 6),
        (0x0300, 6),
        (0x0400, 6),
        (moving, 6),
        (0x0600, 6),
        (0x0700, 6),
        (0x0800, 6),
        (0x0900, 6),
        (0x0a00, 6),
    ];
    let b_members: [(u64, u64); 5] = [
        (0x0100, 6),
        (0x0200, 6),
        (0x0300, 6),
        (0x0400, 6),
        (0x0500, 6),
    ];
    let mut a: Section = build_section(prefix_from("0"), &a_members, &params);
    let mut b: Section = build_section(prefix_from("1"), &b_members, &params);
    let node_name: Name = prefix_from("0").substituted_in(Name(moving));
    let target: Name = prefix_from("1").substituted_in(Name(0x7777));
    // A has asked to relocate `node_name` towards `target`
    a.outgoing_relocations = NameCache::new();
    a.outgoing_relocations.insert(node_name, target);
    let old_age: u64 = 6;

    // B receives the request and accepts, reserving the slot
    b.receive(Message::RelocateRequest { node_name, target });
    b.recent_join = true;
    b.recent_drop = true;
    let b_acts: Vec<Action> = b.tick(&params, &mut rng);
    assert_eq!(
        b_acts,
        vec![Action::Send(Message::RelocateAccept { node_name, target })]
    );
    assert_eq!(b.incoming_relocations().len(), 1);

    // A receives the acceptance: the node leaves with its age incremented
    a.receive(Message::RelocateAccept { node_name, target });
    a.recent_join = true;
    a.recent_drop = true;
    let a_acts: Vec<Action> = a.tick(&params, &mut rng);
    assert_eq!(a_acts.len(), 1);
    let committed: Node = match a_acts[0] {
        Action::Send(Message::RelocateCommit { node, target: t }) => {
            assert_eq!(t, target);
            node
        }
        ref other => panic!("expected a commit, got {:?}", other),
    };
    assert_eq!(committed.age, old_age + 1);
    assert!(!committed.elder);
    assert_eq!(a.nodes().len(), 9);
    assert_eq!(a.outgoing_relocations().len(), 0);
    assert!(a.nodes().iter().all(|n| n.name != node_name));

    // B receives the commitment and admits the node under its own prefix
    b.receive(Message::RelocateCommit { node: committed, target });
    b.recent_join = true;
    b.recent_drop = true;
    let b_acts2: Vec<Action> = b.tick(&params, &mut rng);
    assert_eq!(b_acts2, vec![]);
    assert_eq!(b.nodes().len(), 6);
    assert_eq!(b.incoming_relocations().len(), 0);
    let admitted: &Node = b
        .nodes()
        .iter()
        .max_by_key(|n| if n.age == old_age + 1 { 1 } else { 0 })
        .unwrap();
    assert_eq!(admitted.age, old_age + 1);
    assert!(b.prefix.matches(admitted.name));
}

#[test]
fn dead_member_cancels_its_relocation_and_triggers_merge() {
    let params: Params = Params::default();
    let members: [(u64, u64); 8] = [
        (0x0100, 6),
        (0x0200, 6),
        (0x0300, 6),
        (0x0400, 6),
        (0x0500, 6),
        (0x0600, 6),
        (0x0700, 6),
        (0x0800, 6),
    ];
    let mut section: Section = build_section(prefix_from("0"), &members, &params);
    let victim: Name = prefix_from("0").substituted_in(Name(0x0100));
    let target: Name = prefix_from("1").substituted_in(Name(0x0100));
    section.outgoing_relocations.insert(victim, target);
    let actions: Vec<Action> = section.handle_dead(&params, victim);
    // the cancel goes out first, then the merge request: 7 adults < 8
    assert!(actions.len() >= 2);
    assert_eq!(
        actions[0],
        Action::Send(Message::RelocateCancel { node_name: victim, target })
    );
    assert_eq!(actions[1], Action::Merge(Prefix::empty()));
    assert_eq!(section.nodes().len(), 7);
}

#[test]
fn merge_symmetry_collapses_both_siblings() {
    let params: Params = Params::default();
    let mut members: Vec<(u64, u64)> = Vec::new();
    for i in 0..8u64 {
        members.push(((i + 1) << 8, 6));
    }
    let mut s0: Section = build_section(prefix_from("0"), &members, &params);
    let mut s1: Section = build_section(prefix_from("1"), &members, &params);
    // both siblings lose one adult in the same tick and ask to merge
    let v0: Name = prefix_from("0").substituted_in(Name(0x0100));
    let v1: Name = prefix_from("1").substituted_in(Name(0x0100));
    assert!(!s0.should_merge(&params));
    let acts0: Vec<Action> = s0.handle_dead(&params, v0);
    assert!(s0.should_merge(&params));
    let acts1: Vec<Action> = s1.handle_dead(&params, v1);
    assert!(acts0.contains(&Action::Merge(Prefix::empty())));
    assert!(acts1.contains(&Action::Merge(Prefix::empty())));
    let mut network: Network = Network {
        params,
        stats: Stats::new(),
        sections: vec![s0, s1],
        rng: reseed(Seed(4, 4, 4, 4)),
    };
    let mut all: Vec<Action> = Vec::new();
    for a in acts0.into_iter().chain(acts1.into_iter()) {
        if let Action::Merge(_) = a {
            all.push(a);
        }
    }
    let (merges, _, _, _, ok) = network.handle_actions(all);
    assert!(ok);
    assert!(merges >= 1);
    assert_eq!(network.sections.len(), 1);
    assert_eq!(network.sections[0].prefix, Prefix::empty());
    assert_eq!(network.sections[0].nodes().len(), 14);
    check_elder_discipline(&network.sections[0], &params);
}

#[test]
fn split_then_merge_restores_the_section() {
    let params: Params = Params::default();
    let mut members: Vec<(u64, u64)> = Vec::new();
    for i in 0..14u64 {
        // spread over both halves of the child prefixes, varied ages
        let half: u64 = (i % 2) << 62;
        members.push((half | ((i + 1) << 8), 5 + (i % 6)));
    }
    let mut section: Section = build_section(prefix_from("0"), &members, &params);
    // split also partitions the relocation caches between the children
    let key0: Name = prefix_from("00").substituted_in(Name(0x11));
    let key1: Name = prefix_from("01").substituted_in(Name(0x22));
    let tgt0: Name = prefix_from("00").substituted_in(Name(0x33));
    let tgt1: Name = prefix_from("01").substituted_in(Name(0x44));
    section.outgoing_relocations.insert(key0, tgt1);
    section.outgoing_relocations.insert(key1, tgt0);
    section.incoming_relocations.insert(key1, tgt0);
    let original_nodes: Vec<Node> = section.nodes().clone();
    let parent: Prefix = section.prefix;
    let (child0, child1) = section.split(&params);
    assert_eq!(child0.outgoing_relocations(), vec![key0]);
    assert_eq!(child1.outgoing_relocations(), vec![key1]);
    assert_eq!(child0.incoming_relocations(), vec![key1]);
    assert_eq!(child1.incoming_relocations().len(), 0);
    for n in child0.nodes().iter() {
        assert!(child0.prefix.matches(n.name));
    }
    for n in child1.nodes().iter() {
        assert!(child1.prefix.matches(n.name));
    }
    assert_eq!(
        child0.nodes().len() + child1.nodes().len(),
        original_nodes.len()
    );
    let mut merged: Section = Section::new(parent);
    merged.merge(&params, child0);
    merged.merge(&params, child1);
    // same members, identical elder flags
    assert_eq!(merged.nodes(), &original_nodes);
}

#[test]
fn relocation_request_rejected_when_slot_taken_or_full() {
    let params: Params = Params::default();
    let members: [(u64, u64); 3] = [(0x0100, 6), (0x0200, 6), (0x0300, 6)];
    let mut section: Section = build_section(prefix_from("1"), &members, &params);
    let n1: Name = Name(0x8000000000000001);
    let n2: Name = Name(0x8000000000000002);
    let t: Name = Name(0x8000000000000003);
    let first: Action = section.handle_relocate_request(&params, n1, t);
    assert_eq!(first, Action::Send(Message::RelocateAccept { node_name: n1, target: t }));
    // a second request while one is inbound is rejected
    let second: Action = section.handle_relocate_request(&params, n2, t);
    assert_eq!(second, Action::Send(Message::RelocateReject { node_name: n2, target: t }));
    // a cancel releases the slot
    section.handle_relocate_cancel(n1);
    assert_eq!(section.incoming_relocations().len(), 0);
}

#[test]
fn relocation_reject_retries_with_a_rehashed_target() {
    let params: Params = Params::default();
    let mut members: Vec<(u64, u64)> = Vec::new();
    for i in 0..12u64 {
        members.push(((i + 1) << 8, 6));
    }
    let mut section: Section = build_section(prefix_from("0"), &members, &params);
    let node_name: Name = prefix_from("0").substituted_in(Name(0x0100));
    let target: Name = Name(0x8000000000000042);
    section.outgoing_relocations.insert(node_name, target);
    let outcome = section.handle_relocate_reject(&params, node_name, target);
    match outcome {
        Some(Action::Send(Message::RelocateRequest { node_name: n2, target: t2 })) => {
            assert_eq!(n2, node_name);
            assert_ne!(t2, target);
            // the rehashed target is what the cache now holds
            assert_eq!(section.outgoing_relocations.get(node_name), Some(t2));
        }
        other => panic!("expected a retried request, got {:?}", other),
    }
    // with too few adults the retry is abandoned instead
    let few: [(u64, u64); 4] = [(0x0100, 6), (0x0200, 6), (0x0300, 6), (0x0400, 6)];
    let mut small: Section = build_section(prefix_from("0"), &few, &params);
    let nn: Name = prefix_from("0").substituted_in(Name(0x0100));
    small.outgoing_relocations.insert(nn, target);
    let gave_up = small.handle_relocate_reject(&params, nn, target);
    assert!(gave_up.is_none());
    assert_eq!(small.outgoing_relocations().len(), 0);
}
