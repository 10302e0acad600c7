use ageing_sim::network::Network;
use ageing_sim::node::Node;
use ageing_sim::params::Params;
use ageing_sim::prefix::{Name, Prefix};
use ageing_sim::section::Section;
use ageing_sim::random::Seed;
use ageing_sim::stats::{Sample, Stats};

fn format_stats(network: &Network) -> String {
    let mut out: String = String::new();
    for sample in network.stats().samples().iter() {
        out.push_str(&format!(
            "{} {} {} {} {} {} {}\n",
            sample.iteration,
            sample.nodes,
            sample.sections,
            sample.merges,
            sample.splits,
            sample.relocations,
            sample.rejections,
        ));
    }
    out
}

/// The universal invariants checked after every tick.
fn check_invariants(network: &Network) {
    let params: &Params = &network.params;
    // partition cover: the prefix weights sum to the whole name space and
    // no two prefixes are compatible
    let mut weight: u128 = 0;
    for section in network.sections.iter() {
        weight += 1u128 << (64 - section.prefix.len());
    }
    assert_eq!(weight, 1u128 << 64);
    for (i, a) in network.sections.iter().enumerate() {
        for b in network.sections.iter().skip(i + 1) {
            assert!(!a.prefix.is_compatible_with(&b.prefix));
        }
    }
    for section in network.sections.iter() {
        // membership correctness
        for n in section.nodes().iter() {
            assert!(section.prefix.matches(n.name));
        }
        // elder discipline
        let elders: usize = section.nodes().iter().filter(|n| n.elder).count();
        assert!(elders <= params.group_size);
        // no in-flight caches at quiescence
        assert_eq!(section.incoming_relocations().len(), 0);
        assert_eq!(section.outgoing_relocations().len(), 0);
        // size bound
        assert!(section.nodes().len() <= params.max_section_size);
    }
}

#[test]
fn new_network_has_one_empty_root_section() {
    let params: Params = Params::default();
    let network: Network = Network::new(params);
    assert_eq!(network.num_sections(), 1);
    assert_eq!(network.sections.len(), 1);
    assert_eq!(network.sections[0].prefix.len(), 0);
    assert_eq!(network.sections[0].nodes().len(), 0);
    assert_eq!(network.num_complete_sections(), 0);
}

#[test]
fn invariants_hold_over_a_simulated_run() {
    let mut params: Params = Params::default();
    params.seed = Seed(1, 2, 3, 4);
    let mut network: Network = Network::new(params);
    for i in 0..300u64 {
        let ok: bool = network.tick(i);
        assert!(ok, "simulation failed at iteration {}", i);
        check_invariants(&network);
    }
    // the network has grown
    let last: Sample = network.stats().summary();
    assert!(last.nodes > 0);
    assert_eq!(last.iteration, 299);
    assert_eq!(network.stats().samples().len(), 300);
}

#[test]
fn deterministic_replay_produces_identical_stats() {
    let mut params: Params = Params::default();
    params.seed = Seed(1, 2, 3, 4);
    params.num_iterations = 1000;
    let mut first: Network = Network::new(params);
    let mut second: Network = Network::new(params);
    for i in 0..params.num_iterations {
        let ok1: bool = first.tick(i);
        let ok2: bool = second.tick(i);
        assert_eq!(ok1, ok2);
        if !ok1 {
            break;
        }
    }
    let out1: String = format_stats(&first);
    let out2: String = format_stats(&second);
    assert_eq!(out1, out2);
    assert!(out1.lines().count() >= 1);
}

#[test]
fn different_seeds_usually_diverge() {
    let mut pa: Params = Params::default();
    pa.seed = Seed(1, 2, 3, 4);
    let mut pb: Params = Params::default();
    pb.seed = Seed(5, 6, 7, 8);
    let mut a: Network = Network::new(pa);
    let mut b: Network = Network::new(pb);
    for i in 0..50u64 {
        let _ = a.tick(i);
        let _ = b.tick(i);
    }
    assert_ne!(format_stats(&a), format_stats(&b));
}

#[test]
fn distributions_tally_the_population() {
    let mut params: Params = Params::default();
    params.seed = Seed(2, 3, 4, 5);
    let mut network: Network = Network::new(params);
    for i in 0..100u64 {
        assert!(network.tick(i));
    }
    let total: u64 = network.stats().summary().nodes;
    let age_dist = network.age_dist();
    let age_total: u64 = age_dist.counts.iter().map(|e| e.1).sum();
    assert_eq!(age_total, total);
    // every counted age really occurs
    for entry in age_dist.counts.iter() {
        let occurrences: usize = network
            .sections
            .iter()
            .flat_map(|s| s.nodes().iter())
            .filter(|n| n.age == entry.0)
            .count();
        assert_eq!(occurrences as u64, entry.1);
    }
    let size_dist = network.section_size_dist();
    let size_total: u64 = size_dist.counts.iter().map(|e| e.1).sum();
    assert_eq!(size_total as usize, network.sections.len());
    let len_dist = network.prefix_len_dist();
    let len_total: u64 = len_dist.counts.iter().map(|e| e.1).sum();
    assert_eq!(len_total as usize, network.sections.len());
}

#[test]
fn oversized_section_fails_the_tick() {
    let mut params: Params = Params::default();
    params.max_section_size = 3;
    let mut section: Section = Section::new(Prefix::empty());
    for i in 0..6u64 {
        let _ = section.handle_live(&params, Node::new(Name((i + 1) << 8), 5));
    }
    let mut network: Network = Network {
        params,
        stats: Stats::new(),
        sections: vec![section],
        rng: ageing_sim::random::reseed(Seed(1, 1, 1, 1)),
    };
    assert!(!network.validate());
    let ok: bool = network.tick(0);
    assert!(!ok);
}

#[test]
fn undeliverable_message_is_a_protocol_violation() {
    let params: Params = Params::default();
    let zero: Prefix = Prefix::empty().extend(0);
    let mut network: Network = Network {
        params,
        stats: Stats::new(),
        sections: vec![Section::new(zero)],
        rng: ageing_sim::random::reseed(Seed(1, 1, 1, 1)),
    };
    // the target name lives under the missing prefix 1
    let msg = ageing_sim::message::Message::RelocateCancel {
        node_name: Name(1),
        target: Name(1u64 << 63),
    };
    let (_, _, _, _, ok) = network.handle_actions(vec![ageing_sim::message::Action::Send(msg)]);
    assert!(!ok);
}

#[test]
fn splitting_a_missing_prefix_is_a_violation() {
    let params: Params = Params::default();
    let mut network: Network = Network::new(params);
    let zero: Prefix = Prefix::empty().extend(0);
    let (_, splits, _, _, ok) =
        network.handle_actions(vec![ageing_sim::message::Action::Split(zero)]);
    assert!(!ok);
    assert_eq!(splits, 0);
    assert_eq!(network.sections.len(), 1);
}

#[test]
fn merge_without_sources_changes_nothing() {
    let params: Params = Params::default();
    let one: Prefix = Prefix::empty().extend(1);
    let mut network: Network = Network {
        params,
        stats: Stats::new(),
        sections: vec![Section::new(one)],
        rng: ageing_sim::random::reseed(Seed(1, 1, 1, 1)),
    };
    let zero: Prefix = Prefix::empty().extend(0);
    let (merges, _, _, _, ok) =
        network.handle_actions(vec![ageing_sim::message::Action::Merge(zero)]);
    assert!(ok);
    assert_eq!(merges, 0);
    assert_eq!(network.sections.len(), 1);
}
