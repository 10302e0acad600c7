use ageing_sim::message::Message;
use ageing_sim::node::{by_age, count_adults, count_infants, Node};
use ageing_sim::params::Params;
use ageing_sim::prefix::Name;
use ageing_sim::random::{reseed, Rng, Seed};
use ageing_sim::section::NameCache;
use ageing_sim::stats::{sat_add, Distribution, Stats};

#[test]
fn node_ageing_saturates() {
    let mut n: Node = Node::new(Name(1), u64::MAX - 1);
    n.increment_age();
    assert_eq!(n.age(), u64::MAX);
    n.increment_age();
    assert_eq!(n.age(), u64::MAX);
}

#[test]
fn adulthood_threshold() {
    let params: Params = Params::default();
    let infant: Node = Node::new(Name(1), 4);
    let adult: Node = Node::new(Name(2), 5);
    assert!(infant.is_infant(&params));
    assert!(!infant.is_adult(&params));
    assert!(adult.is_adult(&params));
    assert!(!adult.is_infant(&params));
    let nodes: Vec<Node> = vec![infant, adult, Node::new(Name(3), 9)];
    assert_eq!(count_adults(&params, &nodes), 2);
    assert_eq!(count_infants(&params, &nodes), 1);
}

#[test]
fn by_age_sorts_youngest_first_ties_by_name() {
    let nodes: Vec<Node> = vec![
        Node::new(Name(30), 7),
        Node::new(Name(10), 5),
        Node::new(Name(20), 5),
        Node::new(Name(40), 4),
    ];
    let sorted: Vec<Node> = by_age(&nodes);
    let order: Vec<u64> = sorted.iter().map(|n| n.name().0).collect();
    assert_eq!(order, vec![40, 10, 20, 30]);
}

#[test]
fn promote_and_demote_toggle_the_elder_flag() {
    let mut n: Node = Node::new(Name(7), 6);
    assert!(!n.is_elder());
    n.promote();
    assert!(n.is_elder());
    n.demote();
    assert!(!n.is_elder());
    n.set_name(Name(8));
    assert_eq!(n.name(), Name(8));
}

#[test]
fn message_targets() {
    let n: Name = Name(1);
    let t: Name = Name(2);
    let node: Node = Node::new(n, 5);
    assert_eq!(Message::RelocateRequest { node_name: n, target: t }.target(), t);
    assert_eq!(Message::RelocateCommit { node, target: t }.target(), t);
    assert_eq!(Message::RelocateCancel { node_name: n, target: t }.target(), t);
    assert_eq!(Message::RelocateAccept { node_name: n, target: t }.target(), n);
    assert_eq!(Message::RelocateReject { node_name: n, target: t }.target(), n);
}

#[test]
fn quorum_is_a_simple_majority() {
    let mut params: Params = Params::default();
    assert_eq!(params.quorum(), 5);
    params.group_size = 7;
    assert_eq!(params.quorum(), 4);
    params.group_size = 1;
    assert_eq!(params.quorum(), 1);
}

#[test]
fn generator_is_deterministic_per_seed() {
    let mut a: Rng = reseed(Seed(1, 2, 3, 4));
    let mut b: Rng = reseed(Seed(1, 2, 3, 4));
    for _ in 0..100 {
        assert_eq!(a.next_u64(), b.next_u64());
    }
    let mut c: Rng = reseed(Seed(4, 3, 2, 1));
    let mut d: Rng = reseed(Seed(1, 2, 3, 4));
    let cs: Vec<u32> = (0..8).map(|_| c.next_u32()).collect();
    let ds: Vec<u32> = (0..8).map(|_| d.next_u32()).collect();
    assert_ne!(cs, ds);
}

#[test]
fn zero_seed_falls_back_to_a_fixed_state() {
    let mut a: Rng = reseed(Seed(0, 0, 0, 0));
    let mut b: Rng = reseed(Seed(0, 0, 0, 0));
    assert_eq!(a.next_u64(), b.next_u64());
}

#[test]
fn age_flip_extremes() {
    let mut rng: Rng = reseed(Seed(7, 7, 7, 7));
    for _ in 0..32 {
        assert!(rng.age_flip(0));
        assert!(!rng.age_flip(65));
        assert!(!rng.age_flip(1000));
    }
    // age 1 succeeds about half the time
    let mut hits: u32 = 0;
    for _ in 0..1000 {
        if rng.age_flip(1) {
            hits += 1;
        }
    }
    assert!(hits > 300 && hits < 700);
}

#[test]
fn name_cache_behaves_like_a_map() {
    let mut cache: NameCache = NameCache::new();
    assert!(cache.is_empty());
    assert_eq!(cache.get(Name(1)), None);
    cache.insert(Name(1), Name(10));
    cache.insert(Name(2), Name(20));
    assert_eq!(cache.len(), 2);
    assert_eq!(cache.get(Name(1)), Some(Name(10)));
    cache.insert(Name(1), Name(11));
    assert_eq!(cache.len(), 2);
    assert_eq!(cache.get(Name(1)), Some(Name(11)));
    assert_eq!(cache.remove(Name(1)), Some(Name(11)));
    assert_eq!(cache.remove(Name(1)), None);
    assert_eq!(cache.len(), 1);
    assert!(cache.contains(Name(2)));
    assert!(!cache.contains(Name(1)));
}

#[test]
fn distribution_counts_occurrences_sorted_by_value() {
    let values: Vec<u64> = vec![3, 1, 3, 7, 1, 3];
    let dist: Distribution = Distribution::new(&values);
    let rows: Vec<(u64, u64)> = dist.counts.clone();
    assert_eq!(rows, vec![(1, 2), (3, 3), (7, 1)]);
    let empty: Distribution = Distribution::new(&Vec::new());
    assert_eq!(empty.counts.len(), 0);
}

#[test]
fn stats_accumulate_and_summarise() {
    let mut stats: Stats = Stats::new();
    assert_eq!(stats.summary().nodes, 0);
    stats.record(0, 10, 1, 1, 0, 2, 0);
    stats.record(1, 12, 1, 0, 1, 1, 3);
    let last = stats.summary();
    assert_eq!(last.iteration, 1);
    assert_eq!(last.nodes, 12);
    assert_eq!(last.merges, 1);
    assert_eq!(last.splits, 1);
    assert_eq!(last.relocations, 3);
    assert_eq!(last.rejections, 3);
    assert_eq!(stats.samples().len(), 2);
}

#[test]
fn saturating_addition_caps_at_the_maximum() {
    assert_eq!(sat_add(1, 2), 3);
    assert_eq!(sat_add(u64::MAX, 1), u64::MAX);
    assert_eq!(sat_add(u64::MAX - 1, 1), u64::MAX);
    assert_eq!(sat_add(0, u64::MAX), u64::MAX);
}
