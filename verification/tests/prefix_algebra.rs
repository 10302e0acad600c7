use ageing_sim::prefix::{Name, Prefix};

fn prefix_from(s: &str) -> Prefix {
    let mut p: Prefix = Prefix::empty();
    for c in s.chars() {
        p = p.extend(if c == '1' { 1 } else { 0 });
    }
    p
}

#[test]
fn empty_prefix_matches_everything() {
    let p: Prefix = Prefix::empty();
    assert_eq!(p.len(), 0);
    assert!(p.matches(Name(0)));
    assert!(p.matches(Name(u64::MAX)));
    assert!(p.matches(Name(0x0123456789abcdef)));
}

#[test]
fn extend_places_bits_from_the_top() {
    let p: Prefix = prefix_from("10");
    assert_eq!(p.len(), 2);
    assert_eq!(p.bits(), 0x8000000000000000);
    let q: Prefix = prefix_from("01");
    assert_eq!(q.bits(), 0x4000000000000000);
}

#[test]
fn shorten_of_extend_restores_the_prefix() {
    // one instance of the general law proved in the library
    let p: Prefix = prefix_from("0110");
    assert_eq!(p.extend(0).shorten(), p);
    assert_eq!(p.extend(1).shorten(), p);
    let e: Prefix = Prefix::empty();
    assert_eq!(e.extend(1).shorten(), e);
    assert_eq!(e.shorten(), e);
}

#[test]
fn matches_substituted_name() {
    // one instance of the general law proved in the library
    let p: Prefix = prefix_from("110");
    let n: Name = Name(0x0123456789abcdef);
    let s: Name = p.substituted_in(n);
    assert!(p.matches(s));
    // the low bits are kept
    assert_eq!(s.0 & 0x1fffffffffffffff, n.0 & 0x1fffffffffffffff);
}

#[test]
fn matches_compares_top_bits() {
    let p: Prefix = prefix_from("10");
    assert!(p.matches(Name(0x8000000000000000)));
    assert!(p.matches(Name(0xbfffffffffffffff)));
    assert!(!p.matches(Name(0xc000000000000000)));
    assert!(!p.matches(Name(0)));
}

#[test]
fn sibling_flips_the_last_bit() {
    let p: Prefix = prefix_from("10");
    assert_eq!(p.sibling(), prefix_from("11"));
    assert_eq!(prefix_from("11").sibling(), p);
    let e: Prefix = Prefix::empty();
    assert_eq!(e.sibling(), e);
}

#[test]
fn split_partitions_the_name_space() {
    let p: Prefix = prefix_from("01");
    let (p0, p1) = p.split();
    assert_eq!(p0, prefix_from("010"));
    assert_eq!(p1, prefix_from("011"));
    let names: [u64; 4] = [0x4000000000000000, 0x5fffffffffffffff, 0x6000000000000000, 0x7123456789abcdef];
    for raw in names.iter() {
        let n: Name = Name(*raw);
        assert!(p.matches(n));
        let in0: bool = p0.matches(n);
        let in1: bool = p1.matches(n);
        assert!(in0 != in1);
    }
}

#[test]
fn ancestry_relations() {
    let root: Prefix = Prefix::empty();
    let a: Prefix = prefix_from("0");
    let ab: Prefix = prefix_from("01");
    let b: Prefix = prefix_from("1");
    assert!(root.is_ancestor(&a));
    assert!(a.is_ancestor(&ab));
    assert!(a.is_ancestor(&a));
    assert!(!ab.is_ancestor(&a));
    assert!(ab.is_descendant(&a));
    assert!(!b.is_ancestor(&ab));
    assert!(a.is_compatible_with(&ab));
    assert!(!a.is_compatible_with(&b));
    assert!(a.is_sibling(&b));
    assert!(b.is_sibling(&a));
    assert!(!root.is_sibling(&root));
}

#[test]
fn neighbour_prefixes_differ_in_one_overlap_bit() {
    let a: Prefix = prefix_from("00");
    let b: Prefix = prefix_from("01");
    assert!(a.is_neighbour(&b));
    let c: Prefix = prefix_from("110");
    assert!(!a.is_neighbour(&c));
    // identical prefixes are not neighbours
    assert!(!a.is_neighbour(&a));
}

#[test]
fn with_flipped_bit_flips_one_position() {
    let p: Prefix = prefix_from("101");
    assert_eq!(p.with_flipped_bit(0), prefix_from("001"));
    assert_eq!(p.with_flipped_bit(1), prefix_from("111"));
    assert_eq!(p.with_flipped_bit(2), prefix_from("100"));
}
