use ageing_sim::chain::{Block, Chain, Event};
use ageing_sim::prefix::Name;
use tiny_keccak::Hasher;

fn sha3_256_oracle(bytes: &[u8]) -> [u8; 32] {
    let mut sha3 = tiny_keccak::Sha3::v256();
    sha3.update(bytes);
    let mut out: [u8; 32] = [0u8; 32];
    sha3.finalize(&mut out);
    out
}

#[test]
fn block_serialization_is_tag_name_age_little_endian() {
    let block: Block = Block::new(Event::Live, Name(0x0102030405060708), 5);
    let bytes: Vec<u8> = block.to_bytes();
    let expected: [u8; 17] = [
        0x00, 0x08, 0x07, 0x06, 0x05, 0x04, 0x03, 0x02, 0x01, 0x05, 0, 0, 0, 0, 0, 0, 0,
    ];
    assert_eq!(bytes.as_slice(), &expected);
    assert_eq!(Block::new(Event::Dead, Name(0), 0).to_bytes()[0], 1);
    assert_eq!(Block::new(Event::Gone, Name(0), 0).to_bytes()[0], 2);
}

#[test]
fn block_hash_is_sha3_of_the_canonical_bytes() {
    // hash stability: the digest equals SHA3-256 of the literal serialization
    let block: Block = Block::new(Event::Live, Name(0x0102030405060708), 5);
    let expected: [u8; 32] = sha3_256_oracle(&[
        0x00, 0x08, 0x07, 0x06, 0x05, 0x04, 0x03, 0x02, 0x01, 0x05, 0, 0, 0, 0, 0, 0, 0,
    ]);
    let digest = block.hash();
    assert_eq!(digest.bytes.as_slice(), &expected);
}

#[test]
fn rehash_is_sha3_of_the_digest() {
    let block: Block = Block::new(Event::Live, Name(42), 7);
    let first = block.hash();
    let second = first.rehash();
    let expected: [u8; 32] = sha3_256_oracle(first.bytes.as_slice());
    assert_eq!(second.bytes.as_slice(), &expected);
    assert_ne!(first.bytes, second.bytes);
}

#[test]
fn name_digest_round_trip() {
    let n: Name = Name(0xfedcba9876543210);
    let h = ageing_sim::chain::Hash::from_name(n);
    assert_eq!(h.bytes.len(), 32);
    assert_eq!(h.bytes[0], 0xfe);
    assert_eq!(h.bytes[7], 0x10);
    assert_eq!(h.bytes[8], 0);
    assert_eq!(h.to_name(), n);
}

#[test]
fn trailing_zeros_counts_from_the_last_byte() {
    let h0 = ageing_sim::chain::Hash::from_name(Name(0));
    assert_eq!(h0.trailing_zeros(), 256);
    let h1 = ageing_sim::chain::Hash::from_name(Name(1));
    // 24 zero bytes after the name, then the low byte 0x01
    assert_eq!(h1.trailing_zeros(), 192);
    let h2 = ageing_sim::chain::Hash::from_name(Name(0x8000000000000000));
    assert_eq!(h2.trailing_zeros(), 255);
    let h3 = ageing_sim::chain::Hash::from_name(Name(0x0000000000000100));
    assert_eq!(h3.trailing_zeros(), 200);
}

#[test]
fn chain_keeps_only_the_last_live_block() {
    let mut chain: Chain = Chain::new();
    assert!(chain.last_live().is_none());
    chain.insert(Block::new(Event::Dead, Name(1), 9));
    assert!(chain.last_live().is_none());
    chain.insert(Block::new(Event::Live, Name(2), 5));
    let live = chain.last_live().unwrap();
    assert_eq!(live.name, Name(2));
    chain.insert(Block::new(Event::Gone, Name(3), 6));
    assert_eq!(chain.last_live().unwrap().name, Name(2));
    chain.insert(Block::new(Event::Live, Name(4), 6));
    assert_eq!(chain.last_live().unwrap().name, Name(4));
}

#[test]
fn chain_extend_prefers_the_other_live_block() {
    let mut a: Chain = Chain::new();
    a.insert(Block::new(Event::Live, Name(1), 5));
    let mut b: Chain = Chain::new();
    b.insert(Block::new(Event::Live, Name(2), 6));
    a.extend(b);
    assert_eq!(a.last_live().unwrap().name, Name(2));
    let empty: Chain = Chain::new();
    a.extend(empty);
    assert_eq!(a.last_live().unwrap().name, Name(2));
}
