//! The data chain of a section, and the digests driving relocation.
//!
//! A chain records one block per consensual event; for the algorithm here
//! only the most recent `Live` block matters, because its digest is the
//! pseudo-random oracle that decides which node (if any) a section relocates.

use vstd::prelude::*;

use tiny_keccak::Hasher;

use crate::prefix::Name;

verus! {

/// What a chain block records about a node.
#[derive(Clone, Copy, PartialEq, Eq, Structural, Debug)]
pub enum Event {
    Live,
    Dead,
    Gone,
}

/// A block of a section's data chain.
#[derive(Clone, Copy, PartialEq, Eq, Structural, Debug)]
pub struct Block {
    pub event: Event,
    pub name: Name,
    pub age: u64,
}

/// The tag byte of an event in the canonical serialization.
pub open spec fn event_tag(e: Event) -> u8 {
    match e {
        Event::Live => 0,
        Event::Dead => 1,
        Event::Gone => 2,
    }
}

/// The canonical 17-byte serialization of a block: the tag byte, then the
/// name and the age as little-endian 64-bit integers.
pub open spec fn block_bytes(b: Block) -> Seq<u8> {
    seq![event_tag(b.event)] + vstd::bytes::spec_u64_to_le_bytes(b.name.0)
        + vstd::bytes::spec_u64_to_le_bytes(b.age)
}

/// What SHA3-256 returns for the given input bytes.
pub uninterp spec fn sha3_of(bytes: Seq<u8>) -> Seq<u8>;

/// Relies on tiny_keccak's SHA3-256 (`Sha3::v256`): a 32-byte digest that
/// depends on the input bytes alone.
#[verifier::external_body]
fn sha3(bytes: &Vec<u8>) -> (r: Vec<u8>)
    ensures
        r@ == sha3_of(bytes@),
        r@.len() == 32,
{
    let mut hasher = tiny_keccak::Sha3::v256();
    hasher.update(bytes.as_slice());
    let mut out = [0u8; 32];
    hasher.finalize(&mut out);
    out.to_vec()
}

impl Block {
    pub fn new(event: Event, name: Name, age: u64) -> (r: Block)
        ensures
            r == (Block { event, name, age }),
    {
        Block { event, name, age }
    }

    /// Serializes the block into its canonical 17 bytes.
    pub fn to_bytes(&self) -> (r: Vec<u8>)
        ensures
            r@ == block_bytes(*self),
    {
        let mut bytes: Vec<u8> = Vec::new();
        let tag: u8 = match self.event {
            Event::Live => 0,
            Event::Dead => 1,
            Event::Gone => 2,
        };
        bytes.push(tag);
        let mut name_bytes = vstd::bytes::u64_to_le_bytes(self.name.0);
        bytes.append(&mut name_bytes);
        let mut age_bytes = vstd::bytes::u64_to_le_bytes(self.age);
        bytes.append(&mut age_bytes);
        proof {
            assert(bytes@ =~= block_bytes(*self));
        }
        bytes
    }

    /// The digest of the canonical serialization of the block.
    pub fn hash(&self) -> (r: Hash)
        ensures
            r.bytes@ == sha3_of(block_bytes(*self)),
            r.wf(),
    {
        let bytes = self.to_bytes();
        Hash { bytes: sha3(&bytes) }
    }
}

/// A 32-byte digest.
#[derive(Clone, PartialEq, Eq, Debug)]
pub struct Hash {
    pub bytes: Vec<u8>,
}

/// The number of trailing zero bits of a digest read with its last byte
/// least significant.
pub open spec fn tz_bytes(s: Seq<u8>) -> nat
    decreases s.len(),
{
    if s.len() == 0 {
        0
    } else if s.last() == 0 {
        8 + tz_bytes(s.drop_last())
    } else {
        vstd::std_specs::bits::u8_trailing_zeros(s.last()) as nat
    }
}

/// The first eight bytes of a digest read as a big-endian 64-bit integer.
pub open spec fn be_u64_of(s: Seq<u8>) -> u64 {
    (((s[0] as u64) << 56u64) | ((s[1] as u64) << 48u64) | ((s[2] as u64) << 40u64) | ((s[3] as u64)
        << 32u64) | ((s[4] as u64) << 24u64) | ((s[5] as u64) << 16u64) | ((s[6] as u64) << 8u64) | (
    s[7] as u64)) as u64
}

/// The 32 bytes holding a name big-endian in the first eight bytes and zero
/// elsewhere.
pub open spec fn name_to_bytes(n: u64) -> Seq<u8> {
    seq![
        ((n >> 56u64) & 0xff) as u8,
        ((n >> 48u64) & 0xff) as u8,
        ((n >> 40u64) & 0xff) as u8,
        ((n >> 32u64) & 0xff) as u8,
        ((n >> 24u64) & 0xff) as u8,
        ((n >> 16u64) & 0xff) as u8,
        ((n >> 8u64) & 0xff) as u8,
        (n & 0xff) as u8,
    ] + Seq::new(24, |i: int| 0u8)
}

impl Hash {
    pub open spec fn wf(self) -> bool {
        self.bytes@.len() == 32
    }

    /// The digest of this digest's bytes: one step of the relocation retry
    /// sequence.
    pub fn rehash(&self) -> (r: Hash)
        ensures
            r.bytes@ == sha3_of(self.bytes@),
            r.wf(),
    {
        Hash { bytes: sha3(&self.bytes) }
    }

    /// The digest holding a name big-endian in its first eight bytes.
    pub fn from_name(name: Name) -> (r: Hash)
        ensures
            r.bytes@ == name_to_bytes(name.0),
            r.wf(),
    {
        let n = name.0;
        let mut bytes: Vec<u8> = Vec::new();
        bytes.push(((n >> 56) & 0xff) as u8);
        bytes.push(((n >> 48) & 0xff) as u8);
        bytes.push(((n >> 40) & 0xff) as u8);
        bytes.push(((n >> 32) & 0xff) as u8);
        bytes.push(((n >> 24) & 0xff) as u8);
        bytes.push(((n >> 16) & 0xff) as u8);
        bytes.push(((n >> 8) & 0xff) as u8);
        bytes.push((n & 0xff) as u8);
        let mut i: usize = 0;
        while i < 24
            invariant
                0 <= i <= 24,
                bytes@.len() == 8 + i,
                bytes@ == name_to_bytes(n).take(8 + i),
        decreases 24 - i,
        {
            proof {
                assert(name_to_bytes(n).take(8 + i + 1).drop_last() =~= name_to_bytes(n).take(
                    8 + i,
                ));
                assert(name_to_bytes(n).take(8 + i + 1).last() == 0u8);
            }
            bytes.push(0u8);
            i += 1;
        }
        proof {
            assert(name_to_bytes(n).take(32) =~= name_to_bytes(n));
        }
        Hash { bytes }
    }

    /// The first eight bytes of the digest, read big-endian, as a name.
    pub fn to_name(&self) -> (r: Name)
        requires
            self.wf(),
        ensures
            r == Name(be_u64_of(self.bytes@)),
    {
        let b = &self.bytes;
        Name(
            ((b[0] as u64) << 56) | ((b[1] as u64) << 48) | ((b[2] as u64) << 40) | ((b[3] as u64)
                << 32) | ((b[4] as u64) << 24) | ((b[5] as u64) << 16) | ((b[6] as u64) << 8) | (
            b[7] as u64),
        )
    }

    /// The number of trailing zero bits of the digest, counting from its last
    /// byte.
    pub fn trailing_zeros(&self) -> (r: u64)
        requires
            self.wf(),
        ensures
            r == tz_bytes(self.bytes@),
    {
        let ghost s = self.bytes@;
        let mut result: u64 = 0;
        let mut i: usize = self.bytes.len();
        while i > 0
            invariant
                0 <= i <= s.len(),
                s.len() == 32,
                s == self.bytes@,
                forall|j: int| i <= j < s.len() ==> s[j] == 0,
                result == 8 * (s.len() - i),
            decreases i,
        {
            let b = self.bytes[i - 1];
            let z = b.trailing_zeros() as u64;
            proof {
                vstd::std_specs::bits::axiom_u8_trailing_zeros(b);
            }
            result += z;
            if z < 8 {
                proof {
                    lemma_tz_suffix(s, i as int);
                    assert(s.take(i as int).last() == b);
                    assert(s.take(i as int).drop_last() =~= s.take(i - 1));
                }
                return result;
            }
            i -= 1;
        }
        proof {
            lemma_tz_suffix(s, 0);
            assert(s.take(0) =~= Seq::<u8>::empty());
        }
        result
    }
}

/// Splits the trailing-zero count of a digest at a position all of whose
/// following bytes are zero.
proof fn lemma_tz_suffix(s: Seq<u8>, i: int)
    requires
        0 <= i <= s.len(),
        forall|j: int| i <= j < s.len() ==> s[j] == 0,
    ensures
        tz_bytes(s) == 8 * (s.len() - i) + tz_bytes(s.take(i)),
    decreases s.len() - i,
{
    if i == s.len() {
        assert(s.take(i) =~= s);
    } else {
        assert(s.last() == 0);
        assert(s.drop_last() =~= s.take(s.len() - 1));
        lemma_tz_suffix(s.take(s.len() - 1), i);
        assert(s.take(s.len() - 1).take(i) =~= s.take(i));
    }
}

/// The data chain of a section, reduced to what the relocation oracle needs:
/// the most recent `Live` block.
#[derive(Clone, Copy, PartialEq, Eq, Debug)]
pub struct Chain {
    pub last_live: Option<Block>,
}

/// The chain after a block is inserted: only `Live` blocks are retained.
pub open spec fn chain_insert(c: Chain, block: Block) -> Chain {
    if block.event == Event::Live {
        Chain { last_live: Some(block) }
    } else {
        c
    }
}

/// The chain after another chain is merged in: the other side's most recent
/// `Live` block wins if it has one.
pub open spec fn chain_extend(c: Chain, other: Chain) -> Chain {
    if other.last_live is Some {
        other
    } else {
        c
    }
}

impl Chain {
    /// Creates an empty chain.
    pub fn new() -> (r: Chain)
        ensures
            r == (Chain { last_live: None::<Block> }),
    {
        Chain { last_live: None }
    }

    /// Appends a block; only `Live` blocks are retained.
    pub fn insert(&mut self, block: Block)
        ensures
            *final(self) == chain_insert(*old(self), block),
    {
        if let Event::Live = block.event {
            self.last_live = Some(block);
        }
    }

    /// Merges another chain in, keeping its most recent `Live` block if any.
    pub fn extend(&mut self, other: Chain)
        ensures
            *final(self) == chain_extend(*old(self), other),
    {
        if let Some(block) = other.last_live {
            self.last_live = Some(block);
        }
    }

    /// The most recent `Live` block, if any exists yet.
    pub fn last_live(&self) -> (r: Option<Block>)
        ensures
            r == self.last_live,
    {
        self.last_live
    }
}

} // verus!
