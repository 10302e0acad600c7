//! Names and binary prefixes.
//!
//! A [`Name`] is a 64-bit unsigned integer identifying a node.  A [`Prefix`]
//! is a binary string of up to 64 bits, stored left-aligned in a `u64`; it
//! denotes the set of names whose top bits equal the prefix.  The prefixes of
//! all sections partition the whole name space.

use vstd::prelude::*;

verus! {

/// A network name identifying a node.
#[derive(Clone, Copy, PartialEq, Eq, Structural, Debug, Hash)]
pub struct Name(pub u64);

/// A binary prefix: the top `len` bits of `bits`; all lower bits are zero.
#[derive(Clone, Copy, PartialEq, Eq, Structural, Debug, Hash)]
pub struct Prefix {
    pub bits: u64,
    pub len: u64,
}

/// The mask selecting the top `len` bits of a name.
pub open spec fn mask_of(len: u64) -> u64 {
    if len == 0 {
        0u64
    } else {
        (!0u64) << ((64 - len) as u64)
    }
}

impl Prefix {
    /// A prefix is well formed when its length is at most 64 and no bit below
    /// the prefix length is set.
    pub open spec fn wf(self) -> bool {
        &&& self.len <= 64
        &&& self.bits & mask_of(self.len) == self.bits
    }

    pub open spec fn spec_len(self) -> u64 {
        self.len
    }

    pub open spec fn spec_bits(self) -> u64 {
        self.bits
    }

    /// The empty prefix, which matches every name.
    pub open spec fn empty_spec() -> Prefix {
        Prefix { bits: 0, len: 0 }
    }

    /// Whether the top `len` bits of `name` equal the prefix.
    pub open spec fn spec_matches(self, name: Name) -> bool {
        name.0 & mask_of(self.len) == self.bits
    }

    /// The prefix one bit longer, with `bit & 1` appended.
    pub open spec fn spec_extend(self, bit: u8) -> Prefix {
        Prefix {
            bits: self.bits | (((bit as u64) & 1) << ((63 - self.len) as u64)),
            len: (self.len + 1) as u64,
        }
    }

    /// The prefix one bit shorter; the empty prefix shortens to itself.
    pub open spec fn spec_shorten(self) -> Prefix {
        if self.len == 0 {
            self
        } else {
            Prefix {
                bits: self.bits & (mask_of(self.len) << 1),
                len: (self.len - 1) as u64,
            }
        }
    }

    /// The same prefix with the bit at position `bit` (from the top) flipped.
    pub open spec fn spec_with_flipped_bit(self, bit: u64) -> Prefix {
        Prefix { bits: self.bits ^ (1u64 << ((63 - bit) as u64)), len: self.len }
    }

    /// The prefix differing from `self` in its last bit only.
    pub open spec fn spec_sibling(self) -> Prefix {
        if self.len == 0 {
            self
        } else {
            self.spec_with_flipped_bit((self.len - 1) as u64)
        }
    }

    pub open spec fn spec_is_ancestor(self, other: Prefix) -> bool {
        self.len <= other.len && self.spec_matches(Name(other.bits))
    }

    pub open spec fn spec_is_compatible_with(self, other: Prefix) -> bool {
        self.spec_is_ancestor(other) || other.spec_is_ancestor(self)
    }

    /// `name` with its top `len` bits replaced by the prefix bits.
    pub open spec fn spec_substituted_in(self, name: Name) -> Name {
        Name((name.0 & !mask_of(self.len)) | self.bits)
    }

    /// Creates the empty prefix.
    pub fn empty() -> (r: Prefix)
        ensures
            r == Prefix::empty_spec(),
            r.wf(),
    {
        proof {
            assert(0u64 & 0u64 == 0u64) by (bit_vector);
        }
        Prefix { bits: 0, len: 0 }
    }

    /// Checks well-formedness of a prefix received from outside.
    pub fn check_wf(&self) -> (r: bool)
        ensures
            r == self.wf(),
    {
        if self.len > 64 {
            return false;
        }
        (self.bits & self.len_mask()) == self.bits
    }

    /// The number of bits in the prefix.
    pub fn len(&self) -> (r: u64)
        ensures
            r == self.len,
    {
        self.len
    }

    /// The raw bit pattern of the prefix, left-aligned.
    pub fn bits(&self) -> (r: u64)
        ensures
            r == self.bits,
    {
        self.bits
    }

    fn len_mask(&self) -> (r: u64)
        requires
            self.len <= 64,
        ensures
            r == mask_of(self.len),
    {
        if self.len == 0 {
            0
        } else {
            (!0u64) << (64 - self.len)
        }
    }

    /// Appends one bit to the prefix.
    pub fn extend(self, bit: u8) -> (r: Prefix)
        requires
            self.wf(),
            self.len < 64,
        ensures
            r == self.spec_extend(bit),
            r.wf(),
            r.len == self.len + 1,
    {
        proof {
            lemma_extend_wf(self.bits, self.len, bit);
        }
        let b = ((bit as u64) & 1) << (63 - self.len);
        Prefix { bits: self.bits | b, len: self.len + 1 }
    }

    /// Removes the last bit of the prefix; identity on the empty prefix.
    pub fn shorten(self) -> (r: Prefix)
        requires
            self.wf(),
        ensures
            r == self.spec_shorten(),
            r.wf(),
    {
        if self.len < 1 {
            return self;
        }
        proof {
            lemma_shorten_wf(self.bits, self.len);
        }
        let mask = self.len_mask() << 1;
        Prefix { bits: self.bits & mask, len: self.len - 1 }
    }

    /// Both one-bit extensions of the prefix, in bit order.
    pub fn split(self) -> (r: (Prefix, Prefix))
        requires
            self.wf(),
            self.len < 64,
        ensures
            r.0 == self.spec_extend(0),
            r.1 == self.spec_extend(1),
            r.0.wf(),
            r.1.wf(),
    {
        (self.extend(0), self.extend(1))
    }

    /// The prefix differing in the last bit; identity on the empty prefix.
    pub fn sibling(self) -> (r: Prefix)
        requires
            self.wf(),
        ensures
            r == self.spec_sibling(),
            r.wf(),
    {
        if self.len > 0 {
            self.with_flipped_bit(self.len - 1)
        } else {
            self
        }
    }

    /// Flips the bit at position `bit` counted from the top.
    pub fn with_flipped_bit(self, bit: u64) -> (r: Prefix)
        requires
            self.wf(),
            bit < self.len,
        ensures
            r == self.spec_with_flipped_bit(bit),
            r.wf(),
            r.len == self.len,
    {
        proof {
            lemma_flip_wf(self.bits, self.len, bit);
        }
        let mask = 1u64 << (63 - bit);
        Prefix { bits: self.bits ^ mask, len: self.len }
    }

    /// Whether the top `len` bits of `name` equal the prefix.
    pub fn matches(&self, name: Name) -> (r: bool)
        requires
            self.wf(),
        ensures
            r == self.spec_matches(name),
    {
        (name.0 & self.len_mask()) == self.bits
    }

    /// Whether `self` is a (not necessarily proper) leading piece of `other`.
    pub fn is_ancestor(&self, other: &Prefix) -> (r: bool)
        requires
            self.wf(),
            other.wf(),
        ensures
            r == self.spec_is_ancestor(*other),
    {
        self.len <= other.len && self.matches(Name(other.bits))
    }

    /// Whether `other` is an ancestor of `self`.
    pub fn is_descendant(&self, other: &Prefix) -> (r: bool)
        requires
            self.wf(),
            other.wf(),
        ensures
            r == other.spec_is_ancestor(*self),
    {
        other.is_ancestor(self)
    }

    /// Whether one of the two prefixes is an ancestor of the other.
    pub fn is_compatible_with(&self, other: &Prefix) -> (r: bool)
        requires
            self.wf(),
            other.wf(),
        ensures
            r == self.spec_is_compatible_with(*other),
    {
        self.is_ancestor(other) || self.is_descendant(other)
    }

    /// Whether `other` is exactly `self` with the last bit flipped.
    pub fn is_sibling(&self, other: &Prefix) -> (r: bool)
        requires
            self.wf(),
            other.wf(),
        ensures
            r == (self.len > 0 && *other == self.spec_sibling()),
    {
        if self.len > 0 {
            let flipped = self.with_flipped_bit(self.len - 1);
            flipped.bits == other.bits && flipped.len == other.len
        } else {
            false
        }
    }

    /// Whether the two prefixes differ in exactly one bit of their overlap,
    /// computed through the position of the first differing bit.
    pub fn is_neighbour(&self, other: &Prefix) -> (r: bool)
        requires
            self.wf(),
            other.wf(),
        ensures
            r == spec_is_neighbour(*self, *other),
    {
        let ghost o: u64 = if self.len <= other.len {
            self.len
        } else {
            other.len
        };
        let diff = self.bits ^ other.bits;
        let bit = diff.leading_zeros() as u64;
        proof {
            vstd::std_specs::bits::axiom_u64_leading_zeros(diff);
        }
        if bit < self.len && bit < other.len {
            let flipped_bits = self.bits ^ (1u64 << (63 - bit));
            let diff2 = flipped_bits ^ other.bits;
            let bit2 = diff2.leading_zeros() as u64;
            proof {
                vstd::std_specs::bits::axiom_u64_leading_zeros(diff2);
                let sb = self.bits;
                let ob = other.bits;
                assert((sb ^ (1u64 << ((63 - bit) as u64))) ^ ob == (sb ^ ob) ^ (1u64 << ((63
                    - bit) as u64))) by (bit_vector);
            }
            if bit2 >= self.len || bit2 >= other.len {
                proof {
                    lemma_neighbour_forward(diff, diff2, bit, bit2, o);
                }
                true
            } else {
                proof {
                    lemma_neighbour_none(diff, diff2, bit, bit2, o);
                }
                false
            }
        } else {
            proof {
                if spec_is_neighbour(*self, *other) {
                    let k = choose|k: u64|
                        k < o && diff & mask_of(o) == #[trigger] (1u64 << ((63 - k) as u64));
                    lemma_neighbour_first_bit(diff, k, o);
                    assert(bit == k);
                }
            }
            false
        }
    }

    /// Replaces the top `len` bits of `name` by the prefix bits, so that the
    /// result matches the prefix.
    pub fn substituted_in(&self, name: Name) -> (r: Name)
        requires
            self.wf(),
        ensures
            r == self.spec_substituted_in(name),
    {
        Name((name.0 & !self.len_mask()) | self.bits)
    }
}

/// Whether the two prefixes differ in exactly one bit of their overlap:
/// restricted to their common length, the prefixes' bits differ in a single
/// position.
pub open spec fn spec_is_neighbour(a: Prefix, b: Prefix) -> bool {
    let o = if a.len <= b.len {
        a.len
    } else {
        b.len
    };
    exists|k: u64| k < o && (a.bits ^ b.bits) & mask_of(o) == #[trigger] (1u64 << ((63 - k) as u64))
}

proof fn lemma_extend_wf(bits: u64, len: u64, bit: u8)
    requires
        len < 64,
        bits & mask_of(len) == bits,
    ensures
        (bits | (((bit as u64) & 1) << ((63 - len) as u64))) & mask_of((len + 1) as u64) == (bits
            | (((bit as u64) & 1) << ((63 - len) as u64))),
{
    let b = (bit as u64) & 1;
    assert((bits | (b << ((63 - len) as u64))) & ((!0u64) << ((64 - (len + 1)) as u64)) == (bits | (
    b << ((63 - len) as u64)))) by (bit_vector)
        requires
            len < 64,
            b == (bit as u64) & 1,
            bits & (if len == 0 {
                0u64
            } else {
                (!0u64) << ((64 - len) as u64)
            }) == bits,
    ;
}

proof fn lemma_shorten_wf(bits: u64, len: u64)
    requires
        1 <= len <= 64,
        bits & mask_of(len) == bits,
    ensures
        (bits & (mask_of(len) << 1)) & mask_of((len - 1) as u64) == (bits & (mask_of(len) << 1)),
{
    assert((bits & (((!0u64) << ((64 - len) as u64)) << 1)) & (if len == 1 {
        0u64
    } else {
        (!0u64) << ((64 - (len - 1)) as u64)
    }) == (bits & (((!0u64) << ((64 - len) as u64)) << 1))) by (bit_vector)
        requires
            1 <= len <= 64,
    ;
}

proof fn lemma_flip_wf(bits: u64, len: u64, bit: u64)
    requires
        len <= 64,
        bit < len,
        bits & mask_of(len) == bits,
    ensures
        (bits ^ (1u64 << ((63 - bit) as u64))) & mask_of(len) == (bits ^ (1u64 << ((63 - bit)
            as u64))),
{
    assert((bits ^ (1u64 << ((63 - bit) as u64))) & ((!0u64) << ((64 - len) as u64)) == (bits ^ (
    1u64 << ((63 - bit) as u64)))) by (bit_vector)
        requires
            1 <= len <= 64,
            bit < len,
            bits & ((!0u64) << ((64 - len) as u64)) == bits,
    ;
}

/// Shortening an extension restores the original prefix.
pub proof fn lemma_shorten_extend(p: Prefix, bit: u8)
    requires
        p.wf(),
        p.spec_len() < 64,
    ensures
        p.spec_extend(bit).spec_shorten() == p,
{
    let b = (bit as u64) & 1;
    let bits = p.spec_bits();
    let len = p.spec_len();
    assert((bits | (b << ((63 - len) as u64))) & (((!0u64) << ((64 - (len + 1)) as u64)) << 1)
        == bits) by (bit_vector)
        requires
            len < 64,
            b == (bit as u64) & 1,
            bits & (if len == 0 {
                0u64
            } else {
                (!0u64) << ((64 - len) as u64)
            }) == bits,
    ;
}

/// A name with a prefix substituted in matches that prefix.
pub proof fn lemma_matches_substituted(p: Prefix, name: Name)
    requires
        p.wf(),
    ensures
        p.spec_matches(p.spec_substituted_in(name)),
{
    let bits = p.spec_bits();
    let len = p.spec_len();
    let n = name.0;
    assert(((n & !(if len == 0 {
        0u64
    } else {
        (!0u64) << ((64 - len) as u64)
    })) | bits) & (if len == 0 {
        0u64
    } else {
        (!0u64) << ((64 - len) as u64)
    }) == bits) by (bit_vector)
        requires
            len <= 64,
            bits & (if len == 0 {
                0u64
            } else {
                (!0u64) << ((64 - len) as u64)
            }) == bits,
    ;
}

/// A name matches a prefix exactly when it matches exactly one of its two
/// one-bit extensions: the two children of a prefix partition the names the
/// parent covers.
pub proof fn lemma_split_cover(p: Prefix, name: Name)
    requires
        p.wf(),
        p.spec_len() < 64,
    ensures
        p.spec_matches(name) <==> (p.spec_extend(0).spec_matches(name) || p.spec_extend(
            1,
        ).spec_matches(name)),
        !(p.spec_extend(0).spec_matches(name) && p.spec_extend(1).spec_matches(name)),
{
    let bits = p.spec_bits();
    let len = p.spec_len();
    let n = name.0;
    let m = mask_of(len);
    let m1 = mask_of((len + 1) as u64);
    let hi = 1u64 << ((63 - len) as u64);
    assert(m1 == (!0u64) << ((64 - (len + 1)) as u64));
    assert(((n & m == bits) <==> ((n & m1 == bits) || (n & m1 == (bits | hi)))) && !((n & m1
        == bits) && (n & m1 == (bits | hi)))) by (bit_vector)
        requires
            len < 64,
            m == (if len == 0 {
                0u64
            } else {
                (!0u64) << ((64 - len) as u64)
            }),
            m1 == (!0u64) << ((64 - (len + 1)) as u64),
            hi == 1u64 << ((63 - len) as u64),
            bits & m == bits,
    ;
    assert((0u64 & 1) == 0u64 && (1u64 & 1) == 1u64) by (bit_vector);
    assert(bits | (0u64 << ((63 - len) as u64)) == bits) by (bit_vector);
    assert(p.spec_extend(0).spec_bits() == bits);
    assert(p.spec_extend(1).spec_bits() == bits | hi);
}

/// Two prefixes matching a common name are compatible: one is an ancestor of
/// the other.
pub proof fn lemma_common_name_compatible(a: Prefix, b: Prefix, name: Name)
    requires
        a.wf(),
        b.wf(),
        a.spec_matches(name),
        b.spec_matches(name),
    ensures
        a.spec_is_compatible_with(b),
{
    let n = name.0;
    if a.spec_len() <= b.spec_len() {
        lemma_shorter_matches(a, b, name);
    } else {
        lemma_shorter_matches(b, a, name);
    }
}

/// If a shorter and a longer prefix both match a name, the shorter is an
/// ancestor of the longer.
proof fn lemma_shorter_matches(a: Prefix, b: Prefix, name: Name)
    requires
        a.wf(),
        b.wf(),
        a.spec_len() <= b.spec_len(),
        a.spec_matches(name),
        b.spec_matches(name),
    ensures
        a.spec_is_ancestor(b),
{
    let n = name.0;
    let la = a.spec_len();
    let lb = b.spec_len();
    let ba = a.spec_bits();
    let bb = b.spec_bits();
    assert(bb & (if la == 0 {
        0u64
    } else {
        (!0u64) << ((64 - la) as u64)
    }) == ba) by (bit_vector)
        requires
            la <= lb <= 64,
            n & (if la == 0 {
                0u64
            } else {
                (!0u64) << ((64 - la) as u64)
            }) == ba,
            n & (if lb == 0 {
                0u64
            } else {
                (!0u64) << ((64 - lb) as u64)
            }) == bb,
            bb & (if lb == 0 {
                0u64
            } else {
                (!0u64) << ((64 - lb) as u64)
            }) == bb,
    ;
}

/// With exactly one differing bit at position `k` of the overlap, the first
/// differing bit of the full XOR is `k` itself.
proof fn lemma_neighbour_first_bit(diff: u64, k: u64, o: u64)
    requires
        1 <= o <= 64,
        k < o,
        diff & mask_of(o) == 1u64 << ((63 - k) as u64),
    ensures
        vstd::std_specs::bits::u64_leading_zeros(diff) == k,
{
    vstd::std_specs::bits::axiom_u64_leading_zeros(diff);
    let lz = vstd::std_specs::bits::u64_leading_zeros(diff) as u64;
    assert(diff != 0) by (bit_vector)
        requires
            1 <= o <= 64,
            k < o,
            diff & ((!0u64) << ((64 - o) as u64)) == 1u64 << ((63 - k) as u64),
    ;
    assert(lz < 64);
    assert((diff >> ((63 - lz) as u64)) & 1u64 != 0u64);
    assert(diff >> ((64 - lz) as u64) == 0u64);
    assert(lz == k) by (bit_vector)
        requires
            1 <= o <= 64,
            k < o,
            lz < 64,
            diff & ((!0u64) << ((64 - o) as u64)) == 1u64 << ((63 - k) as u64),
            (diff >> ((63 - lz) as u64)) & 1u64 != 0u64,
            diff >> ((64 - lz) as u64) == 0u64,
    ;
}

/// When the scan accepts: the first differing bit lies in the overlap and
/// no second one does, so the overlap XOR is that single bit.
proof fn lemma_neighbour_forward(diff: u64, diff2: u64, bit: u64, bit2: u64, o: u64)
    requires
        1 <= o <= 64,
        bit < o,
        bit2 >= o,
        bit == vstd::std_specs::bits::u64_leading_zeros(diff),
        bit2 == vstd::std_specs::bits::u64_leading_zeros(diff2),
        diff2 == diff ^ (1u64 << ((63 - bit) as u64)),
    ensures
        diff & mask_of(o) == 1u64 << ((63 - bit) as u64),
{
    vstd::std_specs::bits::axiom_u64_leading_zeros(diff2);
    assert(bit2 <= 64);
    assert(diff2 >> ((64 - bit2) as u64) == 0u64);
    assert(diff & ((!0u64) << ((64 - o) as u64)) == 1u64 << ((63 - bit) as u64)) by (bit_vector)
        requires
            1 <= o <= 64,
            bit < o,
            o <= bit2 <= 64,
            diff2 == diff ^ (1u64 << ((63 - bit) as u64)),
            diff2 >> ((64 - bit2) as u64) == 0u64,
    ;
}

/// When the scan finds a second differing bit in the overlap, no single
/// position can account for the whole overlap XOR.
proof fn lemma_neighbour_none(diff: u64, diff2: u64, bit: u64, bit2: u64, o: u64)
    requires
        1 <= o <= 64,
        bit < o,
        bit2 < o,
        bit == vstd::std_specs::bits::u64_leading_zeros(diff),
        bit2 == vstd::std_specs::bits::u64_leading_zeros(diff2),
        diff2 == diff ^ (1u64 << ((63 - bit) as u64)),
    ensures
        forall|k: u64| k < o ==> diff & mask_of(o) != #[trigger] (1u64 << ((63 - k) as u64)),
{
    vstd::std_specs::bits::axiom_u64_leading_zeros(diff);
    vstd::std_specs::bits::axiom_u64_leading_zeros(diff2);
    assert(bit < 64 && bit2 < 64);
    assert((diff >> ((63 - bit) as u64)) & 1u64 != 0u64);
    assert(diff >> ((64 - bit) as u64) == 0u64);
    assert((diff2 >> ((63 - bit2) as u64)) & 1u64 != 0u64);
    assert forall|k: u64| k < o implies diff & mask_of(o) != #[trigger] (1u64 << ((63 - k)
        as u64)) by {
        assert(diff & ((!0u64) << ((64 - o) as u64)) != 1u64 << ((63 - k) as u64)) by (bit_vector)
            requires
                1 <= o <= 64,
                k < o,
                bit < o,
                bit2 < o,
                bit < 64,
                bit2 < 64,
                diff2 == diff ^ (1u64 << ((63 - bit) as u64)),
                (diff >> ((63 - bit) as u64)) & 1u64 != 0u64,
                diff >> ((64 - bit) as u64) == 0u64,
                (diff2 >> ((63 - bit2) as u64)) & 1u64 != 0u64,
        ;
    }
}

/// Whether some prefix of the list matches the name.
pub open spec fn covered(ps: Seq<Prefix>, n: Name) -> bool {
    exists|i: int| 0 <= i < ps.len() && (#[trigger] ps[i]).spec_matches(n)
}

/// Whether at most one prefix of the list matches the name.
pub open spec fn uniquely_covered(ps: Seq<Prefix>, n: Name) -> bool {
    forall|i: int, j: int|
        0 <= i < ps.len() && 0 <= j < ps.len() && (#[trigger] ps[i]).spec_matches(n) && (
        #[trigger] ps[j]).spec_matches(n) ==> i == j
}

/// The partition invariant: the prefixes are well formed and every 64-bit
/// name is matched by exactly one of them.
pub open spec fn is_partition(ps: Seq<Prefix>) -> bool {
    &&& forall|i: int| 0 <= i < ps.len() ==> (#[trigger] ps[i]).wf()
    &&& forall|n: Name| #[trigger] covered(ps, n) && uniquely_covered(ps, n)
}

/// Extending a well-formed prefix keeps it well formed.
pub proof fn lemma_spec_extend_wf(p: Prefix, bit: u8)
    requires
        p.wf(),
        p.len < 64,
    ensures
        p.spec_extend(bit).wf(),
{
    lemma_extend_wf(p.bits, p.len, bit);
}

/// A well-formed prefix matches the name made of its own bits.
pub proof fn lemma_matches_own_bits(p: Prefix)
    requires
        p.wf(),
    ensures
        p.spec_matches(Name(p.bits)),
{
    let bits = p.bits;
    let len = p.len;
    assert(bits & (if len == 0 {
        0u64
    } else {
        (!0u64) << ((64 - len) as u64)
    }) == bits ==> bits & (if len == 0 {
        0u64
    } else {
        (!0u64) << ((64 - len) as u64)
    }) == bits) by (bit_vector);
}

/// Replacing one prefix of a partition by its two one-bit extensions keeps
/// the partition: a split preserves the cover of the name space.
pub proof fn lemma_split_preserves_partition(ps: Seq<Prefix>, i: int)
    requires
        is_partition(ps),
        0 <= i < ps.len(),
        ps[i].len < 64,
    ensures
        is_partition(ps.remove(i).push(ps[i].spec_extend(0)).push(ps[i].spec_extend(1))),
{
    let parent = ps[i];
    let c0 = parent.spec_extend(0);
    let c1 = parent.spec_extend(1);
    let r = ps.remove(i).push(c0).push(c1);
    let m = ps.len() - 1;
    lemma_spec_extend_wf(parent, 0);
    lemma_spec_extend_wf(parent, 1);
    assert(forall|j: int| 0 <= j < m ==> r[j] == (if j < i {
        ps[j]
    } else {
        ps[j + 1]
    }));
    assert(r[m] == c0 && r[m + 1] == c1);
    assert(forall|j: int| 0 <= j < r.len() ==> (#[trigger] r[j]).wf());
    assert forall|n: Name| #[trigger] covered(r, n) && uniquely_covered(r, n) by {
        lemma_split_cover(parent, n);
        assert(covered(ps, n));
        assert(uniquely_covered(ps, n));
        let w = choose|w: int| 0 <= w < ps.len() && (#[trigger] ps[w]).spec_matches(n);
        if w == i {
            if c0.spec_matches(n) {
                assert(r[m].spec_matches(n));
            } else {
                assert(c1.spec_matches(n));
                assert(r[m + 1].spec_matches(n));
            }
        } else {
            if w < i {
                assert(r[w].spec_matches(n));
            } else {
                assert(r[w - 1].spec_matches(n));
            }
        }
        assert(covered(r, n));
        assert forall|a: int, b: int|
            0 <= a < r.len() && 0 <= b < r.len() && (#[trigger] r[a]).spec_matches(n) && (
            #[trigger] r[b]).spec_matches(n) implies a == b by {
            let oa = if a < i {
                a
            } else if a < m {
                a + 1
            } else {
                i
            };
            let ob = if b < i {
                b
            } else if b < m {
                b + 1
            } else {
                i
            };
            assert(ps[oa].spec_matches(n)) by {
                if a >= m {
                    assert(r[a] == c0 || r[a] == c1);
                }
            }
            assert(ps[ob].spec_matches(n)) by {
                if b >= m {
                    assert(r[b] == c0 || r[b] == c1);
                }
            }
            assert(oa == ob);
        }
    }
}

/// The prefixes of the list that are not below the target.
pub open spec fn survivors(ps: Seq<Prefix>, target: Prefix) -> Seq<Prefix> {
    ps.filter(|p: Prefix| !target.spec_is_ancestor(p))
}

/// The single empty prefix partitions the whole name space.
pub proof fn lemma_single_empty_partition()
    ensures
        is_partition(seq![Prefix { bits: 0, len: 0 }]),
{
    let ps = seq![Prefix { bits: 0, len: 0 }];
    assert(ps[0].wf()) by {
        assert(0u64 & 0u64 == 0u64) by (bit_vector);
    }
    assert forall|n: Name| #[trigger] covered(ps, n) && uniquely_covered(ps, n) by {
        assert(n.0 & 0u64 == 0u64) by (bit_vector);
        assert(ps[0].spec_matches(n));
    }
}

/// A duplicate-free rearrangement of a partition is a partition.
pub proof fn lemma_partition_transfer(ps: Seq<Prefix>, qs: Seq<Prefix>)
    requires
        is_partition(ps),
        forall|i: int, j: int| 0 <= i < j < qs.len() ==> qs[i] != qs[j],
        forall|p: Prefix| ps.contains(p) <==> qs.contains(p),
    ensures
        is_partition(qs),
{
    assert forall|i: int| 0 <= i < qs.len() implies (#[trigger] qs[i]).wf() by {
        assert(qs.contains(qs[i]));
        let k = choose|k: int| 0 <= k < ps.len() && ps[k] == qs[i];
    }
    assert forall|n: Name| #[trigger] covered(qs, n) && uniquely_covered(qs, n) by {
        assert(covered(ps, n) && uniquely_covered(ps, n));
        let w = choose|w: int| 0 <= w < ps.len() && (#[trigger] ps[w]).spec_matches(n);
        assert(ps.contains(ps[w]));
        let v = choose|v: int| 0 <= v < qs.len() && qs[v] == ps[w];
        assert(qs[v].spec_matches(n));
        assert(covered(qs, n));
        assert forall|a: int, b: int|
            0 <= a < qs.len() && 0 <= b < qs.len() && (#[trigger] qs[a]).spec_matches(n) && (
            #[trigger] qs[b]).spec_matches(n) implies a == b by {
            if a != b {
                assert(qs.contains(qs[a]));
                assert(qs.contains(qs[b]));
                let ia = choose|k: int| 0 <= k < ps.len() && ps[k] == qs[a];
                let ib = choose|k: int| 0 <= k < ps.len() && ps[k] == qs[b];
                assert(ps[ia].spec_matches(n) && ps[ib].spec_matches(n));
                assert(ia == ib);
                assert(qs[a] == qs[b]);
                if a < b {
                    assert(qs[a] != qs[b]);
                } else {
                    assert(qs[b] != qs[a]);
                }
            }
        }
    }
}

/// Membership in the survivors of a merge: the prefixes kept are exactly
/// those not below the target.
pub proof fn lemma_survivors_contains(ps: Seq<Prefix>, target: Prefix, p: Prefix)
    ensures
        survivors(ps, target).contains(p) <==> (ps.contains(p) && !target.spec_is_ancestor(p)),
{
    let keep = |q: Prefix| !target.spec_is_ancestor(q);
    if survivors(ps, target).contains(p) {
        lemma_prefix_filter_subset(ps, keep, p);
        let i = choose|i: int| 0 <= i < ps.filter(keep).len() && ps.filter(keep)[i] == p;
        assert(keep(ps.filter(keep)[i]));
    }
    if ps.contains(p) && !target.spec_is_ancestor(p) {
        let i = choose|i: int| 0 <= i < ps.len() && ps[i] == p;
        assert(ps.filter(keep).contains(ps[i]));
    }
}

/// Every element of a filtered prefix list is an element of the original.
proof fn lemma_prefix_filter_subset(s: Seq<Prefix>, p: spec_fn(Prefix) -> bool, x: Prefix)
    requires
        s.filter(p).contains(x),
    ensures
        s.contains(x),
    decreases s.len(),
{
    reveal(Seq::filter);
    if s.len() > 0 {
        if s.last() == x {
            assert(s[s.len() - 1] == x);
        } else {
            lemma_prefix_filter_subset(s.drop_last(), p, x);
            let i = choose|i: int| 0 <= i < s.drop_last().len() && s.drop_last()[i] == x;
            assert(s[i] == x);
        }
    }
}

/// A partition holds no prefix twice: both copies would match the name
/// made of the prefix's own bits.
pub proof fn lemma_partition_distinct(ps: Seq<Prefix>, i: int, j: int)
    requires
        is_partition(ps),
        0 <= i < ps.len(),
        0 <= j < ps.len(),
        i != j,
    ensures
        ps[i] != ps[j],
{
    if ps[i] == ps[j] {
        let w = Name(ps[i].bits);
        lemma_matches_own_bits(ps[i]);
        assert(covered(ps, w));
        assert(uniquely_covered(ps, w));
    }
}

/// Filtering a duplicate-free prefix list keeps it duplicate-free.
proof fn lemma_prefix_filter_distinct(s: Seq<Prefix>, p: spec_fn(Prefix) -> bool)
    requires
        forall|i: int, j: int| 0 <= i < j < s.len() ==> s[i] != s[j],
    ensures
        forall|i: int, j: int| 0 <= i < j < s.filter(p).len() ==> s.filter(p)[i] != s.filter(p)[j],
    decreases s.len(),
{
    reveal(Seq::filter);
    if s.len() > 0 {
        assert(forall|i: int, j: int|
            0 <= i < j < s.drop_last().len() ==> s.drop_last()[i] != s.drop_last()[j]);
        lemma_prefix_filter_distinct(s.drop_last(), p);
        if p(s.last()) {
            let f = s.drop_last().filter(p);
            assert forall|i: int| 0 <= i < f.len() implies f[i] != s.last() by {
                assert(f.contains(f[i]));
                lemma_prefix_filter_subset(s.drop_last(), p, f[i]);
                let j = choose|j: int| 0 <= j < s.drop_last().len() && s.drop_last()[j] == f[i];
                assert(s[j] == f[i]);
                assert(s[j] != s[s.len() - 1]);
            }
        }
    }
}

/// Replacing every prefix below a target by the target itself keeps the
/// partition, provided at least one such prefix existed: a merge preserves
/// the cover of the name space.
pub proof fn lemma_merge_preserves_partition(ps: Seq<Prefix>, target: Prefix)
    requires
        is_partition(ps),
        target.wf(),
        exists|i: int| 0 <= i < ps.len() && target.spec_is_ancestor(#[trigger] ps[i]),
    ensures
        is_partition(survivors(ps, target).push(target)),
{
    let keep = |p: Prefix| !target.spec_is_ancestor(p);
    let f = ps.filter(keep);
    let r = f.push(target);
    let last = r.len() - 1;
    let d = choose|i: int| 0 <= i < ps.len() && target.spec_is_ancestor(#[trigger] ps[i]);
    assert forall|i: int, j: int| 0 <= i < j < ps.len() implies ps[i] != ps[j] by {
        lemma_partition_distinct(ps, i, j);
    }
    lemma_prefix_filter_distinct(ps, keep);
    assert forall|j: int| 0 <= j < r.len() implies (#[trigger] r[j]).wf() by {
        if j < last {
            assert(f.contains(f[j]));
            lemma_prefix_filter_subset(ps, keep, f[j]);
            let k = choose|k: int| 0 <= k < ps.len() && ps[k] == f[j];
        }
    }
    // no strict ancestor of the target survives in ps
    assert forall|k: int|
        0 <= k < ps.len() && (#[trigger] ps[k]).spec_is_ancestor(target) && !target.spec_is_ancestor(
        ps[k],
    ) implies false by {
        let witness = Name(ps[d].bits);
        lemma_matches_own_bits(ps[d]);
        lemma_ancestor_matches(target, ps[d], witness);
        lemma_ancestor_matches(ps[k], target, witness);
        assert(covered(ps, witness));
        assert(uniquely_covered(ps, witness));
        assert(k == d);
        assert(target.spec_is_ancestor(ps[d]));
    }
    assert forall|n: Name| #[trigger] covered(r, n) && uniquely_covered(r, n) by {
        assert(covered(ps, n));
        assert(uniquely_covered(ps, n));
        let w = choose|w: int| 0 <= w < ps.len() && (#[trigger] ps[w]).spec_matches(n);
        if target.spec_is_ancestor(ps[w]) {
            lemma_ancestor_matches(target, ps[w], n);
            assert(r[last].spec_matches(n));
        } else {
            assert(f.contains(ps[w]));
            let j = choose|j: int| 0 <= j < f.len() && f[j] == ps[w];
            assert(r[j].spec_matches(n));
        }
        assert(covered(r, n));
        assert forall|a: int, b: int|
            0 <= a < r.len() && 0 <= b < r.len() && (#[trigger] r[a]).spec_matches(n) && (
            #[trigger] r[b]).spec_matches(n) implies a == b by {
            if a != b {
                if a < last && b < last {
                    assert(f.contains(f[a]));
                    assert(f.contains(f[b]));
                    lemma_prefix_filter_subset(ps, keep, f[a]);
                    lemma_prefix_filter_subset(ps, keep, f[b]);
                    let ka = choose|k: int| 0 <= k < ps.len() && ps[k] == f[a];
                    let kb = choose|k: int| 0 <= k < ps.len() && ps[k] == f[b];
                    assert(ps[ka].spec_matches(n) && ps[kb].spec_matches(n));
                    assert(ka == kb);
                    assert(f[a] == f[b]);
                    if a < b {
                        assert(f[a] != f[b]);
                    } else {
                        assert(f[b] != f[a]);
                    }
                } else {
                    let o = if a < last {
                        a
                    } else {
                        b
                    };
                    assert(0 <= o < last);
                    assert(r[o].spec_matches(n) && target.spec_matches(n));
                    assert(f.contains(f[o]));
                    lemma_prefix_filter_subset(ps, keep, f[o]);
                    let ko = choose|k: int| 0 <= k < ps.len() && ps[k] == f[o];
                    lemma_common_name_compatible(ps[ko], target, n);
                    assert(!target.spec_is_ancestor(ps[ko])) by {
                        let q = choose|q: int| 0 <= q < f.len() && f[q] == ps[ko];
                    }
                    assert(ps[ko].spec_is_ancestor(target));
                }
            }
        }
    }
}

/// An ancestor matches every name its descendant matches.
pub proof fn lemma_ancestor_matches(a: Prefix, b: Prefix, name: Name)
    requires
        a.wf(),
        b.wf(),
        a.spec_is_ancestor(b),
        b.spec_matches(name),
    ensures
        a.spec_matches(name),
{
    let n = name.0;
    let la = a.spec_len();
    let lb = b.spec_len();
    let ba = a.spec_bits();
    let bb = b.spec_bits();
    assert(n & (if la == 0 {
        0u64
    } else {
        (!0u64) << ((64 - la) as u64)
    }) == ba) by (bit_vector)
        requires
            la <= lb <= 64,
            bb & (if la == 0 {
                0u64
            } else {
                (!0u64) << ((64 - la) as u64)
            }) == ba,
            n & (if lb == 0 {
                0u64
            } else {
                (!0u64) << ((64 - lb) as u64)
            }) == bb,
            bb & (if lb == 0 {
                0u64
            } else {
                (!0u64) << ((64 - lb) as u64)
            }) == bb,
    ;
}

} // verus!
