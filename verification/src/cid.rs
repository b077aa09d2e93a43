//! Commit identifiers: a 29-byte value made of one collision-break byte
//! followed by a 28-byte content digest.

use vstd::prelude::*;

verus! {

/// A 29-byte commit identifier. Byte 0 is the collision-break byte (0 by
/// default, incremented to avoid record-name collisions while preserving
/// semantic equality); bytes 1..29 are the content digest.
#[derive(Debug, Clone, Copy)]
pub struct U232 {
    bytes: [u8; 29],
}

impl PartialEq for U232 {
    fn eq(&self, other: &U232) -> (r: bool) {
        let mut i: usize = 0;
        while i < 29
            invariant
                i <= 29,
                forall|j: int| 0 <= j < i ==> self@[j] == other@[j],
            decreases 29 - i,
        {
            if self.bytes[i] != other.bytes[i] {
                return false;
            }
            i = i + 1;
        }
        proof {
            assert(self@ =~= other@);
        }
        true
    }
}

impl vstd::std_specs::cmp::PartialEqSpecImpl for U232 {
    open spec fn obeys_eq_spec() -> bool {
        true
    }

    open spec fn eq_spec(&self, other: &U232) -> bool {
        self@ == other@
    }
}

impl View for U232 {
    type V = Seq<u8>;

    closed spec fn view(&self) -> Seq<u8> {
        self.bytes@
    }
}

impl DeepView for U232 {
    type V = Seq<u8>;

    open spec fn deep_view(&self) -> Seq<u8> {
        self.view()
    }
}

/// Every identifier holds exactly 29 bytes.
pub broadcast proof fn lemma_u232_view_len(u: U232)
    ensures
        (#[trigger] u@).len() == 29,
{
}

/// The all-zero identifier's bytes.
pub open spec fn zero_cid() -> Seq<u8> {
    Seq::new(29, |i: int| 0u8)
}

/// The 29 identifier bytes that a big-endian byte sequence denotes: a
/// shorter sequence is left-padded with zeros, a longer one keeps its
/// first 29 bytes.
pub open spec fn spec_cid_pad(s: Seq<u8>) -> Seq<u8> {
    let count = if s.len() > 29 {
        29int
    } else {
        s.len() as int
    };
    Seq::new(29, |i: int| if i < 29 - count {
        0u8
    } else {
        s[i - (29 - count)]
    })
}

/// Two identifiers agree on the digest part, bytes 1..29.
pub open spec fn spec_equal_224(a: U232, b: U232) -> bool {
    a@.subrange(1, 29) == b@.subrange(1, 29)
}

impl U232 {
    /// The all-zero identifier, which marks "no predecessor".
    pub fn new() -> (r: U232)
        ensures
            r@ == zero_cid(),
    {
        let r = U232 { bytes: [0u8; 29] };
        proof {
            assert(r@ =~= zero_cid());
        }
        r
    }

    /// Builds an identifier from big-endian bytes: a shorter slice is
    /// left-padded with zeros, a longer one is truncated to its first
    /// 29 bytes.
    pub fn from_u8arr(bytes: &[u8]) -> (r: U232)
        ensures
            r@ == spec_cid_pad(bytes@),
            r@.len() == 29,
    {
        let mut value = [0u8; 29];
        let count: usize = if bytes.len() > 29 {
            29
        } else {
            bytes.len()
        };
        let mut i: usize = 0;
        while i < count
            invariant
                count <= 29,
                count <= bytes@.len(),
                i <= count,
                value@.len() == 29,
                forall|j: int| 0 <= j < 29 - count ==> value@[j] == 0u8,
                forall|j: int| 29 - count <= j < 29 - count + i ==> value@[j] == bytes@[j - (29 - count)],
                forall|j: int| 29 - count + i <= j < 29 ==> value@[j] == 0u8,
            decreases count - i,
        {
            value[(29 - count) + i] = bytes[i];
            i = i + 1;
        }
        let r = U232 { bytes: value };
        proof {
            assert(r@ =~= spec_cid_pad(bytes@));
        }
        r
    }

    /// The identifier's 29 bytes, most significant first.
    pub fn to_be_bytes(&self) -> (r: &[u8])
        ensures
            r@ == self@,
    {
        self.bytes.as_slice()
    }

    /// Overwrites one byte of the identifier.
    pub fn set_byte(&mut self, pos: usize, val: u8)
        requires
            pos < 29,
        ensures
            final(self)@ == old(self)@.update(pos as int, val),
    {
        self.bytes[pos] = val;
    }

    /// Sets the collision-break byte (byte 0).
    pub fn set_inequailty_byte(&mut self, byte: u8)
        ensures
            final(self)@ == old(self)@.update(0, byte),
    {
        self.set_byte(0, byte);
    }

    /// Compares the digest parts only, ignoring the collision-break byte.
    pub fn equal_224(&self, other: &Self) -> (r: bool)
        ensures
            r == spec_equal_224(*self, *other),
    {
        let mut i: usize = 1;
        while i < 29
            invariant
                1 <= i <= 29,
                forall|j: int| 1 <= j < i ==> self@[j] == other@[j],
            decreases 29 - i,
        {
            if self.bytes[i] != other.bytes[i] {
                proof {
                    assert(self@.subrange(1, 29)[i - 1] != other@.subrange(1, 29)[i - 1]);
                }
                return false;
            }
            i = i + 1;
        }
        proof {
            assert(self@.subrange(1, 29) =~= other@.subrange(1, 29));
        }
        true
    }
}

/// Semantic equality (`equal_224`) is an equivalence relation, and two
/// identifiers that differ only in the collision-break byte compare equal
/// under it while strict equality tells them apart.
pub proof fn lemma_equal_224_equivalence(a: U232, b: U232, c: U232)
    ensures
        spec_equal_224(a, a),
        spec_equal_224(a, b) ==> spec_equal_224(b, a),
        spec_equal_224(a, b) && spec_equal_224(b, c) ==> spec_equal_224(a, c),
{
}

/// A differing collision-break byte leaves semantic equality intact but
/// breaks strict equality.
pub proof fn lemma_collision_byte_semantics(a: U232, b: U232)
    requires
        a@.len() == 29,
        b@.len() == 29,
        a@.subrange(1, 29) == b@.subrange(1, 29),
    ensures
        spec_equal_224(a, b),
        a@[0] != b@[0] ==> a@ != b@,
{
    if a@[0] != b@[0] {
        assert(a@ != b@);
    }
}

} // verus!
