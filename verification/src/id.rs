//! Protocol identifier types.

use vstd::arithmetic::power2::pow2;
use vstd::prelude::*;
use vstd::std_specs::bits::{axiom_u8_leading_zeros, u8_leading_zeros};

use crate::outside::random_id_bytes;

verus! {

/// Bit `k` (counted from the least significant bit) of a byte.
pub open spec fn byte_bit(x: u8, k: u8) -> bool {
    (x >> k) & 1u8 == 1u8
}

/// Bit `n` of the XOR of two little-endian byte strings, counted from the least significant bit.
pub open spec fn xor_bit(a: Seq<u8>, b: Seq<u8>, n: int) -> bool {
    byte_bit(a[n / 8] ^ b[n / 8], (n % 8) as u8)
}

/// The position of the most significant bit below `n` in which two little-endian byte strings
/// differ, if there is one.
pub open spec fn highest_differing_bit(a: Seq<u8>, b: Seq<u8>, n: nat) -> Option<u32>
    decreases n,
{
    if n == 0 {
        None
    } else if xor_bit(a, b, n - 1) {
        Some((n - 1) as u32)
    } else {
        highest_differing_bit(a, b, (n - 1) as nat)
    }
}

/// The bytes of the identifier made from a 16-bit number: the number, little-endian, followed by
/// zeros.
pub open spec fn u16_id_bytes(raw: u16) -> Seq<u8> {
    Seq::new(
        32,
        |i: int|
            if i == 0 {
                (raw % 256) as u8
            } else if i == 1 {
                (raw / 256) as u8
            } else {
                0u8
            },
    )
}

/// The log2 of the XOR distance between two identifiers: the position of the most significant
/// differing bit, or `None` when the identifiers are equal.
pub open spec fn log2_distance_spec(a: Id, b: Id) -> Option<u32> {
    highest_differing_bit(a@, b@, 256)
}

/// A 256-bit identifier that implements a non-euclidian XOR-based distance metric.
///
/// The bytes are read as a little-endian number.
#[derive(Debug, Clone, Copy, Hash)]
pub struct Id {
    bytes: [u8; 32],
}

impl View for Id {
    type V = Seq<u8>;

    closed spec fn view(&self) -> Seq<u8> {
        self.bytes@
    }
}

impl PartialEq for Id {
    fn eq(&self, other: &Self) -> (r: bool) {
        let mut i: usize = 0;
        while i < 32
            invariant
                i <= 32,
                forall|j: int| 0 <= j < i ==> self.bytes[j] == other.bytes[j],
            decreases 32 - i,
        {
            if self.bytes[i] != other.bytes[i] {
                return false;
            }
            i = i + 1;
        }
        assert(self.bytes =~= other.bytes);
        true
    }
}

impl Eq for Id {}

impl vstd::std_specs::cmp::PartialEqSpecImpl for Id {
    open spec fn obeys_eq_spec() -> bool {
        true
    }

    open spec fn eq_spec(&self, other: &Id) -> bool {
        *self == *other
    }
}

impl Id {
    /// The size of the identifier in bytes.
    pub const BYTES: usize = 32;

    /// The size of the identifier in bits.
    pub const BITS: usize = 256;

    /// Every identifier is 32 bytes long.
    pub proof fn lemma_len(self)
        ensures
            self@.len() == 32,
    {
    }

    /// Two identifiers with the same bytes are the same identifier.
    pub proof fn lemma_view_injective(self, other: Id)
        ensures
            self@ == other@ <==> self == other,
    {
        if self@ == other@ {
            assert(self.bytes =~= other.bytes);
        }
    }

    /// Creates a new identifier from the supplied bytes.
    pub fn new(bytes: [u8; 32]) -> (id: Id)
        ensures
            id@ == bytes@,
    {
        Id { bytes }
    }

    /// Returns the bytes backing the identifier.
    pub fn bytes(&self) -> (bytes: [u8; 32])
        ensures
            bytes@ == self@,
    {
        self.bytes
    }

    /// Convenience function for working with small identifiers: the two low bytes hold `raw` in
    /// little-endian order, the others are zero.
    pub fn from_u16(raw: u16) -> (id: Id)
        ensures
            id@ == u16_id_bytes(raw),
    {
        let mut bytes = [0u8; 32];
        bytes[0] = (raw % 256) as u8;
        bytes[1] = (raw / 256) as u8;
        let id = Id { bytes };
        assert(id@ =~= u16_id_bytes(raw));
        id
    }

    /// Convenience function for generating random identifiers during testing: the bytes are
    /// random, nothing more is known of them.
    pub fn rand() -> (id: Id)
        ensures
            id@.len() == 32,
    {
        Id { bytes: random_id_bytes() }
    }

    /// Computes the log2 of the XOR-based distance between two identifiers.
    pub fn log2_distance(&self, other: &Id) -> (d: Option<u32>)
        ensures
            d == log2_distance_spec(*self, *other),
    {
        let mut i: usize = 32;
        while i > 0
            invariant
                i <= 32,
                forall|m: int| 8 * i <= m < 256 ==> !xor_bit(self@, other@, m),
            decreases i,
        {
            i = i - 1;
            let x = self.bytes[i] ^ other.bytes[i];
            if x != 0 {
                let r = Self::msb(x);
                proof {
                    lemma_byte_msb(x, r);
                    assert forall|m: int| 8 * i + r < m < 256 implies !xor_bit(self@, other@, m) by {
                        if m < 8 * i + 8 {
                            assert(m / 8 == i);
                            assert((m % 8) as u8 > r);
                        }
                    }
                    assert((8 * i + r) / 8 == i);
                    assert((8 * i + r) % 8 == r);
                    lemma_highest_differing_bit_at(self@, other@, 256, (8 * i + r) as nat);
                }
                return Some(r + (i as u32) * 8);
            }
            proof {
                assert forall|m: int| 8 * i <= m < 8 * i + 8 implies !xor_bit(self@, other@, m) by {
                    assert(m / 8 == i);
                    lemma_zero_byte_bits(x, (m % 8) as u8);
                }
            }
        }
        proof {
            lemma_highest_differing_bit_none(self@, other@, 256);
        }
        None
    }

    // Returns the position of the most-significant bit set in a byte (0-indexed).
    fn msb(n: u8) -> (r: u32)
        requires
            n != 0,
        ensures
            r < 8,
            r == 7 - u8_leading_zeros(n),
            1u32 << r <= n as u32,
            (n as u32) < 1u32 << (r + 1),
    {
        proof {
            lemma_byte_msb_bounds(n);
        }
        8 - n.leading_zeros() - 1
    }
}

/// A non-zero byte lies between 2 to the power of its most significant bit's position and 2 to
/// the power of the next position.
pub(crate) proof fn lemma_byte_msb_bounds(n: u8)
    requires
        n != 0,
    ensures
        u8_leading_zeros(n) < 8,
        1u32 << ((7 - u8_leading_zeros(n)) as u32) <= n as u32,
        (n as u32) < 1u32 << ((8 - u8_leading_zeros(n)) as u32),
{
    axiom_u8_leading_zeros(n);
    let k: u8 = (7 - u8_leading_zeros(n)) as u8;
    assert((n >> k) & 1u8 != 0u8);
    assert(n >> ((k + 1) as u8) == 0);
    assert(1u32 << (k as u32) <= n as u32 && (n as u32) < 1u32 << ((k + 1) as u32)) by (bit_vector)
        requires
            k < 8,
            (n >> k) & 1u8 != 0u8,
            n >> ((k + 1) as u8) == 0,
    ;
}

/// The XOR of the first `n` bytes of two little-endian byte strings, read as a number.
pub open spec fn xor_value(a: Seq<u8>, b: Seq<u8>, n: nat) -> nat
    decreases n,
{
    if n == 0 {
        0
    } else {
        xor_value(a, b, (n - 1) as nat) + ((a[n - 1] ^ b[n - 1]) as nat) * pow2(
            (8 * (n - 1)) as nat,
        )
    }
}

pub(crate) proof fn lemma_xor_facts(x: u8, y: u8)
    ensures
        x ^ y == y ^ x,
        x ^ x == 0,
        x != y ==> x ^ y != 0,
{
    assert(x ^ y == y ^ x) by (bit_vector);
    assert(x ^ x == 0) by (bit_vector);
    assert(x != y ==> x ^ y != 0) by (bit_vector);
}

pub(crate) proof fn lemma_zero_byte_bits(x: u8, k: u8)
    requires
        x == 0,
        k < 8,
    ensures
        !byte_bit(x, k),
{
    assert(x == 0 && k < 8 ==> (x >> k) & 1u8 == 0u8) by (bit_vector);
}

pub(crate) proof fn lemma_byte_msb(x: u8, r: u32)
    requires
        x != 0,
        r == 7 - u8_leading_zeros(x),
    ensures
        r < 8,
        byte_bit(x, r as u8),
        forall|k: u8| r < k < 8 ==> !byte_bit(x, k),
{
    axiom_u8_leading_zeros(x);
    let y = x >> (r as u8);
    assert(y & 1u8 != 0u8 ==> y & 1u8 == 1u8) by (bit_vector);
    assert forall|k: u8| r < k < 8 implies !byte_bit(x, k) by {
        assert(8 - u8_leading_zeros(x) <= k);
    }
}

/// Below `n`, the highest differing bit is found at `r` when bit `r` differs and no bit between
/// `r` and `n` does.
pub(crate) proof fn lemma_highest_differing_bit_at(a: Seq<u8>, b: Seq<u8>, n: nat, r: nat)
    requires
        r < n,
        xor_bit(a, b, r as int),
        forall|m: int| r < m < n ==> !xor_bit(a, b, m),
    ensures
        highest_differing_bit(a, b, n) == Some(r as u32),
    decreases n,
{
    if n - 1 > r {
        assert(!xor_bit(a, b, n - 1));
        lemma_highest_differing_bit_at(a, b, (n - 1) as nat, r);
    }
}

/// An identifier is at no distance from itself, and at some distance from any other identifier.
pub proof fn lemma_log2_distance_none(a: Id, b: Id)
    ensures
        log2_distance_spec(a, b) is None <==> a == b,
{
    a.lemma_view_injective(b);
    if a == b {
        assert forall|m: int| 0 <= m < 256 implies !xor_bit(a@, b@, m) by {
            lemma_xor_facts(a@[m / 8], a@[m / 8]);
            lemma_zero_byte_bits(a@[m / 8] ^ a@[m / 8], (m % 8) as u8);
        }
        lemma_highest_differing_bit_none(a@, b@, 256);
    } else {
        let p = choose|p: int| 0 <= p < 32 && a@[p] != b@[p];
        assert(exists|p: int| 0 <= p < 32 && a@[p] != b@[p]) by {
            assert(!(a@ =~= b@));
        }
        lemma_xor_facts(a@[p], b@[p]);
        let x = a@[p] ^ b@[p];
        axiom_u8_leading_zeros(x);
        let r = 7 - u8_leading_zeros(x);
        lemma_byte_msb(x, r as u32);
        let m = 8 * p + r;
        assert(m / 8 == p && m % 8 == r);
        lemma_highest_differing_bit_some(a@, b@, 256, m as nat);
    }
}

/// The log2 distance is symmetric.
pub proof fn lemma_log2_distance_symmetric(a: Id, b: Id)
    ensures
        log2_distance_spec(a, b) == log2_distance_spec(b, a),
{
    lemma_highest_differing_bit_symmetric(a@, b@, 256);
}

proof fn lemma_highest_differing_bit_symmetric(a: Seq<u8>, b: Seq<u8>, n: nat)
    ensures
        highest_differing_bit(a, b, n) == highest_differing_bit(b, a, n),
    decreases n,
{
    if n > 0 {
        let m = n - 1;
        lemma_xor_facts(a[m / 8], b[m / 8]);
        lemma_highest_differing_bit_symmetric(a, b, (n - 1) as nat);
    }
}

/// Below `n`, there is a highest differing bit when some bit below `n` differs.
proof fn lemma_highest_differing_bit_some(a: Seq<u8>, b: Seq<u8>, n: nat, m: nat)
    requires
        m < n,
        xor_bit(a, b, m as int),
    ensures
        highest_differing_bit(a, b, n) is Some,
    decreases n,
{
    if n - 1 > m && !xor_bit(a, b, n - 1) {
        lemma_highest_differing_bit_some(a, b, (n - 1) as nat, m);
    }
}

/// Below `n`, there is no highest differing bit when no bit differs.
proof fn lemma_highest_differing_bit_none(a: Seq<u8>, b: Seq<u8>, n: nat)
    requires
        forall|m: int| 0 <= m < n ==> !xor_bit(a, b, m),
    ensures
        highest_differing_bit(a, b, n) == None::<u32>,
    decreases n,
{
    if n > 0 {
        assert(!xor_bit(a, b, n - 1));
        lemma_highest_differing_bit_none(a, b, (n - 1) as nat);
    }
}

} // verus!
