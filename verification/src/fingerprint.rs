//! Perceptual fingerprints and the Hamming distance between them.

use vstd::prelude::*;

verus! {

/// Number of set bits in one byte.
pub open spec fn ones8(x: u8) -> nat {
    (if x & 0x01 != 0 { 1nat } else { 0nat }) + (if x & 0x02 != 0 { 1nat } else { 0nat })
        + (if x & 0x04 != 0 { 1nat } else { 0nat }) + (if x & 0x08 != 0 { 1nat } else { 0nat })
        + (if x & 0x10 != 0 { 1nat } else { 0nat }) + (if x & 0x20 != 0 { 1nat } else { 0nat })
        + (if x & 0x40 != 0 { 1nat } else { 0nat }) + (if x & 0x80 != 0 { 1nat } else { 0nat })
}

/// Hamming distance between the first `k` bytes of two bit patterns:
/// the number of bit positions in which they differ.
pub open spec fn hamming_to(a: Seq<u8>, b: Seq<u8>, k: int) -> nat
    decreases k,
{
    if k <= 0 {
        0
    } else {
        hamming_to(a, b, k - 1) + ones8(a[k - 1] ^ b[k - 1])
    }
}

/// Hamming distance between two bit patterns of equal byte length.
pub open spec fn hamming(a: Seq<u8>, b: Seq<u8>) -> nat {
    hamming_to(a, b, a.len() as int)
}

/// A fixed-length bit pattern derived from an image, used as a proxy for
/// visual content. The bits are packed into bytes, low bit first.
#[derive(Debug, Clone, PartialEq, Eq)]
pub struct Fingerprint {
    bits: Vec<u8>,
}

impl View for Fingerprint {
    type V = Seq<u8>;

    closed spec fn view(&self) -> Seq<u8> {
        self.bits@
    }
}

fn byte_ones(x: u8) -> (n: u32)
    ensures
        n == ones8(x),
{
    let mut n: u32 = 0;
    if x & 0x01 != 0 {
        n = n + 1;
    }
    if x & 0x02 != 0 {
        n = n + 1;
    }
    if x & 0x04 != 0 {
        n = n + 1;
    }
    if x & 0x08 != 0 {
        n = n + 1;
    }
    if x & 0x10 != 0 {
        n = n + 1;
    }
    if x & 0x20 != 0 {
        n = n + 1;
    }
    if x & 0x40 != 0 {
        n = n + 1;
    }
    if x & 0x80 != 0 {
        n = n + 1;
    }
    n
}

impl Fingerprint {
    /// Wrap raw fingerprint bytes.
    pub fn from_bytes(bits: Vec<u8>) -> (r: Fingerprint)
        ensures
            r@ == bits@,
    {
        Fingerprint { bits }
    }

    /// The packed fingerprint bytes.
    pub fn as_bytes(&self) -> (r: &Vec<u8>)
        ensures
            r@ == self@,
    {
        &self.bits
    }

    /// Hamming distance to another fingerprint of the same width: the count
    /// of bit positions in which the two patterns differ.
    pub fn dist(&self, other: &Fingerprint) -> (d: u32)
        requires
            self@.len() == other@.len(),
            self@.len() <= 0x1000_0000,
        ensures
            d == hamming(self@, other@),
    {
        let n = self.bits.len();
        let mut d: u32 = 0;
        let mut k: usize = 0;
        while k < n
            invariant
                self@.len() == other@.len(),
                n == self@.len(),
                n <= 0x1000_0000,
                k <= n,
                d == hamming_to(self@, other@, k as int),
                d <= 8 * k,
            decreases n - k,
        {
            d = d + byte_ones(self.bits[k] ^ other.bits[k]);
            k = k + 1;
        }
        d
    }
}

/// A byte with no set bits is zero and vice versa.
proof fn lemma_ones8_zero(x: u8)
    ensures
        ones8(x) == 0 <==> x == 0,
{
    assert(x != 0 ==> (x & 0x01 != 0 || x & 0x02 != 0 || x & 0x04 != 0 || x & 0x08 != 0 || x
        & 0x10 != 0 || x & 0x20 != 0 || x & 0x40 != 0 || x & 0x80 != 0)) by (bit_vector);
    assert(0u8 & 0x01 == 0 && 0u8 & 0x02 == 0 && 0u8 & 0x04 == 0 && 0u8 & 0x08 == 0 && 0u8 & 0x10
        == 0 && 0u8 & 0x20 == 0 && 0u8 & 0x40 == 0 && 0u8 & 0x80 == 0) by (bit_vector);
}

proof fn lemma_hamming_to_zero_prefix_eq(a: Seq<u8>, b: Seq<u8>, k: int)
    requires
        hamming_to(a, b, k) == 0,
    ensures
        forall|p: int| 0 <= p < k ==> a[p] == b[p],
    decreases k,
{
    if k > 0 {
        lemma_hamming_to_zero_prefix_eq(a, b, k - 1);
        lemma_ones8_zero(a[k - 1] ^ b[k - 1]);
        let x = a[k - 1];
        let y = b[k - 1];
        assert(x ^ y == 0 ==> x == y) by (bit_vector);
    }
}

proof fn lemma_hamming_to_self_zero(a: Seq<u8>, b: Seq<u8>, k: int)
    requires
        forall|p: int| 0 <= p < k ==> a[p] == b[p],
    ensures
        hamming_to(a, b, k) == 0,
    decreases k,
{
    if k > 0 {
        lemma_hamming_to_self_zero(a, b, k - 1);
        let x = a[k - 1];
        assert(x ^ x == 0) by (bit_vector);
        assert(ones8(0) == 0) by {
            lemma_ones8_zero(0);
        }
    }
}

/// Two equal-length bit patterns are at Hamming distance zero exactly when
/// they are bit-identical.
pub proof fn lemma_hamming_zero_iff_eq(a: Seq<u8>, b: Seq<u8>)
    requires
        a.len() == b.len(),
    ensures
        hamming(a, b) == 0 <==> a == b,
{
    if hamming(a, b) == 0 {
        lemma_hamming_to_zero_prefix_eq(a, b, a.len() as int);
        assert(a =~= b);
    }
    if a == b {
        lemma_hamming_to_self_zero(a, b, a.len() as int);
    }
}

} // verus!
