//! Big-endian byte strings as field elements of the BN254 scalar field.
use vstd::prelude::*;

verus! {

/// Length in bytes of a field element in its big-endian encoding.
pub const FIELD_BYTES: usize = 32;

/// `zeros(n) + s`: `s` widened to `FIELD_BYTES` bytes by leading zeros.
pub open spec fn left_pad(s: Seq<u8>) -> Seq<u8>
    recommends
        s.len() <= FIELD_BYTES,
{
    Seq::new((FIELD_BYTES - s.len()) as nat, |i: int| 0u8) + s
}

/// The number a big-endian byte string encodes.
pub open spec fn be_value(s: Seq<u8>) -> nat
    decreases s.len(),
{
    if s.len() == 0 {
        0
    } else {
        be_value(s.drop_last()) * 256 + s.last() as nat
    }
}

/// The order of the BN254 scalar field, as 32 big-endian bytes
/// (0x30644e72e131a029b85045b68181585d2833e84879b9709143e1f593f0000001).
pub open spec fn bn254_modulus_bytes() -> Seq<u8> {
    seq![
        0x30u8, 0x64u8, 0x4eu8, 0x72u8, 0xe1u8, 0x31u8, 0xa0u8, 0x29u8,
        0xb8u8, 0x50u8, 0x45u8, 0xb6u8, 0x81u8, 0x81u8, 0x58u8, 0x5du8,
        0x28u8, 0x33u8, 0xe8u8, 0x48u8, 0x79u8, 0xb9u8, 0x70u8, 0x91u8,
        0x43u8, 0xe1u8, 0xf5u8, 0x93u8, 0xf0u8, 0x00u8, 0x00u8, 0x01u8,
    ]
}

/// `s` encodes a canonical element of the BN254 scalar field: a number
/// below the field's order.
pub open spec fn is_bn254_scalar(s: Seq<u8>) -> bool {
    be_value(s) < be_value(bn254_modulus_bytes())
}

/// Of two byte strings of one length that agree before index `k` and
/// differ at `k`, the one with the smaller byte at `k` encodes the smaller number.
pub proof fn lemma_be_value_first_difference(a: Seq<u8>, b: Seq<u8>, k: int)
    requires
        a.len() == b.len(),
        0 <= k < a.len(),
        a.subrange(0, k) == b.subrange(0, k),
        a[k] < b[k],
    ensures
        be_value(a) < be_value(b),
    decreases a.len(),
{
    let n = a.len() as int;
    if k == n - 1 {
        assert(a.drop_last() =~= a.subrange(0, k));
        assert(b.drop_last() =~= b.subrange(0, k));
    } else {
        assert(a.drop_last().subrange(0, k) =~= a.subrange(0, k));
        assert(b.drop_last().subrange(0, k) =~= b.subrange(0, k));
        lemma_be_value_first_difference(a.drop_last(), b.drop_last(), k);
    }
}

/// Leading zero bytes do not change the number a byte string encodes.
pub proof fn lemma_leading_zeros_value(zeros: Seq<u8>, s: Seq<u8>)
    requires
        forall|i: int| 0 <= i < zeros.len() ==> zeros[i] == 0u8,
    ensures
        be_value(zeros + s) == be_value(s),
    decreases zeros.len() + s.len(),
{
    if s.len() == 0 {
        assert(zeros + s =~= zeros);
        if zeros.len() > 0 {
            assert(zeros.drop_last() + s =~= zeros.drop_last());
            lemma_leading_zeros_value(zeros.drop_last(), s);
        }
    } else {
        assert((zeros + s).drop_last() =~= zeros + s.drop_last());
        lemma_leading_zeros_value(zeros, s.drop_last());
    }
}

/// Widening a byte string to 32 bytes keeps the number it encodes.
pub proof fn lemma_left_pad_value(s: Seq<u8>)
    requires
        s.len() <= FIELD_BYTES,
    ensures
        be_value(left_pad(s)) == be_value(s),
{
    lemma_leading_zeros_value(Seq::new((FIELD_BYTES - s.len()) as nat, |i: int| 0u8), s);
}

/// Widens a big-endian byte string of at most 32 bytes to exactly 32 bytes
/// by prepending zero bytes; the number it encodes is unchanged.
pub fn bytes_to_field(bytes: &Vec<u8>) -> (padded: [u8; 32])
    requires
        bytes.len() <= FIELD_BYTES,
    ensures
        padded@ == left_pad(bytes@),
        be_value(padded@) == be_value(bytes@),
{
    let mut padded = [0u8; 32];
    let offset: usize = FIELD_BYTES - bytes.len();
    let mut i: usize = 0;
    while i < bytes.len()
        invariant
            offset + bytes.len() == FIELD_BYTES,
            i <= bytes.len(),
            padded@.len() == FIELD_BYTES,
            forall|j: int| 0 <= j < offset ==> padded@[j] == 0u8,
            forall|j: int| 0 <= j < i ==> padded@[offset + j] == bytes@[j],
        decreases bytes.len() - i,
    {
        padded[offset + i] = bytes[i];
        i = i + 1;
    }
    assert(padded@ =~= left_pad(bytes@));
    proof {
        lemma_left_pad_value(bytes@);
    }
    padded
}

/// The BN254 field order as 32 big-endian bytes.
fn bn254_modulus_be() -> (m: [u8; 32])
    ensures
        m@ == bn254_modulus_bytes(),
{
    let m: [u8; 32] = [
        0x30, 0x64, 0x4e, 0x72, 0xe1, 0x31, 0xa0, 0x29, 0xb8, 0x50, 0x45, 0xb6, 0x81, 0x81, 0x58,
        0x5d, 0x28, 0x33, 0xe8, 0x48, 0x79, 0xb9, 0x70, 0x91, 0x43, 0xe1, 0xf5, 0x93, 0xf0, 0x00,
        0x00, 0x01,
    ];
    assert(m@ =~= bn254_modulus_bytes());
    m
}

/// Whether 32 big-endian bytes encode a canonical BN254 scalar, that is a
/// number below the field's order; Poseidon over BN254 accepts only those.
pub fn is_field_element(bytes: &[u8; 32]) -> (r: bool)
    ensures
        r == is_bn254_scalar(bytes@),
{
    let m = bn254_modulus_be();
    let mut i: usize = 0;
    while i < FIELD_BYTES
        invariant
            i <= FIELD_BYTES,
            bytes@.len() == FIELD_BYTES,
            m@ == bn254_modulus_bytes(),
            bytes@.subrange(0, i as int) == m@.subrange(0, i as int),
        decreases FIELD_BYTES - i,
    {
        if bytes[i] < m[i] {
            proof {
                lemma_be_value_first_difference(bytes@, m@, i as int);
            }
            return true;
        }
        if bytes[i] > m[i] {
            proof {
                lemma_be_value_first_difference(m@, bytes@, i as int);
            }
            return false;
        }
        assert(bytes@.subrange(0, i + 1) =~= bytes@.subrange(0, i as int).push(bytes@[i as int]));
        assert(m@.subrange(0, i + 1) =~= m@.subrange(0, i as int).push(m@[i as int]));
        i = i + 1;
    }
    assert(bytes@ =~= bytes@.subrange(0, 32));
    assert(m@ =~= m@.subrange(0, 32));
    false
}

/// Whether two 32-byte strings are equal.
pub fn bytes32_equal(a: &[u8; 32], b: &[u8; 32]) -> (r: bool)
    ensures
        r == (a@ == b@),
{
    let mut i: usize = 0;
    while i < FIELD_BYTES
        invariant
            i <= FIELD_BYTES,
            a@.len() == FIELD_BYTES,
            b@.len() == FIELD_BYTES,
            forall|j: int| 0 <= j < i ==> a@[j] == b@[j],
        decreases FIELD_BYTES - i,
    {
        if a[i] != b[i] {
            return false;
        }
        i = i + 1;
    }
    assert(a@ =~= b@);
    true
}

} // verus!
