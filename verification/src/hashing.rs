//! Byte encodings of field elements, SHA-256 hashing of leaves and node pairs,
//! and the Fiat-Shamir helpers that derive field elements and query indices
//! from hashes.
use crate::field::{fe_from_nat, le_nat, from_le_bytes_mod_order, FieldElement};
use crate::poly::{is_pow2, next_pow2};
use sha2::{Digest, Sha256};
use vstd::prelude::*;

verus! {

/// SHA-256 of a byte string.
pub uninterp spec fn sha256(data: Seq<u8>) -> Seq<u8>;

/// `Sha256::digest`: the 32-byte SHA-256 digest of `data`.
#[verifier::external_body]
fn sha256_digest(data: &[u8]) -> (r: [u8; 32])
    ensures
        r@ == sha256(data@),
{
    Sha256::digest(data).into()
}

/// The 32 little-endian bytes of an element's integer: byte `k` is byte
/// `k % 8` of limb `k / 8`.
pub open spec fn fe_bytes(fe: FieldElement) -> Seq<u8> {
    Seq::new(32, |k: int| (fe.limbs()[k / 8] >> ((8 * (k % 8)) as u64)) as u8)
}

/// The little-endian integer of `s` is that of its first `m` bytes plus
/// `256^m` times that of the rest.
pub proof fn lemma_le_nat_split(s: Seq<u8>, m: nat)
    requires
        m <= s.len(),
    ensures
        le_nat(s) == le_nat(s.take(m as int)) + vstd::arithmetic::power::pow(256, m) * le_nat(s.skip(m as int)),
    decreases m,
{
    reveal(vstd::arithmetic::power::pow);
    if m > 0 {
        let t = s.drop_first();
        lemma_le_nat_split(t, (m - 1) as nat);
        assert(t.take(m - 1) =~= s.take(m as int).drop_first());
        assert(t.skip(m - 1) =~= s.skip(m as int));
        assert(s.take(m as int)[0] == s[0]);
        let p = vstd::arithmetic::power::pow(256, (m - 1) as nat);
        assert(vstd::arithmetic::power::pow(256, m) == 256 * p);
        let a = le_nat(t.take(m - 1)) as int;
        let b = le_nat(s.skip(m as int)) as int;
        assert(256 * (a + p * b) == 256 * a + (256 * p) * b) by (nonlinear_arith);
    } else {
        assert(s.take(0) =~= Seq::<u8>::empty());
        assert(s.skip(0) =~= s);
    }
}

/// The eight bytes of a limb, least significant first, read back as a
/// little-endian integer, are the limb.
proof fn lemma_limb_bytes(x: u64, s: Seq<u8>)
    requires
        s.len() == 8,
        forall|j: int| 0 <= j < 8 ==> #[trigger] s[j] == (x >> ((8 * j) as u64)) as u8,
    ensures
        le_nat(s) == x,
{
    let b0 = s[0];
    let b1 = s[1];
    let b2 = s[2];
    let b3 = s[3];
    let b4 = s[4];
    let b5 = s[5];
    let b6 = s[6];
    let b7 = s[7];
    reveal_with_fuel(le_nat, 9);
    assert(s.drop_first().drop_first().drop_first().drop_first().drop_first().drop_first().drop_first().drop_first()
        =~= Seq::<u8>::empty());
    assert(x as int == b0 as int + 256 * (b1 as int + 256 * (b2 as int + 256 * (b3 as int + 256 * (b4 as int
        + 256 * (b5 as int + 256 * (b6 as int + 256 * b7 as int))))))) by (bit_vector)
        requires
            b0 == (x >> 0u64) as u8,
            b1 == (x >> 8u64) as u8,
            b2 == (x >> 16u64) as u8,
            b3 == (x >> 24u64) as u8,
            b4 == (x >> 32u64) as u8,
            b5 == (x >> 40u64) as u8,
            b6 == (x >> 48u64) as u8,
            b7 == (x >> 56u64) as u8,
    ;
}

/// The encoding of an element read back as a little-endian integer is the
/// element's integer, so reducing it modulo the field's order gives the
/// element back: decoding (`from_le_bytes_mod_order`) undoes encoding
/// (`fr_to_bytes`).
pub proof fn lemma_bytes_round_trip(a: FieldElement)
    requires
        a.canonical(),
    ensures
        le_nat(fe_bytes(a)) == a.val(),
        fe_from_nat(le_nat(fe_bytes(a))) == a,
{
    let b = fe_bytes(a);
    let l = a.limbs();
    let r = crate::field::limb_radix();
    assert(vstd::arithmetic::power::pow(256, 8) == r) by {
        reveal_with_fuel(vstd::arithmetic::power::pow, 9);
    }
    let s1 = b.skip(8);
    let s2 = s1.skip(8);
    let s3 = s2.skip(8);
    lemma_le_nat_split(b, 8);
    lemma_le_nat_split(s1, 8);
    lemma_le_nat_split(s2, 8);
    assert forall|j: int| 0 <= j < 8 implies #[trigger] b.take(8)[j] == (l[0] >> ((8 * j) as u64)) as u8 by {
        assert(j / 8 == 0 && j % 8 == j);
    }
    assert forall|j: int| 0 <= j < 8 implies #[trigger] s1.take(8)[j] == (l[1] >> ((8 * j) as u64)) as u8 by {
        assert((j + 8) / 8 == 1 && (j + 8) % 8 == j);
    }
    assert forall|j: int| 0 <= j < 8 implies #[trigger] s2.take(8)[j] == (l[2] >> ((8 * j) as u64)) as u8 by {
        assert((j + 16) / 8 == 2 && (j + 16) % 8 == j);
    }
    assert forall|j: int| 0 <= j < 8 implies #[trigger] s3[j] == (l[3] >> ((8 * j) as u64)) as u8 by {
        assert((j + 24) / 8 == 3 && (j + 24) % 8 == j);
    }
    lemma_limb_bytes(l[0], b.take(8));
    lemma_limb_bytes(l[1], s1.take(8));
    lemma_limb_bytes(l[2], s2.take(8));
    lemma_limb_bytes(l[3], s3);
    crate::field::lemma_val_limbs(a);
    crate::field::lemma_canonical_val(a);
    vstd::arithmetic::div_mod::lemma_small_mod(a.val(), crate::field::modulus());
    crate::field::lemma_fe_of_val(a);
}

/// The hash of a Merkle leaf holding `fe`.
pub open spec fn leaf_hash(fe: FieldElement) -> Seq<u8> {
    sha256(fe_bytes(fe))
}

/// The hash of an inner Merkle node with children `left` and `right`.
pub open spec fn pair_hash(left: Seq<u8>, right: Seq<u8>) -> Seq<u8> {
    sha256(left + right)
}

/// The canonical little-endian encoding of a field element (32 bytes).
pub fn fr_to_bytes(fr: &FieldElement) -> (r: [u8; 32])
    ensures
        r@ == fe_bytes(*fr),
{
    let limbs = fr.to_limbs();
    let mut out = [0u8; 32];
    let mut j: usize = 0;
    while j < 4
        invariant
            j <= 4,
            limbs@ == fr.limbs(),
            forall|k: int| 0 <= k < 8 * j ==> #[trigger] out@[k] == fe_bytes(*fr)[k],
        decreases 4 - j,
    {
        let mut b: usize = 0;
        while b < 8
            invariant
                j < 4,
                b <= 8,
                limbs@ == fr.limbs(),
                forall|k: int| 0 <= k < 8 * j + b ==> #[trigger] out@[k] == fe_bytes(*fr)[k],
            decreases 8 - b,
        {
            let shift: u64 = 8 * (b as u64);
            out[8 * j + b] = (limbs[j] >> shift) as u8;
            proof {
                let k = 8 * j + b;
                assert(k / 8 == j as int && k % 8 == b as int) by (nonlinear_arith)
                    requires k == 8 * j + b, b < 8;
            }
            b = b + 1;
        }
        j = j + 1;
    }
    assert(out@ =~= fe_bytes(*fr));
    out
}

/// The hash of an inner node: SHA-256 of the left child's hash followed by
/// the right child's.
pub fn hash_pair(left: &[u8; 32], right: &[u8; 32]) -> (r: [u8; 32])
    ensures
        r@ == pair_hash(left@, right@),
{
    let mut data: Vec<u8> = Vec::new();
    let mut i: usize = 0;
    while i < 32
        invariant
            i <= 32,
            data@ == left@.take(i as int),
        decreases 32 - i,
    {
        data.push(left[i]);
        assert(left@.take(i + 1) =~= left@.take(i as int).push(left@[i as int]));
        i = i + 1;
    }
    let mut j: usize = 0;
    while j < 32
        invariant
            j <= 32,
            data@ == left@ + right@.take(j as int),
        decreases 32 - j,
    {
        data.push(right[j]);
        assert(right@.take(j + 1) =~= right@.take(j as int).push(right@[j as int]));
        assert(left@ + right@.take(j + 1) =~= (left@ + right@.take(j as int)).push(right@[j as int]));
        j = j + 1;
    }
    assert(left@.take(32) =~= left@);
    assert(right@.take(32) =~= right@);
    sha256_digest(data.as_slice())
}

/// The hash of a leaf: SHA-256 of the element's 32-byte encoding.
pub fn hash_leaf(value: &FieldElement) -> (r: [u8; 32])
    ensures
        r@ == leaf_hash(*value),
{
    let bytes = fr_to_bytes(value);
    sha256_digest(&bytes)
}

/// Two hashes are byte-for-byte equal.
pub fn hashes_equal(a: &[u8; 32], b: &[u8; 32]) -> (r: bool)
    ensures
        r == (a@ == b@),
{
    let mut i: usize = 0;
    while i < 32
        invariant
            i <= 32,
            forall|k: int| 0 <= k < i ==> a@[k] == b@[k],
        decreases 32 - i,
    {
        if a[i] != b[i] {
            return false;
        }
        i = i + 1;
    }
    assert(a@ =~= b@);
    true
}

/// The field element derived from the SHA-256 digest of `input`: the digest
/// read as a little-endian integer, reduced modulo the field order.
pub open spec fn fr_from_hash(input: Seq<u8>) -> FieldElement {
    fe_from_nat(le_nat(sha256(input)))
}

/// A pseudo-random field element derived from `input` (Fiat-Shamir).
pub fn random_fr_from_hash(input: &[u8]) -> (r: FieldElement)
    ensures
        r == fr_from_hash(input@),
{
    let hash = sha256_digest(input);
    let mut bytes = [0u8; 32];
    let mut i: usize = 0;
    while i < 32
        invariant
            i <= 32,
            forall|k: int| 0 <= k < i ==> bytes@[k] == hash@[k],
        decreases 32 - i,
    {
        bytes[i] = hash[i];
        i = i + 1;
    }
    assert(bytes@ =~= hash@);
    from_le_bytes_mod_order(&bytes)
}

/// The number of values of `usize`.
pub open spec fn usize_range() -> nat {
    usize::MAX as nat + 1
}

/// The index that `integer_from_hash` derives from `hash`: reading the bytes
/// from the first, `acc := ((acc * 256 + byte) mod 2^usize::BITS) mod modulus`.
pub open spec fn hash_to_index(hash: Seq<u8>, modulus: nat) -> nat
    decreases hash.len(),
{
    if modulus == 0 || hash.len() == 0 {
        0
    } else {
        ((hash_to_index(hash.drop_last(), modulus) * 256 + hash.last() as nat) % usize_range())
            % modulus
    }
}

/// Appending one byte to the hash folds it into the index drawn so far:
/// the index times 256 plus the byte, wrapped to a machine word, reduced
/// modulo `modulus`.
pub proof fn lemma_hash_to_index_push(hash: Seq<u8>, b: u8, modulus: nat)
    requires
        modulus > 0,
    ensures
        hash_to_index(hash.push(b), modulus) == ((hash_to_index(hash, modulus) * 256 + b as nat) % usize_range())
            % modulus,
{
    assert(hash.push(b).drop_last() =~= hash);
}

/// A pseudo-random index below `modulus` derived from `hash` (0 when
/// `modulus` is 0).
pub fn integer_from_hash(hash: &[u8], modulus: usize) -> (r: usize)
    ensures
        r == hash_to_index(hash@, modulus as nat),
        modulus > 0 ==> r < modulus,
        modulus == 0 ==> r == 0,
{
    if modulus == 0 {
        return 0;
    }
    let mut result: usize = 0;
    let mut i: usize = 0;
    assert(hash@.take(0) =~= Seq::<u8>::empty());
    while i < hash.len()
        invariant
            modulus > 0,
            i <= hash.len(),
            result == hash_to_index(hash@.take(i as int), modulus as nat),
            result < modulus,
        decreases hash.len() - i,
    {
        let byte = hash[i];
        let m = result.wrapping_mul(256);
        let a = m.wrapping_add(byte as usize);
        proof {
            let x = result as int * 256;
            let big = usize_range() as int;
            assert(m as int == x % big);
            vstd::arithmetic::div_mod::lemma_add_mod_noop(x, byte as int, big);
            vstd::arithmetic::div_mod::lemma_small_mod(byte as nat, big as nat);
            assert(0 <= m < big);
            if m as int + byte as int > usize::MAX as int {
                vstd::arithmetic::div_mod::lemma_fundamental_div_mod_converse(
                    m as int + byte as int, big, 1, m as int + byte as int - big);
            } else {
                vstd::arithmetic::div_mod::lemma_small_mod((m as int + byte as int) as nat, big as nat);
            }
            assert(a as int == (x + byte as int) % big);
            assert(hash@.take(i + 1).drop_last() =~= hash@.take(i as int));
        }
        result = a % modulus;
        i = i + 1;
    }
    assert(hash@.take(hash.len() as int) =~= hash@);
    result
}

/// The smallest power of two that is at least `n`, when it fits in a
/// `usize`.
pub fn checked_next_power_of_two(n: usize) -> (r: Option<usize>)
    ensures
        r is Some <==> next_pow2(n as nat) <= usize::MAX,
        r matches Some(p) ==> p == next_pow2(n as nat),
    decreases n,
{
    if n <= 1 {
        Some(1)
    } else {
        let half = n / 2 + n % 2;
        assert(half == (n + 1) / 2);
        match checked_next_power_of_two(half) {
            Some(p) => p.checked_mul(2),
            None => None,
        }
    }
}

/// The smallest power of two that is at least `n` (1 for `n <= 1`).
pub fn next_power_of_two(n: usize) -> (r: usize)
    requires
        next_pow2(n as nat) <= usize::MAX,
    ensures
        r == next_pow2(n as nat),
        is_pow2(r as nat),
        r >= n,
        r >= 1,
    decreases n,
{
    proof {
        crate::poly::lemma_next_pow2(n as nat);
    }
    if n <= 1 {
        1
    } else {
        let half = n / 2 + n % 2;
        assert(half == (n + 1) / 2);
        let p = next_power_of_two(half);
        2 * p
    }
}

} // verus!
