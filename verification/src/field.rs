//! Elements of the BN254 scalar field, held as four canonical 64-bit limbs.
//!
//! The arithmetic itself is done by `ark_bn254::Fr`; every operation below
//! converts its operands to `Fr`, performs the one operation and converts back.
use ark_bn254::Fr;
use ark_ff::{BigInt, Field, PrimeField};
use vstd::prelude::*;

verus! {

/// The order of the BN254 scalar field.
pub open spec fn modulus() -> nat {
    21888242871839275222246405745257275088548364400416034343698204186575808495617nat
}

/// 2^64, the radix of a limb.
pub open spec fn limb_radix() -> nat {
    0x1_0000_0000_0000_0000nat
}

/// A field element: the integer `l0 + l1*2^64 + l2*2^128 + l3*2^192`,
/// always smaller than the modulus.
#[derive(Clone, Copy, Debug, PartialEq, Eq, Structural)]
pub struct FieldElement {
    l0: u64,
    l1: u64,
    l2: u64,
    l3: u64,
}

impl FieldElement {
    /// The integer this element stands for.
    #[verifier::opaque]
    pub closed spec fn val(self) -> nat {
        self.l0 as nat + limb_radix() * (self.l1 as nat + limb_radix() * (self.l2 as nat
            + limb_radix() * self.l3 as nat))
    }

    /// The limbs of this element, least significant first.
    pub closed spec fn limbs(self) -> Seq<u64> {
        seq![self.l0, self.l1, self.l2, self.l3]
    }

    /// Every element is reduced: its integer is below the modulus.
    #[verifier::type_invariant]
    pub closed spec fn canonical(self) -> bool {
        self.val() < modulus()
    }

    /// The limbs of this element, least significant first.
    pub fn to_limbs(&self) -> (r: [u64; 4])
        ensures
            r@ == self.limbs(),
    {
        let r = [self.l0, self.l1, self.l2, self.l3];
        assert(r@ =~= self.limbs());
        r
    }

    /// Builds an element from limbs (least significant first) that stand for
    /// a reduced integer.
    pub fn from_canonical_limbs(limbs: [u64; 4]) -> (r: FieldElement)
        requires
            limbs[0] as nat + limb_radix() * (limbs[1] as nat + limb_radix() * (limbs[2] as nat
                + limb_radix() * limbs[3] as nat)) < modulus(),
        ensures
            r.limbs() == limbs@,
            r.val() == limbs[0] as nat + limb_radix() * (limbs[1] as nat + limb_radix() * (
            limbs[2] as nat + limb_radix() * limbs[3] as nat)),
    {
        reveal(FieldElement::val);
        FieldElement { l0: limbs[0], l1: limbs[1], l2: limbs[2], l3: limbs[3] }
    }

    /// The multiplicative identity.
    pub fn one() -> (r: FieldElement)
        ensures
            r == fe_one(),
    {
        proof {
            reveal(FieldElement::val);
            reveal(fe_of);
            assert(1nat % limb_radix() == 1) by (nonlinear_arith);
            assert(1nat / limb_radix() == 0) by (nonlinear_arith);
            assert(0nat / limb_radix() == 0) by (nonlinear_arith);
            assert(0nat % limb_radix() == 0) by (nonlinear_arith);
        }
        FieldElement { l0: 1, l1: 0, l2: 0, l3: 0 }
    }

    /// The element standing for the integer `n`.
    pub fn from_u64(n: u64) -> (r: FieldElement)
        ensures
            r == fe_from_nat(n as nat),
    {
        from_u64(n)
    }

    /// The additive identity.
    pub fn zero() -> (r: FieldElement)
        ensures
            r == fe_of(0),
    {
        proof {
            reveal(FieldElement::val);
            reveal(fe_of);
            assert(0nat % limb_radix() == 0) by (nonlinear_arith);
            assert(0nat / limb_radix() == 0) by (nonlinear_arith);
        }
        FieldElement { l0: 0, l1: 0, l2: 0, l3: 0 }
    }
}

/// The canonical element whose integer is `n mod 2^256`.
#[verifier::opaque]
pub closed spec fn fe_of(n: nat) -> FieldElement {
    FieldElement {
        l0: (n % limb_radix()) as u64,
        l1: ((n / limb_radix()) % limb_radix()) as u64,
        l2: ((n / limb_radix() / limb_radix()) % limb_radix()) as u64,
        l3: ((n / limb_radix() / limb_radix() / limb_radix()) % limb_radix()) as u64,
    }
}

/// The additive identity.
pub open spec fn fe_zero() -> FieldElement {
    fe_of(0)
}

/// The multiplicative identity.
pub open spec fn fe_one() -> FieldElement {
    fe_of(1)
}

/// Field addition.
pub open spec fn fe_add(a: FieldElement, b: FieldElement) -> FieldElement {
    fe_of((a.val() + b.val()) % modulus())
}

/// Field subtraction.
pub open spec fn fe_sub(a: FieldElement, b: FieldElement) -> FieldElement {
    fe_of(((a.val() - b.val()) % (modulus() as int)) as nat)
}

/// Field negation.
pub open spec fn fe_neg(a: FieldElement) -> FieldElement {
    fe_of(((0 - a.val()) % (modulus() as int)) as nat)
}

/// Field multiplication.
pub open spec fn fe_mul(a: FieldElement, b: FieldElement) -> FieldElement {
    fe_of((a.val() * b.val()) % modulus())
}

/// The field element that stands for the integer `n`.
pub open spec fn fe_from_nat(n: nat) -> FieldElement {
    fe_of(n % modulus())
}

/// `a` raised to the `e`-th power.
pub open spec fn fe_pow(a: FieldElement, e: nat) -> FieldElement
    decreases e,
{
    if e == 0 {
        fe_one()
    } else {
        fe_mul(fe_pow(a, (e - 1) as nat), a)
    }
}

/// The multiplicative inverse of `a` (for `a` not zero): the one element `w`
/// with `a * w == 1`.
pub open spec fn fe_inv(a: FieldElement) -> FieldElement {
    choose|w: FieldElement| w.val() < modulus() && fe_mul(a, w) == fe_one()
}

/// Field division `a / b`, that is `a * b^-1`.
pub open spec fn fe_div(a: FieldElement, b: FieldElement) -> FieldElement {
    fe_mul(a, fe_inv(b))
}

/// Little-endian integer of a byte string.
pub open spec fn le_nat(bytes: Seq<u8>) -> nat
    decreases bytes.len(),
{
    if bytes.len() == 0 {
        0
    } else {
        bytes[0] as nat + 256 * le_nat(bytes.drop_first())
    }
}

/// `<Fr as Add>::add`: the sum of two field elements, reduced.
#[verifier::external_body]
pub(crate) fn add(a: &FieldElement, b: &FieldElement) -> (r: FieldElement)
    ensures
        r == fe_add(*a, *b),
{
    let r = (Fr::new(BigInt::new([a.l0, a.l1, a.l2, a.l3])) + Fr::new(BigInt::new([b.l0, b.l1, b.l2, b.l3]))).into_bigint().0;
    FieldElement { l0: r[0], l1: r[1], l2: r[2], l3: r[3] }
}

/// `<Fr as Sub>::sub`: the difference of two field elements, reduced.
#[verifier::external_body]
pub(crate) fn sub(a: &FieldElement, b: &FieldElement) -> (r: FieldElement)
    ensures
        r == fe_sub(*a, *b),
{
    let r = (Fr::new(BigInt::new([a.l0, a.l1, a.l2, a.l3])) - Fr::new(BigInt::new([b.l0, b.l1, b.l2, b.l3]))).into_bigint().0;
    FieldElement { l0: r[0], l1: r[1], l2: r[2], l3: r[3] }
}

/// `<Fr as Mul>::mul`: the product of two field elements, reduced.
#[verifier::external_body]
pub(crate) fn mul(a: &FieldElement, b: &FieldElement) -> (r: FieldElement)
    ensures
        r == fe_mul(*a, *b),
{
    let r = (Fr::new(BigInt::new([a.l0, a.l1, a.l2, a.l3])) * Fr::new(BigInt::new([b.l0, b.l1, b.l2, b.l3]))).into_bigint().0;
    FieldElement { l0: r[0], l1: r[1], l2: r[2], l3: r[3] }
}

/// `<Fr as Neg>::neg`: the additive inverse, reduced.
#[verifier::external_body]
pub(crate) fn neg(a: &FieldElement) -> (r: FieldElement)
    ensures
        r == fe_neg(*a),
{
    let r = (-Fr::new(BigInt::new([a.l0, a.l1, a.l2, a.l3]))).into_bigint().0;
    FieldElement { l0: r[0], l1: r[1], l2: r[2], l3: r[3] }
}

/// `Field::square`: the element multiplied by itself.
#[verifier::external_body]
pub(crate) fn square(a: &FieldElement) -> (r: FieldElement)
    ensures
        r == fe_mul(*a, *a),
{
    let r = (Fr::new(BigInt::new([a.l0, a.l1, a.l2, a.l3])).square()).into_bigint().0;
    FieldElement { l0: r[0], l1: r[1], l2: r[2], l3: r[3] }
}

/// `Field::pow` with a single 64-bit exponent limb: `a^e`.
#[verifier::external_body]
pub(crate) fn pow(a: &FieldElement, e: u64) -> (r: FieldElement)
    ensures
        r == fe_pow(*a, e as nat),
{
    let r = (Fr::new(BigInt::new([a.l0, a.l1, a.l2, a.l3])).pow([e])).into_bigint().0;
    FieldElement { l0: r[0], l1: r[1], l2: r[2], l3: r[3] }
}

/// `Field::inverse`: `None` for zero, else the multiplicative inverse.
#[verifier::external_body]
pub(crate) fn inverse(a: &FieldElement) -> (r: Option<FieldElement>)
    ensures
        *a == fe_zero() ==> r is None,
        *a != fe_zero() ==> r == Some(fe_inv(*a)),
        r matches Some(w) ==> fe_mul(*a, w) == fe_one() && w.canonical(),
{
    let x = Fr::new(BigInt::new([a.l0, a.l1, a.l2, a.l3])).inverse()?.into_bigint().0;
    Some(FieldElement { l0: x[0], l1: x[1], l2: x[2], l3: x[3] })
}

/// `<Fr as Div>::div`: `a * b^-1`; the call panics on a zero divisor, which
/// `requires` leaves out.
#[verifier::external_body]
pub(crate) fn div(a: &FieldElement, b: &FieldElement) -> (r: FieldElement)
    requires
        *b != fe_zero(),
    ensures
        r == fe_div(*a, *b),
{
    let r = (Fr::new(BigInt::new([a.l0, a.l1, a.l2, a.l3])) / Fr::new(BigInt::new([b.l0, b.l1, b.l2, b.l3]))).into_bigint().0;
    FieldElement { l0: r[0], l1: r[1], l2: r[2], l3: r[3] }
}

/// `<Fr as From<u64>>::from`: the element standing for `n`.
#[verifier::external_body]
pub(crate) fn from_u64(n: u64) -> (r: FieldElement)
    ensures
        r == fe_from_nat(n as nat),
{
    let r = (Fr::from(n)).into_bigint().0;
    FieldElement { l0: r[0], l1: r[1], l2: r[2], l3: r[3] }
}

/// `FftField::GENERATOR` of the BN254 scalar field, which `ark_bn254`
/// configures as 5: the generator of the field's multiplicative group, whose
/// order is the modulus less one, so that its power to the modulus less one
/// is 1 and every nonzero element is one of its powers.
#[verifier::external_body]
pub(crate) fn generator() -> (r: FieldElement)
    ensures
        r == fe_from_nat(5),
        fe_pow(r, (modulus() - 1) as nat) == fe_one(),
        forall|a: FieldElement| #[trigger] a.canonical() && a != fe_zero() ==> exists|k: nat| fe_pow(r, k) == a,
{
    let r = (<Fr as ark_ff::FftField>::GENERATOR).into_bigint().0;
    FieldElement { l0: r[0], l1: r[1], l2: r[2], l3: r[3] }
}

/// `PrimeField::from_le_bytes_mod_order`: the little-endian integer of the
/// bytes, reduced modulo the field order.
#[verifier::external_body]
pub(crate) fn from_le_bytes_mod_order(bytes: &[u8; 32]) -> (r: FieldElement)
    ensures
        r == fe_from_nat(le_nat(bytes@)),
{
    let r = (Fr::from_le_bytes_mod_order(bytes)).into_bigint().0;
    FieldElement { l0: r[0], l1: r[1], l2: r[2], l3: r[3] }
}

/// A fresh vector holding the same elements.
pub fn copy_elements(s: &[FieldElement]) -> (r: Vec<FieldElement>)
    ensures
        r@ == s@,
{
    let mut r: Vec<FieldElement> = Vec::new();
    let mut i: usize = 0;
    while i < s.len()
        invariant
            i <= s.len(),
            r@ == s@.take(i as int),
        decreases s.len() - i,
    {
        r.push(s[i]);
        assert(s@.take(i + 1) =~= s@.take(i as int).push(s@[i as int]));
        i = i + 1;
    }
    assert(s@.take(s.len() as int) =~= s@);
    r
}

/// The integer of `fe_of(n)` is `n`, for `n` that fits in four limbs.
pub proof fn lemma_val_fe_of(n: nat)
    requires
        n < limb_radix() * limb_radix() * limb_radix() * limb_radix(),
    ensures
        fe_of(n).val() == n,
{
    reveal(FieldElement::val);
    reveal(fe_of);
    let r = limb_radix();
    let n1 = n / r;
    let n2 = n1 / r;
    let n3 = n2 / r;
    vstd::arithmetic::div_mod::lemma_fundamental_div_mod(n as int, r as int);
    vstd::arithmetic::div_mod::lemma_fundamental_div_mod(n1 as int, r as int);
    vstd::arithmetic::div_mod::lemma_fundamental_div_mod(n2 as int, r as int);
    assert(n3 < r) by (nonlinear_arith)
        requires n < r * r * r * r, n1 == n / r, n2 == n1 / r, n3 == n2 / r, r > 0;
    assert(n3 % r == n3) by (nonlinear_arith) requires n3 < r, r > 0;
    assert(n % r < r && n1 % r < r && n2 % r < r) by (nonlinear_arith) requires r > 0;
}

/// Rebuilding an element from its own integer gives it back.
pub proof fn lemma_fe_of_val(a: FieldElement)
    ensures
        fe_of(a.val()) == a,
{
    reveal(FieldElement::val);
    reveal(fe_of);
    let r = limb_radix();
    let x = a.val();
    let t1 = a.l1 as nat + r * (a.l2 as nat + r * a.l3 as nat);
    let t2 = a.l2 as nat + r * a.l3 as nat;
    vstd::arithmetic::div_mod::lemma_fundamental_div_mod_converse(x as int, r as int, t1 as int, a.l0 as int);
    vstd::arithmetic::div_mod::lemma_fundamental_div_mod_converse(t1 as int, r as int, t2 as int, a.l1 as int);
    vstd::arithmetic::div_mod::lemma_fundamental_div_mod_converse(t2 as int, r as int, a.l3 as int, a.l2 as int);
    vstd::arithmetic::div_mod::lemma_small_mod(a.l3 as nat, r);
}

/// Results of `fe_of` on reduced integers are canonical.
pub proof fn lemma_fe_of_canonical(n: nat)
    requires
        n < modulus(),
    ensures
        fe_of(n).canonical(),
        fe_of(n).val() == n,
{
    assert(modulus() < limb_radix() * limb_radix() * limb_radix() * limb_radix());
    lemma_val_fe_of(n);
}

/// One is a neutral element of multiplication, on either side.
pub proof fn lemma_mul_one(a: FieldElement)
    requires
        a.canonical(),
    ensures
        fe_mul(fe_one(), a) == a,
        fe_mul(a, fe_one()) == a,
{
    lemma_fe_of_canonical(1);
    vstd::arithmetic::div_mod::lemma_small_mod(a.val(), modulus());
    lemma_fe_of_val(a);
}

/// Small positive integers stand for nonzero elements.
pub proof fn lemma_small_nonzero(n: nat)
    requires
        0 < n < limb_radix(),
    ensures
        fe_from_nat(n) != fe_zero(),
        fe_from_nat(n) == fe_of(n),
{
    reveal(fe_of);
    vstd::arithmetic::div_mod::lemma_small_mod(n, modulus());
    vstd::arithmetic::div_mod::lemma_small_mod(n, limb_radix());
    vstd::arithmetic::div_mod::lemma_small_mod(0, limb_radix());
}

/// Multiplication is commutative.
pub proof fn lemma_mul_commutes(a: FieldElement, b: FieldElement)
    ensures
        fe_mul(a, b) == fe_mul(b, a),
{
    assert(a.val() * b.val() == b.val() * a.val()) by (nonlinear_arith);
}

/// Reducing an integer modulo the field order gives a canonical element
/// standing for the remainder.
pub proof fn lemma_reduced(x: int)
    ensures
        fe_of((x % (modulus() as int)) as nat).canonical(),
        fe_of((x % (modulus() as int)) as nat).val() == x % (modulus() as int),
{
    vstd::arithmetic::div_mod::lemma_mod_bound(x, modulus() as int);
    lemma_fe_of_canonical((x % (modulus() as int)) as nat);
}

/// Reducing a natural number modulo the field order gives a canonical element
/// standing for the remainder.
pub proof fn lemma_reduced_nat(x: nat)
    ensures
        fe_of(x % modulus()).canonical(),
        fe_of(x % modulus()).val() == x % modulus(),
{
    vstd::arithmetic::div_mod::lemma_mod_bound(x as int, modulus() as int);
    lemma_fe_of_canonical(x % modulus());
}

/// The integers of the results of the field operations, all canonical.
pub proof fn lemma_op_vals(a: FieldElement, b: FieldElement)
    ensures
        fe_add(a, b).val() == (a.val() + b.val()) % modulus(),
        fe_mul(a, b).val() == (a.val() * b.val()) % modulus(),
        fe_sub(a, b).val() == (a.val() - b.val()) % (modulus() as int),
        fe_neg(a).val() == (0 - a.val()) % (modulus() as int),
        fe_add(a, b).canonical(),
        fe_mul(a, b).canonical(),
        fe_sub(a, b).canonical(),
        fe_neg(a).canonical(),
{
    lemma_reduced_nat(a.val() + b.val());
    lemma_reduced_nat(a.val() * b.val());
    lemma_reduced(a.val() - b.val());
    lemma_reduced(0 - a.val());
}

/// Two elements with the same integer are equal.
pub proof fn lemma_eq_by_val(a: FieldElement, b: FieldElement)
    requires
        a.val() == b.val(),
    ensures
        a == b,
{
    lemma_fe_of_val(a);
    lemma_fe_of_val(b);
}

/// Multiplication is associative.
pub proof fn lemma_mul_assoc(a: FieldElement, b: FieldElement, c: FieldElement)
    ensures
        fe_mul(fe_mul(a, b), c) == fe_mul(a, fe_mul(b, c)),
{
    let m = modulus() as int;
    let (x, y, z) = (a.val() as int, b.val() as int, c.val() as int);
    lemma_op_vals(a, b);
    lemma_op_vals(b, c);
    lemma_op_vals(fe_mul(a, b), c);
    lemma_op_vals(a, fe_mul(b, c));
    vstd::arithmetic::div_mod::lemma_mul_mod_noop_left(x * y, z, m);
    vstd::arithmetic::div_mod::lemma_mul_mod_noop_right(x, y * z, m);
    assert((x * y) * z == x * (y * z)) by (nonlinear_arith);
    lemma_eq_by_val(fe_mul(fe_mul(a, b), c), fe_mul(a, fe_mul(b, c)));
}

/// Addition is commutative.
pub proof fn lemma_add_commutes(a: FieldElement, b: FieldElement)
    ensures
        fe_add(a, b) == fe_add(b, a),
{
    assert(a.val() + b.val() == b.val() + a.val());
}

/// Multiplication distributes over negation, and the product of two
/// negations is the product of the elements.
pub proof fn lemma_mul_neg(a: FieldElement, b: FieldElement)
    ensures
        fe_mul(a, fe_neg(b)) == fe_neg(fe_mul(a, b)),
        fe_mul(fe_neg(a), b) == fe_neg(fe_mul(a, b)),
        fe_mul(fe_neg(a), fe_neg(b)) == fe_mul(a, b),
{
    let m = modulus() as int;
    let (x, y) = (a.val() as int, b.val() as int);
    lemma_op_vals(a, b);
    lemma_op_vals(b, b);
    lemma_op_vals(a, fe_neg(b));
    lemma_op_vals(fe_neg(a), b);
    lemma_op_vals(fe_neg(a), fe_neg(b));
    lemma_op_vals(fe_mul(a, b), b);
    vstd::arithmetic::div_mod::lemma_mul_mod_noop_right(x, 0 - y, m);
    vstd::arithmetic::div_mod::lemma_mul_mod_noop_left(0 - x, y, m);
    vstd::arithmetic::div_mod::lemma_mul_mod_noop(0 - x, 0 - y, m);
    vstd::arithmetic::div_mod::lemma_sub_mod_noop_right(0, x * y, m);
    assert(x * (0 - y) == 0 - x * y) by (nonlinear_arith);
    assert((0 - x) * y == 0 - x * y) by (nonlinear_arith);
    assert((0 - x) * (0 - y) == x * y) by (nonlinear_arith);
    lemma_eq_by_val(fe_mul(a, fe_neg(b)), fe_neg(fe_mul(a, b)));
    lemma_eq_by_val(fe_mul(fe_neg(a), b), fe_neg(fe_mul(a, b)));
    lemma_eq_by_val(fe_mul(fe_neg(a), fe_neg(b)), fe_mul(a, b));
}

/// `a - b` is the negation of `b - a`.
pub proof fn lemma_sub_antisymmetric(a: FieldElement, b: FieldElement)
    ensures
        fe_sub(a, b) == fe_neg(fe_sub(b, a)),
{
    let m = modulus() as int;
    let (x, y) = (a.val() as int, b.val() as int);
    lemma_op_vals(a, b);
    lemma_op_vals(b, a);
    lemma_op_vals(fe_sub(b, a), a);
    vstd::arithmetic::div_mod::lemma_sub_mod_noop_right(0, y - x, m);
    assert(0 - (y - x) == x - y);
    lemma_eq_by_val(fe_sub(a, b), fe_neg(fe_sub(b, a)));
}

/// Negation undoes itself on canonical elements.
pub proof fn lemma_neg_neg(a: FieldElement)
    requires
        a.canonical(),
    ensures
        fe_neg(fe_neg(a)) == a,
{
    let m = modulus() as int;
    let x = a.val() as int;
    lemma_op_vals(a, a);
    lemma_op_vals(fe_neg(a), a);
    vstd::arithmetic::div_mod::lemma_sub_mod_noop_right(0, 0 - x, m);
    vstd::arithmetic::div_mod::lemma_small_mod(a.val(), modulus());
    lemma_eq_by_val(fe_neg(fe_neg(a)), a);
}

/// Powers are canonical.
pub proof fn lemma_pow_canonical(a: FieldElement, e: nat)
    ensures
        fe_pow(a, e).canonical(),
{
    if e == 0 {
        lemma_fe_of_canonical(1);
    } else {
        lemma_op_vals(fe_pow(a, (e - 1) as nat), a);
    }
}

/// `a^(m + n) == a^m * a^n`.
pub proof fn lemma_pow_add(a: FieldElement, m: nat, n: nat)
    ensures
        fe_pow(a, m + n) == fe_mul(fe_pow(a, m), fe_pow(a, n)),
    decreases n,
{
    lemma_pow_canonical(a, m);
    if n == 0 {
        lemma_mul_one(fe_pow(a, m));
    } else {
        lemma_pow_add(a, m, (n - 1) as nat);
        lemma_mul_assoc(fe_pow(a, m), fe_pow(a, (n - 1) as nat), a);
        assert(fe_pow(a, m + n) == fe_mul(fe_pow(a, (m + n - 1) as nat), a));
    }
}

/// `(a * b)^n == a^n * b^n`.
pub proof fn lemma_pow_mul(a: FieldElement, b: FieldElement, n: nat)
    ensures
        fe_pow(fe_mul(a, b), n) == fe_mul(fe_pow(a, n), fe_pow(b, n)),
    decreases n,
{
    if n == 0 {
        lemma_fe_of_canonical(1);
        lemma_mul_one(fe_one());
    } else {
        let k = (n - 1) as nat;
        lemma_pow_mul(a, b, k);
        let p = fe_pow(a, k);
        let q = fe_pow(b, k);
        lemma_mul_assoc(p, q, fe_mul(a, b));
        lemma_mul_assoc(q, a, b);
        lemma_mul_commutes(q, a);
        lemma_mul_assoc(a, q, b);
        lemma_mul_assoc(p, a, fe_mul(q, b));
    }
}

/// `(a^m)^n == a^(m * n)`.
pub proof fn lemma_pow_pow(a: FieldElement, m: nat, n: nat)
    ensures
        fe_pow(fe_pow(a, m), n) == fe_pow(a, m * n),
    decreases n,
{
    if n == 0 {
        assert(m * n == 0) by (nonlinear_arith) requires n == 0;
    } else {
        lemma_pow_pow(a, m, (n - 1) as nat);
        assert(m * (n - 1) + m == m * n) by (nonlinear_arith) requires n >= 1;
        lemma_pow_add(a, (m * (n - 1)) as nat, m);
    }
}

/// `1^n == 1`.
pub proof fn lemma_pow_of_one(n: nat)
    ensures
        fe_pow(fe_one(), n) == fe_one(),
    decreases n,
{
    lemma_fe_of_canonical(1);
    if n > 0 {
        lemma_pow_of_one((n - 1) as nat);
        lemma_mul_one(fe_one());
    }
}

/// `a^1 == a` for canonical `a`.
pub proof fn lemma_pow_one(a: FieldElement)
    requires
        a.canonical(),
    ensures
        fe_pow(a, 1) == a,
{
    lemma_mul_one(a);
    assert(fe_pow(a, 1) == fe_mul(fe_pow(a, 0), a));
}

/// The integer of an element, from its limbs.
pub proof fn lemma_val_limbs(a: FieldElement)
    ensures
        a.val() == a.limbs()[0] as nat + limb_radix() * (a.limbs()[1] as nat + limb_radix() * (
        a.limbs()[2] as nat + limb_radix() * a.limbs()[3] as nat)),
{
    reveal(FieldElement::val);
}

/// Canonical elements are those whose integer is below the modulus.
pub proof fn lemma_canonical_val(a: FieldElement)
    ensures
        a.canonical() <==> a.val() < modulus(),
{
}

/// The element standing for the integer `x` (reduced modulo the order).
pub open spec fn fe_int(x: int) -> FieldElement {
    fe_of((x % (modulus() as int)) as nat)
}

/// The field operations on elements standing for integers are the integer
/// operations, reduced.
pub proof fn lemma_fe_int_ops(x: int, y: int)
    ensures
        fe_add(fe_int(x), fe_int(y)) == fe_int(x + y),
        fe_sub(fe_int(x), fe_int(y)) == fe_int(x - y),
        fe_mul(fe_int(x), fe_int(y)) == fe_int(x * y),
        fe_neg(fe_int(x)) == fe_int(0 - x),
        fe_int(x).canonical(),
{
    let m = modulus() as int;
    lemma_reduced(x);
    lemma_reduced(y);
    vstd::arithmetic::div_mod::lemma_add_mod_noop(x, y, m);
    vstd::arithmetic::div_mod::lemma_sub_mod_noop(x, y, m);
    vstd::arithmetic::div_mod::lemma_mul_mod_noop(x, y, m);
    vstd::arithmetic::div_mod::lemma_sub_mod_noop(0, x, m);
    vstd::arithmetic::div_mod::lemma_small_mod(0, m as nat);
    let a = fe_int(x);
    let b = fe_int(y);
    assert(((a.val() + b.val()) % modulus()) == ((x + y) % m) as nat);
    assert(((a.val() * b.val()) % modulus()) == ((x * y) % m) as nat);
}

/// A canonical element stands for its own integer.
pub proof fn lemma_fe_int_val(a: FieldElement)
    requires
        a.canonical(),
    ensures
        a == fe_int(a.val() as int),
{
    vstd::arithmetic::div_mod::lemma_small_mod(a.val(), modulus());
    lemma_fe_of_val(a);
}

/// Integers congruent modulo the order stand for the same element.
pub proof fn lemma_fe_int_congruent(x: int, y: int)
    requires
        (x - y) % (modulus() as int) == 0,
    ensures
        fe_int(x) == fe_int(y),
{
    let m = modulus() as int;
    vstd::arithmetic::div_mod::lemma_fundamental_div_mod(x - y, m);
    vstd::arithmetic::div_mod::lemma_fundamental_div_mod(y, m);
    let k = (x - y) / m;
    assert(x == y + m * k);
    vstd::arithmetic::div_mod::lemma_mod_multiples_vanish(k, y, m);
}

/// `0` and `1` stand for zero and one.
pub proof fn lemma_fe_int_constants()
    ensures
        fe_int(0) == fe_zero(),
        fe_int(1) == fe_one(),
{
    vstd::arithmetic::div_mod::lemma_small_mod(0, modulus());
    vstd::arithmetic::div_mod::lemma_small_mod(1, modulus());
}

/// Negation only reads the integer of its operand, reduced.
pub proof fn lemma_fe_int_def(a: FieldElement)
    ensures
        fe_neg(a) == fe_neg(fe_int(a.val() as int)),
        fe_int(a.val() as int).canonical(),
{
    let m = modulus() as int;
    let x = a.val() as int;
    lemma_reduced(x);
    vstd::arithmetic::div_mod::lemma_sub_mod_noop_right(0, x, m);
}

} // verus!
