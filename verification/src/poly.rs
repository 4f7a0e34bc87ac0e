//! Univariate polynomials over the field, held as coefficient vectors (lowest
//! degree first), and the power-of-two evaluation domains they are
//! interpolated and evaluated on.
//!
//! Products, sums, quotients and transforms are computed by `ark_poly`; the
//! functions here convert to `DensePolynomial` / `GeneralEvaluationDomain`,
//! make the one call and convert back.
use crate::field::{fe_from_nat, fe_mul, fe_neg, fe_of, fe_one, fe_pow, fe_sub, fe_add, fe_zero, modulus, FieldElement};
use vstd::arithmetic::power2::pow2;
use ark_bn254::Fr;
use ark_ff::{BigInt, PrimeField};
use ark_poly::univariate::{DenseOrSparsePolynomial, DensePolynomial};
use ark_poly::{DenseUVPolynomial, EvaluationDomain, Evaluations, GeneralEvaluationDomain};
use vstd::prelude::*;

verus! {

/// `n` is a power of two.
pub open spec fn is_pow2(n: nat) -> bool
    decreases n,
{
    if n <= 1 {
        n == 1
    } else {
        n % 2 == 0 && is_pow2(n / 2)
    }
}

/// The smallest power of two that is at least `n` (1 for `n <= 1`).
pub open spec fn next_pow2(n: nat) -> nat
    decreases n,
{
    if n <= 1 {
        1
    } else {
        2 * next_pow2(((n + 1) / 2) as nat)
    }
}

/// `next_pow2(n)` is a power of two, at least `n` and at least 1, and
/// halving it (when above 1) falls below `n`.
pub proof fn lemma_next_pow2(n: nat)
    ensures
        is_pow2(next_pow2(n)),
        next_pow2(n) >= n,
        next_pow2(n) >= 1,
        next_pow2(n) > 1 ==> next_pow2(n) / 2 < n,
    decreases n,
{
    if n > 1 {
        let h = ((n + 1) / 2) as nat;
        lemma_next_pow2(h);
        let p = next_pow2(h);
        assert((2 * p) % 2 == 0 && (2 * p) / 2 == p) by (nonlinear_arith);
    }
}

/// The largest domain size that the field's radix-2 FFT supports: 2^28.
pub open spec fn max_radix2_size() -> nat {
    0x1000_0000
}

/// The largest domain the field supports at all: `9 * 2^28`, the subgroup
/// of order `2^28 * 3^2` that mixed-radix FFTs use.
pub open spec fn max_domain_size() -> nat {
    0x9000_0000
}

/// `GeneralEvaluationDomain::new` finds a subgroup for `n` points without
/// its size search overflowing: at most `9 * 2^28` points, and where `usize`
/// has 32 bits at most 2^31 (past which its doubling loop overflows).
pub open spec fn supported_domain(n: nat) -> bool {
    n <= max_domain_size() && (n <= 0x8000_0000 || usize::MAX > 0xffff_ffff)
}

/// The size `GeneralEvaluationDomain::new` picks for `n` points: the next
/// power of two up to 2^28; beyond that the smallest `3 * 2^k` or `9 * 2^k`
/// (with `k <= 28`) that is at least `n`.
pub open spec fn domain_size(n: nat) -> nat {
    if n <= max_radix2_size() {
        next_pow2(n)
    } else {
        let three = 3 * next_pow2(((n + 2) / 3) as nat);
        let nine = 9 * next_pow2(((n + 8) / 9) as nat);
        if three <= 3 * max_radix2_size() && three < nine {
            three
        } else {
            nine
        }
    }
}

/// Coefficient `i` of `p`, zero beyond its length.
pub open spec fn coeff(p: Seq<FieldElement>, i: int) -> FieldElement {
    if 0 <= i < p.len() {
        p[i]
    } else {
        fe_zero()
    }
}

/// Every coefficient of `p` is canonical.
pub open spec fn canonical_coeffs(p: Seq<FieldElement>) -> bool {
    forall|i: int| 0 <= i < p.len() ==> (#[trigger] p[i]).canonical()
}

/// `p` has no zero leading coefficient.
pub open spec fn is_trimmed(p: Seq<FieldElement>) -> bool {
    p.len() == 0 || p.last() != fe_zero()
}

/// `p` with its zero leading coefficients removed.
pub open spec fn trim(p: Seq<FieldElement>) -> Seq<FieldElement>
    decreases p.len(),
{
    if p.len() > 0 && p.last() == fe_zero() {
        trim(p.drop_last())
    } else {
        p
    }
}

/// Coefficient-wise sum.
pub open spec fn poly_add_spec(a: Seq<FieldElement>, b: Seq<FieldElement>) -> Seq<FieldElement> {
    Seq::new(
        if a.len() >= b.len() { a.len() } else { b.len() },
        |i: int| fe_add(coeff(a, i), coeff(b, i)),
    )
}

/// Coefficient-wise difference.
pub open spec fn poly_sub_spec(a: Seq<FieldElement>, b: Seq<FieldElement>) -> Seq<FieldElement> {
    Seq::new(
        if a.len() >= b.len() { a.len() } else { b.len() },
        |i: int| fe_sub(coeff(a, i), coeff(b, i)),
    )
}

/// Every coefficient multiplied by `c`.
pub open spec fn poly_scale_spec(a: Seq<FieldElement>, c: FieldElement) -> Seq<FieldElement> {
    a.map_values(|x: FieldElement| fe_mul(x, c))
}

/// `sum_{i < n} a[i] * b[k - i]`.
pub open spec fn conv_sum(a: Seq<FieldElement>, b: Seq<FieldElement>, k: int, n: nat) -> FieldElement
    decreases n,
{
    if n == 0 {
        fe_zero()
    } else {
        fe_add(conv_sum(a, b, k, (n - 1) as nat), fe_mul(coeff(a, n - 1), coeff(b, k - (n - 1))))
    }
}

/// The product of two polynomials (the convolution of their coefficients).
pub open spec fn poly_mul_spec(a: Seq<FieldElement>, b: Seq<FieldElement>) -> Seq<FieldElement> {
    if a.len() == 0 || b.len() == 0 {
        Seq::empty()
    } else {
        Seq::new((a.len() + b.len() - 1) as nat, |k: int| conv_sum(a, b, k, a.len()))
    }
}

/// The value of `p` at `x` (Horner's rule).
pub open spec fn poly_eval(p: Seq<FieldElement>, x: FieldElement) -> FieldElement
    decreases p.len(),
{
    if p.len() == 0 {
        fe_zero()
    } else {
        fe_add(p[0], fe_mul(x, poly_eval(p.drop_first(), x)))
    }
}

/// `q` and `r` are the quotient and remainder of `a` divided by `b`:
/// `a == q * b + r` with `deg r < deg b`, both with canonical coefficients and
/// no zero leading coefficient.
pub open spec fn is_division(
    a: Seq<FieldElement>,
    b: Seq<FieldElement>,
    q: Seq<FieldElement>,
    r: Seq<FieldElement>,
) -> bool {
    &&& canonical_coeffs(q)
    &&& canonical_coeffs(r)
    &&& is_trimmed(q)
    &&& is_trimmed(r)
    &&& r.len() < trim(b).len()
    &&& trim(poly_add_spec(poly_mul_spec(q, b), r)) == trim(a)
}

/// The vanishing polynomial `X^n - 1` of the subgroup of size `n`.
pub open spec fn vanishing_spec(n: nat) -> Seq<FieldElement> {
    Seq::new(
        n + 1,
        |i: int|
            if i == 0 {
                fe_neg(fe_one())
            } else if i == n {
                fe_one()
            } else {
                fe_zero()
            },
    )
}

/// The generator `FftField::get_root_of_unity` gives for the subgroup of
/// size `size`, for a size `2^a * 3^b` with `a <= 28` and `b <= 2`: the
/// field's multiplicative generator 5 raised to `(modulus - 1) / size` (the
/// crate reaches it from `5^((modulus - 1) / (2^28 * 9))` by cubings and
/// squarings).
#[verifier::opaque]
pub open spec fn root_of_unity(size: nat) -> nat {
    fe_pow(fe_from_nat(5), ((modulus() - 1) as nat / size) as nat).val()
}

/// A power of two divides every power of two at least as large.
pub proof fn lemma_pow2_multiple(a: nat, b: nat)
    requires
        is_pow2(a),
        is_pow2(b),
        a <= b,
    ensures
        b == a * (b / a),
        b / a >= 1,
{
    crate::acceptance::lemma_log2_of(a);
    crate::acceptance::lemma_log2_of(b);
    let i = crate::acceptance::log2_of(a);
    let j = crate::acceptance::log2_of(b);
    if i > j {
        vstd::arithmetic::power2::lemma_pow2_strictly_increases(j, i);
    }
    let k = (j - i) as nat;
    vstd::arithmetic::power2::lemma_pow2_adds(i, k);
    vstd::arithmetic::power2::lemma_pow2_pos(i);
    vstd::arithmetic::power2::lemma_pow2_pos(k);
    assert(b == a * pow2(k));
    vstd::arithmetic::div_mod::lemma_div_multiples_vanish(pow2(k) as int, a as int);
}

/// Generators of radix-2 subgroups are powers of one another: for sizes
/// `m <= s`, powers of two up to 2^28, the generator of the subgroup of size
/// `m` is that of size `s` raised to `s / m`.
pub proof fn lemma_root_of_unity_powers(s: nat, m: nat)
    requires
        is_pow2(s),
        is_pow2(m),
        m <= s,
        s <= max_radix2_size(),
    ensures
        root_of_unity(m) == fe_pow(fe_of(root_of_unity(s)), s / m).val(),
{
    reveal(root_of_unity);
    reveal_with_fuel(is_pow2, 30);
    let five = fe_from_nat(5);
    let big = (modulus() - 1) as nat;
    let t = 81540058820840996586704275553141814055101440848469862132140264610111nat;
    assert(big == max_radix2_size() * t);
    lemma_pow2_multiple(s, max_radix2_size());
    lemma_pow2_multiple(m, s);
    let c = max_radix2_size() / s;
    let b = s / m;
    let a = c * t;
    assert(big == s * a) by (nonlinear_arith)
        requires big == max_radix2_size() * t, max_radix2_size() == s * c, a == c * t;
    assert(big == m * (b * a)) by (nonlinear_arith)
        requires big == s * a, s == m * b;
    vstd::arithmetic::div_mod::lemma_div_multiples_vanish(a as int, s as int);
    vstd::arithmetic::div_mod::lemma_div_multiples_vanish((b * a) as int, m as int);
    crate::field::lemma_fe_of_val(fe_pow(five, a));
    crate::field::lemma_pow_pow(five, a, b);
    assert(a * b == b * a) by (nonlinear_arith);
}

/// Element `i` of the subgroup of size `size`: the `i`-th power of its
/// generator.
pub open spec fn domain_point(size: nat, i: nat) -> FieldElement {
    fe_pow(fe_of(root_of_unity(size)), i)
}

/// The values of `coeffs` (cut to its first `size` coefficients) at the
/// elements of the subgroup of size `size`, in order.
pub open spec fn fft_spec(coeffs: Seq<FieldElement>, size: nat) -> Seq<FieldElement> {
    Seq::new(
        size,
        |i: int|
            poly_eval(
                coeffs.take(if coeffs.len() <= size { coeffs.len() as int } else { size as int }),
                domain_point(size, i as nat),
            ),
    )
}

/// `c` is the polynomial of degree below `size`, with canonical coefficients
/// and no zero leading coefficient, that takes the values `evals` (zero past
/// their end) on the subgroup of size `size`.
pub open spec fn is_interpolant(c: Seq<FieldElement>, evals: Seq<FieldElement>, size: nat) -> bool {
    &&& canonical_coeffs(c)
    &&& is_trimmed(c)
    &&& c.len() <= size
    &&& forall|i: int| 0 <= i < size ==> #[trigger] poly_eval(c, domain_point(size, i as nat)) == coeff(evals, i)
}

/// The interpolant of `evals` on the subgroup of size `size` (there is exactly
/// one, the subgroup's elements being distinct).
pub open spec fn interpolant(evals: Seq<FieldElement>, size: nat) -> Seq<FieldElement> {
    choose|c: Seq<FieldElement>| is_interpolant(c, evals, size)
}

/// The quotient and remainder of `a` by `b` (there is exactly one such pair
/// for a nonzero `b`).
pub open spec fn poly_divmod(a: Seq<FieldElement>, b: Seq<FieldElement>) -> (Seq<FieldElement>, Seq<FieldElement>) {
    choose|qr: (Seq<FieldElement>, Seq<FieldElement>)| is_division(a, b, qr.0, qr.1)
}

/// The monic linear polynomial `X - z`.
pub open spec fn linear_factor(z: FieldElement) -> Seq<FieldElement> {
    seq![fe_neg(z), fe_from_nat(1)]
}

/// Removing leading zeros never lengthens a polynomial, and leaves none.
pub proof fn lemma_trim(p: Seq<FieldElement>)
    ensures
        trim(p).len() <= p.len(),
        is_trimmed(trim(p)),
    decreases p.len(),
{
    if p.len() > 0 && p.last() == fe_zero() {
        lemma_trim(p.drop_last());
    }
}

/// A multiplicative subgroup of the field: its size and its generator.
#[derive(Clone, Copy, Debug)]
pub struct Domain {
    pub size: usize,
    pub generator: FieldElement,
}

/// `GeneralEvaluationDomain::new`: the smallest supported subgroup with at
/// least `n` elements (`n` at most `9 * 2^28`, past which the crate finds
/// none; on a 32-bit target at most 2^31, past which its size search
/// overflows). Up to 2^28 elements this is
/// the radix-2 subgroup whose size is the next power of two; beyond that the
/// mixed-radix subgroup of `domain_size(n)` elements. Its generator is the
/// primitive root of unity of that order that `FftField::get_root_of_unity`
/// gives, so its power to the size is 1; for a radix-2 subgroup of at least
/// two elements, being primitive, its power to half the size is -1.
#[verifier::external_body]
pub(crate) fn domain_new(n: usize) -> (r: Domain)
    requires
        supported_domain(n as nat),
    ensures
        r.size == domain_size(n as nat),
        r.generator.val() == root_of_unity(r.size as nat),
        fe_pow(r.generator, r.size as nat) == fe_one(),
        n <= max_radix2_size() && r.size >= 2 ==> fe_pow(r.generator, (r.size / 2) as nat) == fe_neg(fe_one()),
{
    let d = GeneralEvaluationDomain::<Fr>::new(n).unwrap();
    let g = d.group_gen().into_bigint().0;
    Domain { size: d.size(), generator: FieldElement::from_canonical_limbs(g) }
}

/// `EvaluationDomain::fft` on the subgroup `GeneralEvaluationDomain::new`
/// builds for `points` points (of `domain_size(points)` elements): the values
/// of the polynomial (cut to its first `domain_size(points)` coefficients) at
/// the subgroup's elements, in order.
#[verifier::external_body]
pub(crate) fn fft(points: usize, coeffs: &Vec<FieldElement>) -> (r: Vec<FieldElement>)
    requires
        supported_domain(points as nat),
    ensures
        r@ == fft_spec(coeffs@, domain_size(points as nat)),
{
    let dom = GeneralEvaluationDomain::<Fr>::new(points).unwrap();
    let c: Vec<Fr> = coeffs.iter().map(|x| Fr::new(BigInt::new(x.to_limbs()))).collect();
    dom.fft(&c).iter().map(|x| FieldElement::from_canonical_limbs(x.into_bigint().0)).collect()
}

/// `Evaluations::interpolate` on the subgroup `GeneralEvaluationDomain::new`
/// builds for `points` points (of `domain_size(points)` elements): the
/// polynomial of degree below the subgroup's size that takes the given values
/// (zero past their end) at the subgroup's elements.
#[verifier::external_body]
pub(crate) fn interpolate(points: usize, evals: &Vec<FieldElement>) -> (r: Vec<FieldElement>)
    requires
        supported_domain(points as nat),
    ensures
        is_interpolant(r@, evals@, domain_size(points as nat)),
        r@ == interpolant(evals@, domain_size(points as nat)),
{
    let dom = GeneralEvaluationDomain::<Fr>::new(points).unwrap();
    let e: Vec<Fr> = evals.iter().map(|x| Fr::new(BigInt::new(x.to_limbs()))).collect();
    let p = Evaluations::from_vec_and_domain(e, dom).interpolate();
    p.coeffs.iter().map(|x| FieldElement::from_canonical_limbs(x.into_bigint().0)).collect()
}

/// `&DensePolynomial - &DensePolynomial`.
#[verifier::external_body]
pub(crate) fn poly_sub(a: &Vec<FieldElement>, b: &Vec<FieldElement>) -> (r: Vec<FieldElement>)
    ensures
        r@ == trim(poly_sub_spec(a@, b@)),
{
    let x = DensePolynomial::from_coefficients_vec(a.iter().map(|c| Fr::new(BigInt::new(c.to_limbs()))).collect());
    let y = DensePolynomial::from_coefficients_vec(b.iter().map(|c| Fr::new(BigInt::new(c.to_limbs()))).collect());
    (&x - &y).coeffs.iter().map(|c| FieldElement::from_canonical_limbs(c.into_bigint().0)).collect()
}

/// `&DensePolynomial + &DensePolynomial`.
#[verifier::external_body]
pub(crate) fn poly_add(a: &Vec<FieldElement>, b: &Vec<FieldElement>) -> (r: Vec<FieldElement>)
    ensures
        r@ == trim(poly_add_spec(a@, b@)),
{
    let x = DensePolynomial::from_coefficients_vec(a.iter().map(|c| Fr::new(BigInt::new(c.to_limbs()))).collect());
    let y = DensePolynomial::from_coefficients_vec(b.iter().map(|c| Fr::new(BigInt::new(c.to_limbs()))).collect());
    (&x + &y).coeffs.iter().map(|c| FieldElement::from_canonical_limbs(c.into_bigint().0)).collect()
}

/// `&DensePolynomial * Fr`: every coefficient times `c`.
#[verifier::external_body]
pub(crate) fn poly_scale(a: &Vec<FieldElement>, c: &FieldElement) -> (r: Vec<FieldElement>)
    ensures
        r@ == trim(poly_scale_spec(a@, *c)),
{
    let x = DensePolynomial::from_coefficients_vec(a.iter().map(|c| Fr::new(BigInt::new(c.to_limbs()))).collect());
    (&x * Fr::new(BigInt::new(c.to_limbs()))).coeffs.iter().map(|c| FieldElement::from_canonical_limbs(c.into_bigint().0)).collect()
}

/// `&DensePolynomial * &DensePolynomial`, which the crate computes (for two
/// nonzero factors) through an FFT over the subgroup that
/// `GeneralEvaluationDomain::new` builds for as many points as the product has
/// coefficients, radix-2 or mixed-radix; it panics where there is none.
#[verifier::external_body]
pub(crate) fn poly_mul(a: &Vec<FieldElement>, b: &Vec<FieldElement>) -> (r: Vec<FieldElement>)
    requires
        supported_domain((a.len() + b.len()) as nat),
    ensures
        r@ == trim(poly_mul_spec(a@, b@)),
{
    let x = DensePolynomial::from_coefficients_vec(a.iter().map(|c| Fr::new(BigInt::new(c.to_limbs()))).collect());
    let y = DensePolynomial::from_coefficients_vec(b.iter().map(|c| Fr::new(BigInt::new(c.to_limbs()))).collect());
    (&x * &y).coeffs.iter().map(|c| FieldElement::from_canonical_limbs(c.into_bigint().0)).collect()
}

/// `DenseOrSparsePolynomial::divide_with_q_and_r`: quotient and remainder of
/// `a` by the nonzero polynomial `b` (the call panics on a zero divisor).
#[verifier::external_body]
pub(crate) fn poly_divide(a: &Vec<FieldElement>, b: &Vec<FieldElement>) -> (r: (Vec<FieldElement>, Vec<FieldElement>))
    requires
        trim(b@).len() > 0,
    ensures
        is_division(a@, b@, r.0@, r.1@),
        (r.0@, r.1@) == poly_divmod(a@, b@),
{
    let x = DensePolynomial::from_coefficients_vec(a.iter().map(|c| Fr::new(BigInt::new(c.to_limbs()))).collect());
    let y = DensePolynomial::from_coefficients_vec(b.iter().map(|c| Fr::new(BigInt::new(c.to_limbs()))).collect());
    let (q, r) = DenseOrSparsePolynomial::from(x).divide_with_q_and_r(&DenseOrSparsePolynomial::from(y)).unwrap();
    (q.coeffs.iter().map(|c| FieldElement::from_canonical_limbs(c.into_bigint().0)).collect(),
     r.coeffs.iter().map(|c| FieldElement::from_canonical_limbs(c.into_bigint().0)).collect())
}

/// The radix-2 subgroup with at least `n` elements, when it exists (`n` at
/// most 2^28): its size is the next power of two.
pub fn radix2_domain(n: usize) -> (r: Option<Domain>)
    ensures
        r is Some <==> n <= max_radix2_size(),
        r matches Some(d) ==> {
            &&& d.size == next_pow2(n as nat)
            &&& is_pow2(d.size as nat)
            &&& d.size <= max_radix2_size()
            &&& d.size >= n
            &&& d.generator.val() == root_of_unity(d.size as nat)
            &&& fe_pow(d.generator, d.size as nat) == fe_one()
            &&& d.size >= 2 ==> fe_pow(d.generator, (d.size / 2) as nat) == fe_neg(fe_one())
            &&& forall|m: nat|
                is_pow2(m) && m <= d.size ==> #[trigger] root_of_unity(m) == fe_pow(d.generator, (d.size as nat / m) as nat).val()
        },
{
    if n > 0x1000_0000 {
        return None;
    }
    let d = domain_new(n);
    proof {
        lemma_next_pow2(n as nat);
        reveal_with_fuel(is_pow2, 30);
        lemma_next_pow2_le(n as nat, max_radix2_size());
        crate::field::lemma_fe_of_val(d.generator);
        assert forall|m: nat|
            is_pow2(m) && m <= d.size implies #[trigger] root_of_unity(m) == fe_pow(d.generator, (d.size as nat / m) as nat).val() by {
            lemma_root_of_unity_powers(d.size as nat, m);
        }
    }
    Some(d)
}

/// The subgroup `GeneralEvaluationDomain::new` builds for `n` points, radix-2
/// or mixed-radix, when there is one: it has `domain_size(n)` elements, at
/// least `n`.
pub fn evaluation_domain(n: usize) -> (r: Option<Domain>)
    ensures
        r is Some <==> supported_domain(n as nat),
        r matches Some(d) ==> {
            &&& d.size == domain_size(n as nat)
            &&& d.size >= n
            &&& d.size >= 1
            &&& d.generator.val() == root_of_unity(d.size as nat)
        },
{
    if n > 0x9000_0000 || (n > 0x8000_0000 && usize::MAX <= 0xffff_ffff) {
        return None;
    }
    let d = domain_new(n);
    proof {
        lemma_domain_size(n as nat);
    }
    Some(d)
}

/// The subgroup `GeneralEvaluationDomain::new` picks for `n` points has at
/// least `n` elements, and at least one.
pub proof fn lemma_domain_size(n: nat)
    ensures
        domain_size(n) >= n,
        domain_size(n) >= 1,
{
    lemma_next_pow2(n);
    if n > max_radix2_size() {
        let a = ((n + 2) / 3) as nat;
        let b = ((n + 8) / 9) as nat;
        lemma_next_pow2(a);
        lemma_next_pow2(b);
        assert(3 * next_pow2(a) >= n) by (nonlinear_arith)
            requires next_pow2(a) >= a, a == (n + 2) / 3;
        assert(9 * next_pow2(b) >= n) by (nonlinear_arith)
            requires next_pow2(b) >= b, b == (n + 8) / 9;
    }
}

/// A power of two at least `n` is at least `next_pow2(n)`.
pub proof fn lemma_next_pow2_le(n: nat, m: nat)
    requires
        is_pow2(m),
        n <= m,
    ensures
        next_pow2(n) <= m,
    decreases n,
{
    if n > 1 {
        assert(m > 1);
        let h = ((n + 1) / 2) as nat;
        assert(m % 2 == 0 && is_pow2(m / 2));
        lemma_next_pow2_le(h, m / 2);
    }
}

/// The elements of the subgroup, in order: successive powers of its
/// generator, starting from one.
pub fn domain_elements(d: &Domain) -> (r: Vec<FieldElement>)
    ensures
        r.len() == d.size,
        forall|i: int| 0 <= i < d.size ==> #[trigger] r@[i] == fe_pow(d.generator, i as nat),
{
    let mut r: Vec<FieldElement> = Vec::new();
    let mut cur = FieldElement::one();
    let mut i: usize = 0;
    while i < d.size
        invariant
            i <= d.size,
            r.len() == i,
            cur == fe_pow(d.generator, i as nat),
            forall|k: int| 0 <= k < i ==> #[trigger] r@[k] == fe_pow(d.generator, k as nat),
        decreases d.size - i,
    {
        r.push(cur);
        cur = crate::field::mul(&cur, &d.generator);
        i = i + 1;
    }
    r
}

/// `EvaluationDomain::vanishing_polynomial` of the subgroup of size `n`:
/// `X^n - 1`, as dense coefficients.
pub fn vanishing_polynomial(n: usize) -> (r: Vec<FieldElement>)
    requires
        n < usize::MAX,
    ensures
        r@ == vanishing_spec(n as nat),
{
    let one = FieldElement::one();
    let minus_one = crate::field::neg(&one);
    let zero = FieldElement::zero();
    let mut r: Vec<FieldElement> = Vec::new();
    r.push(minus_one);
    if n == 0 {
        assert(r@ =~= vanishing_spec(0));
        return r;
    }
    let mut i: usize = 1;
    while i < n
        invariant
            1 <= i <= n,
            zero == fe_zero(),
            r.len() == i,
            forall|k: int| 0 <= k < i ==> #[trigger] r@[k] == vanishing_spec(n as nat)[k],
        decreases n - i,
    {
        r.push(zero);
        assert(vanishing_spec(n as nat)[i as int] == fe_zero());
        assert(r@[i as int] == fe_zero());
        i = i + 1;
    }
    r.push(one);
    assert(r@ =~= vanishing_spec(n as nat));
    r
}

} // verus!
