//! The constraint polynomials of the Fibonacci-square statement and their
//! random linear combination, the composition polynomial.
//!
//! For a trace polynomial `f` on the subgroup of size `n` generated by `g`:
//! - `p0 = (f - 1) / (X - 1)` says the trace starts with 1;
//! - `p1 = (f - target) / (X - g^t)` says element `t` of the trace is `target`;
//! - `p3 = (f(g^2 X) - f(g X)^2 - f^2) * (X - g^t) * (X - g^(t-1)) * prod_{t < i < n} (X - g^i) / (X^n - 1)`
//!   says the recurrence holds wherever it is meant to: on every point of the
//!   subgroup up to `g^(t-2)`.
use crate::field::{fe_from_nat, fe_mul, fe_pow, FieldElement};
use crate::hashing::{fe_bytes, fr_from_hash, fr_to_bytes, random_fr_from_hash};
use crate::poly::{
    is_division, lemma_trim, linear_factor, poly_add, poly_add_spec, poly_divide, poly_divmod, poly_mul,
    poly_mul_spec, poly_scale, poly_scale_spec, poly_sub, poly_sub_spec, trim, vanishing_polynomial,
    vanishing_spec, Domain,
};
use vstd::prelude::*;

verus! {

/// Why the prover could not build a proof.
#[derive(Clone, Copy, Debug, PartialEq, Eq, Structural)]
pub enum ProverError {
    /// The trace is longer than 2^28 elements. Its subgroup would then be
    /// mixed-radix, larger than the trace, and the transition constraint
    /// would wrap round from the padding to the trace's first element, so the
    /// transition numerator could not divide exactly.
    TraceTooLong,
    /// The extended domain has more than 2^28 elements. The field's subgroup
    /// for it would then be mixed-radix, of another size than the trace's
    /// length times the blowup factor: its Merkle trees would have levels of
    /// odd length, whose last node has no sibling to open, and the verifier
    /// draws query positions modulo that product, not the subgroup's size.
    DomainTooLarge,
    /// `f - 1` is not divisible by `X - 1`: the trace does not start with 1.
    BoundaryNotDivisible,
    /// `f - target` is not divisible by `X - g^t`.
    TargetNotDivisible,
    /// The target index is 0, which leaves no point before it.
    TargetIndexZero,
    /// The transition numerator is not divisible by `X^n - 1`.
    TransitionNotDivisible,
    /// A FRI fold met a zero point, which has no inverse.
    ZeroDomainPoint,
}

/// `f - 1`.
pub open spec fn p0_numerator(f: Seq<FieldElement>) -> Seq<FieldElement> {
    trim(poly_sub_spec(f, seq![fe_from_nat(1)]))
}

/// `f - target`.
pub open spec fn p1_numerator(f: Seq<FieldElement>, target: FieldElement) -> Seq<FieldElement> {
    trim(poly_sub_spec(f, seq![target]))
}

/// The coefficients of `f(h^k X)`: coefficient `i` times `h^(k*i)`.
pub open spec fn scaled_argument(f: Seq<FieldElement>, h: FieldElement, k: nat) -> Seq<FieldElement> {
    Seq::new(f.len(), |i: int| fe_mul(f[i], fe_pow(h, k * (i as nat))))
}

/// `f(g^2 X) - f(g X)^2 - f(X)^2`.
pub open spec fn transition_numerator(f: Seq<FieldElement>, g: FieldElement) -> Seq<FieldElement> {
    let f_gx = scaled_argument(f, g, 1);
    trim(
        poly_sub_spec(
            trim(poly_sub_spec(scaled_argument(f, g, 2), trim(poly_mul_spec(f_gx, f_gx)))),
            trim(poly_mul_spec(f, f)),
        ),
    )
}

/// `prod_{lo <= i < hi} (X - g^i)`, starting from the constant 1.
pub open spec fn exclusion_polynomial(g: FieldElement, lo: nat, hi: nat) -> Seq<FieldElement>
    decreases hi,
{
    if hi <= lo {
        seq![fe_from_nat(1)]
    } else {
        trim(
            poly_mul_spec(
                exclusion_polynomial(g, lo, (hi - 1) as nat),
                linear_factor(fe_pow(g, (hi - 1) as nat)),
            ),
        )
    }
}

/// The numerator of `p3`.
pub open spec fn p3_numerator(f: Seq<FieldElement>, g: FieldElement, t: nat, n: nat) -> Seq<FieldElement> {
    let a = trim(poly_mul_spec(transition_numerator(f, g), linear_factor(fe_pow(g, t))));
    let b = trim(poly_mul_spec(a, linear_factor(fe_pow(g, (t - 1) as nat))));
    trim(poly_mul_spec(b, exclusion_polynomial(g, t + 1, n)))
}

/// The three combination coefficients, drawn from the target value and the
/// generator (each also from the ones drawn before it).
pub open spec fn alphas(target: FieldElement, g: FieldElement) -> (FieldElement, FieldElement, FieldElement) {
    let seed = fe_bytes(target) + fe_bytes(g);
    let a0 = fr_from_hash(seed);
    let a1 = fr_from_hash(seed + fe_bytes(a0));
    let a2 = fr_from_hash(seed + fe_bytes(a0) + fe_bytes(a1));
    (a0, a1, a2)
}

/// The composition polynomial `a0*p0 + a1*p1 + a2*p3` for the trace
/// polynomial `f`, the subgroup of size `n` generated by `g` (its excluded
/// points running up to `trace_length`), the target value and index; or the
/// first reason it does not exist.
pub open spec fn composition_polynomial(
    f: Seq<FieldElement>,
    g: FieldElement,
    n: nat,
    target: FieldElement,
    t: nat,
    trace_length: nat,
) -> Result<Seq<FieldElement>, ProverError> {
    let d0 = poly_divmod(p0_numerator(f), linear_factor(fe_from_nat(1)));
    let d1 = poly_divmod(p1_numerator(f, target), linear_factor(fe_pow(g, t)));
    if d0.1.len() > 0 {
        Err(ProverError::BoundaryNotDivisible)
    } else if d1.1.len() > 0 {
        Err(ProverError::TargetNotDivisible)
    } else if t == 0 {
        Err(ProverError::TargetIndexZero)
    } else {
        let d3 = poly_divmod(p3_numerator(f, g, t, trace_length), vanishing_spec(n));
        if d3.1.len() > 0 {
            Err(ProverError::TransitionNotDivisible)
        } else {
            let (a0, a1, a2) = alphas(target, g);
            Ok(
                trim(
                    poly_add_spec(
                        trim(poly_add_spec(trim(poly_scale_spec(d0.0, a0)), trim(poly_scale_spec(d1.0, a1)))),
                        trim(poly_scale_spec(d3.0, a2)),
                    ),
                ),
            )
        }
    }
}

/// The three divisions the composition polynomial of `f` rests on are
/// divisions: the chosen quotients and remainders are what `poly_divmod`
/// names.
pub open spec fn divisions_hold(
    f: Seq<FieldElement>,
    g: FieldElement,
    n: nat,
    target: FieldElement,
    t: nat,
    trace_length: nat,
) -> bool {
    let n0 = p0_numerator(f);
    let b0 = linear_factor(fe_from_nat(1));
    let n1 = p1_numerator(f, target);
    let b1 = linear_factor(fe_pow(g, t));
    let n3 = p3_numerator(f, g, t, trace_length);
    let b3 = vanishing_spec(n);
    &&& is_division(n0, b0, poly_divmod(n0, b0).0, poly_divmod(n0, b0).1)
    &&& is_division(n1, b1, poly_divmod(n1, b1).0, poly_divmod(n1, b1).1)
    &&& is_division(n3, b3, poly_divmod(n3, b3).0, poly_divmod(n3, b3).1)
}

/// What the divisions the composition polynomial is built from are known to
/// be: the first always a division; the second once the first left no
/// remainder; the third once neither did and the target index is not 0.
pub open spec fn divisions_known(
    f: Seq<FieldElement>,
    g: FieldElement,
    n: nat,
    target: FieldElement,
    t: nat,
    trace_length: nat,
) -> bool {
    let n0 = p0_numerator(f);
    let b0 = linear_factor(fe_from_nat(1));
    let n1 = p1_numerator(f, target);
    let b1 = linear_factor(fe_pow(g, t));
    let n3 = p3_numerator(f, g, t, trace_length);
    let b3 = vanishing_spec(n);
    &&& is_division(n0, b0, poly_divmod(n0, b0).0, poly_divmod(n0, b0).1)
    &&& poly_divmod(n0, b0).1.len() == 0 ==> is_division(n1, b1, poly_divmod(n1, b1).0, poly_divmod(n1, b1).1)
    &&& poly_divmod(n0, b0).1.len() == 0 && poly_divmod(n1, b1).1.len() == 0 && t != 0 ==> is_division(
        n3,
        b3,
        poly_divmod(n3, b3).0,
        poly_divmod(n3, b3).1,
    )
}

/// The three combination coefficients are successive Fiat-Shamir draws:
/// each hashes the transcript of the target value and the generator (their
/// little-endian encodings) followed by every coefficient drawn before it, so
/// the third is drawn from a transcript holding the first two.
pub proof fn lemma_alphas_transcript(target: FieldElement, g: FieldElement)
    ensures
        alphas(target, g).0 == fr_from_hash(fe_bytes(target) + fe_bytes(g)),
        alphas(target, g).1 == fr_from_hash(fe_bytes(target) + fe_bytes(g) + fe_bytes(alphas(target, g).0)),
        alphas(target, g).2 == fr_from_hash(
            fe_bytes(target) + fe_bytes(g) + fe_bytes(alphas(target, g).0) + fe_bytes(alphas(target, g).1),
        ),
{
}

/// The composition polynomial, when it exists, weighs `p0`, `p1` and `p3` by
/// the three successive Fiat-Shamir draws on the target value and the
/// generator: `H(s) * p0 + H(s || a0) * p1 + H(s || a0 || a1) * p3`, with
/// `s` the encodings of the target and the generator.
pub proof fn lemma_composition_weights(
    f: Seq<FieldElement>,
    g: FieldElement,
    n: nat,
    target: FieldElement,
    t: nat,
    trace_length: nat,
)
    requires
        composition_polynomial(f, g, n, target, t, trace_length) is Ok,
    ensures
        ({
            let s = fe_bytes(target) + fe_bytes(g);
            let a0 = fr_from_hash(s);
            let a1 = fr_from_hash(s + fe_bytes(a0));
            let a2 = fr_from_hash(s + fe_bytes(a0) + fe_bytes(a1));
            let q0 = poly_divmod(p0_numerator(f), linear_factor(fe_from_nat(1))).0;
            let q1 = poly_divmod(p1_numerator(f, target), linear_factor(fe_pow(g, t))).0;
            let q3 = poly_divmod(p3_numerator(f, g, t, trace_length), vanishing_spec(n)).0;
            composition_polynomial(f, g, n, target, t, trace_length) == Ok::<Seq<FieldElement>, ProverError>(
                trim(
                    poly_add_spec(
                        trim(poly_add_spec(trim(poly_scale_spec(q0, a0)), trim(poly_scale_spec(q1, a1)))),
                        trim(poly_scale_spec(q3, a2)),
                    ),
                ),
            )
        }),
{
    lemma_alphas_transcript(target, g);
}

/// Draws the three combination coefficients (Fiat-Shamir on the target value
/// and the generator).
pub fn derive_alphas(target: &FieldElement, g: &FieldElement) -> (r: (FieldElement, FieldElement, FieldElement))
    ensures
        r == alphas(*target, *g),
        r.0 == fr_from_hash(fe_bytes(*target) + fe_bytes(*g)),
        r.1 == fr_from_hash(fe_bytes(*target) + fe_bytes(*g) + fe_bytes(r.0)),
        r.2 == fr_from_hash(fe_bytes(*target) + fe_bytes(*g) + fe_bytes(r.0) + fe_bytes(r.1)),
{
    let mut alpha_seed: Vec<u8> = Vec::new();
    let tb = fr_to_bytes(target);
    let gb = fr_to_bytes(g);
    crate::data::extend_with_hash(&mut alpha_seed, &tb);
    crate::data::extend_with_hash(&mut alpha_seed, &gb);
    let alpha_0 = random_fr_from_hash(alpha_seed.as_slice());
    let b0 = fr_to_bytes(&alpha_0);
    crate::data::extend_with_hash(&mut alpha_seed, &b0);
    let alpha_1 = random_fr_from_hash(alpha_seed.as_slice());
    let b1 = fr_to_bytes(&alpha_1);
    crate::data::extend_with_hash(&mut alpha_seed, &b1);
    let alpha_2 = random_fr_from_hash(alpha_seed.as_slice());
    (alpha_0, alpha_1, alpha_2)
}

/// A polynomial whose leading coefficient is nonzero is its own trim.
pub proof fn lemma_trim_nonzero_last(p: Seq<FieldElement>)
    requires
        p.len() > 0,
        p.last() != crate::field::fe_zero(),
    ensures
        trim(p) == p,
{
}

/// Length bounds of trimmed sums and products.
pub proof fn lemma_lengths(a: Seq<FieldElement>, b: Seq<FieldElement>)
    ensures
        trim(poly_sub_spec(a, b)).len() <= if a.len() >= b.len() { a.len() } else { b.len() },
        trim(poly_add_spec(a, b)).len() <= if a.len() >= b.len() { a.len() } else { b.len() },
        trim(poly_mul_spec(a, b)).len() <= a.len() + b.len(),
        trim(poly_mul_spec(a, b)).len() <= if a.len() == 0 || b.len() == 0 { 0 } else { (a.len() + b.len() - 1) as nat },
{
    lemma_trim(poly_sub_spec(a, b));
    lemma_trim(poly_add_spec(a, b));
    lemma_trim(poly_mul_spec(a, b));
}

fn linear(z: &FieldElement) -> (r: Vec<FieldElement>)
    ensures
        r@ == linear_factor(*z),
        trim(r@) == r@,
        r.len() == 2,
{
    let mut r: Vec<FieldElement> = Vec::new();
    r.push(crate::field::neg(z));
    r.push(crate::field::from_u64(1));
    proof {
        crate::field::lemma_small_nonzero(1);
        assert(r@ =~= linear_factor(*z));
        lemma_trim_nonzero_last(r@);
    }
    r
}

fn argument_scaled(f: &Vec<FieldElement>, g: &FieldElement, k: u64) -> (r: Vec<FieldElement>)
    requires
        f.len() * (k as nat) <= u64::MAX,
    ensures
        r@ == scaled_argument(f@, *g, k as nat),
{
    let mut r: Vec<FieldElement> = Vec::new();
    let mut i: usize = 0;
    while i < f.len()
        invariant
            i <= f.len(),
            f.len() * (k as nat) <= u64::MAX,
            r.len() == i,
            forall|j: int| 0 <= j < i ==> #[trigger] r@[j] == scaled_argument(f@, *g, k as nat)[j],
        decreases f.len() - i,
    {
        assert((i as nat) * (k as nat) <= f.len() * (k as nat)) by (nonlinear_arith)
            requires i < f.len();
        let e: u64 = k * (i as u64);
        assert(e as nat == k as nat * (i as nat)) by (nonlinear_arith) requires e == k * i;
        let w = crate::field::pow(g, e);
        r.push(crate::field::mul(&f[i], &w));
        i = i + 1;
    }
    assert(r@ =~= scaled_argument(f@, *g, k as nat));
    r
}

fn transition_poly(f: &Vec<FieldElement>, g: &FieldElement) -> (r: Vec<FieldElement>)
    requires
        f.len() <= 0x1000_0000,
    ensures
        r@ == transition_numerator(f@, *g),
        r.len() <= 2 * f.len(),
{
    let f_g2x = argument_scaled(f, g, 2);
    let f_gx = argument_scaled(f, g, 1);
    let f_gx_square = poly_mul(&f_gx, &f_gx);
    let f_square = poly_mul(f, f);
    proof {
        lemma_lengths(f_gx@, f_gx@);
        lemma_lengths(f@, f@);
    }
    let tmp = poly_sub(&f_g2x, &f_gx_square);
    proof {
        lemma_lengths(f_g2x@, f_gx_square@);
    }
    let r = poly_sub(&tmp, &f_square);
    proof {
        lemma_lengths(tmp@, f_square@);
    }
    r
}

fn exclusion_poly(g: &FieldElement, lo: usize, hi: usize) -> (r: Vec<FieldElement>)
    requires
        1 <= lo,
        hi <= 0x1000_0000,
    ensures
        r@ == exclusion_polynomial(*g, lo as nat, hi as nat),
        r.len() <= if hi > lo { hi - lo + 1 } else { 1 },
{
    let mut exclusion_points_polynomial: Vec<FieldElement> = Vec::new();
    exclusion_points_polynomial.push(crate::field::from_u64(1));
    let mut i: usize = lo;
    assert(exclusion_points_polynomial@ =~= exclusion_polynomial(*g, lo as nat, i as nat));
    while i < hi
        invariant
            hi <= 0x1000_0000,
            lo <= i,
            i <= hi || i == lo,
            exclusion_points_polynomial@ == exclusion_polynomial(*g, lo as nat, i as nat),
            exclusion_points_polynomial.len() <= i - lo + 1,
        decreases hi - i,
    {
        let g_i = crate::field::pow(g, i as u64);
        let factor = linear(&g_i);
        proof {
            lemma_lengths(exclusion_points_polynomial@, factor@);
        }
        exclusion_points_polynomial = poly_mul(&exclusion_points_polynomial, &factor);
        i = i + 1;
    }
    assert(exclusion_points_polynomial@ == exclusion_polynomial(*g, lo as nat, hi as nat));
    exclusion_points_polynomial
}

fn p3_numerator_poly(f: &Vec<FieldElement>, g: &FieldElement, target_index: usize, trace_length: usize) -> (r: Vec<FieldElement>)
    requires
        f.len() <= 0x1000_0000,
        trace_length <= 0x1000_0000,
        1 <= target_index < trace_length,
    ensures
        r@ == p3_numerator(f@, *g, target_index as nat, trace_length as nat),
{
    let transition_numerator = transition_poly(f, g);
    let g_t = crate::field::pow(g, target_index as u64);
    let x_minus_g_target_index = linear(&g_t);
    let g_t1 = crate::field::pow(g, (target_index - 1) as u64);
    let x_minus_g_target_index_minus_one = linear(&g_t1);
    let exclusion_points_polynomial = exclusion_poly(g, target_index + 1, trace_length);
    let a = poly_mul(&transition_numerator, &x_minus_g_target_index);
    proof {
        lemma_lengths(transition_numerator@, x_minus_g_target_index@);
    }
    let b = poly_mul(&a, &x_minus_g_target_index_minus_one);
    proof {
        lemma_lengths(a@, x_minus_g_target_index_minus_one@);
    }
    poly_mul(&b, &exclusion_points_polynomial)
}

/// The composition polynomial of the trace polynomial `f` on `domain`, or the
/// first constraint polynomial that does not divide exactly.
pub fn composite_polynomial(
    f: &Vec<FieldElement>,
    domain: &Domain,
    target: FieldElement,
    target_index: usize,
    trace_length: usize,
) -> (r: Result<Vec<FieldElement>, ProverError>)
    requires
        f.len() <= domain.size,
        1 <= domain.size <= 0x1000_0000,
        trace_length <= 0x1000_0000,
        target_index < trace_length,
    ensures
        match r {
            Ok(c) => composition_polynomial(
                f@,
                domain.generator,
                domain.size as nat,
                target,
                target_index as nat,
                trace_length as nat,
            ) == Ok::<Seq<FieldElement>, ProverError>(c@),
            Err(e) => composition_polynomial(
                f@,
                domain.generator,
                domain.size as nat,
                target,
                target_index as nat,
                trace_length as nat,
            ) == Err::<Seq<FieldElement>, ProverError>(e),
        },
        r is Ok ==> divisions_hold(
            f@,
            domain.generator,
            domain.size as nat,
            target,
            target_index as nat,
            trace_length as nat,
        ),
        divisions_known(
            f@,
            domain.generator,
            domain.size as nat,
            target,
            target_index as nat,
            trace_length as nat,
        ),
{
    let g = domain.generator;
    let one = crate::field::from_u64(1);
    let mut one_poly: Vec<FieldElement> = Vec::new();
    one_poly.push(one);
    assert(one_poly@ =~= seq![fe_from_nat(1)]);
    let p0_numerator = poly_sub(f, &one_poly);
    let p0_denominator = linear(&one);
    let (p0, p0_remainder) = poly_divide(&p0_numerator, &p0_denominator);
    if p0_remainder.len() > 0 {
        return Err(ProverError::BoundaryNotDivisible);
    }
    let mut target_poly: Vec<FieldElement> = Vec::new();
    target_poly.push(target);
    assert(target_poly@ =~= seq![target]);
    let p1_numerator = poly_sub(f, &target_poly);
    let g_t = crate::field::pow(&g, target_index as u64);
    let p1_denominator = linear(&g_t);
    let (p1, p1_remainder) = poly_divide(&p1_numerator, &p1_denominator);
    if p1_remainder.len() > 0 {
        return Err(ProverError::TargetNotDivisible);
    }
    if target_index == 0 {
        return Err(ProverError::TargetIndexZero);
    }
    let p3_numerator = p3_numerator_poly(f, &g, target_index, trace_length);
    let p3_denominator = vanishing_polynomial(domain.size);
    proof {
        crate::field::lemma_small_nonzero(1);
        assert(p3_denominator@.last() == crate::field::fe_one());
        lemma_trim_nonzero_last(p3_denominator@);
    }
    let (p3, p3_remainder) = poly_divide(&p3_numerator, &p3_denominator);
    if p3_remainder.len() > 0 {
        return Err(ProverError::TransitionNotDivisible);
    }
    let (alpha_0, alpha_1, alpha_2) = derive_alphas(&target, &g);
    let s0 = poly_scale(&p0, &alpha_0);
    let s1 = poly_scale(&p1, &alpha_1);
    let s3 = poly_scale(&p3, &alpha_2);
    let sum = poly_add(&s0, &s1);
    Ok(poly_add(&sum, &s3))
}

} // verus!
