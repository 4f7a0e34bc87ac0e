//! Evaluating polynomials: the value of a sum, difference, multiple, product
//! or quotient of polynomials at a point is the sum, difference, multiple,
//! product or quotient of their values.
use crate::field::{
    fe_add, fe_from_nat, fe_mul, fe_neg, fe_one, fe_pow, fe_sub, fe_zero, lemma_fe_int_ops,
    lemma_fe_int_val, FieldElement,
};
use crate::poly::{is_division, linear_factor, vanishing_spec};
use crate::prover::coset_shift;
use crate::composition::{
    alphas, composition_polynomial, divisions_hold, exclusion_polynomial, p0_numerator, p1_numerator, p3_numerator,
    scaled_argument, transition_numerator, };
use crate::verifying::{cp_at, exclusion_product_at, p3_numerator_at};
use crate::acceptance::has_inverse;
use crate::field::{fe_div, fe_inv};
use crate::poly::poly_divmod;
use crate::prover::{fold_value, fri_fold, squares, two_inv};
use crate::poly::{canonical_coeffs, conv_sum, coeff, poly_add_spec, poly_eval, poly_mul_spec, poly_scale_spec, poly_sub_spec, trim};
use vstd::prelude::*;

verus! {

/// Horner's rule over coefficients `k` to `n - 1` of `p` (zero past its
/// end): `sum_{k <= i < n} p[i] * x^(i - k)`.
pub open spec fn eval_from(p: Seq<FieldElement>, k: nat, n: nat, x: FieldElement) -> FieldElement
    decreases n - k,
{
    if k >= n {
        fe_zero()
    } else {
        fe_add(coeff(p, k as int), fe_mul(x, eval_from(p, k + 1, n, x)))
    }
}

/// Zero is canonical, absorbs products and is neutral in sums.
pub proof fn lemma_zero_laws(a: FieldElement)
    ensures
        fe_zero().canonical(),
        fe_mul(a, fe_zero()) == fe_zero(),
        fe_mul(fe_zero(), a) == fe_zero(),
        a.canonical() ==> fe_add(fe_zero(), a) == a,
        a.canonical() ==> fe_add(a, fe_zero()) == a,
{
    crate::field::lemma_fe_int_constants();
    crate::field::lemma_fe_of_canonical(0);
    crate::field::lemma_op_vals(a, fe_zero());
    crate::field::lemma_op_vals(fe_zero(), a);
    assert(a.val() * 0 == 0 && 0 * a.val() == 0) by (nonlinear_arith);
    crate::field::lemma_eq_by_val(fe_mul(a, fe_zero()), fe_zero());
    crate::field::lemma_eq_by_val(fe_mul(fe_zero(), a), fe_zero());
    if a.canonical() {
        crate::field::lemma_canonical_val(a);
        vstd::arithmetic::div_mod::lemma_small_mod(a.val(), crate::field::modulus());
        crate::field::lemma_eq_by_val(fe_add(fe_zero(), a), a);
        crate::field::lemma_eq_by_val(fe_add(a, fe_zero()), a);
    }
}

/// Values of `eval_from` are canonical.
pub proof fn lemma_eval_from_canonical(p: Seq<FieldElement>, k: nat, n: nat, x: FieldElement)
    ensures
        eval_from(p, k, n, x).canonical(),
    decreases n - k,
{
    if k >= n {
        lemma_zero_laws(x);
    } else {
        crate::field::lemma_op_vals(coeff(p, k as int), fe_mul(x, eval_from(p, k + 1, n, x)));
    }
}

proof fn lemma_eval_from_skip(p: Seq<FieldElement>, k: nat, x: FieldElement)
    requires
        k <= p.len(),
    ensures
        eval_from(p, k, p.len(), x) == poly_eval(p.skip(k as int), x),
    decreases p.len() - k,
{
    if k < p.len() {
        lemma_eval_from_skip(p, k + 1, x);
        assert(p.skip(k as int).drop_first() =~= p.skip((k + 1) as int));
    } else {
        assert(p.skip(k as int).len() == 0);
    }
}

proof fn lemma_eval_from_extend(p: Seq<FieldElement>, k: nat, n: nat, x: FieldElement)
    requires
        p.len() <= n,
        k <= n,
    ensures
        eval_from(p, k, n + 1, x) == eval_from(p, k, n, x),
    decreases n - k,
{
    lemma_zero_laws(x);
    if k < n {
        lemma_eval_from_extend(p, k + 1, n, x);
    } else {
        assert(eval_from(p, n + 1, n + 1, x) == fe_zero());
        lemma_zero_laws(fe_zero());
    }
}

/// Horner's rule over any number of coefficients at least the length of
/// `p` gives its value.
pub proof fn lemma_eval_from_len(p: Seq<FieldElement>, n: nat, x: FieldElement)
    requires
        p.len() <= n,
    ensures
        eval_from(p, 0, n, x) == poly_eval(p, x),
    decreases n,
{
    if n == p.len() {
        lemma_eval_from_skip(p, 0, x);
        assert(p.skip(0) =~= p);
    } else {
        lemma_eval_from_len(p, (n - 1) as nat, x);
        lemma_eval_from_extend(p, 0, (n - 1) as nat, x);
    }
}

/// Polynomials with the same coefficients from `k` to `n` have the same
/// partial value.
pub proof fn lemma_eval_from_coeffs(p: Seq<FieldElement>, q: Seq<FieldElement>, k: nat, n: nat, x: FieldElement)
    requires
        forall|i: int| k <= i < n ==> #[trigger] coeff(p, i) == coeff(q, i),
    ensures
        eval_from(p, k, n, x) == eval_from(q, k, n, x),
    decreases n - k,
{
    if k < n {
        lemma_eval_from_coeffs(p, q, k + 1, n, x);
        assert(coeff(p, k as int) == coeff(q, k as int));
    }
}

/// `(a + b) + x * (c + d) == (a + x * c) + (b + x * d)`.
proof fn lemma_step_add(a: FieldElement, b: FieldElement, x: FieldElement, c: FieldElement, d: FieldElement)
    requires
        a.canonical(),
        b.canonical(),
        x.canonical(),
        c.canonical(),
        d.canonical(),
    ensures
        fe_add(fe_add(a, b), fe_mul(x, fe_add(c, d))) == fe_add(fe_add(a, fe_mul(x, c)), fe_add(b, fe_mul(x, d))),
{
    let (ia, ib, ix, ic, id) = (a.val() as int, b.val() as int, x.val() as int, c.val() as int, d.val() as int);
    lemma_fe_int_val(a);
    lemma_fe_int_val(b);
    lemma_fe_int_val(x);
    lemma_fe_int_val(c);
    lemma_fe_int_val(d);
    lemma_fe_int_ops(ia, ib);
    lemma_fe_int_ops(ic, id);
    lemma_fe_int_ops(ix, ic + id);
    lemma_fe_int_ops(ia + ib, ix * (ic + id));
    lemma_fe_int_ops(ix, ic);
    lemma_fe_int_ops(ix, id);
    lemma_fe_int_ops(ia, ix * ic);
    lemma_fe_int_ops(ib, ix * id);
    lemma_fe_int_ops(ia + ix * ic, ib + ix * id);
    assert(ia + ib + ix * (ic + id) == (ia + ix * ic) + (ib + ix * id)) by (nonlinear_arith);
}

/// `(a - b) + x * (c - d) == (a + x * c) - (b + x * d)`.
proof fn lemma_step_sub(a: FieldElement, b: FieldElement, x: FieldElement, c: FieldElement, d: FieldElement)
    requires
        a.canonical(),
        b.canonical(),
        x.canonical(),
        c.canonical(),
        d.canonical(),
    ensures
        fe_add(fe_sub(a, b), fe_mul(x, fe_sub(c, d))) == fe_sub(fe_add(a, fe_mul(x, c)), fe_add(b, fe_mul(x, d))),
{
    let (ia, ib, ix, ic, id) = (a.val() as int, b.val() as int, x.val() as int, c.val() as int, d.val() as int);
    lemma_fe_int_val(a);
    lemma_fe_int_val(b);
    lemma_fe_int_val(x);
    lemma_fe_int_val(c);
    lemma_fe_int_val(d);
    lemma_fe_int_ops(ia, ib);
    lemma_fe_int_ops(ic, id);
    lemma_fe_int_ops(ix, ic - id);
    lemma_fe_int_ops(ia - ib, ix * (ic - id));
    lemma_fe_int_ops(ix, ic);
    lemma_fe_int_ops(ix, id);
    lemma_fe_int_ops(ia, ix * ic);
    lemma_fe_int_ops(ib, ix * id);
    lemma_fe_int_ops(ia + ix * ic, ib + ix * id);
    assert(ia - ib + ix * (ic - id) == (ia + ix * ic) - (ib + ix * id)) by (nonlinear_arith);
}

/// `a * c + x * (d * c) == (a + x * d) * c`.
proof fn lemma_step_scale(a: FieldElement, c: FieldElement, x: FieldElement, d: FieldElement)
    requires
        a.canonical(),
        c.canonical(),
        x.canonical(),
        d.canonical(),
    ensures
        fe_add(fe_mul(a, c), fe_mul(x, fe_mul(d, c))) == fe_mul(fe_add(a, fe_mul(x, d)), c),
{
    let (ia, ic, ix, id) = (a.val() as int, c.val() as int, x.val() as int, d.val() as int);
    lemma_fe_int_val(a);
    lemma_fe_int_val(c);
    lemma_fe_int_val(x);
    lemma_fe_int_val(d);
    lemma_fe_int_ops(ia, ic);
    lemma_fe_int_ops(id, ic);
    lemma_fe_int_ops(ix, id * ic);
    lemma_fe_int_ops(ia * ic, ix * (id * ic));
    lemma_fe_int_ops(ix, id);
    lemma_fe_int_ops(ia, ix * id);
    lemma_fe_int_ops(ia + ix * id, ic);
    assert(ia * ic + ix * (id * ic) == (ia + ix * id) * ic) by (nonlinear_arith);
}

/// Partial values add up when coefficients do.
pub proof fn lemma_eval_from_add(c: Seq<FieldElement>, a: Seq<FieldElement>, b: Seq<FieldElement>, k: nat, n: nat, x: FieldElement)
    requires
        x.canonical(),
        forall|i: int| k <= i < n ==> #[trigger] coeff(c, i) == fe_add(coeff(a, i), coeff(b, i)),
        forall|i: int| k <= i < n ==> (#[trigger] coeff(a, i)).canonical(),
        forall|i: int| k <= i < n ==> (#[trigger] coeff(b, i)).canonical(),
    ensures
        eval_from(c, k, n, x) == fe_add(eval_from(a, k, n, x), eval_from(b, k, n, x)),
    decreases n - k,
{
    lemma_zero_laws(x);
    if k < n {
        lemma_eval_from_add(c, a, b, k + 1, n, x);
        assert(coeff(c, k as int) == fe_add(coeff(a, k as int), coeff(b, k as int)));
        assert(coeff(a, k as int).canonical());
        assert(coeff(b, k as int).canonical());
        lemma_eval_from_canonical(a, k + 1, n, x);
        lemma_eval_from_canonical(b, k + 1, n, x);
        lemma_step_add(coeff(a, k as int), coeff(b, k as int), x, eval_from(a, k + 1, n, x), eval_from(b, k + 1, n, x));
    } else {
        lemma_zero_laws(fe_zero());
    }
}

/// Partial values subtract when coefficients do.
pub proof fn lemma_eval_from_sub(c: Seq<FieldElement>, a: Seq<FieldElement>, b: Seq<FieldElement>, k: nat, n: nat, x: FieldElement)
    requires
        x.canonical(),
        forall|i: int| k <= i < n ==> #[trigger] coeff(c, i) == fe_sub(coeff(a, i), coeff(b, i)),
        forall|i: int| k <= i < n ==> (#[trigger] coeff(a, i)).canonical(),
        forall|i: int| k <= i < n ==> (#[trigger] coeff(b, i)).canonical(),
    ensures
        eval_from(c, k, n, x) == fe_sub(eval_from(a, k, n, x), eval_from(b, k, n, x)),
    decreases n - k,
{
    lemma_zero_laws(x);
    if k < n {
        lemma_eval_from_sub(c, a, b, k + 1, n, x);
        assert(coeff(c, k as int) == fe_sub(coeff(a, k as int), coeff(b, k as int)));
        assert(coeff(a, k as int).canonical());
        assert(coeff(b, k as int).canonical());
        lemma_eval_from_canonical(a, k + 1, n, x);
        lemma_eval_from_canonical(b, k + 1, n, x);
        lemma_step_sub(coeff(a, k as int), coeff(b, k as int), x, eval_from(a, k + 1, n, x), eval_from(b, k + 1, n, x));
    } else {
        crate::field::lemma_fe_int_constants();
        crate::field::lemma_fe_int_ops(0, 0);
    }
}

/// Partial values scale when coefficients do.
pub proof fn lemma_eval_from_scale(c: Seq<FieldElement>, a: Seq<FieldElement>, s: FieldElement, k: nat, n: nat, x: FieldElement)
    requires
        x.canonical(),
        s.canonical(),
        forall|i: int| k <= i < n ==> #[trigger] coeff(c, i) == fe_mul(coeff(a, i), s),
        forall|i: int| k <= i < n ==> (#[trigger] coeff(a, i)).canonical(),
    ensures
        eval_from(c, k, n, x) == fe_mul(eval_from(a, k, n, x), s),
    decreases n - k,
{
    lemma_zero_laws(x);
    lemma_zero_laws(s);
    if k < n {
        lemma_eval_from_scale(c, a, s, k + 1, n, x);
        assert(coeff(c, k as int) == fe_mul(coeff(a, k as int), s));
        assert(coeff(a, k as int).canonical());
        lemma_eval_from_canonical(a, k + 1, n, x);
        lemma_step_scale(coeff(a, k as int), s, x, eval_from(a, k + 1, n, x));
    }
}

/// Coefficients of a polynomial with canonical coefficients are canonical,
/// also past its end.
pub proof fn lemma_coeff_canonical(p: Seq<FieldElement>, i: int)
    requires
        canonical_coeffs(p),
    ensures
        coeff(p, i).canonical(),
{
    lemma_zero_laws(fe_zero());
}

/// Trimming keeps every coefficient (those it removes are zero).
pub proof fn lemma_trim_coeffs(p: Seq<FieldElement>)
    ensures
        forall|i: int| #[trigger] coeff(trim(p), i) == coeff(p, i),
        canonical_coeffs(p) ==> canonical_coeffs(trim(p)),
        trim(p).len() <= p.len(),
    decreases p.len(),
{
    if p.len() > 0 && p.last() == fe_zero() {
        lemma_trim_coeffs(p.drop_last());
    }
}

/// The value at `x` of a polynomial with canonical coefficients, for every
/// number `n` of coefficients at least its length.
proof fn lemma_eval_as(p: Seq<FieldElement>, n: nat, x: FieldElement)
    requires
        p.len() <= n,
    ensures
        poly_eval(p, x) == eval_from(p, 0, n, x),
{
    lemma_eval_from_len(p, n, x);
}

/// Values of polynomials are canonical.
pub proof fn lemma_eval_canonical(p: Seq<FieldElement>, x: FieldElement)
    ensures
        poly_eval(p, x).canonical(),
{
    lemma_eval_as(p, p.len(), x);
    lemma_eval_from_canonical(p, 0, p.len(), x);
}

/// Trimming does not change the value.
pub proof fn lemma_eval_trim(p: Seq<FieldElement>, x: FieldElement)
    ensures
        poly_eval(trim(p), x) == poly_eval(p, x),
{
    lemma_trim_coeffs(p);
    lemma_eval_as(trim(p), p.len(), x);
    lemma_eval_as(p, p.len(), x);
    lemma_eval_from_coeffs(trim(p), p, 0, p.len(), x);
}

/// The value of a sum is the sum of the values.
pub proof fn lemma_eval_add(a: Seq<FieldElement>, b: Seq<FieldElement>, x: FieldElement)
    requires
        x.canonical(),
        canonical_coeffs(a),
        canonical_coeffs(b),
    ensures
        poly_eval(poly_add_spec(a, b), x) == fe_add(poly_eval(a, x), poly_eval(b, x)),
        canonical_coeffs(poly_add_spec(a, b)),
{
    let c = poly_add_spec(a, b);
    let n = c.len();
    assert forall|i: int| 0 <= i < n implies #[trigger] coeff(c, i) == fe_add(coeff(a, i), coeff(b, i)) by {}
    assert forall|i: int| 0 <= i < n implies (#[trigger] coeff(a, i)).canonical() by { lemma_coeff_canonical(a, i); }
    assert forall|i: int| 0 <= i < n implies (#[trigger] coeff(b, i)).canonical() by { lemma_coeff_canonical(b, i); }
    lemma_eval_from_add(c, a, b, 0, n, x);
    lemma_eval_as(a, n, x);
    lemma_eval_as(b, n, x);
    lemma_eval_as(c, n, x);
    assert forall|i: int| 0 <= i < c.len() implies (#[trigger] c[i]).canonical() by {
        crate::field::lemma_op_vals(coeff(a, i), coeff(b, i));
    }
}

/// The value of a difference is the difference of the values.
pub proof fn lemma_eval_sub(a: Seq<FieldElement>, b: Seq<FieldElement>, x: FieldElement)
    requires
        x.canonical(),
        canonical_coeffs(a),
        canonical_coeffs(b),
    ensures
        poly_eval(poly_sub_spec(a, b), x) == fe_sub(poly_eval(a, x), poly_eval(b, x)),
        canonical_coeffs(poly_sub_spec(a, b)),
{
    let c = poly_sub_spec(a, b);
    let n = c.len();
    assert forall|i: int| 0 <= i < n implies #[trigger] coeff(c, i) == fe_sub(coeff(a, i), coeff(b, i)) by {}
    assert forall|i: int| 0 <= i < n implies (#[trigger] coeff(a, i)).canonical() by { lemma_coeff_canonical(a, i); }
    assert forall|i: int| 0 <= i < n implies (#[trigger] coeff(b, i)).canonical() by { lemma_coeff_canonical(b, i); }
    lemma_eval_from_sub(c, a, b, 0, n, x);
    lemma_eval_as(a, n, x);
    lemma_eval_as(b, n, x);
    lemma_eval_as(c, n, x);
    assert forall|i: int| 0 <= i < c.len() implies (#[trigger] c[i]).canonical() by {
        crate::field::lemma_op_vals(coeff(a, i), coeff(b, i));
    }
}

/// The value of a multiple is the multiple of the value.
pub proof fn lemma_eval_scale(a: Seq<FieldElement>, s: FieldElement, x: FieldElement)
    requires
        x.canonical(),
        s.canonical(),
        canonical_coeffs(a),
    ensures
        poly_eval(poly_scale_spec(a, s), x) == fe_mul(poly_eval(a, x), s),
        canonical_coeffs(poly_scale_spec(a, s)),
{
    let c = poly_scale_spec(a, s);
    let n = a.len();
    lemma_zero_laws(s);
    assert forall|i: int| 0 <= i < n implies #[trigger] coeff(c, i) == fe_mul(coeff(a, i), s) by {}
    assert forall|i: int| 0 <= i < n implies (#[trigger] coeff(a, i)).canonical() by { lemma_coeff_canonical(a, i); }
    lemma_eval_from_scale(c, a, s, 0, n, x);
    lemma_eval_as(a, n, x);
    lemma_eval_as(c, n, x);
    assert forall|i: int| 0 <= i < c.len() implies (#[trigger] c[i]).canonical() by {
        crate::field::lemma_op_vals(a[i], s);
    }
}

/// Addition is associative.
pub proof fn lemma_add_assoc(a: FieldElement, b: FieldElement, c: FieldElement)
    requires
        a.canonical(),
        b.canonical(),
        c.canonical(),
    ensures
        fe_add(fe_add(a, b), c) == fe_add(a, fe_add(b, c)),
{
    let (x, y, z) = (a.val() as int, b.val() as int, c.val() as int);
    lemma_fe_int_val(a);
    lemma_fe_int_val(b);
    lemma_fe_int_val(c);
    lemma_fe_int_ops(x, y);
    lemma_fe_int_ops(x + y, z);
    lemma_fe_int_ops(y, z);
    lemma_fe_int_ops(x, y + z);
    assert(x + y + z == x + (y + z));
}

/// A convolution of `a` with `b` at index `k`, split into its first term and
/// the convolution of the rest of `a` at `k - 1`.
proof fn lemma_conv_shift(a: Seq<FieldElement>, b: Seq<FieldElement>, k: int, n: nat)
    requires
        1 <= n <= a.len(),
    ensures
        conv_sum(a, b, k, n) == fe_add(fe_mul(coeff(a, 0), coeff(b, k)), conv_sum(a.drop_first(), b, k - 1, (n - 1) as nat)),
    decreases n,
{
    let p = fe_mul(coeff(a, 0), coeff(b, k));
    crate::field::lemma_op_vals(coeff(a, 0), coeff(b, k));
    lemma_zero_laws(p);
    if n == 1 {
        assert(conv_sum(a, b, k, 1) == fe_add(conv_sum(a, b, k, 0), fe_mul(coeff(a, 0), coeff(b, k - 0))));
    } else {
        lemma_conv_shift(a, b, k, (n - 1) as nat);
        let a1 = a.drop_first();
        assert(coeff(a, n - 1) == coeff(a1, n - 2));
        assert(k - (n - 1) == (k - 1) - (n - 2));
        let t = fe_mul(coeff(a, n - 1), coeff(b, k - (n - 1)));
        assert(conv_sum(a1, b, k - 1, (n - 1) as nat) == fe_add(conv_sum(a1, b, k - 1, (n - 2) as nat), t));
        crate::field::lemma_op_vals(coeff(a, n - 1), coeff(b, k - (n - 1)));
        lemma_conv_canonical(a1, b, k - 1, (n - 2) as nat);
        lemma_add_assoc(p, conv_sum(a1, b, k - 1, (n - 2) as nat), t);
    }
}

/// A convolution at a negative index is zero.
proof fn lemma_conv_negative(a: Seq<FieldElement>, b: Seq<FieldElement>, k: int, n: nat)
    requires
        k < 0,
    ensures
        conv_sum(a, b, k, n) == fe_zero(),
    decreases n,
{
    if n > 0 {
        lemma_conv_negative(a, b, k, (n - 1) as nat);
        lemma_zero_laws(coeff(a, n - 1));
        lemma_zero_laws(fe_zero());
    }
}

/// Values of convolutions are canonical.
proof fn lemma_conv_canonical(a: Seq<FieldElement>, b: Seq<FieldElement>, k: int, n: nat)
    ensures
        conv_sum(a, b, k, n).canonical(),
    decreases n,
{
    lemma_zero_laws(fe_zero());
    if n > 0 {
        crate::field::lemma_op_vals(conv_sum(a, b, k, (n - 1) as nat), fe_mul(coeff(a, n - 1), coeff(b, k - (n - 1))));
    }
}

/// Shifting the coefficients of `q` up by one multiplies the partial value
/// by `x`.
proof fn lemma_eval_from_shift(p: Seq<FieldElement>, q: Seq<FieldElement>, k: nat, n: nat, x: FieldElement)
    requires
        forall|i: int| k <= i < n ==> #[trigger] coeff(p, i + 1) == coeff(q, i),
    ensures
        eval_from(p, k + 1, n + 1, x) == eval_from(q, k, n, x),
    decreases n - k,
{
    if k < n {
        lemma_eval_from_shift(p, q, k + 1, n, x);
        assert(coeff(p, (k + 1) as int) == coeff(q, k as int));
    }
}

/// The value of a product is the product of the values.
pub proof fn lemma_eval_mul(a: Seq<FieldElement>, b: Seq<FieldElement>, x: FieldElement)
    requires
        x.canonical(),
        canonical_coeffs(a),
        canonical_coeffs(b),
    ensures
        poly_eval(poly_mul_spec(a, b), x) == fe_mul(poly_eval(a, x), poly_eval(b, x)),
        canonical_coeffs(poly_mul_spec(a, b)),
    decreases a.len(),
{
    let c = poly_mul_spec(a, b);
    lemma_zero_laws(poly_eval(a, x));
    lemma_zero_laws(poly_eval(b, x));
    if a.len() == 0 || b.len() == 0 {
        assert(c.len() == 0);
    } else {
        let a0 = a[0];
        let a1 = a.drop_first();
        assert(canonical_coeffs(a1)) by {
            assert forall|i: int| 0 <= i < a1.len() implies (#[trigger] a1[i]).canonical() by {
                assert(a1[i] == a[i + 1]);
            }
        }
        lemma_eval_mul(a1, b, x);
        let n = c.len();
        let sb = poly_scale_spec(b, a0);
        let rest = poly_mul_spec(a1, b);
        let sh = seq![fe_zero()] + rest;
        assert forall|i: int| 0 <= i < n implies #[trigger] coeff(c, i) == fe_add(coeff(sb, i), coeff(sh, i)) by {
            lemma_conv_shift(a, b, i, a.len());
            lemma_zero_laws(a0);
            if i < b.len() {
                crate::field::lemma_mul_commutes(a0, b[i]);
            }
            if i == 0 {
                lemma_conv_negative(a1, b, -1, a1.len());
            } else if a1.len() == 0 {
                assert(rest.len() == 0);
            } else {
                assert(coeff(sh, i) == coeff(rest, i - 1));
            }
        }
        lemma_eval_scale(b, a0, x);
        assert forall|i: int| 0 <= i < n implies (#[trigger] coeff(sb, i)).canonical() by {
            lemma_coeff_canonical(sb, i);
        }
        assert forall|i: int| 0 <= i < n implies (#[trigger] coeff(sh, i)).canonical() by {
            lemma_zero_laws(fe_zero());
            if 1 <= i < sh.len() {
                lemma_coeff_canonical(rest, i - 1);
                assert(coeff(sh, i) == coeff(rest, i - 1));
            }
        }
        lemma_eval_from_add(c, sb, sh, 0, n, x);
        lemma_eval_as(c, n, x);
        lemma_eval_as(sb, n, x);
        // the shifted product
        assert forall|i: int| 0 <= i < n - 1 implies #[trigger] coeff(sh, i + 1) == coeff(rest, i) by {}
        lemma_eval_from_shift(sh, rest, 0, (n - 1) as nat, x);
        lemma_eval_as(rest, (n - 1) as nat, x);
        lemma_eval_from_canonical(sh, 1, n, x);
        crate::field::lemma_op_vals(x, eval_from(sh, 1, n, x));
        lemma_zero_laws(fe_mul(x, eval_from(sh, 1, n, x)));
        assert(eval_from(sh, 0, n, x) == fe_mul(x, poly_eval(rest, x)));
        // combine
        lemma_eval_from_canonical(a1, 0, a1.len(), x);
        lemma_eval_as(a1, a1.len(), x);
        lemma_eval_from_canonical(b, 0, b.len(), x);
        lemma_eval_as(b, b.len(), x);
        crate::field::lemma_mul_commutes(poly_eval(b, x), a0);
        lemma_step_scale(a0, poly_eval(b, x), x, poly_eval(a1, x));
        assert(poly_eval(a, x) == fe_add(a0, fe_mul(x, poly_eval(a1, x))));
        assert forall|i: int| 0 <= i < c.len() implies (#[trigger] c[i]).canonical() by {
            lemma_conv_canonical(a, b, i, a.len());
        }
    }
}

/// `y * (e * w) == (w * y) * e`.
proof fn lemma_step_shift(y: FieldElement, e: FieldElement, w: FieldElement)
    requires
        y.canonical(),
        e.canonical(),
        w.canonical(),
    ensures
        fe_mul(y, fe_mul(e, w)) == fe_mul(fe_mul(w, y), e),
{
    let (iy, ie, iw) = (y.val() as int, e.val() as int, w.val() as int);
    lemma_fe_int_val(y);
    lemma_fe_int_val(e);
    lemma_fe_int_val(w);
    lemma_fe_int_ops(ie, iw);
    lemma_fe_int_ops(iy, ie * iw);
    lemma_fe_int_ops(iw, iy);
    lemma_fe_int_ops(iw * iy, ie);
    assert(iy * (ie * iw) == (iw * iy) * ie) by (nonlinear_arith);
}

/// The value of `p(w * X)` at `y` is the value of `p` at `w * y`.
pub proof fn lemma_eval_coset_shift(p: Seq<FieldElement>, w: FieldElement, y: FieldElement)
    requires
        w.canonical(),
        y.canonical(),
        canonical_coeffs(p),
    ensures
        poly_eval(coset_shift(p, w), y) == poly_eval(p, fe_mul(w, y)),
        canonical_coeffs(coset_shift(p, w)),
    decreases p.len(),
{
    let cs = coset_shift(p, w);
    assert forall|i: int| 0 <= i < cs.len() implies (#[trigger] cs[i]).canonical() by {
        crate::field::lemma_op_vals(p[i], fe_pow(w, i as nat));
    }
    if p.len() > 0 {
        let p1 = p.drop_first();
        assert(canonical_coeffs(p1)) by {
            assert forall|i: int| 0 <= i < p1.len() implies (#[trigger] p1[i]).canonical() by {
                assert(p1[i] == p[i + 1]);
            }
        }
        let wy = fe_mul(w, y);
        crate::field::lemma_op_vals(w, y);
        lemma_eval_coset_shift(p1, w, y);
        let cs1 = coset_shift(p1, w);
        assert forall|i: int| 0 <= i < cs1.len() implies #[trigger] cs.drop_first()[i] == poly_scale_spec(cs1, w)[i] by {
            crate::field::lemma_pow_canonical(w, i as nat);
            crate::field::lemma_mul_assoc(p[i + 1], fe_pow(w, i as nat), w);
            assert(fe_pow(w, (i + 1) as nat) == fe_mul(fe_pow(w, i as nat), w));
        }
        assert(cs.drop_first() =~= poly_scale_spec(cs1, w));
        lemma_eval_scale(cs1, w, y);
        crate::field::lemma_mul_one(p[0]);
        assert(cs[0] == fe_mul(p[0], fe_pow(w, 0)));
        lemma_eval_from_canonical(p1, 0, p1.len(), wy);
        lemma_eval_as(p1, p1.len(), wy);
        lemma_step_shift(y, poly_eval(p1, wy), w);
    }
}

/// The value of `a` at `x`, for `a` that `b` divides with quotient `q`, is
/// `q(x) * b(x)`.
pub proof fn lemma_eval_exact_division(
    a: Seq<FieldElement>,
    b: Seq<FieldElement>,
    q: Seq<FieldElement>,
    r: Seq<FieldElement>,
    x: FieldElement,
)
    requires
        is_division(a, b, q, r),
        r.len() == 0,
        canonical_coeffs(b),
        x.canonical(),
    ensures
        poly_eval(a, x) == fe_mul(poly_eval(q, x), poly_eval(b, x)),
{
    let qb = poly_mul_spec(q, b);
    lemma_eval_mul(q, b, x);
    assert(canonical_coeffs(r));
    lemma_eval_add(qb, r, x);
    lemma_eval_trim(poly_add_spec(qb, r), x);
    lemma_eval_trim(a, x);
    assert(poly_eval(r, x) == fe_zero());
    lemma_eval_from_canonical(qb, 0, qb.len(), x);
    lemma_eval_as(qb, qb.len(), x);
    lemma_zero_laws(poly_eval(qb, x));
}

/// The value of a constant is that constant.
proof fn lemma_eval_constant(c: FieldElement, x: FieldElement)
    requires
        c.canonical(),
    ensures
        poly_eval(seq![c], x) == c,
{
    assert(seq![c].drop_first() =~= Seq::<FieldElement>::empty());
    assert(poly_eval(Seq::<FieldElement>::empty(), x) == fe_zero());
    assert(poly_eval(seq![c], x) == fe_add(c, fe_mul(x, poly_eval(seq![c].drop_first(), x))));
    lemma_zero_laws(x);
    lemma_zero_laws(c);
}

/// The value of `c0 + c1 * X` is `c0 + x * c1`.
proof fn lemma_eval_two(c0: FieldElement, c1: FieldElement, x: FieldElement)
    requires
        c1.canonical(),
    ensures
        poly_eval(seq![c0, c1], x) == fe_add(c0, fe_mul(x, c1)),
{
    assert(seq![c0, c1].drop_first() =~= seq![c1]);
    lemma_eval_constant(c1, x);
}

/// `X - z` has the value `x - z`.
pub proof fn lemma_eval_linear(z: FieldElement, x: FieldElement)
    requires
        x.canonical(),
    ensures
        poly_eval(linear_factor(z), x) == fe_sub(x, z),
        canonical_coeffs(linear_factor(z)),
{
    let l = linear_factor(z);
    crate::field::lemma_small_nonzero(1);
    crate::field::lemma_fe_of_canonical(1);
    crate::field::lemma_op_vals(z, z);
    lemma_eval_two(fe_neg(z), fe_one(), x);
    crate::field::lemma_mul_one(x);
    let ix = x.val() as int;
    let iz = z.val() as int;
    lemma_fe_int_val(x);
    crate::field::lemma_fe_int_def(z);
    lemma_fe_int_ops(iz, 0);
    lemma_fe_int_ops(0 - iz, ix);
    assert((0 - iz) + ix == ix - iz);
    assert(canonical_coeffs(l)) by {
        assert forall|i: int| 0 <= i < l.len() implies (#[trigger] l[i]).canonical() by {}
    }
}

/// The tail `X^(n-k)` of `X^n - 1`, read from coefficient `k >= 1`.
proof fn lemma_eval_vanishing_tail(n: nat, k: nat, x: FieldElement)
    requires
        1 <= k <= n,
        x.canonical(),
    ensures
        eval_from(vanishing_spec(n), k, n + 1, x) == fe_pow(x, (n - k) as nat),
    decreases n - k,
{
    let v = vanishing_spec(n);
    let rest = eval_from(v, k + 1, n + 1, x);
    assert(eval_from(v, k, n + 1, x) == fe_add(coeff(v, k as int), fe_mul(x, rest)));
    if k == n {
        assert(rest == fe_zero());
        assert(coeff(v, k as int) == fe_one());
        lemma_zero_laws(x);
        crate::field::lemma_fe_of_canonical(1);
        lemma_zero_laws(fe_one());
        assert(fe_pow(x, 0) == fe_one());
    } else {
        lemma_eval_vanishing_tail(n, k + 1, x);
        let e = (n - k - 1) as nat;
        assert(rest == fe_pow(x, e));
        assert(coeff(v, k as int) == fe_zero());
        crate::field::lemma_pow_canonical(x, e);
        crate::field::lemma_op_vals(x, fe_pow(x, e));
        lemma_zero_laws(fe_mul(x, rest));
        crate::field::lemma_mul_commutes(x, fe_pow(x, e));
        assert(fe_pow(x, (n - k) as nat) == fe_mul(fe_pow(x, e), x));
    }
}

/// `X^n - 1` has the value `x^n - 1`.
pub proof fn lemma_eval_vanishing(n: nat, x: FieldElement)
    requires
        n >= 1,
        x.canonical(),
    ensures
        poly_eval(vanishing_spec(n), x) == fe_sub(fe_pow(x, n), fe_one()),
        canonical_coeffs(vanishing_spec(n)),
{
    let v = vanishing_spec(n);
    lemma_eval_as(v, n + 1, x);
    lemma_eval_vanishing_tail(n, 1, x);
    crate::field::lemma_fe_of_canonical(1);
    crate::field::lemma_fe_of_canonical(0);
    let e = (n - 1) as nat;
    crate::field::lemma_pow_canonical(x, e);
    crate::field::lemma_pow_canonical(x, n);
    crate::field::lemma_mul_commutes(x, fe_pow(x, e));
    assert(fe_pow(x, n) == fe_mul(fe_pow(x, e), x));
    // -1 + x^n == x^n - 1
    let ip = fe_pow(x, n).val() as int;
    lemma_fe_int_val(fe_pow(x, n));
    crate::field::lemma_fe_int_constants();
    lemma_fe_int_ops(1, ip);
    lemma_fe_int_ops(0 - 1, ip);
    lemma_fe_int_ops(ip, 1);
    assert((0 - 1) + ip == ip - 1);
    assert(canonical_coeffs(v)) by {
        assert forall|i: int| 0 <= i < v.len() implies (#[trigger] v[i]).canonical() by {
            crate::field::lemma_op_vals(fe_one(), fe_one());
        }
    }
}

/// The exclusion polynomial has the value of the exclusion product.
pub proof fn lemma_eval_exclusion(g: FieldElement, lo: nat, hi: nat, x: FieldElement)
    requires
        x.canonical(),
    ensures
        poly_eval(exclusion_polynomial(g, lo, hi), x) == exclusion_product_at(x, g, lo, hi),
        canonical_coeffs(exclusion_polynomial(g, lo, hi)),
    decreases hi,
{
    if hi <= lo {
        crate::field::lemma_small_nonzero(1);
        crate::field::lemma_fe_of_canonical(1);
        lemma_eval_constant(fe_from_nat(1), x);
    } else {
        let prev = exclusion_polynomial(g, lo, (hi - 1) as nat);
        let l = linear_factor(fe_pow(g, (hi - 1) as nat));
        lemma_eval_exclusion(g, lo, (hi - 1) as nat, x);
        lemma_eval_linear(fe_pow(g, (hi - 1) as nat), x);
        lemma_eval_mul(prev, l, x);
        lemma_eval_trim(poly_mul_spec(prev, l), x);
        lemma_trim_coeffs(poly_mul_spec(prev, l));
    }
}

/// `f - 1` has the value `f(x) - 1`.
pub proof fn lemma_eval_p0(f: Seq<FieldElement>, x: FieldElement)
    requires
        x.canonical(),
        canonical_coeffs(f),
    ensures
        poly_eval(p0_numerator(f), x) == fe_sub(poly_eval(f, x), fe_from_nat(1)),
        canonical_coeffs(p0_numerator(f)),
{
    let one = seq![fe_from_nat(1)];
    crate::field::lemma_small_nonzero(1);
    crate::field::lemma_fe_of_canonical(1);
    assert(canonical_coeffs(one));
    lemma_eval_constant(fe_from_nat(1), x);
    lemma_eval_sub(f, one, x);
    lemma_eval_trim(poly_sub_spec(f, one), x);
    lemma_trim_coeffs(poly_sub_spec(f, one));
}

/// `f - target` has the value `f(x) - target`.
pub proof fn lemma_eval_p1(f: Seq<FieldElement>, target: FieldElement, x: FieldElement)
    requires
        x.canonical(),
        target.canonical(),
        canonical_coeffs(f),
    ensures
        poly_eval(p1_numerator(f, target), x) == fe_sub(poly_eval(f, x), target),
        canonical_coeffs(p1_numerator(f, target)),
{
    let tp = seq![target];
    assert(canonical_coeffs(tp));
    lemma_eval_constant(target, x);
    lemma_eval_sub(f, tp, x);
    lemma_eval_trim(poly_sub_spec(f, tp), x);
    lemma_trim_coeffs(poly_sub_spec(f, tp));
}

/// `f(h^k X)` has the value `f(h^k * x)`.
pub proof fn lemma_eval_scaled(f: Seq<FieldElement>, h: FieldElement, k: nat, x: FieldElement)
    requires
        x.canonical(),
        canonical_coeffs(f),
    ensures
        poly_eval(scaled_argument(f, h, k), x) == poly_eval(f, fe_mul(fe_pow(h, k), x)),
        canonical_coeffs(scaled_argument(f, h, k)),
{
    let w = fe_pow(h, k);
    crate::field::lemma_pow_canonical(h, k);
    assert forall|i: int| 0 <= i < f.len() implies #[trigger] scaled_argument(f, h, k)[i] == coset_shift(f, w)[i] by {
        crate::field::lemma_pow_pow(h, k, i as nat);
    }
    assert(scaled_argument(f, h, k) =~= coset_shift(f, w));
    lemma_eval_coset_shift(f, w, x);
}

/// The transition numerator has the value `f(g^2 x) - f(g x)^2 - f(x)^2`.
pub proof fn lemma_eval_transition(f: Seq<FieldElement>, g: FieldElement, x: FieldElement)
    requires
        x.canonical(),
        canonical_coeffs(f),
    ensures
        poly_eval(transition_numerator(f, g), x) == fe_sub(
            fe_sub(
                poly_eval(f, fe_mul(fe_pow(g, 2), x)),
                fe_mul(poly_eval(f, fe_mul(fe_pow(g, 1), x)), poly_eval(f, fe_mul(fe_pow(g, 1), x))),
            ),
            fe_mul(poly_eval(f, x), poly_eval(f, x)),
        ),
        canonical_coeffs(transition_numerator(f, g)),
{
    let f1 = scaled_argument(f, g, 1);
    let f2 = scaled_argument(f, g, 2);
    lemma_eval_scaled(f, g, 1, x);
    lemma_eval_scaled(f, g, 2, x);
    let sq1 = poly_mul_spec(f1, f1);
    let sq0 = poly_mul_spec(f, f);
    lemma_eval_mul(f1, f1, x);
    lemma_eval_mul(f, f, x);
    lemma_eval_trim(sq1, x);
    lemma_trim_coeffs(sq1);
    lemma_eval_trim(sq0, x);
    lemma_trim_coeffs(sq0);
    let d1 = poly_sub_spec(f2, trim(sq1));
    lemma_eval_sub(f2, trim(sq1), x);
    lemma_eval_trim(d1, x);
    lemma_trim_coeffs(d1);
    let d2 = poly_sub_spec(trim(d1), trim(sq0));
    lemma_eval_sub(trim(d1), trim(sq0), x);
    lemma_eval_trim(d2, x);
    lemma_trim_coeffs(d2);
}

/// The numerator of `p3` has the value the verifier computes from the trace
/// values at `x`, `g x` and `g^2 x`.
pub proof fn lemma_eval_p3(f: Seq<FieldElement>, g: FieldElement, t: nat, n: nat, x: FieldElement)
    requires
        x.canonical(),
        canonical_coeffs(f),
    ensures
        poly_eval(p3_numerator(f, g, t, n), x) == p3_numerator_at(
            x,
            poly_eval(f, x),
            poly_eval(f, fe_mul(fe_pow(g, 1), x)),
            poly_eval(f, fe_mul(fe_pow(g, 2), x)),
            g,
            t,
            n,
        ),
        canonical_coeffs(p3_numerator(f, g, t, n)),
{
    let tr = transition_numerator(f, g);
    lemma_eval_transition(f, g, x);
    let l1 = linear_factor(fe_pow(g, t));
    let l2 = linear_factor(fe_pow(g, (t - 1) as nat));
    lemma_eval_linear(fe_pow(g, t), x);
    lemma_eval_linear(fe_pow(g, (t - 1) as nat), x);
    let m1 = poly_mul_spec(tr, l1);
    lemma_eval_mul(tr, l1, x);
    lemma_eval_trim(m1, x);
    lemma_trim_coeffs(m1);
    let m2 = poly_mul_spec(trim(m1), l2);
    lemma_eval_mul(trim(m1), l2, x);
    lemma_eval_trim(m2, x);
    lemma_trim_coeffs(m2);
    let ex = exclusion_polynomial(g, t + 1, n);
    lemma_eval_exclusion(g, t + 1, n, x);
    let m3 = poly_mul_spec(trim(m2), ex);
    lemma_eval_mul(trim(m2), ex, x);
    lemma_eval_trim(m3, x);
    lemma_trim_coeffs(m3);
}

/// A value `q` with `q * d == n`, for `d` with an inverse, is `n / d`.
pub proof fn lemma_quotient_value(q: FieldElement, d: FieldElement, n: FieldElement)
    requires
        n == fe_mul(q, d),
        has_inverse(d),
        q.canonical(),
    ensures
        q == fe_div(n, d),
{
    let w = fe_inv(d);
    crate::field::lemma_canonical_val(w);
    crate::field::lemma_mul_assoc(q, d, w);
    crate::field::lemma_mul_one(q);
}

/// Elements drawn from a hash are canonical.
proof fn lemma_alphas_canonical(target: FieldElement, g: FieldElement)
    ensures
        alphas(target, g).0.canonical(),
        alphas(target, g).1.canonical(),
        alphas(target, g).2.canonical(),
{
    let seed = crate::hashing::fe_bytes(target) + crate::hashing::fe_bytes(g);
    let a0 = crate::hashing::fr_from_hash(seed);
    let a1 = crate::hashing::fr_from_hash(seed + crate::hashing::fe_bytes(a0));
    let a2 = crate::hashing::fr_from_hash(seed + crate::hashing::fe_bytes(a0) + crate::hashing::fe_bytes(a1));
    crate::field::lemma_reduced_nat(crate::field::le_nat(crate::hashing::sha256(seed)));
    crate::field::lemma_reduced_nat(crate::field::le_nat(crate::hashing::sha256(seed + crate::hashing::fe_bytes(a0))));
    crate::field::lemma_reduced_nat(
        crate::field::le_nat(crate::hashing::sha256(seed + crate::hashing::fe_bytes(a0) + crate::hashing::fe_bytes(a1))),
    );
}

/// The three denominators of the composition polynomial have inverses at `x`.
pub open spec fn denominators_invertible(x: FieldElement, g: FieldElement, n: nat, t: nat) -> bool {
    &&& has_inverse(fe_sub(x, fe_from_nat(1)))
    &&& has_inverse(fe_sub(x, fe_pow(g, t)))
    &&& has_inverse(fe_sub(fe_pow(x, n), fe_from_nat(1)))
}

/// Where `b` divides `a` exactly, the quotient's value at `x` is
/// `a(x) / b(x)`, for `b(x)` with an inverse.
proof fn lemma_quotient_at(a: Seq<FieldElement>, b: Seq<FieldElement>, x: FieldElement)
    requires
        is_division(a, b, poly_divmod(a, b).0, poly_divmod(a, b).1),
        poly_divmod(a, b).1.len() == 0,
        canonical_coeffs(b),
        x.canonical(),
        has_inverse(poly_eval(b, x)),
    ensures
        poly_eval(poly_divmod(a, b).0, x) == fe_div(poly_eval(a, x), poly_eval(b, x)),
        canonical_coeffs(poly_divmod(a, b).0),
{
    let q = poly_divmod(a, b).0;
    lemma_eval_exact_division(a, b, q, poly_divmod(a, b).1, x);
    lemma_eval_from_canonical(q, 0, q.len(), x);
    lemma_eval_as(q, q.len(), x);
    lemma_quotient_value(poly_eval(q, x), poly_eval(b, x), poly_eval(a, x));
}

/// The value of the combination `a0*q0 + a1*q1 + a2*q3` the prover builds.
proof fn lemma_eval_combination(
    q0: Seq<FieldElement>,
    q1: Seq<FieldElement>,
    q3: Seq<FieldElement>,
    a0: FieldElement,
    a1: FieldElement,
    a2: FieldElement,
    x: FieldElement,
)
    requires
        canonical_coeffs(q0),
        canonical_coeffs(q1),
        canonical_coeffs(q3),
        a0.canonical(),
        a1.canonical(),
        a2.canonical(),
        x.canonical(),
    ensures
        poly_eval(
            trim(
                poly_add_spec(
                    trim(poly_add_spec(trim(poly_scale_spec(q0, a0)), trim(poly_scale_spec(q1, a1)))),
                    trim(poly_scale_spec(q3, a2)),
                ),
            ),
            x,
        ) == fe_add(
            fe_add(fe_mul(poly_eval(q0, x), a0), fe_mul(poly_eval(q1, x), a1)),
            fe_mul(poly_eval(q3, x), a2),
        ),
        canonical_coeffs(
            trim(
                poly_add_spec(
                    trim(poly_add_spec(trim(poly_scale_spec(q0, a0)), trim(poly_scale_spec(q1, a1)))),
                    trim(poly_scale_spec(q3, a2)),
                ),
            ),
        ),
{
    let s0 = poly_scale_spec(q0, a0);
    let s1 = poly_scale_spec(q1, a1);
    let s3 = poly_scale_spec(q3, a2);
    lemma_eval_scale(q0, a0, x);
    lemma_eval_scale(q1, a1, x);
    lemma_eval_scale(q3, a2, x);
    lemma_eval_trim(s0, x);
    lemma_eval_trim(s1, x);
    lemma_eval_trim(s3, x);
    lemma_trim_coeffs(s0);
    lemma_trim_coeffs(s1);
    lemma_trim_coeffs(s3);
    let u = poly_add_spec(trim(s0), trim(s1));
    lemma_eval_add(trim(s0), trim(s1), x);
    lemma_eval_trim(u, x);
    lemma_trim_coeffs(u);
    let w = poly_add_spec(trim(u), trim(s3));
    lemma_eval_add(trim(u), trim(s3), x);
    lemma_eval_trim(w, x);
    lemma_trim_coeffs(w);
}

/// The composition polynomial's value at `x` is the combination of the
/// constraint quotients that the verifier computes from the trace values at
/// `x`, `g x` and `g^2 x`, wherever its denominators have inverses.
pub proof fn lemma_eval_composition(
    f: Seq<FieldElement>,
    g: FieldElement,
    n: nat,
    target: FieldElement,
    t: nat,
    x: FieldElement,
)
    requires
        composition_polynomial(f, g, n, target, t, n) is Ok,
        divisions_hold(f, g, n, target, t, n),
        canonical_coeffs(f),
        target.canonical(),
        x.canonical(),
        n >= 1,
        denominators_invertible(x, g, n, t),
    ensures
        poly_eval(composition_polynomial(f, g, n, target, t, n)->Ok_0, x) == cp_at(
            x,
            poly_eval(f, x),
            poly_eval(f, fe_mul(fe_pow(g, 1), x)),
            poly_eval(f, fe_mul(fe_pow(g, 2), x)),
            g,
            n,
            target,
            t,
        ),
        canonical_coeffs(composition_polynomial(f, g, n, target, t, n)->Ok_0),
{
    let one = fe_from_nat(1);
    crate::field::lemma_small_nonzero(1);
    crate::field::lemma_fe_of_canonical(1);
    let n0 = p0_numerator(f);
    let n1 = p1_numerator(f, target);
    let n3 = p3_numerator(f, g, t, n);
    let b0 = linear_factor(one);
    let b1 = linear_factor(fe_pow(g, t));
    let b3 = vanishing_spec(n);
    lemma_eval_p0(f, x);
    lemma_eval_p1(f, target, x);
    lemma_eval_p3(f, g, t, n, x);
    lemma_eval_linear(one, x);
    lemma_eval_linear(fe_pow(g, t), x);
    lemma_eval_vanishing(n, x);
    lemma_quotient_at(n0, b0, x);
    lemma_quotient_at(n1, b1, x);
    lemma_quotient_at(n3, b3, x);
    let (a0, a1, a2) = alphas(target, g);
    lemma_alphas_canonical(target, g);
    lemma_eval_combination(poly_divmod(n0, b0).0, poly_divmod(n1, b1).0, poly_divmod(n3, b3).0, a0, a1, a2, x);
}

/// The composition polynomial has canonical coefficients.
pub proof fn lemma_composition_canonical(f: Seq<FieldElement>, g: FieldElement, n: nat, target: FieldElement, t: nat)
    requires
        composition_polynomial(f, g, n, target, t, n) is Ok,
        divisions_hold(f, g, n, target, t, n),
    ensures
        canonical_coeffs(composition_polynomial(f, g, n, target, t, n)->Ok_0),
{
    let one = fe_from_nat(1);
    let n0 = p0_numerator(f);
    let n1 = p1_numerator(f, target);
    let n3 = p3_numerator(f, g, t, n);
    let b0 = linear_factor(one);
    let b1 = linear_factor(fe_pow(g, t));
    let b3 = vanishing_spec(n);
    let (a0, a1, a2) = alphas(target, g);
    lemma_alphas_canonical(target, g);
    crate::field::lemma_fe_of_canonical(1);
    lemma_eval_combination(poly_divmod(n0, b0).0, poly_divmod(n1, b1).0, poly_divmod(n3, b3).0, a0, a1, a2, fe_one());
}

/// The coefficients of `p` at even positions: `p(X) = even(X^2) + X * odd(X^2)`.
pub open spec fn even_part(p: Seq<FieldElement>) -> Seq<FieldElement> {
    Seq::new(((p.len() + 1) / 2) as nat, |i: int| p[2 * i])
}

/// The coefficients of `p` at odd positions: `p(X) = even(X^2) + X * odd(X^2)`.
pub open spec fn odd_part(p: Seq<FieldElement>) -> Seq<FieldElement> {
    Seq::new((p.len() / 2) as nat, |i: int| p[2 * i + 1])
}

/// `a + x * (b + x * (c + x * d)) == (a + (x * x) * c) + x * (b + (x * x) * d)`.
proof fn lemma_step_even_odd(a: FieldElement, b: FieldElement, c: FieldElement, d: FieldElement, x: FieldElement)
    requires
        a.canonical(),
        b.canonical(),
        c.canonical(),
        d.canonical(),
        x.canonical(),
    ensures
        fe_add(a, fe_mul(x, fe_add(b, fe_mul(x, fe_add(c, fe_mul(x, d)))))) == fe_add(
            fe_add(a, fe_mul(fe_mul(x, x), c)),
            fe_mul(x, fe_add(b, fe_mul(fe_mul(x, x), d))),
        ),
{
    let (ia, ib, ic, id, ix) = (a.val() as int, b.val() as int, c.val() as int, d.val() as int, x.val() as int);
    lemma_fe_int_val(a);
    lemma_fe_int_val(b);
    lemma_fe_int_val(c);
    lemma_fe_int_val(d);
    lemma_fe_int_val(x);
    lemma_fe_int_ops(ix, id);
    lemma_fe_int_ops(ic, ix * id);
    lemma_fe_int_ops(ix, ic + ix * id);
    lemma_fe_int_ops(ib, ix * (ic + ix * id));
    lemma_fe_int_ops(ix, ib + ix * (ic + ix * id));
    lemma_fe_int_ops(ia, ix * (ib + ix * (ic + ix * id)));
    lemma_fe_int_ops(ix, ix);
    lemma_fe_int_ops(ix * ix, ic);
    lemma_fe_int_ops(ia, ix * ix * ic);
    lemma_fe_int_ops(ix * ix, id);
    lemma_fe_int_ops(ib, ix * ix * id);
    lemma_fe_int_ops(ix, ib + ix * ix * id);
    lemma_fe_int_ops(ia + ix * ix * ic, ix * (ib + ix * ix * id));
    assert(ia + ix * (ib + ix * (ic + ix * id)) == (ia + ix * ix * ic) + ix * (ib + ix * ix * id))
        by (nonlinear_arith);
}

/// `p(x) == even(x^2) + x * odd(x^2)`.
pub proof fn lemma_eval_even_odd(p: Seq<FieldElement>, x: FieldElement)
    requires
        canonical_coeffs(p),
        x.canonical(),
    ensures
        poly_eval(p, x) == fe_add(
            poly_eval(even_part(p), fe_mul(x, x)),
            fe_mul(x, poly_eval(odd_part(p), fe_mul(x, x))),
        ),
    decreases p.len(),
{
    let y = fe_mul(x, x);
    crate::field::lemma_op_vals(x, x);
    lemma_zero_laws(x);
    lemma_zero_laws(y);
    if p.len() == 0 {
        assert(even_part(p).len() == 0 && odd_part(p).len() == 0);
        assert(poly_eval(even_part(p), y) == fe_zero());
        assert(poly_eval(odd_part(p), y) == fe_zero());
        lemma_zero_laws(fe_zero());
    } else if p.len() == 1 {
        assert(even_part(p) =~= seq![p[0]]);
        assert(odd_part(p).len() == 0);
        assert(poly_eval(odd_part(p), y) == fe_zero());
        lemma_eval_constant(p[0], y);
        assert(p.drop_first().len() == 0);
        assert(poly_eval(p.drop_first(), x) == fe_zero());
        assert(poly_eval(p, x) == fe_add(p[0], fe_mul(x, poly_eval(p.drop_first(), x))));
        lemma_zero_laws(p[0]);
    } else {
        let rest = p.subrange(2, p.len() as int);
        assert(canonical_coeffs(rest)) by {
            assert forall|i: int| 0 <= i < rest.len() implies (#[trigger] rest[i]).canonical() by {
                assert(rest[i] == p[i + 2]);
            }
        }
        lemma_eval_even_odd(rest, x);
        assert(even_part(p).drop_first() =~= even_part(rest));
        assert(odd_part(p).drop_first() =~= odd_part(rest));
        assert(p.drop_first().drop_first() =~= rest);
        let er = poly_eval(even_part(rest), y);
        let or = poly_eval(odd_part(rest), y);
        lemma_eval_from_canonical(even_part(rest), 0, even_part(rest).len(), y);
        lemma_eval_as(even_part(rest), even_part(rest).len(), y);
        lemma_eval_from_canonical(odd_part(rest), 0, odd_part(rest).len(), y);
        lemma_eval_as(odd_part(rest), odd_part(rest).len(), y);
        assert(poly_eval(p, x) == fe_add(p[0], fe_mul(x, poly_eval(p.drop_first(), x))));
        assert(poly_eval(p.drop_first(), x) == fe_add(p[1], fe_mul(x, poly_eval(rest, x))));
        assert(poly_eval(even_part(p), y) == fe_add(p[0], fe_mul(y, er)));
        assert(poly_eval(odd_part(p), y) == fe_add(p[1], fe_mul(y, or)));
        lemma_step_even_odd(p[0], p[1], er, or, x);
    }
}

/// Two has the inverse `(p + 1) / 2`, which `two_inv()` therefore is.
pub proof fn lemma_two_inverse()
    ensures
        has_inverse(fe_from_nat(2)),
        fe_mul(fe_from_nat(2), two_inv()) == fe_one(),
        two_inv().canonical(),
{
    let m = crate::field::modulus();
    let h = 10944121435919637611123202872628637544274182200208017171849102093287904247809nat;
    crate::field::lemma_fe_of_canonical(h);
    crate::field::lemma_fe_of_canonical(1);
    crate::field::lemma_small_nonzero(2);
    crate::field::lemma_fe_of_canonical(2);
    assert(2 * h == m + 1);
    vstd::arithmetic::div_mod::lemma_fundamental_div_mod_converse((2 * h) as int, m as int, 1, 1);
    let w = crate::field::fe_of(h);
    assert(fe_mul(fe_from_nat(2), w) == fe_one());
    crate::field::lemma_canonical_val(w);
    assert(has_inverse(fe_from_nat(2)));
    crate::field::lemma_canonical_val(two_inv());
}

/// FRI folding: folding the values of `p` at `x` and `-x` with the
/// challenge `beta` gives the value at `x^2` of `even(p) + beta * odd(p)`,
/// where `p(X) = even(X^2) + X * odd(X^2)`.
pub proof fn lemma_fold_even_odd(p: Seq<FieldElement>, beta: FieldElement, x: FieldElement)
    requires
        canonical_coeffs(p),
        x.canonical(),
        beta.canonical(),
        has_inverse(x),
    ensures
        fold_value(poly_eval(p, x), poly_eval(p, fe_neg(x)), beta, x) == poly_eval(
            poly_add_spec(even_part(p), poly_scale_spec(odd_part(p), beta)),
            fe_mul(x, x),
        ),
{
    let m = crate::field::modulus() as int;
    let y = fe_mul(x, x);
    let nx = fe_neg(x);
    crate::field::lemma_op_vals(x, x);
    crate::field::lemma_mul_neg(x, x);
    assert(fe_mul(nx, nx) == y);
    crate::field::lemma_op_vals(x, x);
    lemma_eval_even_odd(p, x);
    lemma_eval_even_odd(p, nx);
    let ev = even_part(p);
    let od = odd_part(p);
    assert(canonical_coeffs(ev)) by {
        assert forall|i: int| 0 <= i < ev.len() implies (#[trigger] ev[i]).canonical() by {}
    }
    assert(canonical_coeffs(od)) by {
        assert forall|i: int| 0 <= i < od.len() implies (#[trigger] od[i]).canonical() by {}
    }
    let e = poly_eval(ev, y);
    let o = poly_eval(od, y);
    lemma_eval_from_canonical(ev, 0, ev.len(), y);
    lemma_eval_as(ev, ev.len(), y);
    lemma_eval_from_canonical(od, 0, od.len(), y);
    lemma_eval_as(od, od.len(), y);
    lemma_eval_scale(od, beta, y);
    lemma_eval_add(ev, poly_scale_spec(od, beta), y);
    // the inverses
    lemma_two_inverse();
    let h = two_inv();
    let w = fe_inv(x);
    crate::field::lemma_canonical_val(w);
    // integers
    let (ie, io, ix, ib, ih, iw) = (e.val() as int, o.val() as int, x.val() as int, beta.val() as int, h.val() as int, w.val() as int);
    lemma_fe_int_val(e);
    lemma_fe_int_val(o);
    lemma_fe_int_val(x);
    lemma_fe_int_val(beta);
    lemma_fe_int_val(h);
    lemma_fe_int_val(w);
    let px = ie + ix * io;
    let pnx = ie + (0 - ix) * io;
    lemma_fe_int_ops(ix, io);
    lemma_fe_int_ops(ie, ix * io);
    lemma_fe_int_ops(ix, 0);
    lemma_fe_int_ops(0 - ix, io);
    lemma_fe_int_ops(ie, (0 - ix) * io);
    lemma_fe_int_ops(px, pnx);
    lemma_fe_int_ops(px + pnx, ih);
    lemma_fe_int_ops(px - pnx, ih);
    lemma_fe_int_ops((px - pnx) * ih, iw);
    lemma_fe_int_ops(ib, (px - pnx) * ih * iw);
    lemma_fe_int_ops((px + pnx) * ih, ib * ((px - pnx) * ih * iw));
    lemma_fe_int_ops(io, ib);
    lemma_fe_int_ops(ie, io * ib);
    let big = (px + pnx) * ih + ib * ((px - pnx) * ih * iw);
    // 2h == 1 and x w == 1 modulo the order
    crate::field::lemma_small_nonzero(2);
    crate::field::lemma_fe_of_canonical(2);
    crate::field::lemma_op_vals(fe_from_nat(2), h);
    crate::field::lemma_op_vals(x, w);
    crate::field::lemma_fe_of_canonical(1);
    vstd::arithmetic::div_mod::lemma_fundamental_div_mod(2 * ih, m);
    vstd::arithmetic::div_mod::lemma_fundamental_div_mod(ix * iw, m);
    let k1 = (2 * ih) / m;
    let k2 = (ix * iw) / m;
    assert(2 * ih == m * k1 + 1);
    assert(ix * iw == m * k2 + 1);
    assert(px + pnx == 2 * ie) by (nonlinear_arith)
        requires px == ie + ix * io, pnx == ie + (0 - ix) * io;
    assert(px - pnx == 2 * (ix * io)) by (nonlinear_arith)
        requires px == ie + ix * io, pnx == ie + (0 - ix) * io;
    let t1 = (px + pnx) * ih;
    let t2 = (px - pnx) * ih * iw;
    assert(t1 == ie * (2 * ih)) by (nonlinear_arith)
        requires px + pnx == 2 * ie, t1 == (px + pnx) * ih;
    assert(t2 == io * (2 * ih) * (ix * iw)) by (nonlinear_arith)
        requires px - pnx == 2 * (ix * io), t2 == (px - pnx) * ih * iw;
    assert(t1 == ie + m * (ie * k1)) by (nonlinear_arith)
        requires t1 == ie * (2 * ih), 2 * ih == m * k1 + 1;
    let k3 = io * k1 * (m * k2 + 1) + io * k2;
    assert(t2 == io + m * k3) by (nonlinear_arith)
        requires t2 == io * (2 * ih) * (ix * iw), 2 * ih == m * k1 + 1, ix * iw == m * k2 + 1,
            k3 == io * k1 * (m * k2 + 1) + io * k2;
    assert(ib * t2 == ib * io + m * (ib * k3)) by (nonlinear_arith)
        requires t2 == io + m * k3;
    assert(big == t1 + ib * t2);
    assert(io * ib == ib * io) by (nonlinear_arith);
    assert(big - (ie + io * ib) == m * (ie * k1 + ib * k3));
    vstd::arithmetic::div_mod::lemma_mod_multiples_basic(ie * k1 + ib * k3, m);
    crate::field::lemma_fe_int_congruent(big, ie + io * ib);
}


/// The polynomial FRI folds `p` into with challenge `beta`: its even part
/// plus `beta` times its odd part.
pub open spec fn fold_poly(p: Seq<FieldElement>, beta: FieldElement) -> Seq<FieldElement> {
    poly_add_spec(even_part(p), poly_scale_spec(odd_part(p), beta))
}

/// FRI halves the degree: a layer holding the values of `p` on points whose
/// second half are the opposites of the first half folds, with challenge
/// `beta`, into the values of `fold_poly(p, beta)` on the squares of the first
/// half; that polynomial has half as many coefficients as `p` (rounded up),
/// all canonical, so the step repeats on the next layer.
pub proof fn lemma_fri_halves_degree(
    p: Seq<FieldElement>,
    beta: FieldElement,
    evals: Seq<FieldElement>,
    domain: Seq<FieldElement>,
)
    requires
        canonical_coeffs(p),
        beta.canonical(),
        domain.len() >= evals.len(),
        forall|i: int| 0 <= i < evals.len() ==> #[trigger] evals[i] == poly_eval(p, domain[i]),
        forall|i: int|
            0 <= i < evals.len() / 2 ==> (#[trigger] domain[i]).canonical() && has_inverse(domain[i])
                && domain[i + evals.len() / 2] == fe_neg(domain[i]),
    ensures
        fold_poly(p, beta).len() == (p.len() + 1) / 2,
        canonical_coeffs(fold_poly(p, beta)),
        fri_fold(evals, beta, domain).len() == evals.len() / 2,
        forall|i: int|
            0 <= i < evals.len() / 2 ==> #[trigger] fri_fold(evals, beta, domain)[i] == poly_eval(
                fold_poly(p, beta),
                squares(domain, evals.len() / 2)[i],
            ),
{
    let h = fold_poly(p, beta);
    assert forall|i: int| 0 <= i < h.len() implies (#[trigger] h[i]).canonical() by {
        let a = coeff(even_part(p), i);
        let b = coeff(poly_scale_spec(odd_part(p), beta), i);
        crate::field::lemma_fe_of_canonical(((a.val() + b.val()) % crate::field::modulus()) as nat);
    }
    assert forall|i: int|
        0 <= i < evals.len() / 2 implies #[trigger] fri_fold(evals, beta, domain)[i] == poly_eval(
            h,
            squares(domain, evals.len() / 2)[i],
        ) by {
        let x = domain[i];
        assert(x.canonical() && has_inverse(x) && domain[i + evals.len() / 2] == fe_neg(x));
        assert(evals[i + evals.len() / 2] == poly_eval(p, domain[i + evals.len() / 2]));
        lemma_fold_even_odd(p, beta, x);
    }
}

} // verus!
