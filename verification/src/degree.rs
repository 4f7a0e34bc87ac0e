//! Lengths of quotients and of the composition polynomial: dividing exactly
//! by a monic polynomial of length `d + 1` shortens by `d`, so the
//! composition polynomial of a trace polynomial of length at most `n` has
//! fewer than `2n` coefficients.
use crate::composition::{
    composition_polynomial, divisions_hold, exclusion_polynomial, lemma_lengths, lemma_trim_nonzero_last,
    p0_numerator, p1_numerator, p3_numerator, scaled_argument, transition_numerator,
};
use crate::evaluation::{lemma_trim_coeffs, lemma_zero_laws};
use crate::field::{fe_from_nat, fe_mul, fe_one, fe_pow, fe_zero, FieldElement};
use crate::poly::{
    canonical_coeffs, coeff, conv_sum, is_division, linear_factor, poly_add_spec, poly_divmod,
    poly_mul_spec, poly_scale_spec, poly_sub_spec, trim, vanishing_spec,
};
use vstd::prelude::*;

verus! {

/// The first `n` terms of the convolution at `k` vanish when they all read
/// `b` past its end.
proof fn lemma_conv_past_end(a: Seq<FieldElement>, b: Seq<FieldElement>, k: int, n: nat)
    requires
        k - n >= b.len() - 1,
    ensures
        conv_sum(a, b, k, n) == fe_zero(),
    decreases n,
{
    if n > 0 {
        lemma_conv_past_end(a, b, k, (n - 1) as nat);
        lemma_zero_laws(coeff(a, n - 1));
        lemma_zero_laws(fe_zero());
    }
}

/// The leading coefficient of a product with a monic factor is the other
/// factor's leading coefficient.
proof fn lemma_product_top(q: Seq<FieldElement>, b: Seq<FieldElement>)
    requires
        q.len() > 0,
        b.len() > 0,
        b.last() == fe_one(),
        q.last().canonical(),
    ensures
        poly_mul_spec(q, b).last() == q.last(),
{
    let k = q.len() + b.len() - 2;
    lemma_conv_past_end(q, b, k, (q.len() - 1) as nat);
    crate::field::lemma_mul_one(q.last());
    crate::field::lemma_op_vals(q.last(), fe_one());
    lemma_zero_laws(fe_mul(q.last(), fe_one()));
    assert(coeff(b, k - (q.len() - 1)) == b.last());
    assert(poly_mul_spec(q, b).last() == conv_sum(q, b, k, q.len()));
}

/// Dividing exactly by a monic polynomial of length `d + 1` leaves a
/// quotient `d` shorter than the dividend (at most).
pub proof fn lemma_quotient_len(a: Seq<FieldElement>, b: Seq<FieldElement>)
    requires
        is_division(a, b, poly_divmod(a, b).0, poly_divmod(a, b).1),
        poly_divmod(a, b).1.len() == 0,
        b.len() > 0,
        b.last() == fe_one(),
        canonical_coeffs(b),
    ensures
        poly_divmod(a, b).0.len() == 0 || poly_divmod(a, b).0.len() + b.len() <= a.len() + 1,
{
    let q = poly_divmod(a, b).0;
    let r = poly_divmod(a, b).1;
    if q.len() > 0 {
        let qb = poly_mul_spec(q, b);
        lemma_product_top(q, b);
        assert(q.last().canonical());
        crate::field::lemma_fe_of_canonical(1);
        lemma_trim_nonzero_last(qb);
        crate::field::lemma_fe_of_canonical(1);
        crate::evaluation::lemma_eval_mul(q, b, fe_one());
        assert(poly_add_spec(qb, r) =~= qb) by {
            assert forall|i: int| 0 <= i < qb.len() implies #[trigger] poly_add_spec(qb, r)[i] == qb[i] by {
                assert(qb[i].canonical());
                lemma_zero_laws(qb[i]);
            }
        }
        lemma_trim_coeffs(a);
        assert(trim(poly_add_spec(qb, r)) == trim(a));
    }
}

/// The exclusion polynomial on `lo..hi` has at most `hi - lo + 1`
/// coefficients.
proof fn lemma_exclusion_len(g: FieldElement, lo: nat, hi: nat)
    ensures
        exclusion_polynomial(g, lo, hi).len() <= if hi > lo { (hi - lo + 1) as nat } else { 1nat },
    decreases hi,
{
    if hi > lo {
        lemma_exclusion_len(g, lo, (hi - 1) as nat);
        lemma_lengths(exclusion_polynomial(g, lo, (hi - 1) as nat), linear_factor(fe_pow(g, (hi - 1) as nat)));
    }
}

/// The numerator of `p3`, for `f` of length at most `n`, has at most
/// `3n - t` coefficients.
proof fn lemma_p3_numerator_len(f: Seq<FieldElement>, g: FieldElement, t: nat, n: nat)
    requires
        f.len() <= n,
        1 <= t < n,
    ensures
        p3_numerator(f, g, t, n).len() + t <= 3 * n,
{
    let f1 = scaled_argument(f, g, 1);
    let f2 = scaled_argument(f, g, 2);
    lemma_lengths(f1, f1);
    lemma_lengths(f, f);
    let sq1 = trim(poly_mul_spec(f1, f1));
    let sq0 = trim(poly_mul_spec(f, f));
    lemma_lengths(f2, sq1);
    let d1 = trim(poly_sub_spec(f2, sq1));
    lemma_lengths(d1, sq0);
    let tr = transition_numerator(f, g);
    assert(tr.len() + 1 <= 2 * n || tr.len() == 0);
    let l1 = linear_factor(fe_pow(g, t));
    let l2 = linear_factor(fe_pow(g, (t - 1) as nat));
    lemma_lengths(tr, l1);
    let m1 = trim(poly_mul_spec(tr, l1));
    lemma_lengths(m1, l2);
    let m2 = trim(poly_mul_spec(m1, l2));
    let ex = exclusion_polynomial(g, t + 1, n);
    lemma_exclusion_len(g, t + 1, n);
    lemma_lengths(m2, ex);
}

/// The composition polynomial of a trace polynomial of length at most `n`
/// has fewer than `2n` coefficients.
pub proof fn lemma_composition_len(f: Seq<FieldElement>, g: FieldElement, n: nat, target: FieldElement, t: nat)
    requires
        composition_polynomial(f, g, n, target, t, n) is Ok,
        divisions_hold(f, g, n, target, t, n),
        f.len() <= n,
        t < n,
    ensures
        composition_polynomial(f, g, n, target, t, n)->Ok_0.len() + 1 <= 2 * n,
{
    let one = fe_from_nat(1);
    crate::field::lemma_small_nonzero(1);
    crate::field::lemma_fe_of_canonical(1);
    let n0 = p0_numerator(f);
    let n1 = p1_numerator(f, target);
    let n3 = p3_numerator(f, g, t, n);
    let b0 = linear_factor(one);
    let b1 = linear_factor(fe_pow(g, t));
    let b3 = vanishing_spec(n);
    crate::evaluation::lemma_eval_linear(one, fe_one());
    crate::evaluation::lemma_eval_linear(fe_pow(g, t), fe_one());
    crate::evaluation::lemma_eval_vanishing(n, fe_one());
    lemma_lengths(f, seq![one]);
    lemma_lengths(f, seq![target]);
    lemma_quotient_len(n0, b0);
    lemma_quotient_len(n1, b1);
    lemma_p3_numerator_len(f, g, t, n);
    lemma_quotient_len(n3, b3);
    let q0 = poly_divmod(n0, b0).0;
    let q1 = poly_divmod(n1, b1).0;
    let q3 = poly_divmod(n3, b3).0;
    let (a0, a1, a2) = crate::composition::alphas(target, g);
    lemma_trim_coeffs(poly_scale_spec(q0, a0));
    lemma_trim_coeffs(poly_scale_spec(q1, a1));
    lemma_trim_coeffs(poly_scale_spec(q3, a2));
    let s0 = trim(poly_scale_spec(q0, a0));
    let s1 = trim(poly_scale_spec(q1, a1));
    let s3 = trim(poly_scale_spec(q3, a2));
    lemma_lengths(s0, s1);
    lemma_lengths(trim(poly_add_spec(s0, s1)), s3);
}

} // verus!
