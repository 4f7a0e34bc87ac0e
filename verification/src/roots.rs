//! Roots of polynomials: division by `X - z`, a polynomial with no more
//! coefficients than it has distinct roots is zero, the elements of a radix-2
//! subgroup are distinct; and so, for an honest trace, every division the
//! composition polynomial rests on is exact.
use crate::acceptance::{field_inverses, has_inverse};
use crate::composition::{p0_numerator, p1_numerator, p3_numerator};
use crate::evaluation::{
    lemma_eval_p3, lemma_eval_sub, lemma_eval_add, lemma_eval_canonical, lemma_eval_linear, lemma_eval_mul, lemma_eval_trim, lemma_eval_vanishing,
    lemma_zero_laws,
};
use crate::field::{fe_from_nat, fe_of, fe_add, fe_mul, fe_neg, fe_one, fe_pow, fe_sub, fe_zero, lemma_fe_int_ops, lemma_fe_int_val, FieldElement};
use crate::poly::{
    canonical_coeffs, coeff, domain_point, is_division, is_interpolant, is_pow2, linear_factor, poly_sub_spec, root_of_unity, poly_add_spec, poly_eval, poly_mul_spec, trim, vanishing_spec,
};
use crate::prover::fib_square;
use crate::verifying::{exclusion_product_at, p3_numerator_at};
use vstd::prelude::*;

verus! {

/// The quotient of `p` by `X - z` (synthetic division, from the top
/// coefficient down); the remainder is `p(z)`.
pub open spec fn quotient_by_linear(p: Seq<FieldElement>, z: FieldElement) -> Seq<FieldElement>
    decreases p.len(),
{
    if p.len() <= 1 {
        Seq::empty()
    } else {
        seq![poly_eval(p.drop_first(), z)] + quotient_by_linear(p.drop_first(), z)
    }
}

/// `a + x * ((x - z) * q + c) == (x - z) * (c + x * q) + (a + z * c)`.
proof fn lemma_step_linear(a: FieldElement, c: FieldElement, q: FieldElement, x: FieldElement, z: FieldElement)
    requires
        a.canonical(),
        c.canonical(),
        q.canonical(),
        x.canonical(),
        z.canonical(),
    ensures
        fe_add(a, fe_mul(x, fe_add(fe_mul(fe_sub(x, z), q), c))) == fe_add(
            fe_mul(fe_sub(x, z), fe_add(c, fe_mul(x, q))),
            fe_add(a, fe_mul(z, c)),
        ),
{
    let (ia, ic, iq, ix, iz) = (a.val() as int, c.val() as int, q.val() as int, x.val() as int, z.val() as int);
    lemma_fe_int_val(a);
    lemma_fe_int_val(c);
    lemma_fe_int_val(q);
    lemma_fe_int_val(x);
    lemma_fe_int_val(z);
    lemma_fe_int_ops(ix, iz);
    lemma_fe_int_ops(ix - iz, iq);
    lemma_fe_int_ops((ix - iz) * iq, ic);
    lemma_fe_int_ops(ix, (ix - iz) * iq + ic);
    lemma_fe_int_ops(ia, ix * ((ix - iz) * iq + ic));
    lemma_fe_int_ops(ix, iq);
    lemma_fe_int_ops(ic, ix * iq);
    lemma_fe_int_ops(ix - iz, ic + ix * iq);
    lemma_fe_int_ops(iz, ic);
    lemma_fe_int_ops(ia, iz * ic);
    lemma_fe_int_ops((ix - iz) * (ic + ix * iq), ia + iz * ic);
    assert(ia + ix * ((ix - iz) * iq + ic) == (ix - iz) * (ic + ix * iq) + (ia + iz * ic)) by (nonlinear_arith);
}

/// Dividing by `X - z`: `p(x) == (x - z) * q(x) + p(z)` for the quotient `q`,
/// which has one coefficient fewer than `p` (none for a constant).
#[verifier::rlimit(50)]
#[verifier::spinoff_prover]
pub proof fn lemma_quotient_by_linear(p: Seq<FieldElement>, z: FieldElement, x: FieldElement)
    requires
        canonical_coeffs(p),
        x.canonical(),
        z.canonical(),
    ensures
        quotient_by_linear(p, z).len() == if p.len() == 0 { 0 } else { (p.len() - 1) as nat },
        canonical_coeffs(quotient_by_linear(p, z)),
        poly_eval(p, x) == fe_add(fe_mul(fe_sub(x, z), poly_eval(quotient_by_linear(p, z), x)), poly_eval(p, z)),
    decreases p.len(),
{
    let q = quotient_by_linear(p, z);
    let d = fe_sub(x, z);
    crate::field::lemma_op_vals(x, z);
    lemma_zero_laws(d);
    lemma_eval_canonical(p, z);
    lemma_eval_canonical(p, x);
    if p.len() == 0 {
        assert(poly_eval(q, x) == fe_zero());
        lemma_zero_laws(fe_zero());
    } else if p.len() == 1 {
        assert(p.drop_first() =~= Seq::<FieldElement>::empty());
        lemma_zero_laws(x);
        lemma_zero_laws(z);
        assert(p[0].canonical());
        lemma_zero_laws(p[0]);
        assert(poly_eval(p.drop_first(), x) == fe_zero());
        assert(poly_eval(p.drop_first(), z) == fe_zero());
        assert(poly_eval(p, x) == fe_add(p[0], fe_mul(x, poly_eval(p.drop_first(), x))));
        assert(poly_eval(p, z) == fe_add(p[0], fe_mul(z, poly_eval(p.drop_first(), z))));
        assert(poly_eval(p, x) == p[0]);
        assert(poly_eval(p, z) == p[0]);
    } else {
        let t = p.drop_first();
        assert(canonical_coeffs(t)) by {
            assert forall|i: int| 0 <= i < t.len() implies (#[trigger] t[i]).canonical() by {
                assert(t[i] == p[i + 1]);
            }
        }
        lemma_quotient_by_linear(t, z, x);
        let qt = quotient_by_linear(t, z);
        let c = poly_eval(t, z);
        lemma_eval_canonical(t, z);
        lemma_eval_canonical(qt, x);
        assert(q == seq![c] + qt);
        assert(q.drop_first() =~= qt);
        assert(canonical_coeffs(q)) by {
            assert forall|i: int| 0 <= i < q.len() implies (#[trigger] q[i]).canonical() by {
                if i > 0 {
                    assert(q[i] == qt[i - 1]);
                }
            }
        }
        assert(poly_eval(q, x) == fe_add(c, fe_mul(x, poly_eval(qt, x))));
        assert(poly_eval(p, x) == fe_add(p[0], fe_mul(x, poly_eval(t, x))));
        assert(poly_eval(p, z) == fe_add(p[0], fe_mul(z, c)));
        lemma_step_linear(p[0], c, poly_eval(qt, x), x, z);
    }
}

/// A product of two field elements is zero only when one of them is.
pub proof fn lemma_no_zero_divisors(a: FieldElement, b: FieldElement)
    requires
        field_inverses(),
        a.canonical(),
        b.canonical(),
        a != fe_zero(),
        fe_mul(a, b) == fe_zero(),
    ensures
        b == fe_zero(),
{
    assert(has_inverse(a));
    let w = choose|w: FieldElement| w.val() < crate::field::modulus() && fe_mul(a, w) == fe_one();
    crate::field::lemma_canonical_val(w);
    crate::field::lemma_mul_assoc(w, a, b);
    crate::field::lemma_mul_commutes(w, a);
    lemma_zero_laws(w);
    crate::field::lemma_mul_one(b);
    crate::field::lemma_mul_commutes(fe_one(), b);
}

/// Every coefficient of `p` is zero.
pub open spec fn all_zero(p: Seq<FieldElement>) -> bool {
    forall|i: int| 0 <= i < p.len() ==> #[trigger] p[i] == fe_zero()
}

/// A polynomial whose quotient by `X - z` is zero, and which vanishes at
/// `z`, is zero.
proof fn lemma_quotient_zero(p: Seq<FieldElement>, z: FieldElement)
    requires
        canonical_coeffs(p),
        z.canonical(),
        all_zero(quotient_by_linear(p, z)),
        poly_eval(p, z) == fe_zero(),
    ensures
        all_zero(p),
    decreases p.len(),
{
    if p.len() == 1 {
        assert(p.drop_first() =~= Seq::<FieldElement>::empty());
        lemma_zero_laws(z);
        assert(p[0].canonical());
        lemma_zero_laws(p[0]);
        assert(poly_eval(p, z) == fe_add(p[0], fe_mul(z, poly_eval(p.drop_first(), z))));
        assert(p[0] == fe_zero());
    } else if p.len() > 1 {
        let t = p.drop_first();
        let qt = quotient_by_linear(t, z);
        let q = quotient_by_linear(p, z);
        assert(q == seq![poly_eval(t, z)] + qt);
        assert(q[0] == poly_eval(t, z));
        assert(poly_eval(t, z) == fe_zero());
        assert(canonical_coeffs(t)) by {
            assert forall|i: int| 0 <= i < t.len() implies (#[trigger] t[i]).canonical() by {
                assert(t[i] == p[i + 1]);
            }
        }
        assert(all_zero(qt)) by {
            assert forall|i: int| 0 <= i < qt.len() implies #[trigger] qt[i] == fe_zero() by {
                assert(q[i + 1] == qt[i]);
            }
        }
        lemma_quotient_zero(t, z);
        lemma_zero_laws(z);
        assert(p[0].canonical());
        lemma_zero_laws(p[0]);
        assert(poly_eval(p, z) == fe_add(p[0], fe_mul(z, poly_eval(t, z))));
        assert(p[0] == fe_zero());
        assert forall|i: int| 0 <= i < p.len() implies #[trigger] p[i] == fe_zero() by {
            if i > 0 {
                assert(p[i] == t[i - 1]);
            }
        }
    }
}

/// Root counting: a polynomial with at most as many coefficients as it has
/// distinct roots is zero.
pub proof fn lemma_roots_zero(p: Seq<FieldElement>, zs: Seq<FieldElement>)
    requires
        field_inverses(),
        canonical_coeffs(p),
        p.len() <= zs.len(),
        forall|i: int| 0 <= i < zs.len() ==> (#[trigger] zs[i]).canonical(),
        forall|i: int, j: int| 0 <= i < j < zs.len() ==> zs[i] != zs[j],
        forall|i: int| 0 <= i < zs.len() ==> #[trigger] poly_eval(p, zs[i]) == fe_zero(),
    ensures
        all_zero(p),
    decreases zs.len(),
{
    if p.len() > 0 {
        let k = zs.len() - 1;
        let z = zs[k];
        let q = quotient_by_linear(p, z);
        lemma_quotient_by_linear(p, z, z);
        let rest = zs.drop_last();
        assert forall|i: int| 0 <= i < rest.len() implies #[trigger] poly_eval(q, rest[i]) == fe_zero() by {
            let x = rest[i];
            assert(x == zs[i]);
            assert(zs[i] != zs[k]);
            lemma_quotient_by_linear(p, z, x);
            let d = fe_sub(x, z);
            let v = poly_eval(q, x);
            lemma_eval_canonical(q, x);
            crate::field::lemma_op_vals(x, z);
            crate::field::lemma_op_vals(d, v);
            lemma_zero_laws(fe_mul(d, v));
            assert(fe_mul(d, v) == fe_zero());
            if d == fe_zero() {
                crate::field::lemma_canonical_val(x);
                crate::field::lemma_canonical_val(z);
                crate::field::lemma_val_fe_of(0);
                assert(((x.val() - z.val()) % (crate::field::modulus() as int)) == 0);
                assert(x.val() == z.val()) by (nonlinear_arith)
                    requires
                        (x.val() - z.val()) % (crate::field::modulus() as int) == 0,
                        x.val() < crate::field::modulus(),
                        z.val() < crate::field::modulus(),
                ;
                crate::field::lemma_eq_by_val(x, z);
            }
            lemma_no_zero_divisors(d, v);
        }
        lemma_roots_zero(q, rest);
        lemma_quotient_zero(p, z);
    }
}

/// `-1` is not `1`.
pub proof fn lemma_minus_one_not_one()
    ensures
        fe_neg(fe_one()) != fe_one(),
{
    crate::field::lemma_val_fe_of(1);
    crate::field::lemma_op_vals(fe_one(), fe_one());
    assert((0 - 1) % (crate::field::modulus() as int) == crate::field::modulus() - 1);
}

/// A generator `g` of a subgroup of power-of-two order `n` with
/// `g^(n/2) == -1` has `g^n == 1`.
pub proof fn lemma_pow2_generator_cycles(g: FieldElement, n: nat)
    requires
        g.canonical(),
        n >= 2,
        n % 2 == 0,
        fe_pow(g, n / 2) == fe_neg(fe_one()),
    ensures
        fe_pow(g, n) == fe_one(),
{
    crate::field::lemma_pow_add(g, n / 2, n / 2);
    crate::field::lemma_mul_neg(fe_one(), fe_one());
    crate::field::lemma_mul_neg(fe_one(), fe_neg(fe_one()));
    crate::field::lemma_fe_of_canonical(1);
    crate::field::lemma_mul_one(fe_one());
}

/// A generator `g` of a subgroup of power-of-two order `n` with
/// `g^(n/2) == -1` has order exactly `n`: no power `g^d` with `0 < d < n`
/// is one.
pub proof fn lemma_pow2_order(g: FieldElement, n: nat, d: nat)
    requires
        g.canonical(),
        is_pow2(n),
        n >= 2,
        fe_pow(g, n / 2) == fe_neg(fe_one()),
        0 < d < n,
    ensures
        fe_pow(g, d) != fe_one(),
    decreases n,
{
    lemma_minus_one_not_one();
    crate::merkle::lemma_pow2_half(n);
    if n == 2 {
        assert(d == 1);
    } else {
        let m = n / 2;
        assert(m >= 2);
        crate::merkle::lemma_pow2_half(m);
        let h = fe_pow(g, 2);
        crate::field::lemma_pow_canonical(g, 2);
        crate::field::lemma_pow_pow(g, 2, m / 2);
        assert(2 * (m / 2) == m);
        if d % 2 == 0 {
            crate::field::lemma_pow_pow(g, 2, d / 2);
            assert(2 * (d / 2) == d);
            lemma_pow2_order(h, m, d / 2);
        } else {
            if fe_pow(g, d) == fe_one() {
                lemma_pow2_generator_cycles(g, n);
                crate::field::lemma_pow_pow(g, d, 2);
                crate::field::lemma_pow_pow(g, 2, d);
                crate::field::lemma_pow_of_one(2);
                assert(d * 2 == 2 * d);
                assert(fe_pow(h, d) == fe_one());
                crate::field::lemma_pow_pow(g, 2, m);
                assert(2 * m == n);
                assert(fe_pow(h, m) == fe_one());
                let c = d / m;
                let e = d % m;
                vstd::arithmetic::div_mod::lemma_fundamental_div_mod(d as int, m as int);
                assert(d == m * c + e);
                let k = m / 2;
                let t = k * c;
                assert(m * c == 2 * t) by (nonlinear_arith) requires m == 2 * k, t == k * c;
                assert(e % 2 == 1);
                crate::field::lemma_pow_add(h, m * c, e);
                crate::field::lemma_pow_pow(h, m, c);
                crate::field::lemma_pow_of_one(c);
                crate::field::lemma_pow_canonical(h, e);
                crate::field::lemma_mul_one(fe_pow(h, e));
                crate::field::lemma_mul_commutes(fe_one(), fe_pow(h, e));
                assert(fe_pow(h, e) == fe_one());
                lemma_pow2_order(h, m, e);
            }
        }
    }
}

/// The elements `g^0, ..., g^(n-1)` of a subgroup of power-of-two order `n`
/// whose generator has `g^(n/2) == -1` are distinct.
pub proof fn lemma_subgroup_distinct(g: FieldElement, n: nat, i: nat, j: nat)
    requires
        g.canonical(),
        is_pow2(n),
        n >= 2,
        fe_pow(g, n / 2) == fe_neg(fe_one()),
        i < j < n,
    ensures
        fe_pow(g, i) != fe_pow(g, j),
{
    if fe_pow(g, i) == fe_pow(g, j) {
        let d = (j - i) as nat;
        crate::merkle::lemma_pow2_half(n);
        lemma_pow2_generator_cycles(g, n);
        let a = fe_pow(g, (n - i) as nat);
        let b = fe_pow(g, i);
        let c = fe_pow(g, d);
        crate::field::lemma_pow_add(g, (n - i) as nat, i);
        crate::field::lemma_pow_add(g, i, d);
        crate::field::lemma_pow_canonical(g, d);
        crate::field::lemma_mul_assoc(a, b, c);
        crate::field::lemma_mul_one(c);
        crate::field::lemma_mul_commutes(fe_one(), c);
        assert(fe_mul(fe_mul(a, b), c) == c);
        assert(fe_mul(a, fe_mul(b, c)) == fe_mul(a, b));
        assert(c == fe_one());
        lemma_pow2_order(g, n, d);
    }
}

/// `x - x` is zero.
pub proof fn lemma_sub_self(x: FieldElement)
    ensures
        fe_sub(x, x) == fe_zero(),
{
    crate::field::lemma_op_vals(x, x);
    crate::field::lemma_val_fe_of(0);
    crate::field::lemma_fe_of_canonical(0);
    crate::field::lemma_eq_by_val(fe_sub(x, x), fe_zero());
}

/// Where the divisor vanishes, the remainder takes the dividend's value.
pub proof fn lemma_remainder_at(
    a: Seq<FieldElement>,
    b: Seq<FieldElement>,
    q: Seq<FieldElement>,
    r: Seq<FieldElement>,
    x: FieldElement,
)
    requires
        is_division(a, b, q, r),
        canonical_coeffs(b),
        x.canonical(),
        poly_eval(b, x) == fe_zero(),
    ensures
        poly_eval(r, x) == poly_eval(a, x),
{
    let qb = poly_mul_spec(q, b);
    lemma_eval_mul(q, b, x);
    lemma_eval_add(qb, r, x);
    lemma_eval_trim(poly_add_spec(qb, r), x);
    lemma_eval_trim(a, x);
    lemma_eval_canonical(q, x);
    lemma_eval_canonical(r, x);
    lemma_zero_laws(poly_eval(q, x));
    lemma_zero_laws(poly_eval(r, x));
}

/// A polynomial that vanishes at `z` is divisible by `X - z`: the remainder
/// of the division is zero.
pub proof fn lemma_linear_remainder_empty(a: Seq<FieldElement>, z: FieldElement, q: Seq<FieldElement>, r: Seq<FieldElement>)
    requires
        is_division(a, linear_factor(z), q, r),
        z.canonical(),
        poly_eval(a, z) == fe_zero(),
    ensures
        r.len() == 0,
{
    let l = linear_factor(z);
    crate::field::lemma_small_nonzero(1);
    assert(trim(l) == l);
    lemma_eval_linear(z, z);
    lemma_sub_self(z);
    lemma_remainder_at(a, l, q, r, z);
    if r.len() == 1 {
        assert(r.drop_first() =~= Seq::<FieldElement>::empty());
        lemma_zero_laws(z);
        assert(r[0].canonical());
        lemma_zero_laws(r[0]);
        assert(poly_eval(r, z) == fe_add(r[0], fe_mul(z, poly_eval(r.drop_first(), z))));
        assert(r.last() == r[0]);
    }
}

/// A polynomial that vanishes on a subgroup of power-of-two order `n` (whose
/// generator `g` has `g^(n/2) == -1`) is divisible by `X^n - 1`: the
/// remainder of the division is zero.
pub proof fn lemma_vanishing_remainder_empty(
    a: Seq<FieldElement>,
    n: nat,
    g: FieldElement,
    q: Seq<FieldElement>,
    r: Seq<FieldElement>,
)
    requires
        field_inverses(),
        is_division(a, vanishing_spec(n), q, r),
        g.canonical(),
        is_pow2(n),
        n >= 2,
        fe_pow(g, n / 2) == fe_neg(fe_one()),
        forall|j: nat| j < n ==> #[trigger] poly_eval(a, fe_pow(g, j)) == fe_zero(),
    ensures
        r.len() == 0,
{
    let v = vanishing_spec(n);
    crate::field::lemma_fe_of_canonical(1);
    crate::field::lemma_small_nonzero(1);
    assert(v.last() == fe_one());
    assert(trim(v) == v);
    crate::merkle::lemma_pow2_half(n);
    lemma_pow2_generator_cycles(g, n);
    let zs = Seq::new(n, |j: int| fe_pow(g, j as nat));
    assert forall|i: int| 0 <= i < zs.len() implies (#[trigger] zs[i]).canonical() by {
        crate::field::lemma_pow_canonical(g, i as nat);
    }
    assert forall|i: int, j: int| 0 <= i < j < zs.len() implies zs[i] != zs[j] by {
        lemma_subgroup_distinct(g, n, i as nat, j as nat);
    }
    assert forall|i: int| 0 <= i < zs.len() implies #[trigger] poly_eval(r, zs[i]) == fe_zero() by {
        let x = zs[i];
        crate::field::lemma_pow_canonical(g, i as nat);
        lemma_eval_vanishing(n, x);
        crate::field::lemma_pow_pow(g, i as nat, n);
        crate::field::lemma_pow_pow(g, n, i as nat);
        assert((i as nat) * n == n * (i as nat)) by (nonlinear_arith);
        crate::field::lemma_pow_of_one(i as nat);
        lemma_sub_self(fe_one());
        lemma_remainder_at(a, v, q, r, x);
        assert(poly_eval(a, fe_pow(g, i as nat)) == fe_zero());
    }
    lemma_roots_zero(r, zs);
    if r.len() > 0 {
        assert(r.last() == r[r.len() - 1]);
    }
}

/// Element `i` of the sequence starting `1, a1` is canonical.
proof fn lemma_fib_canonical(a1: FieldElement, i: nat)
    requires
        a1.canonical(),
    ensures
        fib_square(fe_from_nat(1), a1, i).canonical(),
    decreases i,
{
    if i == 0 {
        crate::field::lemma_fe_of_canonical(1);
        crate::field::lemma_small_nonzero(1);
    } else if i > 1 {
        let x = fib_square(fe_from_nat(1), a1, (i - 1) as nat);
        let y = fib_square(fe_from_nat(1), a1, (i - 2) as nat);
        crate::field::lemma_op_vals(x, x);
        crate::field::lemma_op_vals(y, y);
        crate::field::lemma_op_vals(fe_mul(x, x), fe_mul(y, y));
    }
}

/// `((x^2 + y^2) - x^2) - y^2` is zero.
proof fn lemma_recurrence_residue(x: FieldElement, y: FieldElement)
    requires
        x.canonical(),
        y.canonical(),
    ensures
        fe_sub(fe_sub(fe_add(fe_mul(x, x), fe_mul(y, y)), fe_mul(x, x)), fe_mul(y, y)) == fe_zero(),
{
    let (ix, iy) = (x.val() as int, y.val() as int);
    lemma_fe_int_val(x);
    lemma_fe_int_val(y);
    lemma_fe_int_ops(ix, ix);
    lemma_fe_int_ops(iy, iy);
    lemma_fe_int_ops(ix * ix, iy * iy);
    lemma_fe_int_ops(ix * ix + iy * iy, ix * ix);
    lemma_fe_int_ops(ix * ix + iy * iy - ix * ix, iy * iy);
    assert(ix * ix + iy * iy - ix * ix - iy * iy == 0);
    crate::field::lemma_fe_int_constants();
}

/// The exclusion product at `g^j` is zero when `j` is one of the excluded
/// exponents.
proof fn lemma_exclusion_zero(g: FieldElement, lo: nat, hi: nat, j: nat)
    requires
        lo <= j < hi,
    ensures
        exclusion_product_at(fe_pow(g, j), g, lo, hi) == fe_zero(),
    decreases hi,
{
    let x = fe_pow(g, j);
    let prev = exclusion_product_at(x, g, lo, (hi - 1) as nat);
    if j == hi - 1 {
        lemma_sub_self(x);
        lemma_zero_laws(prev);
    } else {
        lemma_exclusion_zero(g, lo, (hi - 1) as nat, j);
        lemma_zero_laws(fe_sub(x, fe_pow(g, (hi - 1) as nat)));
    }
}

/// The trace polynomial of an honest trace takes the trace's values on the
/// subgroup: `f(g^i) == a[i]`.
proof fn lemma_trace_value(a1: FieldElement, n: nat, f: Seq<FieldElement>, g: FieldElement, i: nat)
    requires
        is_interpolant(f, Seq::new(n, |k: int| fib_square(fe_from_nat(1), a1, k as nat)), n),
        fe_of(root_of_unity(n)) == g,
        i < n,
    ensures
        poly_eval(f, fe_pow(g, i)) == fib_square(fe_from_nat(1), a1, i),
{
    assert(domain_point(n, i) == fe_pow(g, i));
    assert(poly_eval(f, domain_point(n, (i as int) as nat)) == coeff(
        Seq::new(n, |k: int| fib_square(fe_from_nat(1), a1, k as nat)),
        i as int,
    ));
}

/// An honest trace starts with 1: with `f` taking the Fibonacci-square
/// values `1, a1, ...` on the subgroup of size `n` generated by `g`, `f - 1`
/// is divisible by `X - 1`.
pub proof fn lemma_boundary_exact(
    a1: FieldElement,
    n: nat,
    f: Seq<FieldElement>,
    g: FieldElement,
    q: Seq<FieldElement>,
    r: Seq<FieldElement>,
)
    requires
        n >= 1,
        fe_of(root_of_unity(n)) == g,
        is_interpolant(f, Seq::new(n, |k: int| fib_square(fe_from_nat(1), a1, k as nat)), n),
        is_division(p0_numerator(f), linear_factor(fe_from_nat(1)), q, r),
    ensures
        r.len() == 0,
{
    let one = fe_from_nat(1);
    crate::field::lemma_small_nonzero(1);
    crate::field::lemma_fe_of_canonical(1);
    assert(canonical_coeffs(seq![one])) by {
        assert forall|i: int| 0 <= i < 1 implies (#[trigger] seq![one][i]).canonical() by {}
    }
    lemma_trace_value(a1, n, f, g, 0);
    assert(fe_pow(g, 0) == fe_one());
    lemma_eval_sub(f, seq![one], one);
    lemma_eval_trim(poly_sub_spec(f, seq![one]), one);
    assert(seq![one].drop_first() =~= Seq::<FieldElement>::empty());
    lemma_zero_laws(one);
    assert(poly_eval(seq![one], one) == fe_add(one, fe_mul(one, poly_eval(seq![one].drop_first(), one))));
    lemma_sub_self(one);
    lemma_linear_remainder_empty(p0_numerator(f), one, q, r);
}

/// An honest trace holds `a[t]` at `t`: `f - a[t]` is divisible by
/// `X - g^t`.
pub proof fn lemma_target_exact(
    a1: FieldElement,
    n: nat,
    f: Seq<FieldElement>,
    g: FieldElement,
    t: nat,
    q: Seq<FieldElement>,
    r: Seq<FieldElement>,
)
    requires
        a1.canonical(),
        g.canonical(),
        fe_of(root_of_unity(n)) == g,
        is_interpolant(f, Seq::new(n, |k: int| fib_square(fe_from_nat(1), a1, k as nat)), n),
        t < n,
        is_division(p1_numerator(f, fib_square(fe_from_nat(1), a1, t)), linear_factor(fe_pow(g, t)), q, r),
    ensures
        r.len() == 0,
{
    let target = fib_square(fe_from_nat(1), a1, t);
    lemma_fib_canonical(a1, t);
    assert(canonical_coeffs(seq![target])) by {
        assert forall|i: int| 0 <= i < 1 implies (#[trigger] seq![target][i]).canonical() by {}
    }
    crate::field::lemma_pow_canonical(g, t);
    let z = fe_pow(g, t);
    lemma_trace_value(a1, n, f, g, t);
    lemma_eval_sub(f, seq![target], z);
    lemma_eval_trim(poly_sub_spec(f, seq![target]), z);
    assert(seq![target].drop_first() =~= Seq::<FieldElement>::empty());
    lemma_zero_laws(z);
    lemma_zero_laws(target);
    assert(poly_eval(seq![target], z) == fe_add(target, fe_mul(z, poly_eval(seq![target].drop_first(), z))));
    lemma_sub_self(target);
    lemma_linear_remainder_empty(p1_numerator(f, target), z, q, r);
}

/// An honest trace follows the recurrence wherever the transition
/// constraint looks: on a radix-2 subgroup of size `n` whose generator `g`
/// has `g^(n/2) == -1`, the transition numerator is divisible by `X^n - 1`.
pub proof fn lemma_transition_exact(
    a1: FieldElement,
    n: nat,
    f: Seq<FieldElement>,
    g: FieldElement,
    t: nat,
    q: Seq<FieldElement>,
    r: Seq<FieldElement>,
)
    requires
        field_inverses(),
        a1.canonical(),
        g.canonical(),
        is_pow2(n),
        n >= 2,
        fe_pow(g, n / 2) == fe_neg(fe_one()),
        fe_of(root_of_unity(n)) == g,
        is_interpolant(f, Seq::new(n, |k: int| fib_square(fe_from_nat(1), a1, k as nat)), n),
        1 <= t < n,
        is_division(p3_numerator(f, g, t, n), vanishing_spec(n), q, r),
    ensures
        r.len() == 0,
{
    assert forall|j: nat| j < n implies #[trigger] poly_eval(p3_numerator(f, g, t, n), fe_pow(g, j)) == fe_zero() by {
        lemma_p3_vanishes(a1, n, f, g, t, j);
    }
    lemma_vanishing_remainder_empty(p3_numerator(f, g, t, n), n, g, q, r);
}

/// The transition numerator of an honest trace vanishes at every `g^j`,
/// `j < n`: below `t - 1` by the recurrence, at `t - 1` and `t` by its linear
/// factors, and above `t` by the exclusion product.
proof fn lemma_p3_vanishes(a1: FieldElement, n: nat, f: Seq<FieldElement>, g: FieldElement, t: nat, j: nat)
    requires
        a1.canonical(),
        g.canonical(),
        fe_of(root_of_unity(n)) == g,
        is_interpolant(f, Seq::new(n, |k: int| fib_square(fe_from_nat(1), a1, k as nat)), n),
        1 <= t < n,
        j < n,
    ensures
        poly_eval(p3_numerator(f, g, t, n), fe_pow(g, j)) == fe_zero(),
{
    let one = fe_from_nat(1);
    let x = fe_pow(g, j);
    crate::field::lemma_pow_canonical(g, j);
    lemma_eval_p3(f, g, t, n, x);
    let fx = poly_eval(f, x);
    let fgx = poly_eval(f, fe_mul(fe_pow(g, 1), x));
    let fg2x = poly_eval(f, fe_mul(fe_pow(g, 2), x));
    let tr = fe_sub(fe_sub(fg2x, fe_mul(fgx, fgx)), fe_mul(fx, fx));
    let a = fe_sub(x, fe_pow(g, t));
    let b = fe_sub(x, fe_pow(g, (t - 1) as nat));
    let e = exclusion_product_at(x, g, t + 1, n);
    assert(p3_numerator_at(x, fx, fgx, fg2x, g, t, n) == fe_mul(fe_mul(fe_mul(tr, a), b), e));
    if j + 2 <= t {
        crate::field::lemma_pow_add(g, 1, j);
        crate::field::lemma_pow_add(g, 2, j);
        lemma_trace_value(a1, n, f, g, j);
        lemma_trace_value(a1, n, f, g, j + 1);
        lemma_trace_value(a1, n, f, g, j + 2);
        let fa = fib_square(one, a1, j + 1);
        let fb = fib_square(one, a1, j);
        lemma_fib_canonical(a1, j + 1);
        lemma_fib_canonical(a1, j);
        assert(fib_square(one, a1, j + 2) == fe_add(fe_mul(fa, fa), fe_mul(fb, fb)));
        lemma_recurrence_residue(fa, fb);
        assert(tr == fe_zero());
        lemma_zero_laws(a);
        lemma_zero_laws(b);
        lemma_zero_laws(e);
    } else if j == t - 1 {
        lemma_sub_self(x);
        lemma_zero_laws(fe_mul(tr, a));
        lemma_zero_laws(e);
    } else if j == t {
        lemma_sub_self(x);
        lemma_zero_laws(tr);
        lemma_zero_laws(b);
        lemma_zero_laws(e);
    } else {
        lemma_exclusion_zero(g, t + 1, n, j);
        lemma_zero_laws(fe_mul(fe_mul(tr, a), b));
    }
}

} // verus!
