//! Why honest proofs pass the verifier: the prover's FRI layers, its query
//! answers and its transcript meet every check of the verifier, and the
//! values it opens satisfy the composition polynomial's identity at every
//! point of the coset.
use crate::composition::{
    composition_polynomial, divisions_hold, divisions_known, p0_numerator, p1_numerator, p3_numerator, ProverError,
};
use crate::data::{flatten, query_transcript, Opening};
use crate::evaluation::{lemma_eval_composition, lemma_eval_coset_shift};
use crate::field::{fe_from_nat, fe_inv, fe_mul, fe_neg, fe_of, fe_one, fe_pow, fe_sub, fe_zero, FieldElement};
use crate::hashing::{fr_from_hash, hash_to_index};
use crate::merkle::{leaf_hashes, merkle_root};
use crate::poly::{
    canonical_coeffs, domain_point, fft_spec, is_interpolant, is_pow2, linear_factor, max_radix2_size, next_pow2,
    poly_divmod, poly_eval, vanishing_spec, Domain,
};
use crate::prover::{
    coset_points, coset_shift, cp_evaluations, fib_square, fold_value, fri_fold, fri_layers, gen_of, has_zero_point, layer_pair,
    layer_roots_bytes, proof_from_extension, query_seed, query_view_spec, query_views, squares, two_inv, ProofView,
};
use crate::verifying::{
    consistency_check, final_values, final_values_check, fri_layer_check, layer_commitment, layers_check, opens,
    query_check, queries_check, verify_spec, VerifyError,
};
use vstd::arithmetic::power2::pow2;
use vstd::prelude::*;

verus! {

/// `a` squared `k` times over.
pub open spec fn square_times(a: FieldElement, k: nat) -> FieldElement
    decreases k,
{
    if k == 0 {
        a
    } else {
        let b = square_times(a, (k - 1) as nat);
        fe_mul(b, b)
    }
}

/// Layer `k` of a FRI run: the values it starts from for `k == 0`, else the
/// layer folded `k` times.
pub open spec fn layer_at(e0: Seq<FieldElement>, layers: Seq<Seq<FieldElement>>, k: nat) -> Seq<FieldElement> {
    if k == 0 {
        e0
    } else {
        layers[k - 1]
    }
}

/// The points of layer `k` of a FRI run that starts on `d0`: the first `len`
/// points of `d0`, each squared `k` times.
pub open spec fn domain_at(d0: Seq<FieldElement>, len: nat, k: nat) -> Seq<FieldElement> {
    Seq::new(len, |j: int| square_times(d0[j], k))
}

/// Squaring `a` and then squaring `k` times squares `a` `k + 1` times.
pub(crate) proof fn lemma_square_times_shift(a: FieldElement, k: nat)
    ensures
        square_times(fe_mul(a, a), k) == square_times(a, k + 1),
    decreases k,
{
    let b = fe_mul(a, a);
    if k == 0 {
        assert(square_times(a, 1) == fe_mul(square_times(a, 0), square_times(a, 0)));
    } else {
        lemma_square_times_shift(a, (k - 1) as nat);
        assert(square_times(b, k) == fe_mul(square_times(b, (k - 1) as nat), square_times(b, (k - 1) as nat)));
        assert(square_times(a, k + 1) == fe_mul(square_times(a, k), square_times(a, k)));
    }
}

/// Squaring `k` times raises a canonical element to the `2^k`-th power.
pub(crate) proof fn lemma_square_times_pow(a: FieldElement, k: nat)
    requires
        a.canonical(),
    ensures
        square_times(a, k) == fe_pow(a, pow2(k)),
        square_times(a, k).canonical(),
    decreases k,
{
    vstd::arithmetic::power2::lemma2_to64();
    if k == 0 {
        crate::field::lemma_pow_one(a);
    } else {
        lemma_square_times_pow(a, (k - 1) as nat);
        let p = pow2((k - 1) as nat);
        vstd::arithmetic::power2::lemma_pow2_unfold(k);
        crate::field::lemma_pow_add(a, p, p);
        assert(p + p == pow2(k));
    }
    crate::field::lemma_pow_canonical(a, pow2(k));
}

/// The layers of the prover's FRI run from `e0` on `d0`: with `L` of them,
/// `e0` holds `2^L` values and layer `k` holds `2^(L - k)`; each layer is the
/// fold of the one before it, on its points squared, with the challenge drawn
/// from `s0` followed by the roots of the layers before it; and no fold met a
/// zero point.
pub(crate) proof fn lemma_fri_layers_shape(e0: Seq<FieldElement>, d0: Seq<FieldElement>, s0: Seq<u8>)
    requires
        is_pow2(e0.len()),
        d0.len() >= e0.len(),
        fri_layers(e0, d0, s0) is Some,
    ensures
        ({
            let layers = fri_layers(e0, d0, s0)->0;
            &&& e0.len() == pow2(layers.len())
            &&& forall|k: nat| k <= layers.len() ==> #[trigger] layer_at(e0, layers, k).len() == pow2(
                (layers.len() - k) as nat,
            )
            &&& forall|k: nat| k < layers.len() ==> #[trigger] layer_step(e0, d0, s0, layers, k)
        }),
    decreases e0.len(), 1nat,
{
    vstd::arithmetic::power2::lemma2_to64();
    let layers = fri_layers(e0, d0, s0)->0;
    if e0.len() <= 1 {
        assert(layers.len() == 0);
        assert forall|k: nat| k <= layers.len() implies #[trigger] layer_at(e0, layers, k).len() == pow2(
            (layers.len() - k) as nat,
        ) by {}
    } else {
        crate::merkle::lemma_pow2_half(e0.len());
        let h = e0.len() / 2;
        let next = fri_fold(e0, fr_from_hash(s0), d0);
        let nd = squares(d0, h);
        let ns = s0 + merkle_root(leaf_hashes(next));
        lemma_fri_layers_shape(next, nd, ns);
        let rest = fri_layers(next, nd, ns)->0;
        assert(layers == seq![next] + rest);
        let lr = rest.len();
        vstd::arithmetic::power2::lemma_pow2_unfold(lr + 1);
        assert(e0.len() == pow2(layers.len()));
        assert forall|k: nat| k <= layers.len() implies #[trigger] layer_at(e0, layers, k).len() == pow2(
            (layers.len() - k) as nat,
        ) by {
            if k > 0 {
                assert(layer_at(e0, layers, k) == layer_at(next, rest, (k - 1) as nat));
            }
        }
        assert forall|k: nat| k < layers.len() implies #[trigger] layer_step(e0, d0, s0, layers, k) by {
            if k == 0 {
                lemma_first_step(e0, d0, s0);
            } else {
                lemma_later_step(e0, d0, s0, (k - 1) as nat);
            }
        }
    }
}

/// Layer `k` of `layers` is the fold of the layer before it, with the
/// challenge drawn from the transcript so far, on that layer's points, none
/// of which (in its first half) is zero.
pub open spec fn layer_step(
    e0: Seq<FieldElement>,
    d0: Seq<FieldElement>,
    s0: Seq<u8>,
    layers: Seq<Seq<FieldElement>>,
    k: nat,
) -> bool {
    let prev = layer_at(e0, layers, k);
    let dom = domain_at(d0, prev.len(), k);
    &&& layers[k as int] == fri_fold(prev, fr_from_hash(s0 + layer_roots_bytes(layers.take(k as int))), dom)
    &&& !has_zero_point(dom, prev.len() / 2)
}

proof fn lemma_first_step(e0: Seq<FieldElement>, d0: Seq<FieldElement>, s0: Seq<u8>)
    requires
        e0.len() > 1,
        d0.len() >= e0.len(),
        fri_layers(e0, d0, s0) is Some,
    ensures
        layer_step(e0, d0, s0, fri_layers(e0, d0, s0)->0, 0),
{
    let layers = fri_layers(e0, d0, s0)->0;
    let h = e0.len() / 2;
    let next = fri_fold(e0, fr_from_hash(s0), d0);
    let dom = domain_at(d0, e0.len(), 0);
    assert(layers[0] == next);
    assert(layer_at(e0, layers, 0) == e0);
    assert(s0 + layer_roots_bytes(layers.take(0)) =~= s0);
    assert(next =~= fri_fold(e0, fr_from_hash(s0), dom));
    if has_zero_point(dom, h) {
        let j = choose|j: int| 0 <= j < h && dom[j] == fe_zero();
        assert(has_zero_point(d0, h));
    }
}

proof fn lemma_later_step(e0: Seq<FieldElement>, d0: Seq<FieldElement>, s0: Seq<u8>, k1: nat)
    requires
        is_pow2(e0.len()),
        e0.len() > 1,
        d0.len() >= e0.len(),
        fri_layers(e0, d0, s0) is Some,
        k1 + 1 < (fri_layers(e0, d0, s0)->0).len(),
    ensures
        layer_step(e0, d0, s0, fri_layers(e0, d0, s0)->0, k1 + 1),
    decreases e0.len(), 0nat,
{
    let layers = fri_layers(e0, d0, s0)->0;
    crate::merkle::lemma_pow2_half(e0.len());
    let h = e0.len() / 2;
    let next = fri_fold(e0, fr_from_hash(s0), d0);
    let nd = squares(d0, h);
    let ns = s0 + merkle_root(leaf_hashes(next));
    lemma_fri_layers_shape(next, nd, ns);
    let rest = fri_layers(next, nd, ns)->0;
    assert(layers == seq![next] + rest);
    assert(layer_step(next, nd, ns, rest, k1));
    let k = k1 + 1;
    let prev = layer_at(e0, layers, k);
    assert(prev == layer_at(next, rest, k1));
    let len = prev.len();
    assert(len <= next.len()) by {
        if k1 > 0 {
            vstd::arithmetic::power2::lemma_pow2_strictly_increases((rest.len() - k1) as nat, rest.len());
        }
    }
    lemma_roots_prefix(next, rest, k1);
    assert(layers.take(k as int) == seq![next] + rest.take(k1 as int));
    assert(s0 + layer_roots_bytes(layers.take(k as int)) =~= ns + layer_roots_bytes(rest.take(k1 as int)));
    assert forall|j: int| 0 <= j < len implies #[trigger] domain_at(nd, len, k1)[j] == domain_at(d0, len, k)[j] by {
        lemma_square_times_shift(d0[j], k1);
    }
    assert(domain_at(nd, len, k1) =~= domain_at(d0, len, k));
}

/// The roots of a run of layers that starts with `first`.
proof fn lemma_roots_prefix(first: Seq<FieldElement>, rest: Seq<Seq<FieldElement>>, k: nat)
    requires
        k <= rest.len(),
    ensures
        layer_roots_bytes((seq![first] + rest).take((k + 1) as int)) == merkle_root(leaf_hashes(first))
            + layer_roots_bytes(rest.take(k as int)),
    decreases k,
{
    let all = seq![first] + rest;
    if k == 0 {
        assert(all.take(1).drop_last() =~= Seq::<Seq<FieldElement>>::empty());
        assert(rest.take(0) =~= Seq::<Seq<FieldElement>>::empty());
        assert(merkle_root(leaf_hashes(first)) + Seq::<u8>::empty() =~= merkle_root(leaf_hashes(first)));
        assert(Seq::<u8>::empty() + merkle_root(leaf_hashes(first)) =~= merkle_root(leaf_hashes(first)));
    } else {
        lemma_roots_prefix(first, rest, (k - 1) as nat);
        assert(all.take((k + 1) as int).drop_last() =~= all.take(k as int));
        assert(rest.take(k as int).drop_last() =~= rest.take(k - 1));
        assert(all.take((k + 1) as int).last() == rest[k - 1]);
        assert(rest.take(k as int).last() == rest[k - 1]);
    }
}

/// The inverse of 5 in the field, `(2p + 1) / 5`.
pub open spec fn five_inverse() -> FieldElement {
    fe_of(8755297148735710088898562298102910035419345760166413737479281674630323398247nat)
}

/// 5 times its inverse is 1.
pub(crate) proof fn lemma_five_inverse()
    ensures
        fe_mul(fe_from_nat(5), five_inverse()) == fe_one(),
        five_inverse().canonical(),
        fe_from_nat(5).canonical(),
{
    let w = 8755297148735710088898562298102910035419345760166413737479281674630323398247nat;
    crate::field::lemma_fe_of_canonical(w);
    crate::field::lemma_small_nonzero(5);
    crate::field::lemma_fe_of_canonical(5);
    crate::field::lemma_fe_of_canonical(1);
    let m = crate::field::modulus();
    assert(5 * w == 2 * m + 1);
    vstd::arithmetic::div_mod::lemma_fundamental_div_mod_converse((5 * w) as int, m as int, 2, 1);
    assert(fe_from_nat(5).val() == 5);
}

/// `(a * b) * (c * d) == (a * c) * (b * d)`.
proof fn lemma_mul_regroup(a: FieldElement, b: FieldElement, c: FieldElement, d: FieldElement)
    ensures
        fe_mul(fe_mul(a, b), fe_mul(c, d)) == fe_mul(fe_mul(a, c), fe_mul(b, d)),
{
    crate::field::lemma_mul_assoc(a, b, fe_mul(c, d));
    crate::field::lemma_mul_assoc(b, c, d);
    crate::field::lemma_mul_commutes(b, c);
    crate::field::lemma_mul_assoc(c, b, d);
    crate::field::lemma_mul_assoc(a, c, fe_mul(b, d));
}

/// Point `j` of the coset `5 * H`, where `H` is generated by `g`.
pub open spec fn coset_point(g: FieldElement, j: nat) -> FieldElement {
    fe_mul(fe_pow(g, j), fe_from_nat(5))
}

/// Squaring point `j` of the coset `k` times gives `g^(j * 2^k) * 5^(2^k)`.
proof fn lemma_coset_power(g: FieldElement, j: nat, k: nat)
    ensures
        square_times(coset_point(g, j), k) == fe_mul(fe_pow(g, j * pow2(k)), fe_pow(fe_from_nat(5), pow2(k))),
        square_times(coset_point(g, j), k).canonical(),
{
    crate::field::lemma_op_vals(fe_pow(g, j), fe_from_nat(5));
    lemma_square_times_pow(coset_point(g, j), k);
    crate::field::lemma_pow_mul(fe_pow(g, j), fe_from_nat(5), pow2(k));
    crate::field::lemma_pow_pow(g, j, pow2(k));
}

/// Squared `k` times, the query point `5 * g^q` and the coset point at
/// `q mod (N / 2^k)` agree, `g` having order dividing `N = 2^L`.
pub(crate) proof fn lemma_query_point_squares(g: FieldElement, big_l: nat, q: nat, k: nat)
    requires
        g.canonical(),
        fe_pow(g, pow2(big_l)) == fe_one(),
        k <= big_l,
    ensures
        square_times(coset_point(g, q % pow2((big_l - k) as nat)), k) == square_times(
            fe_mul(fe_from_nat(5), fe_pow(g, q)),
            k,
        ),
{
    let m = pow2((big_l - k) as nat);
    let n = pow2(big_l);
    let pk = pow2(k);
    let j = q % m;
    let c = q / m;
    let five = fe_from_nat(5);
    vstd::arithmetic::power2::lemma_pow2_pos((big_l - k) as nat);
    vstd::arithmetic::power2::lemma_pow2_adds((big_l - k) as nat, k);
    assert(m * pk == n);
    vstd::arithmetic::div_mod::lemma_fundamental_div_mod(q as int, m as int);
    assert(q * pk == j * pk + c * n) by (nonlinear_arith)
        requires q == m * c + j, m * pk == n;
    lemma_coset_power(g, j, k);
    let x0 = fe_mul(five, fe_pow(g, q));
    crate::field::lemma_op_vals(five, fe_pow(g, q));
    crate::field::lemma_pow_canonical(g, q);
    lemma_square_times_pow(x0, k);
    crate::field::lemma_pow_mul(five, fe_pow(g, q), pk);
    crate::field::lemma_pow_pow(g, q, pk);
    // g^(q * 2^k) == g^(j * 2^k)
    crate::field::lemma_pow_add(g, j * pk, c * n);
    crate::field::lemma_pow_pow(g, n, c);
    assert(n * c == c * n) by (nonlinear_arith);
    crate::field::lemma_pow_of_one(c);
    crate::field::lemma_pow_canonical(g, j * pk);
    crate::field::lemma_mul_one(fe_pow(g, j * pk));
    crate::field::lemma_mul_commutes(fe_pow(five, pk), fe_pow(g, j * pk));
}

/// Squared `k` times, the coset points `j'` and `j' + M/2` (where
/// `M = N / 2^k`) are opposite, and the first has an inverse.
pub(crate) proof fn lemma_opposite_points(g: FieldElement, big_l: nat, j: nat, k: nat)
    requires
        g.canonical(),
        fe_pow(g, pow2(big_l)) == fe_one(),
        fe_pow(g, pow2(big_l) / 2) == fe_neg(fe_one()),
        k < big_l,
        j < pow2((big_l - k) as nat) / 2,
    ensures
        square_times(coset_point(g, j + pow2((big_l - k) as nat) / 2), k) == fe_neg(
            square_times(coset_point(g, j), k),
        ),
        has_inverse(square_times(coset_point(g, j), k)),
{
    let m = pow2((big_l - k) as nat);
    let n = pow2(big_l);
    let pk = pow2(k);
    let five = fe_from_nat(5);
    let h = m / 2;
    vstd::arithmetic::power2::lemma_pow2_unfold((big_l - k) as nat);
    vstd::arithmetic::power2::lemma_pow2_unfold(big_l);
    vstd::arithmetic::power2::lemma_pow2_adds((big_l - k - 1) as nat, k);
    assert(h == pow2((big_l - k - 1) as nat));
    assert(h * pk == n / 2);
    assert((j + h) * pk == j * pk + n / 2) by (nonlinear_arith)
        requires h * pk == n / 2;
    lemma_coset_power(g, j + h, k);
    lemma_coset_power(g, j, k);
    let a = fe_pow(g, j * pk);
    let b = fe_pow(five, pk);
    crate::field::lemma_pow_add(g, j * pk, n / 2);
    crate::field::lemma_pow_canonical(g, j * pk);
    crate::field::lemma_mul_neg(a, fe_one());
    crate::field::lemma_mul_one(a);
    crate::field::lemma_mul_neg(a, b);
    // the inverse
    assert(j < n) by {
        vstd::arithmetic::power2::lemma_pow2_pos(k);
        vstd::arithmetic::power2::lemma_pow2_adds((big_l - k) as nat, k);
        assert(m <= n) by (nonlinear_arith) requires m * pk == n, pk >= 1;
    }
    lemma_coset_point_inverse(g, big_l, j, k);
}

/// `a` has a multiplicative inverse.
pub open spec fn has_inverse(a: FieldElement) -> bool {
    exists|w: FieldElement| w.val() < crate::field::modulus() && fe_mul(a, w) == fe_one()
}

pub(crate) proof fn lemma_coset_point_inverse(g: FieldElement, big_l: nat, j: nat, k: nat)
    requires
        g.canonical(),
        fe_pow(g, pow2(big_l)) == fe_one(),
        j < pow2(big_l),
    ensures
        has_inverse(square_times(coset_point(g, j), k)),
{
    let n = pow2(big_l);
    let five = fe_from_nat(5);
    let p = coset_point(g, j);
    let w0 = fe_mul(fe_pow(g, (n - j) as nat), five_inverse());
    lemma_five_inverse();
    lemma_mul_regroup(fe_pow(g, j), five, fe_pow(g, (n - j) as nat), five_inverse());
    crate::field::lemma_pow_add(g, j, (n - j) as nat);
    crate::field::lemma_fe_of_canonical(1);
    crate::field::lemma_mul_one(fe_one());
    assert(fe_mul(p, w0) == fe_one());
    crate::field::lemma_op_vals(fe_pow(g, j), five);
    crate::field::lemma_op_vals(fe_pow(g, (n - j) as nat), five_inverse());
    lemma_square_times_pow(p, k);
    lemma_square_times_pow(w0, k);
    crate::field::lemma_pow_mul(p, w0, pow2(k));
    crate::field::lemma_pow_of_one(pow2(k));
    let w = square_times(w0, k);
    assert(fe_mul(square_times(p, k), w) == fe_one());
    crate::field::lemma_canonical_val(w);
}

/// Folding the values `(a, b)` at `-y` gives what folding `(b, a)` at `y`
/// gives, for `y` with an inverse.
pub(crate) proof fn lemma_fold_at_opposite(a: FieldElement, b: FieldElement, beta: FieldElement, y: FieldElement)
    requires
        has_inverse(y),
    ensures
        fold_value(a, b, beta, fe_neg(y)) == fold_value(b, a, beta, y),
        has_inverse(fe_neg(y)),
{
    let w = fe_inv(y);
    let ny = fe_neg(y);
    let nw = fe_neg(w);
    crate::field::lemma_mul_neg(y, w);
    crate::field::lemma_op_vals(w, w);
    crate::field::lemma_canonical_val(nw);
    assert(fe_mul(ny, nw) == fe_one());
    assert(has_inverse(ny));
    let w2 = fe_inv(ny);
    crate::field::lemma_canonical_val(w2);
    crate::field::lemma_mul_one(nw);
    crate::field::lemma_mul_one(w2);
    crate::field::lemma_mul_assoc(nw, ny, w2);
    crate::field::lemma_mul_commutes(nw, ny);
    assert(w2 == nw);
    let i2 = two_inv();
    crate::field::lemma_add_commutes(a, b);
    crate::field::lemma_sub_antisymmetric(a, b);
    crate::field::lemma_mul_neg(fe_sub(b, a), i2);
    crate::field::lemma_mul_neg(fe_mul(fe_sub(b, a), i2), w);
}

/// `2^k` is a power of two.
pub(crate) proof fn lemma_pow2_is_pow2(k: nat)
    ensures
        is_pow2(pow2(k)),
    decreases k,
{
    vstd::arithmetic::power2::lemma2_to64();
    if k > 0 {
        lemma_pow2_is_pow2((k - 1) as nat);
        vstd::arithmetic::power2::lemma_pow2_unfold(k);
        vstd::arithmetic::power2::lemma_pow2_pos((k - 1) as nat);
    }
}

/// The coset `5 * H` of the subgroup `H` of size `n` generated by `g`.
pub open spec fn five_coset(g: FieldElement, n: nat) -> Seq<FieldElement> {
    Seq::new(n, |j: int| coset_point(g, j as nat))
}

/// The layer pairs of the honest answer to query `q`: the composition
/// polynomial's values `e0` at `q`, then every FRI layer at `q` reduced to it.
pub open spec fn honest_pairs(e0: Seq<FieldElement>, layers: Seq<Seq<FieldElement>>, q: nat) -> Seq<(Opening, Opening)> {
    seq![layer_pair(e0, q)] + Seq::new(layers.len(), |k: int| layer_pair(layers[k], q % layers[k].len()))
}

/// The roots of the layers' Merkle trees.
pub open spec fn layer_roots(layers: Seq<Seq<FieldElement>>) -> Seq<Seq<u8>> {
    layers.map_values(|l: Seq<FieldElement>| merkle_root(leaf_hashes(l)))
}

/// The verifier's query point at step `i` of its layer loop.
pub open spec fn point_at(x0: FieldElement, i: nat) -> FieldElement {
    if i == 0 {
        x0
    } else {
        square_times(x0, (i - 1) as nat)
    }
}

/// The verifier's transcript at step `i` of its layer loop.
pub open spec fn seed_at(s0: Seq<u8>, layers: Seq<Seq<FieldElement>>, i: nat) -> Seq<u8> {
    if i == 0 {
        s0
    } else {
        s0 + layer_roots_bytes(layers.take(i - 1))
    }
}

/// The facts about the subgroup of size `2^L` and its generator `g` that the
/// layer checks rest on.
pub open spec fn subgroup_facts(g: FieldElement, big_l: nat) -> bool {
    &&& 1 <= big_l <= 28
    &&& g.canonical()
    &&& fe_pow(g, pow2(big_l)) == fe_one()
    &&& fe_pow(g, pow2(big_l) / 2) == fe_neg(fe_one())
}

/// The prover's FRI run from `e0` on the coset `5 * H` went through.
pub open spec fn honest_run(e0: Seq<FieldElement>, g: FieldElement, s0: Seq<u8>, big_l: nat) -> bool {
    &&& subgroup_facts(g, big_l)
    &&& e0.len() == pow2(big_l)
    &&& fri_layers(e0, five_coset(g, pow2(big_l)), s0) is Some
}

proof fn lemma_honest_run_shape(e0: Seq<FieldElement>, g: FieldElement, s0: Seq<u8>, big_l: nat)
    requires
        honest_run(e0, g, s0, big_l),
    ensures
        ({
            let d0 = five_coset(g, pow2(big_l));
            let layers = fri_layers(e0, d0, s0)->0;
            &&& layers.len() == big_l
            &&& forall|k: nat| k <= big_l ==> #[trigger] layer_at(e0, layers, k).len() == pow2((big_l - k) as nat)
            &&& forall|k: nat| k < big_l ==> #[trigger] layer_step(e0, d0, s0, layers, k)
        }),
{
    let d0 = five_coset(g, pow2(big_l));
    lemma_pow2_is_pow2(big_l);
    lemma_fri_layers_shape(e0, d0, s0);
    let layers = fri_layers(e0, d0, s0)->0;
    if layers.len() < big_l {
        vstd::arithmetic::power2::lemma_pow2_strictly_increases(layers.len(), big_l);
    } else if layers.len() > big_l {
        vstd::arithmetic::power2::lemma_pow2_strictly_increases(big_l, layers.len());
    }
}

/// The negation of a nonzero canonical element is nonzero.
proof fn lemma_neg_nonzero(y: FieldElement)
    requires
        y.canonical(),
        y != fe_zero(),
    ensures
        fe_neg(y) != fe_zero(),
{
    crate::field::lemma_neg_neg(y);
    crate::field::lemma_fe_of_canonical(0);
    crate::field::lemma_op_vals(fe_zero(), fe_zero());
    crate::field::lemma_eq_by_val(fe_neg(fe_zero()), fe_zero());
}

/// The fold the verifier checks at step `i >= 1` of its layer loop passes.
proof fn lemma_fold_step(e0: Seq<FieldElement>, g: FieldElement, s0: Seq<u8>, big_l: nat, q: nat, i: nat)
    requires
        honest_run(e0, g, s0, big_l),
        q < pow2(big_l),
        1 <= i <= big_l,
    ensures
        ({
            let layers = fri_layers(e0, five_coset(g, pow2(big_l)), s0)->0;
            let pairs = honest_pairs(e0, layers, q);
            fri_layer_check(
                pairs[i - 1].0.0,
                pairs[i - 1].1.0,
                pairs[i as int].0.0,
                fr_from_hash(seed_at(s0, layers, i)),
                point_at(fe_mul(fe_from_nat(5), fe_pow(g, q)), i),
            ) == Ok::<(), VerifyError>(())
        }),
{
    let d0 = five_coset(g, pow2(big_l));
    lemma_honest_run_shape(e0, g, s0, big_l);
    let layers = fri_layers(e0, d0, s0)->0;
    let pairs = honest_pairs(e0, layers, q);
    let k = (i - 1) as nat;
    let e = layer_at(e0, layers, k);
    let m = e.len();
    assert(m == pow2((big_l - k) as nat));
    assert(layer_step(e0, d0, s0, layers, k));
    let dom = domain_at(d0, m, k);
    let beta = fr_from_hash(s0 + layer_roots_bytes(layers.take(k as int)));
    assert(seed_at(s0, layers, i) == s0 + layer_roots_bytes(layers.take(k as int)));
    vstd::arithmetic::power2::lemma_pow2_unfold((big_l - k) as nat);
    vstd::arithmetic::power2::lemma_pow2_pos((big_l - k - 1) as nat);
    let h = m / 2;
    assert(layer_at(e0, layers, i).len() == pow2((big_l - i) as nat));
    assert(h == pow2((big_l - i) as nat));
    vstd::arithmetic::power2::lemma_pow2_pos(big_l);
    let j = q % m;
    vstd::arithmetic::div_mod::lemma_mod_bound(q as int, m as int);
    vstd::arithmetic::div_mod::lemma_mod_mod(q as int, h as int, 2);
    assert(q % h == j % h);
    // the pairs the verifier reads
    if k == 0 {
        vstd::arithmetic::div_mod::lemma_small_mod(q, m);
        assert(pairs[0] == layer_pair(e0, q));
    } else {
        assert(pairs[k as int] == layer_pair(layers[k - 1], q % layers[k - 1].len()));
    }
    assert(pairs[k as int] == layer_pair(e, j));
    assert(pairs[i as int] == layer_pair(layers[k as int], q % layers[k as int].len()));
    assert(layers[k as int] == fri_fold(e, beta, dom));
    let x = point_at(fe_mul(fe_from_nat(5), fe_pow(g, q)), i);
    lemma_query_point_squares(g, big_l, q, k);
    assert(x == square_times(coset_point(g, j), k));
    assert(j < pow2(big_l)) by {
        vstd::arithmetic::power2::lemma_pow2_adds((big_l - k) as nat, k);
        vstd::arithmetic::power2::lemma_pow2_pos(k);
        assert(m <= pow2(big_l)) by (nonlinear_arith)
            requires m * pow2(k) == pow2(big_l), pow2(k) >= 1;
    }
    if j < h {
        vstd::arithmetic::div_mod::lemma_small_mod(j, h);
        vstd::arithmetic::div_mod::lemma_small_mod(h + j, m);
        assert(dom[j as int] == x);
        assert(x != fe_zero());
    } else {
        let j2 = (j - h) as nat;
        vstd::arithmetic::div_mod::lemma_fundamental_div_mod_converse(j as int, h as int, 1, j2 as int);
        vstd::arithmetic::div_mod::lemma_fundamental_div_mod_converse((h + j) as int, m as int, 1, j2 as int);
        lemma_opposite_points(g, big_l, j2, k);
        let y = dom[j2 as int];
        assert(y == square_times(coset_point(g, j2), k));
        assert(x == fe_neg(y));
        lemma_fold_at_opposite(e[j as int], e[j2 as int], beta, y);
        lemma_coset_power(g, j2, k);
        assert(y != fe_zero());
        lemma_neg_nonzero(y);
    }
}

/// The openings the verifier checks at step `i < L` of its layer loop hash up
/// to the layer's commitment.
proof fn lemma_openings_step(e0: Seq<FieldElement>, g: FieldElement, s0: Seq<u8>, big_l: nat, q: nat, i: nat)
    requires
        honest_run(e0, g, s0, big_l),
        q < pow2(big_l),
        i < big_l,
    ensures
        ({
            let layers = fri_layers(e0, five_coset(g, pow2(big_l)), s0)->0;
            let pairs = honest_pairs(e0, layers, q);
            let size = pow2((big_l - i) as nat);
            let c = layer_commitment(i, merkle_root(leaf_hashes(e0)), layer_roots(layers));
            let idx = q % size;
            &&& opens(pairs[i as int].0, c, idx)
            &&& opens(pairs[i as int].1, c, (size / 2 + idx) % size)
        }),
{
    let d0 = five_coset(g, pow2(big_l));
    lemma_honest_run_shape(e0, g, s0, big_l);
    let layers = fri_layers(e0, d0, s0)->0;
    let pairs = honest_pairs(e0, layers, q);
    let size = pow2((big_l - i) as nat);
    let e = layer_at(e0, layers, i);
    assert(e.len() == size);
    let idx = q % size;
    vstd::arithmetic::power2::lemma_pow2_pos((big_l - i) as nat);
    vstd::arithmetic::div_mod::lemma_mod_bound(q as int, size as int);
    vstd::arithmetic::div_mod::lemma_mod_bound((size / 2 + idx) as int, size as int);
    if i == 0 {
        vstd::arithmetic::div_mod::lemma_small_mod(q, size);
        assert(pairs[0] == layer_pair(e0, q));
    } else {
        assert(pairs[i as int] == layer_pair(layers[i - 1], q % layers[i - 1].len()));
        assert(layer_roots(layers)[i - 1] == merkle_root(leaf_hashes(layers[i - 1])));
    }
    assert(pairs[i as int] == layer_pair(e, idx));
    assert(layer_commitment(i, merkle_root(leaf_hashes(e0)), layer_roots(layers)) == merkle_root(leaf_hashes(e)));
    lemma_pow2_is_pow2((big_l - i) as nat);
    crate::verifying::lemma_honest_opening_verifies(e, idx);
    crate::verifying::lemma_honest_opening_verifies(e, (size / 2 + idx) % size);
}

/// Every step of the verifier's layer loop, from step `i` on, accepts the
/// honest answer to query `q`.
#[verifier::rlimit(40)]
pub(crate) proof fn lemma_layers_accepted(e0: Seq<FieldElement>, g: FieldElement, s0: Seq<u8>, big_l: nat, q: nat, i: nat)
    requires
        honest_run(e0, g, s0, big_l),
        q < pow2(big_l),
        i <= big_l,
    ensures
        ({
            let layers = fri_layers(e0, five_coset(g, pow2(big_l)), s0)->0;
            layers_check(
                honest_pairs(e0, layers, q),
                i,
                pow2(big_l) as usize,
                q % pow2((big_l - i) as nat),
                point_at(fe_mul(fe_from_nat(5), fe_pow(g, q)), i),
                seed_at(s0, layers, i),
                merkle_root(leaf_hashes(e0)),
                layer_roots(layers),
            ) == Ok::<(), VerifyError>(())
        }),
    decreases big_l - i,
{
    let d0 = five_coset(g, pow2(big_l));
    lemma_honest_run_shape(e0, g, s0, big_l);
    let layers = fri_layers(e0, d0, s0)->0;
    let pairs = honest_pairs(e0, layers, q);
    let n = pow2(big_l);
    let x0 = fe_mul(fe_from_nat(5), fe_pow(g, q));
    let fri = layer_roots(layers);
    let cpr = merkle_root(leaf_hashes(e0));
    vstd::arithmetic::power2::lemma2_to64();
    vstd::arithmetic::power2::lemma_pow2_strictly_increases(big_l, 29);
    assert(n <= 0x1000_0000);
    let ds = n as usize;
    assert(ds as nat == n);
    assert(pairs.len() == big_l + 1);
    assert(i < usize::BITS);
    vstd::bits::lemma_usize_shr_is_div(ds, i as usize);
    vstd::arithmetic::power2::lemma_pow2_subtracts(i, big_l);
    let size = pow2((big_l - i) as nat);
    assert((ds >> (i as usize)) as nat == size);
    if i < big_l {
        lemma_openings_step(e0, g, s0, big_l, q, i);
        vstd::bits::lemma_usize_shr_is_div(ds, (i + 1) as usize);
        vstd::arithmetic::power2::lemma_pow2_subtracts(i + 1, big_l);
        let next = pow2((big_l - i - 1) as nat);
        assert((ds >> ((i + 1) as usize)) as nat == next);
        vstd::arithmetic::power2::lemma_pow2_pos((big_l - i - 1) as nat);
        vstd::arithmetic::power2::lemma_pow2_unfold((big_l - i) as nat);
        vstd::arithmetic::div_mod::lemma_mod_mod(q as int, next as int, 2);
        assert(q % size % next == q % next);
        lemma_layers_accepted(e0, g, s0, big_l, q, i + 1);
        if i == 0 {
            assert(seed_at(s0, layers, 1) =~= s0);
            assert(point_at(x0, 1) == x0);
        } else {
            assert(layers.take(i as int).drop_last() =~= layers.take(i - 1));
            assert(fri[i - 1] == merkle_root(leaf_hashes(layers[i - 1])));
            assert(seed_at(s0, layers, i + 1) =~= seed_at(s0, layers, i) + fri[i - 1]);
            assert(point_at(x0, i + 1) == fe_mul(point_at(x0, i), point_at(x0, i)));
        }
    }
    if i >= 1 {
        lemma_fold_step(e0, g, s0, big_l, q, i);
    }
}

/// A power of two is its own next power of two.
pub(crate) proof fn lemma_next_pow2_of_pow2(n: nat)
    requires
        is_pow2(n),
    ensures
        next_pow2(n) == n,
{
    crate::poly::lemma_next_pow2(n);
    crate::poly::lemma_next_pow2_le(n, n);
}

/// The honest proof's setting: the extended trace `ext` and the composition
/// polynomial's values `e0` on the `2^L` points of the coset, a trace domain
/// of `size` points extended `blowup_factor` times, a positive target index,
/// the FRI run from `e0` seeded with the two roots, and consistency checks
/// that pass at every point.
pub open spec fn honest_setting(
    ext: Seq<FieldElement>,
    e0: Seq<FieldElement>,
    big_l: nat,
    size: nat,
    blowup_factor: nat,
    target: FieldElement,
    t: nat,
) -> bool {
    &&& honest_run(e0, gen_of(pow2(big_l)), merkle_root(leaf_hashes(ext)) + merkle_root(leaf_hashes(e0)), big_l)
    &&& ext.len() == pow2(big_l)
    &&& size * blowup_factor == pow2(big_l)
    &&& size >= 2
    &&& t >= 1
    &&& forall|q: nat|
        q < pow2(big_l) ==> (#[trigger] consistency_at(ext, e0, size, blowup_factor, target, t, q)) is Ok
}

/// The FRI layers of the honest proof's setting.
pub open spec fn setting_layers(ext: Seq<FieldElement>, e0: Seq<FieldElement>, big_l: nat) -> Seq<Seq<FieldElement>> {
    fri_layers(
        e0,
        five_coset(gen_of(pow2(big_l)), pow2(big_l)),
        merkle_root(leaf_hashes(ext)) + merkle_root(leaf_hashes(e0)),
    )->0
}

/// The verifier's check of the honest answer to any query accepts it.
pub(crate) proof fn lemma_query_accepted(
    ext: Seq<FieldElement>,
    e0: Seq<FieldElement>,
    big_l: nat,
    size: nat,
    blowup_factor: nat,
    target: FieldElement,
    t: nat,
    q: nat,
)
    requires
        honest_setting(ext, e0, big_l, size, blowup_factor, target, t),
        q < pow2(big_l),
    ensures
        (query_check(
                q,
                merkle_root(leaf_hashes(ext)),
                merkle_root(leaf_hashes(e0)),
                layer_roots(setting_layers(ext, e0, big_l)),
                query_view_spec(q, blowup_factor, ext, e0, setting_layers(ext, e0, big_l)),
                size,
                blowup_factor,
                target,
                t,
            )) is Ok,
{
    reveal(query_check);
    let n = pow2(big_l);
    let g = gen_of(n);
    let s0 = merkle_root(leaf_hashes(ext)) + merkle_root(leaf_hashes(e0));
    let layers = setting_layers(ext, e0, big_l);
    lemma_honest_run_shape(e0, g, s0, big_l);
    let proof = query_view_spec(q, blowup_factor, ext, e0, layers);
    let ext_root = merkle_root(leaf_hashes(ext));
    let fri = layer_roots(layers);
    lemma_pow2_is_pow2(big_l);
    lemma_next_pow2_of_pow2(n);
    vstd::arithmetic::power2::lemma2_to64();
    vstd::arithmetic::power2::lemma_pow2_strictly_increases(big_l, 29);
    assert(n <= max_radix2_size());
    assert(blowup_factor >= 1 && size <= n) by (nonlinear_arith)
        requires size * blowup_factor == n, n >= 1, size >= 2;
    crate::verifying::lemma_honest_opening_verifies(ext, q);
    let gq = (q + blowup_factor) % n;
    let ggq = (gq + blowup_factor) % n;
    vstd::arithmetic::div_mod::lemma_mod_bound((q + blowup_factor) as int, n as int);
    vstd::arithmetic::div_mod::lemma_mod_bound((gq + blowup_factor) as int, n as int);
    crate::verifying::lemma_honest_opening_verifies(ext, gq);
    crate::verifying::lemma_honest_opening_verifies(ext, ggq);
    assert(proof.3 == honest_pairs(e0, layers, q));
    crate::poly::lemma_next_pow2(size);
    let x = fe_mul(fe_from_nat(5), fe_pow(g, q));
    let c = consistency_check(x, proof.0.0, proof.1.0, proof.2.0, proof.3[0].0.0, size, target, t);
    assert(c == consistency_at(ext, e0, size, blowup_factor, target, t, q));
    assert((c) is Ok);
    lemma_layers_accepted(e0, g, s0, big_l, q, 0);
    vstd::arithmetic::div_mod::lemma_small_mod(q, n);
    // the last layer holds one value
    let last = layers[big_l - 1];
    assert(layer_at(e0, layers, big_l) == last);
    assert(last.len() == 1);
    assert(proof.3.last() == layer_pair(last, q % 1));
    assert(last =~= seq![last[0]]);
    crate::verifying::lemma_final_layer_accepted(last[0]);
    assert(fri.last() == merkle_root(leaf_hashes(last)));
}

/// `hash_to_index` draws an index below its (positive) modulus.
proof fn lemma_hash_to_index_bound(hash: Seq<u8>, m: nat)
    requires
        m > 0,
    ensures
        hash_to_index(hash, m) < m,
{
    if hash.len() > 0 {
        vstd::arithmetic::div_mod::lemma_mod_bound(
            ((hash_to_index(hash.drop_last(), m) * 256 + hash.last() as nat) % crate::hashing::usize_range()) as int,
            m as int,
        );
    }
}

/// The verifier's checks of the honest answers to `count` queries, drawn from
/// `seed` on, accept them.
pub(crate) proof fn lemma_queries_accepted(
    ext: Seq<FieldElement>,
    e0: Seq<FieldElement>,
    big_l: nat,
    size: nat,
    blowup_factor: nat,
    target: FieldElement,
    t: nat,
    seed: Seq<u8>,
    count: nat,
)
    requires
        honest_setting(ext, e0, big_l, size, blowup_factor, target, t),
    ensures
        (queries_check(
                query_views(seed, count, blowup_factor, ext, e0, setting_layers(ext, e0, big_l)),
                seed,
                merkle_root(leaf_hashes(ext)),
                merkle_root(leaf_hashes(e0)),
                layer_roots(setting_layers(ext, e0, big_l)),
                size,
                blowup_factor,
                target,
                t,
            )) is Ok,
    decreases count,
{
    let layers = setting_layers(ext, e0, big_l);
    let views = query_views(seed, count, blowup_factor, ext, e0, layers);
    if count > 0 {
        let n = pow2(big_l);
        vstd::arithmetic::power2::lemma2_to64();
        vstd::arithmetic::power2::lemma_pow2_strictly_increases(big_l, 29);
        vstd::arithmetic::power2::lemma_pow2_pos(big_l);
        let q = hash_to_index(seed, ext.len());
        lemma_hash_to_index_bound(seed, ext.len());
        let qv = query_view_spec(q, blowup_factor, ext, e0, layers);
        let next_seed = seed + query_transcript(qv);
        assert(views == seq![qv] + query_views(next_seed, (count - 1) as nat, blowup_factor, ext, e0, layers));
        assert(views[0] == qv);
        assert(views.drop_first() =~= query_views(next_seed, (count - 1) as nat, blowup_factor, ext, e0, layers));
        lemma_query_accepted(ext, e0, big_l, size, blowup_factor, target, t, q);
        lemma_queries_accepted(ext, e0, big_l, size, blowup_factor, target, t, next_seed, (count - 1) as nat);
    }
}

/// The consistency checks of an honest proof pass at every query point.
proof fn lemma_consistency_everywhere(
    f: Seq<FieldElement>,
    cp: Seq<FieldElement>,
    size: nat,
    blowup_factor: nat,
    target: FieldElement,
    t: nat,
)
    requires
        composition_polynomial(f, gen_of(size), size, target, t, size) == Ok::<Seq<FieldElement>, ProverError>(cp),
        divisions_hold(f, gen_of(size), size, target, t, size),
        canonical_coeffs(f),
        f.len() <= size,
        target.canonical(),
        is_pow2(size),
        2 <= size <= max_radix2_size(),
        1 <= t < size,
        blowup_factor >= 2,
        gen_of(size * blowup_factor).canonical(),
        fe_pow(gen_of(size * blowup_factor), size * blowup_factor) == fe_one(),
        gen_of(size) == fe_pow(gen_of(size * blowup_factor), blowup_factor),
        is_pow2(size * blowup_factor),
        generates_group(fe_from_nat(5)),
    ensures
        forall|q: nat|
            q < size * blowup_factor ==> (#[trigger] consistency_at(
                    fft_spec(coset_shift(f, fe_from_nat(5)), size * blowup_factor),
                    fft_spec(coset_shift(cp, fe_from_nat(5)), size * blowup_factor),
                    size,
                    blowup_factor,
                    target,
                    t,
                    q,
                )) is Ok,
{
    assert forall|q: nat| q < size * blowup_factor implies (#[trigger] consistency_at(
            fft_spec(coset_shift(f, fe_from_nat(5)), size * blowup_factor),
            fft_spec(coset_shift(cp, fe_from_nat(5)), size * blowup_factor),
            size,
            blowup_factor,
            target,
            t,
            q,
        )) is Ok by {
        lemma_consistency_passes(f, cp, size, blowup_factor, target, t, q);
    }
}

/// The shape of the proof the prover builds from the trace polynomial `f`
/// and its extension `ext`: the roots of `ext`, of the composition
/// polynomial's values and of the FRI layers, and the answers to the queries.
#[verifier::rlimit(60)]
proof fn lemma_honest_proof_shape(
    f: Seq<FieldElement>,
    dsize: nat,
    ext: Seq<FieldElement>,
    big_l: nat,
    target: FieldElement,
    t: nat,
    n: nat,
    blowup_factor: nat,
    num_queries: nat,
    pv: ProofView,
)
    requires
        proof_from_extension(f, dsize, ext, pow2(big_l), fe_from_nat(5), target, t, n, blowup_factor, num_queries)
            == Ok::<ProofView, ProverError>(pv),
        dsize <= max_radix2_size(),
    ensures
        ({
            let esize = pow2(big_l);
            let cp = composition_polynomial(f, gen_of(dsize), dsize, target, t, n)->Ok_0;
            let cpe = fft_spec(coset_shift(cp, fe_from_nat(5)), esize);
            let s0 = merkle_root(leaf_hashes(ext)) + merkle_root(leaf_hashes(cpe));
            let layers = setting_layers(ext, cpe, big_l);
            &&& composition_polynomial(f, gen_of(dsize), dsize, target, t, n) is Ok
            &&& t != 0
            &&& cpe.len() == esize
            &&& fri_layers(cpe, five_coset(gen_of(esize), esize), s0) is Some
            &&& pv.0 == merkle_root(leaf_hashes(ext))
            &&& pv.1 == merkle_root(leaf_hashes(cpe))
            &&& pv.2 == layer_roots(layers)
            &&& pv.3 == query_views(query_seed(ext, cpe, layers), num_queries, blowup_factor, ext, cpe, layers)
        }),
{
    let esize = pow2(big_l);
    let off = fe_from_nat(5);
    assert(dsize as usize as nat == dsize);
    assert(composition_polynomial(f, gen_of(dsize), dsize as usize as nat, target, t, n) is Ok);
    assert(coset_points(esize, off) =~= five_coset(gen_of(esize), esize));
    let cp = composition_polynomial(f, gen_of(dsize), dsize, target, t, n)->Ok_0;
    let cpe = fft_spec(coset_shift(cp, fe_from_nat(5)), esize);
    let layers = setting_layers(ext, cpe, big_l);
    assert(pv.2 =~= layer_roots(layers));
}

/// The verifier accepts the honest proof of a setting.
#[verifier::rlimit(30)]
proof fn lemma_setting_verified(
    ext: Seq<FieldElement>,
    cpe: Seq<FieldElement>,
    big_l: nat,
    target: FieldElement,
    t: nat,
    n: nat,
    blowup_factor: nat,
    num_queries: nat,
    pv: ProofView,
)
    requires
        honest_setting(ext, cpe, big_l, n, blowup_factor, target, t),
        n == next_pow2(t + 1),
        num_queries > 0,
        pv.0 == merkle_root(leaf_hashes(ext)),
        pv.1 == merkle_root(leaf_hashes(cpe)),
        pv.2 == layer_roots(setting_layers(ext, cpe, big_l)),
        pv.3 == query_views(
            query_seed(ext, cpe, setting_layers(ext, cpe, big_l)),
            num_queries,
            blowup_factor,
            ext,
            cpe,
            setting_layers(ext, cpe, big_l),
        ),
    ensures
        (verify_spec(pv, t, blowup_factor, target)) is Ok,
{
    let esize = pow2(big_l);
    let g = gen_of(esize);
    let layers = setting_layers(ext, cpe, big_l);
    let s0 = merkle_root(leaf_hashes(ext)) + merkle_root(leaf_hashes(cpe));
    let seed = query_seed(ext, cpe, layers);
    crate::verifying::lemma_commitment_transcripts_agree(layers);
    assert(layer_roots(layers) =~= layers.map_values(|l: Seq<FieldElement>| merkle_root(leaf_hashes(l))));
    assert(pv.0 + pv.1 + flatten(pv.2) == seed);
    lemma_queries_accepted(ext, cpe, big_l, n, blowup_factor, target, t, seed, num_queries);
    vstd::arithmetic::power2::lemma2_to64();
    vstd::arithmetic::power2::lemma_pow2_strictly_increases(big_l, 29);
    assert(n <= esize) by (nonlinear_arith)
        requires n * blowup_factor == esize, esize >= 1, n >= 2;
    // every answer ends on the one value of the last layer
    lemma_honest_run_shape(cpe, g, s0, big_l);
    let last = layers[big_l - 1];
    assert(layer_at(cpe, layers, big_l) == last);
    let views = pv.3;
    let values = final_values(views);
    assert forall|k: int| 0 <= k < num_queries implies #[trigger] values[k] == last[0] by {
        crate::verifying::lemma_query_views_replay(seed, num_queries, blowup_factor, ext, cpe, layers, k as nat);
    }
    crate::verifying::lemma_query_views_replay(seed, num_queries, blowup_factor, ext, cpe, layers, 0);
    assert(values.len() == num_queries);
    assert(final_values_check(values) == Ok::<(), VerifyError>(()));
}

/// The proof the prover builds from the trace polynomial `f` and its
/// extension `ext` on the `2^L` points of the coset `5 * H` is accepted by
/// the verifier, when it answers at least one query.
#[verifier::rlimit(60)]
pub(crate) proof fn lemma_extension_accepted(
    f: Seq<FieldElement>,
    dsize: nat,
    ext: Seq<FieldElement>,
    big_l: nat,
    target: FieldElement,
    t: nat,
    n: nat,
    blowup_factor: nat,
    num_queries: nat,
    pv: ProofView,
)
    requires
        proof_from_extension(f, dsize, ext, pow2(big_l), fe_from_nat(5), target, t, n, blowup_factor, num_queries)
            == Ok::<ProofView, ProverError>(pv),
        subgroup_facts(gen_of(pow2(big_l)), big_l),
        ext == fft_spec(coset_shift(f, fe_from_nat(5)), pow2(big_l)),
        n * blowup_factor == pow2(big_l),
        n == next_pow2(t + 1),
        n >= 2 ==> dsize == n,
        dsize <= max_radix2_size(),
        num_queries > 0,
        blowup_factor >= 2,
        canonical_coeffs(f),
        f.len() <= dsize,
        target.canonical(),
        divisions_hold(f, gen_of(dsize), dsize, target, t, n),
        gen_of(n) == fe_pow(gen_of(pow2(big_l)), blowup_factor),
        generates_group(fe_from_nat(5)),
    ensures
        (verify_spec(pv, t, blowup_factor, target)) is Ok,
{
    let esize = pow2(big_l);
    lemma_honest_proof_shape(f, dsize, ext, big_l, target, t, n, blowup_factor, num_queries, pv);
    crate::poly::lemma_next_pow2(t + 1);
    assert(dsize == n);
    let cp = composition_polynomial(f, gen_of(n), n, target, t, n)->Ok_0;
    let cpe = fft_spec(coset_shift(cp, fe_from_nat(5)), esize);
    vstd::arithmetic::power2::lemma2_to64();
    vstd::arithmetic::power2::lemma_pow2_strictly_increases(big_l, 29);
    assert(n <= max_radix2_size()) by (nonlinear_arith)
        requires n * blowup_factor == esize, esize <= 0x1000_0000, blowup_factor >= 2;
    lemma_next_pow2_of_pow2(n);
    lemma_pow2_is_pow2(big_l);
    lemma_consistency_everywhere(f, cp, n, blowup_factor, target, t);
    assert(ext.len() == esize);
    assert(honest_setting(ext, cpe, big_l, n, blowup_factor, target, t));
    lemma_setting_verified(ext, cpe, big_l, target, t, n, blowup_factor, num_queries, pv);
}

/// The exponent of a power of two.
pub open spec fn log2_of(n: nat) -> nat
    decreases n,
{
    if n <= 1 {
        0
    } else {
        1 + log2_of(n / 2)
    }
}

/// A power of two is 2 to its exponent.
pub(crate) proof fn lemma_log2_of(n: nat)
    requires
        is_pow2(n),
    ensures
        n == pow2(log2_of(n)),
    decreases n,
{
    vstd::arithmetic::power2::lemma2_to64();
    if n > 1 {
        lemma_log2_of(n / 2);
        vstd::arithmetic::power2::lemma_pow2_unfold(log2_of(n));
    }
}

/// The product of two powers of two is a power of two.
pub(crate) proof fn lemma_pow2_product(a: nat, b: nat)
    requires
        is_pow2(a),
        is_pow2(b),
    ensures
        is_pow2(a * b),
    decreases b,
{
    if b > 1 {
        lemma_pow2_product(a, b / 2);
        let c = a * (b / 2);
        assert(a * b == 2 * c) by (nonlinear_arith)
            requires b % 2 == 0, c == a * (b / 2);
        assert(c >= 1) by (nonlinear_arith)
            requires is_pow2(c) ==> c >= 1, is_pow2(c);
        assert((2 * c) / 2 == c);
    } else {
        assert(a * b == a) by (nonlinear_arith) requires b == 1;
    }
}

/// The law as the prover reaches it: the proof built from an extension by a
/// power-of-two factor of at least 2, on the subgroup generated by `g`, is
/// accepted by the verifier.
pub(crate) proof fn lemma_prover_output_accepted(
    f: Seq<FieldElement>,
    dsize: nat,
    ext: Seq<FieldElement>,
    esize: nat,
    g: FieldElement,
    target: FieldElement,
    t: nat,
    n: nat,
    blowup_factor: nat,
    num_queries: nat,
    pv: ProofView,
)
    requires
        proof_from_extension(f, dsize, ext, esize, fe_from_nat(5), target, t, n, blowup_factor, num_queries)
            == Ok::<ProofView, ProverError>(pv),
        esize == next_pow2(n * blowup_factor),
        is_pow2(n),
        is_pow2(blowup_factor),
        esize <= max_radix2_size(),
        g == gen_of(esize),
        g.canonical(),
        fe_pow(g, esize) == fe_one(),
        esize >= 2 ==> fe_pow(g, esize / 2) == fe_neg(fe_one()),
        ext == fft_spec(coset_shift(f, fe_from_nat(5)), esize),
        n == next_pow2(t + 1),
        n >= 2 ==> dsize == n,
        dsize <= max_radix2_size(),
        num_queries > 0,
        blowup_factor >= 2,
        canonical_coeffs(f),
        f.len() <= dsize,
        target.canonical(),
        divisions_hold(f, gen_of(dsize), dsize, target, t, n),
        gen_of(n) == fe_pow(g, blowup_factor),
        generates_group(fe_from_nat(5)),
    ensures
        (verify_spec(pv, t, blowup_factor, target)) is Ok,
{
    lemma_pow2_product(n, blowup_factor);
    lemma_next_pow2_of_pow2(n * blowup_factor);
    lemma_log2_of(esize);
    let big_l = log2_of(esize);
    vstd::arithmetic::power2::lemma2_to64();
    assert(esize >= 2) by {
        assert(composition_polynomial(f, gen_of(dsize), dsize as usize as nat, target, t, n) is Ok);
        crate::poly::lemma_next_pow2(t + 1);
        assert(n * blowup_factor >= n) by (nonlinear_arith)
            requires blowup_factor >= 1;
    }
    if big_l > 28 {
        vstd::arithmetic::power2::lemma_pow2_strictly_increases(28, big_l);
    }
    assert(big_l >= 1);
    lemma_extension_accepted(f, dsize, ext, big_l, target, t, n, blowup_factor, num_queries, pv);
}

/// Every nonzero element has an inverse.
pub open spec fn field_inverses() -> bool {
    forall|d: FieldElement| d.canonical() && d != fe_zero() ==> #[trigger] has_inverse(d)
}

/// The verifier's consistency check at query `q`, on the opened values of
/// the extended trace `ext` (at `q`, `q + b`, `q + 2b` round the coset) and
/// of the composition polynomial `e0` (at `q`).
pub open spec fn consistency_at(
    ext: Seq<FieldElement>,
    e0: Seq<FieldElement>,
    size: nat,
    blowup_factor: nat,
    target: FieldElement,
    t: nat,
    q: nat,
) -> Result<(), VerifyError> {
    let n = size * blowup_factor;
    let gq = (q + blowup_factor) % n;
    let ggq = (gq + blowup_factor) % n;
    consistency_check(
        fe_mul(fe_from_nat(5), fe_pow(gen_of(n), q)),
        ext[q as int],
        ext[gq as int],
        ext[ggq as int],
        e0[q as int],
        size,
        target,
        t,
    )
}

/// `g^e == g^(e mod N)` for `g` of order dividing `N`.
proof fn lemma_pow_mod_order(g: FieldElement, n: nat, e: nat)
    requires
        n > 0,
        fe_pow(g, n) == fe_one(),
    ensures
        fe_pow(g, e) == fe_pow(g, e % n),
{
    vstd::arithmetic::div_mod::lemma_fundamental_div_mod(e as int, n as int);
    let k = e / n;
    assert(e == n * k + e % n);
    crate::field::lemma_pow_add(g, n * k, e % n);
    crate::field::lemma_pow_pow(g, n, k);
    crate::field::lemma_pow_of_one(k);
    crate::field::lemma_pow_canonical(g, e % n);
    crate::field::lemma_mul_one(fe_pow(g, e % n));
}

/// A value of the FFT of `coset_shift(p, 5)` on the subgroup generated by
/// `big_g` is the value of `p` at the coset point.
proof fn lemma_fft_coset_value(p: Seq<FieldElement>, n: nat, j: nat)
    requires
        canonical_coeffs(p),
        p.len() <= n,
        j < n,
    ensures
        fft_spec(coset_shift(p, fe_from_nat(5)), n)[j as int] == poly_eval(
            p,
            fe_mul(fe_from_nat(5), fe_pow(gen_of(n), j)),
        ),
{
    let c = coset_shift(p, fe_from_nat(5));
    assert(c.take(c.len() as int) =~= c);
    assert(domain_point(n, j) == fe_pow(gen_of(n), j));
    lemma_five_inverse();
    crate::field::lemma_pow_canonical(gen_of(n), j);
    lemma_eval_coset_shift(p, fe_from_nat(5), fe_pow(gen_of(n), j));
}

/// `5 * G^(q + k*b mod N) == g^k * (5 * G^q)` for `g = G^b` and `G` of
/// order dividing `N`.
proof fn lemma_shifted_point(big_g: FieldElement, n: nat, b: nat, q: nat, k: nat)
    requires
        n > 0,
        big_g.canonical(),
        fe_pow(big_g, n) == fe_one(),
    ensures
        fe_mul(fe_from_nat(5), fe_pow(big_g, (q + k * b) % n)) == fe_mul(
            fe_pow(fe_pow(big_g, b), k),
            fe_mul(fe_from_nat(5), fe_pow(big_g, q)),
        ),
{
    let five = fe_from_nat(5);
    lemma_pow_mod_order(big_g, n, q + k * b);
    crate::field::lemma_pow_pow(big_g, b, k);
    assert(b * k == k * b) by (nonlinear_arith);
    crate::field::lemma_pow_add(big_g, k * b, q);
    assert(k * b + q == q + k * b);
    crate::field::lemma_mul_assoc(fe_pow(big_g, k * b), five, fe_pow(big_g, q));
    crate::field::lemma_mul_commutes(fe_pow(big_g, k * b), five);
    crate::field::lemma_mul_assoc(five, fe_pow(big_g, k * b), fe_pow(big_g, q));
}

/// The values the honest answer to query `q` opens: the trace polynomial
/// at `x = 5 * G^q`, `g x` and `g^2 x`, where `g = G^b`.
proof fn lemma_opened_trace_values(f: Seq<FieldElement>, size: nat, blowup_factor: nat, q: nat)
    requires
        canonical_coeffs(f),
        f.len() <= size,
        blowup_factor >= 1,
        q < size * blowup_factor,
        gen_of(size * blowup_factor).canonical(),
        fe_pow(gen_of(size * blowup_factor), size * blowup_factor) == fe_one(),
    ensures
        ({
            let n = size * blowup_factor;
            let big_g = gen_of(n);
            let g = fe_pow(big_g, blowup_factor);
            let x = fe_mul(fe_from_nat(5), fe_pow(big_g, q));
            let ext = fft_spec(coset_shift(f, fe_from_nat(5)), n);
            let gq = (q + blowup_factor) % n;
            let ggq = (gq + blowup_factor) % n;
            &&& ext[q as int] == poly_eval(f, x)
            &&& ext[gq as int] == poly_eval(f, fe_mul(fe_pow(g, 1), x))
            &&& ext[ggq as int] == poly_eval(f, fe_mul(fe_pow(g, 2), x))
        }),
{
    let n = size * blowup_factor;
    let big_g = gen_of(n);
    assert(size <= n) by (nonlinear_arith) requires blowup_factor >= 1, n == size * blowup_factor;
    let gq = (q + blowup_factor) % n;
    let ggq = (gq + blowup_factor) % n;
    vstd::arithmetic::div_mod::lemma_mod_bound((q + blowup_factor) as int, n as int);
    vstd::arithmetic::div_mod::lemma_mod_bound((gq + blowup_factor) as int, n as int);
    assert(ggq == (q + 2 * blowup_factor) % n) by {
        vstd::arithmetic::div_mod::lemma_add_mod_noop((q + blowup_factor) as int, blowup_factor as int, n as int);
        vstd::arithmetic::div_mod::lemma_add_mod_noop(gq as int, blowup_factor as int, n as int);
        vstd::arithmetic::div_mod::lemma_mod_mod(blowup_factor as int, n as int, 1);
        vstd::arithmetic::div_mod::lemma_mod_mod((q + blowup_factor) as int, n as int, 1);
    }
    lemma_fft_coset_value(f, n, q);
    lemma_fft_coset_value(f, n, gq);
    lemma_fft_coset_value(f, n, ggq);
    lemma_shifted_point(big_g, n, blowup_factor, q, 1);
    lemma_shifted_point(big_g, n, blowup_factor, q, 2);
    assert(q + 1 * blowup_factor == q + blowup_factor);
}

/// At every query of an honest proof, the verifier's consistency check of
/// the composition polynomial passes: no denominator vanishes at a point of
/// the coset, and the opened values satisfy the composition.
pub(crate) proof fn lemma_consistency_passes(
    f: Seq<FieldElement>,
    cp: Seq<FieldElement>,
    size: nat,
    blowup_factor: nat,
    target: FieldElement,
    t: nat,
    q: nat,
)
    requires
        composition_polynomial(f, gen_of(size), size, target, t, size) == Ok::<Seq<FieldElement>, ProverError>(cp),
        divisions_hold(f, gen_of(size), size, target, t, size),
        canonical_coeffs(f),
        f.len() <= size,
        target.canonical(),
        is_pow2(size),
        2 <= size <= max_radix2_size(),
        1 <= t < size,
        blowup_factor >= 2,
        q < size * blowup_factor,
        gen_of(size * blowup_factor).canonical(),
        fe_pow(gen_of(size * blowup_factor), size * blowup_factor) == fe_one(),
        gen_of(size) == fe_pow(gen_of(size * blowup_factor), blowup_factor),
        is_pow2(size * blowup_factor),
        generates_group(fe_from_nat(5)),
    ensures
        ({
            let r = consistency_at(
                fft_spec(coset_shift(f, fe_from_nat(5)), size * blowup_factor),
                fft_spec(coset_shift(cp, fe_from_nat(5)), size * blowup_factor),
                size,
                blowup_factor,
                target,
                t,
                q,
            );
            r is Ok
        }),
{
    let n = size * blowup_factor;
    let big_g = gen_of(n);
    let g = gen_of(size);
    let five = fe_from_nat(5);
    let x = fe_mul(five, fe_pow(big_g, q));
    lemma_five_inverse();
    crate::field::lemma_pow_canonical(big_g, q);
    crate::field::lemma_op_vals(five, fe_pow(big_g, q));
    lemma_next_pow2_of_pow2(size);
    lemma_opened_trace_values(f, size, blowup_factor, q);
    crate::degree::lemma_composition_len(f, g, size, target, t);
    assert(cp.len() <= n) by (nonlinear_arith)
        requires cp.len() + 1 <= 2 * size, n == size * blowup_factor, blowup_factor >= 2;
    crate::evaluation::lemma_composition_canonical(f, g, size, target, t);
    lemma_fft_coset_value(cp, n, q);
    crate::field::lemma_pow_canonical(big_g, blowup_factor);
    crate::field::lemma_pow_one(g);
    let one = fe_from_nat(1);
    let d0 = crate::field::fe_sub(x, one);
    let d1 = crate::field::fe_sub(x, fe_pow(g, t));
    let d3 = crate::field::fe_sub(fe_pow(x, size), one);
    crate::field::lemma_op_vals(x, one);
    crate::field::lemma_op_vals(x, fe_pow(g, t));
    crate::field::lemma_op_vals(fe_pow(x, size), one);
    // no denominator vanishes: the query point lies outside the subgroup
    crate::field::lemma_fe_of_canonical(1);
    crate::field::lemma_pow_one(x);
    crate::field::lemma_pow_canonical(g, t);
    crate::field::lemma_pow_canonical(x, size);
    crate::field::lemma_pow_pow(big_g, blowup_factor, t);
    assert(fe_pow(big_g, 0) == fe_one());
    if d0 == fe_zero() {
        lemma_sub_zero(x, one);
        lemma_coset_power_outside(big_g, n, q, 1, 0);
    }
    if d1 == fe_zero() {
        lemma_sub_zero(x, fe_pow(g, t));
        lemma_coset_power_outside(big_g, n, q, 1, blowup_factor * t);
    }
    if d3 == fe_zero() {
        lemma_sub_zero(fe_pow(x, size), one);
        lemma_coset_power_outside(big_g, n, q, size, 0);
    }
    lemma_field_inverses(five);
    assert(has_inverse(d0) && has_inverse(d1) && has_inverse(d3));
    lemma_eval_composition(f, g, size, target, t, x);
}

/// Every nonzero element has an inverse, given a generator `r` of the
/// multiplicative group of order `modulus - 1`: an element `r^k` has the
/// inverse `r^((modulus - 1) * (k + 1) - k)`.
pub(crate) proof fn lemma_field_inverses(r: FieldElement)
    requires
        fe_pow(r, (crate::field::modulus() - 1) as nat) == fe_one(),
        forall|a: FieldElement| #[trigger] a.canonical() && a != fe_zero() ==> exists|k: nat| fe_pow(r, k) == a,
    ensures
        field_inverses(),
{
    let m1 = (crate::field::modulus() - 1) as nat;
    assert forall|d: FieldElement| d.canonical() && d != fe_zero() implies #[trigger] has_inverse(d) by {
        assert(d.canonical());
        let k = choose|k: nat| fe_pow(r, k) == d;
        assert(m1 * (k + 1) >= k) by (nonlinear_arith) requires m1 >= 1;
        let e = (m1 * (k + 1) - k) as nat;
        let w = fe_pow(r, e);
        crate::field::lemma_pow_add(r, k, e);
        assert(k + e == m1 * (k + 1));
        crate::field::lemma_pow_pow(r, m1, k + 1);
        crate::field::lemma_pow_of_one(k + 1);
        crate::field::lemma_pow_canonical(r, e);
        crate::field::lemma_canonical_val(w);
        assert(fe_mul(d, w) == fe_one());
    }
}

/// `r` generates the multiplicative group, of order `modulus - 1`: its power
/// to `modulus - 1` is one and every nonzero element is one of its powers.
pub open spec fn generates_group(r: FieldElement) -> bool {
    &&& fe_pow(r, (crate::field::modulus() - 1) as nat) == fe_one()
    &&& forall|a: FieldElement| #[trigger] a.canonical() && a != fe_zero() ==> exists|k: nat| fe_pow(r, k) == a
}

/// A cube root of one other than one: `5^((p - 1) / 3)`.
pub open spec fn cube_root() -> FieldElement {
    fe_of(4407920970296243842393367215006156084916469457145843978461nat)
}

/// The square of `cube_root()`.
pub open spec fn cube_root_squared() -> FieldElement {
    fe_of(21888242871839275217838484774961031246154997185409878258781734729429964517155nat)
}

/// `cube_root()` is a cube root of one, and neither it nor its square is one.
proof fn lemma_cube_root()
    ensures
        cube_root().canonical(),
        cube_root() != fe_zero(),
        cube_root() != fe_one(),
        cube_root_squared() != fe_one(),
        fe_mul(cube_root(), cube_root()) == cube_root_squared(),
        fe_mul(cube_root_squared(), cube_root()) == fe_one(),
        fe_mul(cube_root_squared(), cube_root_squared()) == cube_root(),
{
    let m = crate::field::modulus();
    let w = 4407920970296243842393367215006156084916469457145843978461nat;
    let w2 = 21888242871839275217838484774961031246154997185409878258781734729429964517155nat;
    crate::field::lemma_fe_of_canonical(w);
    crate::field::lemma_fe_of_canonical(w2);
    crate::field::lemma_fe_of_canonical(1);
    crate::field::lemma_fe_of_canonical(0);
    assert(w * w == 887680541290735913945002248416506277798nat * m + w2);
    vstd::arithmetic::div_mod::lemma_fundamental_div_mod_converse(
        (w * w) as int,
        m as int,
        887680541290735913945002248416506277798int,
        w2 as int,
    );
    assert(w2 * w == 4407920970296243841505686673715420170971467208729337700662nat * m + 1);
    vstd::arithmetic::div_mod::lemma_fundamental_div_mod_converse(
        (w2 * w) as int,
        m as int,
        4407920970296243841505686673715420170971467208729337700662int,
        1,
    );
    assert(fe_mul(cube_root(), cube_root()) == cube_root_squared());
    assert(fe_mul(cube_root_squared(), cube_root()) == fe_one());
    crate::field::lemma_mul_assoc(cube_root_squared(), cube_root(), cube_root());
    crate::field::lemma_mul_one(cube_root());
}

/// `cube_root()` raised to a power of two is itself or its square.
proof fn lemma_cube_root_pow2(j: nat)
    ensures
        fe_pow(cube_root(), pow2(j)) == cube_root() || fe_pow(cube_root(), pow2(j)) == cube_root_squared(),
    decreases j,
{
    lemma_cube_root();
    vstd::arithmetic::power2::lemma2_to64();
    if j == 0 {
        crate::field::lemma_pow_one(cube_root());
    } else {
        lemma_cube_root_pow2((j - 1) as nat);
        let p = pow2((j - 1) as nat);
        vstd::arithmetic::power2::lemma_pow2_unfold(j);
        crate::field::lemma_pow_add(cube_root(), p, p);
        assert(p + p == pow2(j));
    }
}

/// 5 raised to a power of two is not one, 5 generating the multiplicative
/// group (which has elements of order 3).
proof fn lemma_five_pow2_not_one(e: nat)
    requires
        generates_group(fe_from_nat(5)),
        is_pow2(e),
    ensures
        fe_pow(fe_from_nat(5), e) != fe_one(),
{
    let five = fe_from_nat(5);
    lemma_cube_root();
    lemma_log2_of(e);
    lemma_cube_root_pow2(log2_of(e));
    if fe_pow(five, e) == fe_one() {
        assert(cube_root().canonical() && cube_root() != fe_zero());
        let k = choose|k: nat| fe_pow(five, k) == cube_root();
        crate::field::lemma_pow_pow(five, k, e);
        crate::field::lemma_pow_pow(five, e, k);
        assert(k * e == e * k) by (nonlinear_arith);
        crate::field::lemma_pow_of_one(k);
    }
}

/// Raising `5 * G^q` to a power of two `e` never lands in the subgroup
/// generated by `G` (of order dividing `N`, a power of two).
proof fn lemma_coset_power_outside(big_g: FieldElement, n: nat, q: nat, e: nat, m: nat)
    requires
        generates_group(fe_from_nat(5)),
        big_g.canonical(),
        is_pow2(n),
        fe_pow(big_g, n) == fe_one(),
        is_pow2(e),
    ensures
        fe_pow(fe_mul(fe_from_nat(5), fe_pow(big_g, q)), e) != fe_pow(big_g, m),
{
    let five = fe_from_nat(5);
    let y = fe_mul(five, fe_pow(big_g, q));
    if fe_pow(y, e) == fe_pow(big_g, m) {
        crate::field::lemma_pow_pow(y, e, n);
        crate::field::lemma_pow_mul(five, fe_pow(big_g, q), e * n);
        crate::field::lemma_pow_pow(big_g, q, e * n);
        crate::field::lemma_pow_pow(big_g, m, n);
        crate::field::lemma_pow_pow(big_g, n, m);
        crate::field::lemma_pow_pow(big_g, n, q * e);
        assert(q * (e * n) == n * (q * e)) by (nonlinear_arith);
        assert(m * n == n * m) by (nonlinear_arith);
        crate::field::lemma_pow_of_one(m);
        crate::field::lemma_pow_of_one(q * e);
        lemma_five_inverse();
        crate::field::lemma_pow_canonical(five, e * n);
        crate::field::lemma_mul_one(fe_pow(five, e * n));
        lemma_pow2_product(e, n);
        lemma_five_pow2_not_one(e * n);
    }
}

/// Canonical elements whose difference is zero are equal.
proof fn lemma_sub_zero(a: FieldElement, b: FieldElement)
    requires
        a.canonical(),
        b.canonical(),
        crate::field::fe_sub(a, b) == fe_zero(),
    ensures
        a == b,
{
    let m = crate::field::modulus() as int;
    crate::field::lemma_canonical_val(a);
    crate::field::lemma_canonical_val(b);
    crate::field::lemma_op_vals(a, b);
    crate::field::lemma_fe_of_canonical(0);
    if a.val() >= b.val() {
        vstd::arithmetic::div_mod::lemma_small_mod((a.val() - b.val()) as nat, m as nat);
    } else {
        vstd::arithmetic::div_mod::lemma_fundamental_div_mod_converse(a.val() - b.val(), m, -1, a.val() - b.val() + m);
    }
    crate::field::lemma_eq_by_val(a, b);
}

/// An element with an inverse is not zero.
pub(crate) proof fn lemma_inverse_nonzero(a: FieldElement)
    requires
        has_inverse(a),
    ensures
        a != fe_zero(),
{
    if a == fe_zero() {
        let w = choose|w: FieldElement| w.val() < crate::field::modulus() && fe_mul(a, w) == fe_one();
        crate::field::lemma_val_fe_of(0);
        crate::field::lemma_val_fe_of(1);
        assert(fe_mul(a, w) == fe_of(0));
    }
}

/// A FRI run meets no zero point when every point it starts from, squared
/// any number of times, has an inverse.
pub(crate) proof fn lemma_fri_layers_some(e: Seq<FieldElement>, d: Seq<FieldElement>, s: Seq<u8>)
    requires
        d.len() >= e.len(),
        forall|j: int, k: nat| #![trigger square_times(d[j], k)] 0 <= j < e.len() ==> has_inverse(square_times(d[j], k)),
    ensures
        fri_layers(e, d, s) is Some,
    decreases e.len(),
{
    if e.len() > 1 {
        let h = e.len() / 2;
        if has_zero_point(d, h) {
            let i = choose|i: int| 0 <= i < h && d[i] == fe_zero();
            assert(has_inverse(square_times(d[i], 0)));
            lemma_inverse_nonzero(d[i]);
        }
        let next = fri_fold(e, fr_from_hash(s), d);
        let nd = squares(d, h);
        assert forall|j: int, k: nat| #![trigger square_times(nd[j], k)] 0 <= j < next.len() implies has_inverse(
            square_times(nd[j], k),
        ) by {
            lemma_square_times_shift(d[j], k);
            assert(has_inverse(square_times(d[j], k + 1)));
        }
        lemma_fri_layers_some(next, nd, s + merkle_root(leaf_hashes(next)));
    }
}

/// An honest statement gets a proof: for the trace polynomial `f` of the
/// sequence starting `1, a1` on the radix-2 subgroup of size `n`, a target
/// index `1 <= t < n` and a radix-2 extended domain, once each division is
/// known to be one, every division is exact and FRI meets no zero point on
/// the coset `5 * H`, so the rest of the proof is built.
pub(crate) proof fn lemma_honest_proof_exists(
    a1: FieldElement,
    t: nat,
    n: nat,
    esize: nat,
    blowup_factor: nat,
    num_queries: nat,
    f: Seq<FieldElement>,
    ext: Seq<FieldElement>,
)
    requires
        field_inverses(),
        a1.canonical(),
        is_pow2(n),
        2 <= n <= max_radix2_size(),
        1 <= t < n,
        gen_of(n).canonical(),
        fe_pow(gen_of(n), n / 2) == fe_neg(fe_one()),
        is_pow2(esize),
        gen_of(esize).canonical(),
        fe_pow(gen_of(esize), esize) == fe_one(),
        is_interpolant(f, Seq::new(n, |k: int| fib_square(fe_from_nat(1), a1, k as nat)), n),
        divisions_known(f, gen_of(n), n, fib_square(fe_from_nat(1), a1, t), t, n),
    ensures
        proof_from_extension(
            f,
            n,
            ext,
            esize,
            fe_from_nat(5),
            fib_square(fe_from_nat(1), a1, t),
            t,
            n,
            blowup_factor,
            num_queries,
        ) is Ok,
{
    let g = gen_of(n);
    let target = fib_square(fe_from_nat(1), a1, t);
    let n0 = p0_numerator(f);
    let b0 = linear_factor(fe_from_nat(1));
    let n1 = p1_numerator(f, target);
    let b1 = linear_factor(fe_pow(g, t));
    let n3 = p3_numerator(f, g, t, n);
    let b3 = vanishing_spec(n);
    let d0 = poly_divmod(n0, b0);
    let d1 = poly_divmod(n1, b1);
    let d3 = poly_divmod(n3, b3);
    crate::roots::lemma_boundary_exact(a1, n, f, g, d0.0, d0.1);
    crate::roots::lemma_target_exact(a1, n, f, g, t, d1.0, d1.1);
    crate::roots::lemma_transition_exact(a1, n, f, g, t, d3.0, d3.1);
    assert(composition_polynomial(f, g, n, target, t, n) is Ok);
    let domain = Domain { size: n as usize, generator: gen_of(n) };
    assert(domain.size as nat == n);
    let offset = fe_from_nat(5);
    let cpe = cp_evaluations(f, domain, esize, offset, target, t, n)->Ok_0;
    assert(cp_evaluations(f, domain, esize, offset, target, t, n) is Ok);
    let d = coset_points(esize, offset);
    lemma_log2_of(esize);
    let big_l = log2_of(esize);
    assert forall|j: int, k: nat| #![trigger square_times(d[j], k)] 0 <= j < cpe.len() implies has_inverse(
        square_times(d[j], k),
    ) by {
        assert(d[j] == coset_point(gen_of(esize), j as nat));
        lemma_coset_point_inverse(gen_of(esize), big_l, j as nat, k);
    }
    lemma_fri_layers_some(cpe, d, merkle_root(leaf_hashes(ext)) + merkle_root(leaf_hashes(cpe)));
}

/// An honest composition value passes the consistency check at every point
/// off the trace's subgroup: for the trace polynomial `f` of size `n`
/// whose divisions are exact, the composition polynomial `cp`, and any `x`
/// with `x^n != 1`, the check on `f(x)`, `f(g x)`, `f(g^2 x)` and `cp(x)`
/// passes (no denominator vanishes there).
pub proof fn lemma_consistency_off_subgroup(
    f: Seq<FieldElement>,
    cp: Seq<FieldElement>,
    n: nat,
    target: FieldElement,
    t: nat,
    x: FieldElement,
)
    requires
        field_inverses(),
        composition_polynomial(f, gen_of(n), n, target, t, n) == Ok::<Seq<FieldElement>, ProverError>(cp),
        divisions_hold(f, gen_of(n), n, target, t, n),
        canonical_coeffs(f),
        target.canonical(),
        is_pow2(n),
        2 <= n <= max_radix2_size(),
        1 <= t < n,
        gen_of(n).canonical(),
        fe_pow(gen_of(n), n) == fe_one(),
        x.canonical(),
        fe_pow(x, n) != fe_one(),
    ensures
        consistency_check(
            x,
            poly_eval(f, x),
            poly_eval(f, fe_mul(gen_of(n), x)),
            poly_eval(f, fe_mul(fe_pow(gen_of(n), 2), x)),
            poly_eval(cp, x),
            n,
            target,
            t,
        ) == Ok::<(), VerifyError>(()),
{
    let g = gen_of(n);
    let one = fe_from_nat(1);
    lemma_next_pow2_of_pow2(n);
    crate::field::lemma_pow_one(g);
    crate::field::lemma_small_nonzero(1);
    crate::field::lemma_fe_of_canonical(1);
    crate::field::lemma_pow_canonical(g, t);
    crate::field::lemma_pow_canonical(x, n);
    let d0 = crate::field::fe_sub(x, one);
    let d1 = crate::field::fe_sub(x, fe_pow(g, t));
    let d3 = crate::field::fe_sub(fe_pow(x, n), one);
    crate::field::lemma_op_vals(x, one);
    crate::field::lemma_op_vals(x, fe_pow(g, t));
    crate::field::lemma_op_vals(fe_pow(x, n), one);
    if d0 == fe_zero() {
        lemma_sub_zero(x, one);
        crate::field::lemma_pow_of_one(n);
    }
    if d1 == fe_zero() {
        lemma_sub_zero(x, fe_pow(g, t));
        crate::field::lemma_pow_pow(g, t, n);
        crate::field::lemma_pow_pow(g, n, t);
        assert(t * n == n * t) by (nonlinear_arith);
        crate::field::lemma_pow_of_one(t);
    }
    if d3 == fe_zero() {
        lemma_sub_zero(fe_pow(x, n), one);
    }
    assert(has_inverse(d0) && has_inverse(d1) && has_inverse(d3));
    lemma_eval_composition(f, g, n, target, t, x);
}

/// Why the extension lives on a coset: at every point of the trace's own
/// subgroup (of size `n`, generated by `g` with `g^n == 1`), for a target
/// index of at least 1, the verifier's consistency check divides by zero,
/// whatever the opened values. A low-degree extension on the plain extended
/// subgroup, which holds the trace's subgroup, would have queries there that
/// no honest proof could pass.
pub proof fn lemma_subgroup_points_divide_by_zero(
    n: nat,
    j: nat,
    f_x: FieldElement,
    f_gx: FieldElement,
    f_g2x: FieldElement,
    cp_x: FieldElement,
    target: FieldElement,
    t: nat,
)
    requires
        is_pow2(n),
        2 <= n <= max_radix2_size(),
        t >= 1,
        gen_of(n).canonical(),
        fe_pow(gen_of(n), n) == fe_one(),
    ensures
        consistency_check(fe_pow(gen_of(n), j), f_x, f_gx, f_g2x, cp_x, n, target, t) == Err::<(), VerifyError>(
            VerifyError::DivisionByZero,
        ),
{
    let g = gen_of(n);
    let x = fe_pow(g, j);
    lemma_next_pow2_of_pow2(n);
    crate::field::lemma_pow_one(g);
    crate::field::lemma_pow_pow(g, j, n);
    crate::field::lemma_pow_pow(g, n, j);
    assert(j * n == n * j) by (nonlinear_arith);
    crate::field::lemma_pow_of_one(j);
    crate::roots::lemma_sub_self(fe_one());
    crate::field::lemma_small_nonzero(1);
}

} // verus!
