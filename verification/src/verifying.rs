//! The verifier: replays the Fiat-Shamir transcript, checks every opened
//! value against its commitment, the composition polynomial against the trace,
//! every FRI fold, and that the last layer is constant. A proof that fails a
//! check is rejected with an error naming the check, on exactly the inputs
//! where the check fails.
use crate::composition::{alphas, derive_alphas};
use crate::data::{extend_with_hash, extend_with_query, flatten, query_transcript, Opening, ProverValues, QueryProof, QueryView};
use crate::acceptance::has_inverse;
use crate::field::{fe_add, fe_div, fe_from_nat, fe_mul, fe_neg, fe_pow, fe_sub, fe_zero, FieldElement};
use crate::hashing::{fr_from_hash, hash_leaf, hash_to_index, leaf_hash, random_fr_from_hash};
use crate::merkle::{level_view, path_root, verify_merke_path};
use crate::poly::{domain_elements, domain_size, evaluation_domain, next_pow2, supported_domain};
use crate::prover::{
    fold_value, fri_fold, gen_of, layer_roots_bytes, opening, query_view_spec,
    query_views, two_inv, ProofView,
};
use crate::merkle::{leaf_hashes, merkle_levels, merkle_root};
use vstd::prelude::*;

verus! {

/// Why the verifier rejected a proof.
#[derive(Clone, Copy, Debug, PartialEq, Eq, Structural)]
pub enum VerifyError {
    /// No subgroup of the field is large enough for a domain (or its size
    /// overflows).
    DomainTooLarge,
    /// The extended domain is empty (a blowup factor of 0).
    EmptyDomain,
    /// The trace domain has fewer than two elements, so no generator `g`.
    TraceDomainTooSmall,
    /// The target index is 0, which leaves no point before it.
    TargetIndexZero,
    /// A constraint polynomial's denominator vanishes at the query point.
    DivisionByZero,
    /// An opened value does not hash up to its commitment.
    MerklePathMismatch,
    /// The composition polynomial's value does not match the trace values.
    CpConsistencyMismatch,
    /// A FRI layer's value does not match the fold of the layer before it.
    FriLayerMismatch,
    /// The last FRI layer takes different values at `x` and `-x`.
    FinalLayerNotConstant,
    /// The last FRI layer's value does not hash to the last commitment.
    FinalLayerCommitmentMismatch,
    /// The queries end on different constants.
    FinalLayersInconsistent,
    /// The proof answers no query.
    NoQueries,
    /// A query answer holds no layer pairs.
    EmptyQuery,
    /// A query answer opens more layers than there are commitments.
    MissingFriCommitment,
    /// A query answer opens more layers than the domain can be halved into.
    TooManyLayers,
}

/// The opening hashes up to `root` from position `index`.
pub open spec fn opens(o: Opening, root: Seq<u8>, index: nat) -> bool {
    path_root(leaf_hash(o.0), o.1, index) == root
}

/// `prod_{lo <= i < hi} (x - g^i)`, starting from 1.
pub open spec fn exclusion_product_at(x: FieldElement, g: FieldElement, lo: nat, hi: nat) -> FieldElement
    decreases hi,
{
    if hi <= lo {
        fe_from_nat(1)
    } else {
        fe_mul(exclusion_product_at(x, g, lo, (hi - 1) as nat), fe_sub(x, fe_pow(g, (hi - 1) as nat)))
    }
}

/// The numerator of `p3` at `x`, from the trace values at `x`, `g*x`, `g^2*x`.
pub open spec fn p3_numerator_at(
    x: FieldElement,
    f_x: FieldElement,
    f_gx: FieldElement,
    f_g2x: FieldElement,
    g: FieldElement,
    t: nat,
    n: nat,
) -> FieldElement {
    fe_mul(
        fe_mul(
            fe_mul(
                fe_sub(fe_sub(f_g2x, fe_mul(f_gx, f_gx)), fe_mul(f_x, f_x)),
                fe_sub(x, fe_pow(g, t)),
            ),
            fe_sub(x, fe_pow(g, (t - 1) as nat)),
        ),
        exclusion_product_at(x, g, t + 1, n),
    )
}

/// The composition polynomial's value at `x` that the trace values imply:
/// `a0 * (f(x) - 1)/(x - 1) + a1 * (f(x) - target)/(x - g^t) + a2 * p3(x)`.
pub open spec fn cp_at(
    x: FieldElement,
    f_x: FieldElement,
    f_gx: FieldElement,
    f_g2x: FieldElement,
    g: FieldElement,
    n: nat,
    target: FieldElement,
    t: nat,
) -> FieldElement {
    let one = fe_from_nat(1);
    let p0 = fe_div(fe_sub(f_x, one), fe_sub(x, one));
    let p1 = fe_div(fe_sub(f_x, target), fe_sub(x, fe_pow(g, t)));
    let p2 = fe_div(p3_numerator_at(x, f_x, f_gx, f_g2x, g, t, n), fe_sub(fe_pow(x, n), one));
    let (a0, a1, a2) = alphas(target, g);
    fe_add(fe_add(fe_mul(p0, a0), fe_mul(p1, a1)), fe_mul(p2, a2))
}

/// The outcome of checking the composition polynomial's value `cp_x` at
/// the query point `x` against the trace values.
pub open spec fn consistency_check(
    x: FieldElement,
    f_x: FieldElement,
    f_gx: FieldElement,
    f_g2x: FieldElement,
    cp_x: FieldElement,
    n: nat,
    target: FieldElement,
    t: nat,
) -> Result<(), VerifyError> {
    if !supported_domain(n) {
        Err(VerifyError::DomainTooLarge)
    } else if domain_size(n) < 2 {
        Err(VerifyError::TraceDomainTooSmall)
    } else {
        let g = fe_pow(gen_of(domain_size(n)), 1);
        let one = fe_from_nat(1);
        if fe_sub(x, one) == fe_zero() {
            Err(VerifyError::DivisionByZero)
        } else if fe_sub(x, fe_pow(g, t)) == fe_zero() {
            Err(VerifyError::DivisionByZero)
        } else if t == 0 {
            Err(VerifyError::TargetIndexZero)
        } else if fe_sub(fe_pow(x, n), one) == fe_zero() {
            Err(VerifyError::DivisionByZero)
        } else if cp_at(x, f_x, f_gx, f_g2x, g, n, target, t) != cp_x {
            Err(VerifyError::CpConsistencyMismatch)
        } else {
            Ok(())
        }
    }
}

fn divide(a: &FieldElement, b: &FieldElement) -> (r: Option<FieldElement>)
    ensures
        r is None <==> *b == fe_zero(),
        r matches Some(v) ==> v == fe_div(*a, *b),
{
    let zero = FieldElement::zero();
    if *b == zero {
        None
    } else {
        Some(crate::field::div(a, b))
    }
}

/// Checks the composition polynomial's value `cp_x` at the query point
/// against the trace values `f_x`, `f_gx`, `f_g2x` at `x`, `g*x`, `g^2*x`.
pub fn verify_trace_to_cp_consistency(
    query: FieldElement,
    f_x: FieldElement,
    f_gx: FieldElement,
    f_g2x: FieldElement,
    cp_x: FieldElement,
    trace_length: usize,
    _blowup_factor: usize,
    target_value: FieldElement,
    target_index: usize,
) -> (r: Result<(), VerifyError>)
    requires
        target_index < usize::MAX,
    ensures
        r == consistency_check(
            query,
            f_x,
            f_gx,
            f_g2x,
            cp_x,
            trace_length as nat,
            target_value,
            target_index as nat,
        ),
{
    let d = match evaluation_domain(trace_length) {
        Some(d) => d,
        None => {
            return Err(VerifyError::DomainTooLarge);
        },
    };
    proof {
        crate::field::lemma_fe_of_val(d.generator);
    }
    let domain = domain_elements(&d);
    if domain.len() < 2 {
        return Err(VerifyError::TraceDomainTooSmall);
    }
    let g = domain[1];
    let one = crate::field::from_u64(1);
    let p0_at_x = match divide(&crate::field::sub(&f_x, &one), &crate::field::sub(&query, &one)) {
        Some(v) => v,
        None => {
            return Err(VerifyError::DivisionByZero);
        },
    };
    let g_t = crate::field::pow(&g, target_index as u64);
    let p1_at_x = match divide(&crate::field::sub(&f_x, &target_value), &crate::field::sub(&query, &g_t)) {
        Some(v) => v,
        None => {
            return Err(VerifyError::DivisionByZero);
        },
    };
    let mut exclusion_product = crate::field::from_u64(1);
    let mut i: usize = target_index + 1;
    while i < trace_length
        invariant
            target_index + 1 <= i,
            i <= trace_length || i == target_index + 1,
            exclusion_product == exclusion_product_at(query, g, (target_index + 1) as nat, i as nat),
        decreases trace_length - i,
    {
        let g_i = crate::field::pow(&g, i as u64);
        exclusion_product = crate::field::mul(&exclusion_product, &crate::field::sub(&query, &g_i));
        i = i + 1;
    }
    assert(exclusion_product == exclusion_product_at(query, g, (target_index + 1) as nat, trace_length as nat));
    let f_gx_sq = crate::field::square(&f_gx);
    let f_x_sq = crate::field::square(&f_x);
    let diff = crate::field::sub(&crate::field::sub(&f_g2x, &f_gx_sq), &f_x_sq);
    let m1 = crate::field::mul(&diff, &crate::field::sub(&query, &g_t));
    if target_index == 0 {
        return Err(VerifyError::TargetIndexZero);
    }
    let g_t1 = crate::field::pow(&g, (target_index - 1) as u64);
    let m2 = crate::field::mul(&m1, &crate::field::sub(&query, &g_t1));
    let numerator = crate::field::mul(&m2, &exclusion_product);
    let q_n = crate::field::pow(&query, trace_length as u64);
    let p2_at_x = match divide(&numerator, &crate::field::sub(&q_n, &one)) {
        Some(v) => v,
        None => {
            return Err(VerifyError::DivisionByZero);
        },
    };
    let (alpha_0, alpha_1, alpha_2) = derive_alphas(&target_value, &g);
    let cp_at_x = crate::field::add(
        &crate::field::add(&crate::field::mul(&p0_at_x, &alpha_0), &crate::field::mul(&p1_at_x, &alpha_1)),
        &crate::field::mul(&p2_at_x, &alpha_2),
    );
    if cp_at_x != cp_x {
        return Err(VerifyError::CpConsistencyMismatch);
    }
    Ok(())
}

/// The outcome of checking one FRI fold at `x`.
pub open spec fn fri_layer_check(
    prev_x: FieldElement,
    prev_minus_x: FieldElement,
    next: FieldElement,
    beta: FieldElement,
    x: FieldElement,
) -> Result<(), VerifyError> {
    if x == fe_zero() {
        Err(VerifyError::DivisionByZero)
    } else if fold_value(prev_x, prev_minus_x, beta, x) != next {
        Err(VerifyError::FriLayerMismatch)
    } else {
        Ok(())
    }
}

/// Checks that `exptected_next_cp` is the fold, with challenge `beta`, of the
/// previous layer's values at `query` and `-query`.
pub fn verify_fri_layer(
    previous_cp_at_x: &FieldElement,
    previous_cp_at_minux_x: &FieldElement,
    exptected_next_cp: &FieldElement,
    beta: &FieldElement,
    query: &FieldElement,
) -> (r: Result<(), VerifyError>)
    ensures
        r == fri_layer_check(*previous_cp_at_x, *previous_cp_at_minux_x, *exptected_next_cp, *beta, *query),
{
    let two = crate::field::from_u64(2);
    proof {
        crate::field::lemma_small_nonzero(2);
    }
    let two_inv = match crate::field::inverse(&two) {
        Some(t) => t,
        None => {
            return Err(VerifyError::DivisionByZero);
        },
    };
    let g_at_query = crate::field::mul(&crate::field::add(previous_cp_at_x, previous_cp_at_minux_x), &two_inv);
    let query_inv = match crate::field::inverse(query) {
        Some(v) => v,
        None => {
            return Err(VerifyError::DivisionByZero);
        },
    };
    let h_at_query = crate::field::mul(
        &crate::field::mul(&crate::field::sub(previous_cp_at_x, previous_cp_at_minux_x), &two_inv),
        &query_inv,
    );
    let next_cp_at_query = crate::field::add(&g_at_query, &crate::field::mul(beta, &h_at_query));
    if next_cp_at_query != *exptected_next_cp {
        return Err(VerifyError::FriLayerMismatch);
    }
    Ok(())
}

/// The outcome of checking the last layer: constant, and hashing to the
/// last commitment.
pub open spec fn final_layer_check(final_x: FieldElement, final_minus_x: FieldElement, commitment: Seq<u8>) -> Result<(), VerifyError> {
    if final_x != final_minus_x {
        Err(VerifyError::FinalLayerNotConstant)
    } else if leaf_hash(final_x) != commitment {
        Err(VerifyError::FinalLayerCommitmentMismatch)
    } else {
        Ok(())
    }
}

/// Checks that the last layer is constant and that its value is the one the
/// last commitment holds.
pub fn verify_final_fri_layer(final_cp_x: FieldElement, final_cp_minus_x: FieldElement, final_layer_commitment: &[u8; 32]) -> (r:
    Result<(), VerifyError>)
    ensures
        r == final_layer_check(final_cp_x, final_cp_minus_x, final_layer_commitment@),
{
    if final_cp_x != final_cp_minus_x {
        return Err(VerifyError::FinalLayerNotConstant);
    }
    let final_cp_hash = hash_leaf(&final_cp_x);
    if !crate::hashing::hashes_equal(&final_cp_hash, final_layer_commitment) {
        return Err(VerifyError::FinalLayerCommitmentMismatch);
    }
    Ok(())
}

/// The outcome of checking that all queries end on the same constant.
pub open spec fn final_values_check(values: Seq<FieldElement>) -> Result<(), VerifyError> {
    if values.len() == 0 {
        Err(VerifyError::NoQueries)
    } else if exists|i: int| 1 <= i < values.len() && #[trigger] values[i] != values[0] {
        Err(VerifyError::FinalLayersInconsistent)
    } else {
        Ok(())
    }
}

/// Checks that every query ends on the same constant (and that there is a
/// query).
pub fn verify_final_fri_layers_consistency(final_cp_x_list: &Vec<FieldElement>) -> (r: Result<(), VerifyError>)
    ensures
        r == final_values_check(final_cp_x_list@),
{
    if final_cp_x_list.len() == 0 {
        return Err(VerifyError::NoQueries);
    }
    let first_value = final_cp_x_list[0];
    let mut i: usize = 1;
    while i < final_cp_x_list.len()
        invariant
            1 <= i <= final_cp_x_list.len(),
            first_value == final_cp_x_list@[0],
            forall|k: int| 1 <= k < i ==> #[trigger] final_cp_x_list@[k] == final_cp_x_list@[0],
        decreases final_cp_x_list.len() - i,
    {
        if final_cp_x_list[i] != first_value {
            return Err(VerifyError::FinalLayersInconsistent);
        }
        i = i + 1;
    }
    Ok(())
}

/// The commitment of layer `i`: the composition polynomial's for layer 0,
/// else FRI commitment `i - 1`.
pub open spec fn layer_commitment(i: nat, cp_commitment: Seq<u8>, fri: Seq<Seq<u8>>) -> Seq<u8> {
    if i == 0 {
        cp_commitment
    } else {
        fri[i - 1]
    }
}

/// The outcome of checking layers `i` onwards of a query answer: the
/// openings of every layer but the last against its commitment (at the
/// query's index in the layer and at the opposite index), and every fold,
/// the folding challenges drawn from `seed` as it takes in the FRI
/// commitments, the query point squaring at every fold.
pub open spec fn layers_check(
    pairs: Seq<(Opening, Opening)>,
    i: nat,
    domain_size: usize,
    layer_index: nat,
    x: FieldElement,
    seed: Seq<u8>,
    cp_commitment: Seq<u8>,
    fri: Seq<Seq<u8>>,
) -> Result<(), VerifyError>
    decreases pairs.len() - i,
{
    if i >= pairs.len() {
        Ok(())
    } else if i >= usize::BITS as nat {
        Err(VerifyError::TooManyLayers)
    } else {
        let layer_size = (domain_size >> (i as usize)) as nat;
        let openings: Result<(), VerifyError> = if i + 1 != pairs.len() {
            if i > 0 && i - 1 >= fri.len() {
                Err(VerifyError::MissingFriCommitment)
            } else if layer_size == 0 {
                Err(VerifyError::TooManyLayers)
            } else {
                let c = layer_commitment(i, cp_commitment, fri);
                let negative_index = (layer_size / 2 + layer_index) % layer_size;
                if !opens(pairs[i as int].0, c, layer_index) {
                    Err(VerifyError::MerklePathMismatch)
                } else if !opens(pairs[i as int].1, c, negative_index) {
                    Err(VerifyError::MerklePathMismatch)
                } else {
                    Ok(())
                }
            }
        } else {
            Ok(())
        };
        let fold: Result<(), VerifyError> = if i != 0 {
            fri_layer_check(
                pairs[i - 1].0.0,
                pairs[i - 1].1.0,
                pairs[i as int].0.0,
                fr_from_hash(seed),
                x,
            )
        } else {
            Ok(())
        };
        if openings is Err {
            openings
        } else if fold is Err {
            fold
        } else if i + 1 < pairs.len() {
            if i + 1 >= usize::BITS as nat {
                Err(VerifyError::TooManyLayers)
            } else {
                let next_layer_size = (domain_size >> ((i + 1) as usize)) as nat;
                if next_layer_size == 0 {
                    Err(VerifyError::TooManyLayers)
                } else {
                    layers_check(
                        pairs,
                        i + 1,
                        domain_size,
                        layer_index % next_layer_size,
                        if i != 0 { fe_mul(x, x) } else { x },
                        if i > 0 && i - 1 < fri.len() { seed + fri[i - 1] } else { seed },
                        cp_commitment,
                        fri,
                    )
                }
            }
        } else {
            Ok(())
        }
    }
}

/// The outcome of checking the answer to query `q` of a proof whose
/// extended domain has `size * blowup_factor` points.
#[verifier::opaque]
pub open spec fn query_check(
    q: nat,
    ext_commitment: Seq<u8>,
    cp_commitment: Seq<u8>,
    fri: Seq<Seq<u8>>,
    proof: QueryView,
    size: nat,
    blowup_factor: nat,
    target: FieldElement,
    t: nat,
) -> Result<(), VerifyError> {
    let n = size * blowup_factor;
    if !supported_domain(n) {
        Err(VerifyError::DomainTooLarge)
    } else {
        let x = fe_mul(fe_from_nat(5), fe_pow(gen_of(domain_size(n)), q));
        if !opens(proof.0, ext_commitment, q) {
            Err(VerifyError::MerklePathMismatch)
        } else if n == 0 {
            Err(VerifyError::EmptyDomain)
        } else if !opens(proof.1, ext_commitment, (q + blowup_factor) % n) {
            Err(VerifyError::MerklePathMismatch)
        } else if !opens(proof.2, ext_commitment, ((q + blowup_factor) % n + blowup_factor) % n) {
            Err(VerifyError::MerklePathMismatch)
        } else if proof.3.len() == 0 {
            Err(VerifyError::EmptyQuery)
        } else {
            let c = consistency_check(x, proof.0.0, proof.1.0, proof.2.0, proof.3[0].0.0, size, target, t);
            let l = layers_check(proof.3, 0, n as usize, q, x, ext_commitment + cp_commitment, cp_commitment, fri);
            if c is Err {
                c
            } else if l is Err {
                l
            } else if fri.len() == 0 {
                Err(VerifyError::MissingFriCommitment)
            } else {
                final_layer_check(proof.3.last().0.0, proof.3.last().1.0, fri.last())
            }
        }
    }
}

/// The FRI commitments as byte sequences.
pub open spec fn commitments_view(c: Seq<[u8; 32]>) -> Seq<Seq<u8>> {
    c.map_values(|h: [u8; 32]| h@)
}

/// Checks one query answer.
#[verifier::rlimit(40)]
fn verify_query(
    q: usize,
    extended_trace_commitment: &[u8; 32],
    composite_polynomial_commitment: &[u8; 32],
    fri_commitments: &Vec<[u8; 32]>,
    query_proof: &QueryProof,
    size: usize,
    blowup_factor: usize,
    target_value: FieldElement,
    target_index: usize,
) -> (r: Result<(), VerifyError>)
    requires
        q < size * blowup_factor || q == 0,
        size * blowup_factor <= usize::MAX,
        target_index < usize::MAX,
    ensures
        r == query_check(
            q as nat,
            extended_trace_commitment@,
            composite_polynomial_commitment@,
            commitments_view(fri_commitments@),
            query_proof.view(),
            size as nat,
            blowup_factor as nat,
            target_value,
            target_index as nat,
        ),
{
    reveal(query_check);
    let ghost fri = commitments_view(fri_commitments@);
    let ghost pv = query_proof.view();
    let domain_size: usize = size * blowup_factor;
    let d = match evaluation_domain(domain_size) {
        Some(d) => d,
        None => {
            return Err(VerifyError::DomainTooLarge);
        },
    };
    proof {
        crate::field::lemma_fe_of_val(d.generator);
    }
    let extended_domain = domain_elements(&d);
    let query = crate::field::mul(&crate::field::generator(), &extended_domain[q]);
    if !verify_merke_path(query_proof.f_x.value, &query_proof.f_x.path, *extended_trace_commitment, q) {
        return Err(VerifyError::MerklePathMismatch);
    }
    if domain_size == 0 {
        return Err(VerifyError::EmptyDomain);
    }
    assert(blowup_factor <= size * blowup_factor) by (nonlinear_arith)
        requires size * blowup_factor != 0;
    let gq = (q + blowup_factor) % domain_size;
    if !verify_merke_path(query_proof.f_gx.value, &query_proof.f_gx.path, *extended_trace_commitment, gq) {
        return Err(VerifyError::MerklePathMismatch);
    }
    let ggq = (gq + blowup_factor) % domain_size;
    if !verify_merke_path(query_proof.f_g2x.value, &query_proof.f_g2x.path, *extended_trace_commitment, ggq) {
        return Err(VerifyError::MerklePathMismatch);
    }
    if query_proof.cp_pairs.len() == 0 {
        return Err(VerifyError::EmptyQuery);
    }
    verify_trace_to_cp_consistency(
        query,
        query_proof.f_x.value,
        query_proof.f_gx.value,
        query_proof.f_g2x.value,
        query_proof.cp_pairs[0].cp_x.value,
        size,
        blowup_factor,
        target_value,
        target_index,
    )?;
    check_layers(
        query_proof,
        query,
        q,
        domain_size,
        extended_trace_commitment,
        composite_polynomial_commitment,
        fri_commitments,
    )?;
    if fri_commitments.len() == 0 {
        return Err(VerifyError::MissingFriCommitment);
    }
    let last = query_proof.cp_pairs.len() - 1;
    let final_cp_pair = &query_proof.cp_pairs[last];
    verify_final_fri_layer(
        final_cp_pair.cp_x.value,
        final_cp_pair.cp_minus_x.value,
        &fri_commitments[fri_commitments.len() - 1],
    )
}

/// The layer loop of a query check.
#[verifier::rlimit(60)]
fn check_layers(
    query_proof: &QueryProof,
    query: FieldElement,
    q: usize,
    domain_size: usize,
    extended_trace_commitment: &[u8; 32],
    composite_polynomial_commitment: &[u8; 32],
    fri_commitments: &Vec<[u8; 32]>,
) -> (r: Result<(), VerifyError>)
    requires
        q < domain_size,
    ensures
        r == layers_check(
            query_proof.view().3,
            0,
            domain_size,
            q as nat,
            query,
            extended_trace_commitment@ + composite_polynomial_commitment@,
            composite_polynomial_commitment@,
            commitments_view(fri_commitments@),
        ),
{
    let ghost pairs = query_proof.view().3;
    let ghost fri = commitments_view(fri_commitments@);
    let ghost target = layers_check(
        pairs,
        0,
        domain_size,
        q as nat,
        query,
        extended_trace_commitment@ + composite_polynomial_commitment@,
        composite_polynomial_commitment@,
        fri,
    );
    let mut beta_seed: Vec<u8> = Vec::new();
    extend_with_hash(&mut beta_seed, extended_trace_commitment);
    extend_with_hash(&mut beta_seed, composite_polynomial_commitment);
    let mut layer_index: usize = q;
    let mut transition_query = query;
    let n = query_proof.cp_pairs.len();
    let mut i: usize = 0;
    assert((domain_size >> 0usize) == domain_size) by (bit_vector);
    while i < n
        invariant
            n == query_proof.cp_pairs.len(),
            pairs == query_proof.view().3,
            fri == commitments_view(fri_commitments@),
            i <= n,
            target == layers_check(
                pairs,
                0,
                domain_size,
                q as nat,
                query,
                extended_trace_commitment@ + composite_polynomial_commitment@,
                composite_polynomial_commitment@,
                fri,
            ),
            i < n ==> target == layers_check(
                pairs,
                i as nat,
                domain_size,
                layer_index as nat,
                transition_query,
                beta_seed@,
                composite_polynomial_commitment@,
                fri,
            ),
            i == n ==> target == Ok::<(), VerifyError>(()),
            i == 0 ==> beta_seed@ == extended_trace_commitment@ + composite_polynomial_commitment@,
            i == 0 ==> layer_index == q && transition_query == query,
            q < domain_size,
            i < n && i < usize::BITS ==> layer_index < (domain_size >> i),
        decreases n - i,
    {
        let ghost cur_index = layer_index;
        let ghost cur_x = transition_query;
        let ghost cur_seed = beta_seed@;
        if i >= usize::BITS as usize {
            return Err(VerifyError::TooManyLayers);
        }
        let layer_size = domain_size >> i;
        let cp_pair = &query_proof.cp_pairs[i];
        assert(pairs[i as int] == cp_pair.view());
        if i != n - 1 {
            if i > 0 && i - 1 >= fri_commitments.len() {
                return Err(VerifyError::MissingFriCommitment);
            }
            if layer_size == 0 {
                return Err(VerifyError::TooManyLayers);
            }
            let layer_commitment = if i == 0 {
                *composite_polynomial_commitment
            } else {
                fri_commitments[i - 1]
            };
            let negative_index = if layer_index >= layer_size - layer_size / 2 {
                layer_index - (layer_size - layer_size / 2)
            } else {
                layer_index + layer_size / 2
            };
            proof {
                if layer_index >= layer_size - layer_size / 2 {
                    vstd::arithmetic::div_mod::lemma_fundamental_div_mod_converse(
                        (layer_size / 2 + layer_index) as int, layer_size as int, 1, negative_index as int);
                } else {
                    vstd::arithmetic::div_mod::lemma_small_mod((layer_size / 2 + layer_index) as nat, layer_size as nat);
                }
            }
            if !verify_merke_path(cp_pair.cp_x.value, &cp_pair.cp_x.path, layer_commitment, layer_index) {
                return Err(VerifyError::MerklePathMismatch);
            }
            if !verify_merke_path(cp_pair.cp_minus_x.value, &cp_pair.cp_minus_x.path, layer_commitment, negative_index) {
                return Err(VerifyError::MerklePathMismatch);
            }
        }
        let beta = random_fr_from_hash(beta_seed.as_slice());
        if i != 0 {
            let prev = &query_proof.cp_pairs[i - 1];
            assert(pairs[i - 1] == prev.view());
            verify_fri_layer(&prev.cp_x.value, &prev.cp_minus_x.value, &cp_pair.cp_x.value, &beta, &transition_query)?;
            transition_query = crate::field::square(&transition_query);
        }
        if i > 0 && i - 1 < fri_commitments.len() {
            extend_with_hash(&mut beta_seed, &fri_commitments[i - 1]);
        }
        if i + 1 < n {
            if i + 1 >= usize::BITS as usize {
                return Err(VerifyError::TooManyLayers);
            }
            let next_layer_size = domain_size >> (i + 1);
            if next_layer_size == 0 {
                return Err(VerifyError::TooManyLayers);
            }
            layer_index = layer_index % next_layer_size;
        }
        i = i + 1;
    }
    Ok(())
}

/// The outcome of checking the query answers in order, each query index
/// drawn from the transcript so far (which then takes in the answer's paths).
pub open spec fn queries_check(
    proofs: Seq<QueryView>,
    seed: Seq<u8>,
    ext_commitment: Seq<u8>,
    cp_commitment: Seq<u8>,
    fri: Seq<Seq<u8>>,
    size: nat,
    blowup_factor: nat,
    target: FieldElement,
    t: nat,
) -> Result<(), VerifyError>
    decreases proofs.len(),
{
    if proofs.len() == 0 {
        Ok(())
    } else if size * blowup_factor > usize::MAX {
        Err(VerifyError::DomainTooLarge)
    } else {
        let q = hash_to_index(seed, size * blowup_factor);
        let r = query_check(q, ext_commitment, cp_commitment, fri, proofs[0], size, blowup_factor, target, t);
        if r is Err {
            r
        } else {
            queries_check(
                proofs.drop_first(),
                seed + query_transcript(proofs[0]),
                ext_commitment,
                cp_commitment,
                fri,
                size,
                blowup_factor,
                target,
                t,
            )
        }
    }
}

/// The value each query answer ends on: the last layer at `x`.
pub open spec fn final_values(proofs: Seq<QueryView>) -> Seq<FieldElement> {
    proofs.map_values(|p: QueryView| p.3.last().0.0)
}

/// The outcome of verifying a proof that element `t` of the sequence is
/// `target`, with the extended domain `blowup_factor` times the trace.
pub open spec fn verify_spec(pv: ProofView, t: nat, blowup_factor: nat, target: FieldElement) -> Result<(), VerifyError> {
    if next_pow2(t + 1) > usize::MAX {
        Err(VerifyError::DomainTooLarge)
    } else {
        let size = next_pow2(t + 1);
        match queries_check(pv.3, pv.0 + pv.1 + flatten(pv.2), pv.0, pv.1, pv.2, size, blowup_factor, target, t) {
            Err(e) => Err(e),
            Ok(_) => final_values_check(final_values(pv.3)),
        }
    }
}

/// Unfolding `queries_check` one answer at a time.
pub proof fn lemma_queries_check_step(
    all: Seq<QueryView>,
    k: nat,
    seed: Seq<u8>,
    ext_commitment: Seq<u8>,
    cp_commitment: Seq<u8>,
    fri: Seq<Seq<u8>>,
    size: nat,
    blowup_factor: nat,
    target: FieldElement,
    t: nat,
)
    requires
        k < all.len(),
    ensures
        all.skip(k as int)[0] == all[k as int],
        all.skip(k as int).drop_first() == all.skip((k + 1) as int),
        queries_check(all.skip(k as int), seed, ext_commitment, cp_commitment, fri, size, blowup_factor, target, t)
            == if size * blowup_factor > usize::MAX {
            Err(VerifyError::DomainTooLarge)
        } else if query_check(hash_to_index(seed, size * blowup_factor), ext_commitment, cp_commitment, fri, all[k as int], size, blowup_factor, target, t) is Err {
            query_check(hash_to_index(seed, size * blowup_factor), ext_commitment, cp_commitment, fri, all[k as int], size, blowup_factor, target, t)
        } else {
            queries_check(all.skip((k + 1) as int), seed + query_transcript(all[k as int]), ext_commitment, cp_commitment, fri, size, blowup_factor, target, t)
        },
{
    assert(all.skip(k as int).drop_first() =~= all.skip((k + 1) as int));
}

fn verify_step(
    seed: &mut Vec<u8>,
    prover_values: &ProverValues,
    k: usize,
    size: usize,
    blowup_factor: usize,
    target_value: FieldElement,
    target_index: usize,
) -> (r: Result<FieldElement, VerifyError>)
    requires
        k < prover_values.queries_proofs.len(),
        target_index < usize::MAX,
    ensures
        ({
            let n = size * blowup_factor;
            let qv = prover_values.view().3[k as int];
            if n > usize::MAX {
                r == Err::<FieldElement, VerifyError>(VerifyError::DomainTooLarge)
            } else {
                let c = query_check(
                    hash_to_index(old(seed)@, n as nat),
                    prover_values.extended_trace_commitment@,
                    prover_values.composite_polynomial_commitment@,
                    commitments_view(prover_values.fri_commitments@),
                    qv,
                    size as nat,
                    blowup_factor as nat,
                    target_value,
                    target_index as nat,
                );
                match r {
                    Err(e) => c == Err::<(), VerifyError>(e),
                    Ok(v) => c is Ok && v == qv.3.last().0.0 && final(seed)@ == old(seed)@ + query_transcript(qv),
                }
            }
        }),
{
    reveal(query_check);
    let query_proof = &prover_values.queries_proofs[k];
    assert(prover_values.view().3[k as int] == query_proof.view());
    assert(commitments_view(prover_values.fri_commitments@) =~= prover_values.view().2);
    let domain_size = match size.checked_mul(blowup_factor) {
        Some(n) => n,
        None => {
            return Err(VerifyError::DomainTooLarge);
        },
    };
    let q = crate::hashing::integer_from_hash(seed.as_slice(), domain_size);
    verify_query(
        q,
        &prover_values.extended_trace_commitment,
        &prover_values.composite_polynomial_commitment,
        &prover_values.fri_commitments,
        query_proof,
        size,
        blowup_factor,
        target_value,
        target_index,
    )?;
    extend_with_query(seed, query_proof);
    let last = query_proof.cp_pairs.len() - 1;
    Ok(query_proof.cp_pairs[last].cp_x.value)
}

/// Verifies a proof that element `target_index` of the sequence is
/// `target_value`, the extended domain being `blowup_factor` times the trace.
pub fn verify(
    prover_values: ProverValues,
    target_index: usize,
    blowup_factor: usize,
    target_value: FieldElement,
) -> (r: Result<(), VerifyError>)
    ensures
        r == verify_spec(prover_values.view(), target_index as nat, blowup_factor as nat, target_value),
{
    let size = match if target_index < usize::MAX { crate::hashing::checked_next_power_of_two(target_index + 1) } else { None } {
        Some(s) => s,
        None => {
            proof {
                if target_index == usize::MAX {
                    crate::poly::lemma_next_pow2((target_index + 1) as nat);
                }
            }
            return Err(VerifyError::DomainTooLarge);
        },
    };
    proof {
        crate::poly::lemma_next_pow2((target_index + 1) as nat);
    }
    let ghost pv = prover_values.view();
    let mut fiat_shamir_seed: Vec<u8> = Vec::new();
    extend_with_hash(&mut fiat_shamir_seed, &prover_values.extended_trace_commitment);
    extend_with_hash(&mut fiat_shamir_seed, &prover_values.composite_polynomial_commitment);
    crate::data::extend_with_hashes(&mut fiat_shamir_seed, &prover_values.fri_commitments);
    assert(level_view(prover_values.fri_commitments@) == pv.2);
    let mut final_cp_x_list: Vec<FieldElement> = Vec::new();
    let nq = prover_values.queries_proofs.len();
    let ghost all = pv.3;
    let ghost target = queries_check(all, fiat_shamir_seed@, pv.0, pv.1, pv.2, size as nat, blowup_factor as nat, target_value, target_index as nat);
    let mut k: usize = 0;
    assert(all.skip(0) =~= all);
    assert(fiat_shamir_seed@ =~= pv.0 + pv.1 + flatten(pv.2));
    while k < nq
        invariant
            nq == prover_values.queries_proofs.len(),
            pv == prover_values.view(),
            all == pv.3,
            size == next_pow2((target_index + 1) as nat),
            target_index < size,
            k <= nq,
            target == queries_check(all.skip(k as int), fiat_shamir_seed@, pv.0, pv.1, pv.2, size as nat, blowup_factor as nat, target_value, target_index as nat),
            target == queries_check(all, pv.0 + pv.1 + flatten(pv.2), pv.0, pv.1, pv.2, size as nat, blowup_factor as nat, target_value, target_index as nat),
            final_cp_x_list@ == final_values(all.take(k as int)),
        decreases nq - k,
    {
        let query_proof = &prover_values.queries_proofs[k];
        let ghost seed_before = fiat_shamir_seed@;
        proof {
            lemma_queries_check_step(all, k as nat, seed_before, pv.0, pv.1, pv.2, size as nat, blowup_factor as nat, target_value, target_index as nat);
        }
        let final_value = verify_step(
            &mut fiat_shamir_seed,
            &prover_values,
            k,
            size,
            blowup_factor,
            target_value,
            target_index,
        )?;
        final_cp_x_list.push(final_value);
        assert(commitments_view(prover_values.fri_commitments@) =~= pv.2);
        assert(final_values(all.take(k + 1)) =~= final_values(all.take(k as int)).push(final_value));
        k = k + 1;
    }
    assert(all.take(nq as int) =~= all);
    assert(all.skip(nq as int) =~= Seq::<QueryView>::empty());
    verify_final_fri_layers_consistency(&final_cp_x_list)
}

/// Honest openings verify: with a power-of-two number of values, the opening
/// the prover sends for any position hashes up to the root it committed to.
pub proof fn lemma_honest_opening_verifies(evals: Seq<FieldElement>, i: nat)
    requires
        crate::poly::is_pow2(evals.len()),
        i < evals.len(),
    ensures
        opens(opening(evals, i), merkle_root(leaf_hashes(evals)), i),
{
    crate::merkle::lemma_merkle_leaf_opening(evals, i);
}

/// Honest folds are accepted: the verifier's check of position `i` of a FRI
/// layer, given the values at `x = domain[i]` and at position `i + n/2`,
/// accepts the value the prover's fold put there.
pub proof fn lemma_honest_fold_accepted(
    evals: Seq<FieldElement>,
    beta: FieldElement,
    domain: Seq<FieldElement>,
    i: int,
)
    requires
        0 <= i < evals.len() / 2,
        domain[i] != fe_zero(),
    ensures
        fri_layer_check(
            evals[i],
            evals[i + evals.len() / 2],
            fri_fold(evals, beta, domain)[i],
            beta,
            domain[i],
        ) == Ok::<(), VerifyError>(()),
{
}

/// Honest folds are accepted from the second half of a layer too: where the
/// point at position `i + n/2` is the opposite `-x` of the point `x` at
/// position `i` (and `x` has an inverse), the verifier's check there, given
/// the values at `i + n/2` and at `i`, accepts the value the prover's fold put
/// at position `i`.
pub proof fn lemma_honest_fold_accepted_opposite(
    evals: Seq<FieldElement>,
    beta: FieldElement,
    domain: Seq<FieldElement>,
    i: int,
)
    requires
        0 <= i < evals.len() / 2,
        has_inverse(domain[i]),
        domain[i + evals.len() / 2] == fe_neg(domain[i]),
    ensures
        fri_layer_check(
            evals[i + evals.len() / 2],
            evals[i],
            fri_fold(evals, beta, domain)[i],
            beta,
            domain[i + evals.len() / 2],
        ) == Ok::<(), VerifyError>(()),
{
    let half = evals.len() / 2;
    crate::acceptance::lemma_fold_at_opposite(evals[i + half], evals[i], beta, domain[i]);
    let ny = fe_neg(domain[i]);
    if ny == fe_zero() {
        let w = choose|w: FieldElement| w.val() < crate::field::modulus() && fe_mul(ny, w) == crate::field::fe_one();
        crate::field::lemma_val_fe_of(0);
        crate::field::lemma_val_fe_of(1);
        assert(fe_mul(ny, w) == crate::field::fe_of(0));
        assert(false);
    }
}

/// The last FRI layer of an honest proof passes the final check: a layer
/// with one value `v` is constant, and its commitment is the hash of `v`.
pub proof fn lemma_final_layer_accepted(v: FieldElement)
    ensures
        final_layer_check(v, v, merkle_root(leaf_hashes(seq![v]))) == Ok::<(), VerifyError>(()),
{
    assert(leaf_hashes(seq![v]) =~= seq![leaf_hash(v)]);
    assert(merkle_levels(seq![leaf_hash(v)]) == seq![seq![leaf_hash(v)]]);
}

/// The verifier starts its transcript where the prover started drawing query
/// indices: the FRI commitments it reads, one after the other, are the
/// roots of the prover's layers.
pub proof fn lemma_commitment_transcripts_agree(layers: Seq<Seq<FieldElement>>)
    ensures
        flatten(layers.map_values(|l: Seq<FieldElement>| merkle_root(leaf_hashes(l))))
            == layer_roots_bytes(layers),
    decreases layers.len(),
{
    let roots = layers.map_values(|l: Seq<FieldElement>| merkle_root(leaf_hashes(l)));
    if layers.len() > 0 {
        lemma_commitment_transcripts_agree(layers.drop_last());
        assert(roots.drop_last() =~= layers.drop_last().map_values(
            |l: Seq<FieldElement>| merkle_root(leaf_hashes(l)),
        ));
    } else {
        assert(roots =~= Seq::<Seq<u8>>::empty());
    }
}

/// The transcript after the first `k` answers: `seed` followed by the paths
/// of each.
pub open spec fn replay_seed(seed: Seq<u8>, views: Seq<QueryView>, k: nat) -> Seq<u8>
    decreases k,
{
    if k == 0 {
        seed
    } else {
        replay_seed(seed, views, (k - 1) as nat) + query_transcript(views[k - 1])
    }
}

/// Every honest answer answers the index the verifier draws for it: replaying
/// the transcript through the first `k` answers and drawing an index from it
/// gives the index answer `k` was computed for.
pub proof fn lemma_query_views_replay(
    seed: Seq<u8>,
    count: nat,
    blowup_factor: nat,
    ext: Seq<FieldElement>,
    cp: Seq<FieldElement>,
    fri: Seq<Seq<FieldElement>>,
    k: nat,
)
    requires
        k < count,
    ensures
        query_views(seed, count, blowup_factor, ext, cp, fri).len() == count,
        query_views(seed, count, blowup_factor, ext, cp, fri)[k as int] == query_view_spec(
            hash_to_index(
                replay_seed(seed, query_views(seed, count, blowup_factor, ext, cp, fri), k),
                ext.len(),
            ),
            blowup_factor,
            ext,
            cp,
            fri,
        ),
    decreases count,
{
    let views = query_views(seed, count, blowup_factor, ext, cp, fri);
    let qv = query_view_spec(hash_to_index(seed, ext.len()), blowup_factor, ext, cp, fri);
    let next_seed = seed + query_transcript(qv);
    let rest = query_views(next_seed, (count - 1) as nat, blowup_factor, ext, cp, fri);
    assert(views == seq![qv] + rest);
    lemma_query_views_len(next_seed, (count - 1) as nat, blowup_factor, ext, cp, fri);
    if k > 0 {
        lemma_query_views_replay(next_seed, (count - 1) as nat, blowup_factor, ext, cp, fri, (k - 1) as nat);
        lemma_replay_shift(seed, qv, rest, (k - 1) as nat);
        assert(views[k as int] == rest[k - 1]);
    }
}

proof fn lemma_query_views_len(
    seed: Seq<u8>,
    count: nat,
    blowup_factor: nat,
    ext: Seq<FieldElement>,
    cp: Seq<FieldElement>,
    fri: Seq<Seq<FieldElement>>,
)
    ensures
        query_views(seed, count, blowup_factor, ext, cp, fri).len() == count,
    decreases count,
{
    if count > 0 {
        let qv = query_view_spec(hash_to_index(seed, ext.len()), blowup_factor, ext, cp, fri);
        lemma_query_views_len(seed + query_transcript(qv), (count - 1) as nat, blowup_factor, ext, cp, fri);
    }
}

proof fn lemma_replay_shift(seed: Seq<u8>, qv: QueryView, rest: Seq<QueryView>, k: nat)
    requires
        k <= rest.len(),
    ensures
        replay_seed(seed, seq![qv] + rest, k + 1) == replay_seed(seed + query_transcript(qv), rest, k),
    decreases k,
{
    let views = seq![qv] + rest;
    if k == 0 {
        assert(views[0] == qv);
        assert(replay_seed(seed, views, 1) == replay_seed(seed, views, 0) + query_transcript(views[0]));
    } else {
        lemma_replay_shift(seed, qv, rest, (k - 1) as nat);
        assert(views[k as int] == rest[k - 1]);
        assert(replay_seed(seed, views, k + 1) == replay_seed(seed, views, k) + query_transcript(views[k as int]));
        assert(replay_seed(seed + query_transcript(qv), rest, k) == replay_seed(seed + query_transcript(qv), rest, (k - 1) as nat) + query_transcript(rest[k - 1]));
    }
}

/// An accepted proof authenticates every trace value it opens: for each
/// query answer `k`, drawn at index `q` from the transcript replayed through
/// the answers before it, the values at `q`, `q + b` and `q + 2b` (round the
/// extended domain of `n` points) hash along their paths, from those
/// positions, to the extended trace's commitment.
pub proof fn lemma_accepted_trace_openings(pv: ProofView, t: nat, blowup_factor: nat, target: FieldElement, k: nat)
    requires
        verify_spec(pv, t, blowup_factor, target) is Ok,
        k < pv.3.len(),
    ensures
        ({
            let n = next_pow2(t + 1) * blowup_factor;
            let q = hash_to_index(replay_seed(pv.0 + pv.1 + flatten(pv.2), pv.3, k), n);
            let a = pv.3[k as int];
            &&& n > 0
            &&& q < n
            &&& path_root(leaf_hash(a.0.0), a.0.1, q) == pv.0
            &&& path_root(leaf_hash(a.1.0), a.1.1, (q + blowup_factor) % n) == pv.0
            &&& path_root(leaf_hash(a.2.0), a.2.1, ((q + blowup_factor) % n + blowup_factor) % n) == pv.0
        }),
{
    let size = next_pow2(t + 1);
    let n = size * blowup_factor;
    let seed0 = pv.0 + pv.1 + flatten(pv.2);
    assert(queries_check(pv.3, seed0, pv.0, pv.1, pv.2, size, blowup_factor, target, t) is Ok);
    assert(pv.3.skip(0) =~= pv.3);
    lemma_accepted_prefix(pv, size, blowup_factor, target, t, k);
    let s = replay_seed(seed0, pv.3, k);
    lemma_queries_check_step(pv.3, k, s, pv.0, pv.1, pv.2, size, blowup_factor, target, t);
    let q = hash_to_index(s, n);
    let a = pv.3[k as int];
    assert(query_check(q, pv.0, pv.1, pv.2, a, size, blowup_factor, target, t) is Ok);
    assert({
        &&& n > 0
        &&& opens(a.0, pv.0, q)
        &&& opens(a.1, pv.0, (q + blowup_factor) % n)
        &&& opens(a.2, pv.0, ((q + blowup_factor) % n + blowup_factor) % n)
    }) by {
        reveal(query_check);
    }
    crate::prover::lemma_hash_to_index_bound(s, n);
}

/// Every suffix of the answers of an accepted proof passes, from the
/// transcript replayed through the answers before it.
proof fn lemma_accepted_prefix(pv: ProofView, size: nat, blowup_factor: nat, target: FieldElement, t: nat, k: nat)
    requires
        queries_check(pv.3, pv.0 + pv.1 + flatten(pv.2), pv.0, pv.1, pv.2, size, blowup_factor, target, t) is Ok,
        k <= pv.3.len(),
    ensures
        queries_check(
            pv.3.skip(k as int),
            replay_seed(pv.0 + pv.1 + flatten(pv.2), pv.3, k),
            pv.0,
            pv.1,
            pv.2,
            size,
            blowup_factor,
            target,
            t,
        ) is Ok,
    decreases k,
{
    let seed0 = pv.0 + pv.1 + flatten(pv.2);
    if k == 0 {
        assert(pv.3.skip(0) =~= pv.3);
    } else {
        lemma_accepted_prefix(pv, size, blowup_factor, target, t, (k - 1) as nat);
        let s = replay_seed(seed0, pv.3, (k - 1) as nat);
        lemma_queries_check_step(pv.3, (k - 1) as nat, s, pv.0, pv.1, pv.2, size, blowup_factor, target, t);
    }
}

/// The point a query's layer `j` is checked at: the query point for the
/// first two layers, squared once more for each layer after.
pub open spec fn fold_point(x: FieldElement, j: nat) -> FieldElement
    decreases j,
{
    if j <= 1 {
        x
    } else {
        let y = fold_point(x, (j - 1) as nat);
        fe_mul(y, y)
    }
}

/// The transcript layer `j`'s folding challenge is drawn from: the two
/// first commitments for the first two layers, then one more FRI commitment
/// for each layer after.
pub open spec fn fold_seed(s0: Seq<u8>, fri: Seq<Seq<u8>>, j: nat) -> Seq<u8>
    decreases j,
{
    if j <= 1 {
        s0
    } else {
        fold_seed(s0, fri, (j - 1) as nat) + fri[j - 2]
    }
}

/// The query's position in layer `j` of a domain of `n` points: the query's
/// index, reduced modulo each layer's size in turn.
pub open spec fn layer_position(q: nat, n: usize, j: nat) -> nat
    decreases j,
{
    if j == 0 {
        q
    } else {
        layer_position(q, n, (j - 1) as nat) % ((n >> (j as usize)) as nat)
    }
}

/// What an accepted run of layer checks guarantees from layer `i` on: every
/// layer but the last opens, at the query's position and at the opposite
/// one, against its commitment (the composition polynomial's for layer 0,
/// else the FRI commitment before it); and every layer's value at the query
/// is the fold of the layer before it, with the challenge drawn from its
/// transcript, at a nonzero point.
proof fn lemma_layers_accepted(
    pairs: Seq<(Opening, Opening)>,
    i: nat,
    n: usize,
    q: nat,
    x: FieldElement,
    s0: Seq<u8>,
    cp_commitment: Seq<u8>,
    fri: Seq<Seq<u8>>,
)
    requires
        layers_check(
            pairs,
            i,
            n,
            layer_position(q, n, i),
            fold_point(x, i),
            fold_seed(s0, fri, i),
            cp_commitment,
            fri,
        ) is Ok,
    ensures
        forall|j: nat|
            #![trigger layer_position(q, n, j)]
            i <= j && j + 1 < pairs.len() ==> {
                let size = (n >> (j as usize)) as nat;
                let c = layer_commitment(j, cp_commitment, fri);
                &&& opens(pairs[j as int].0, c, layer_position(q, n, j))
                &&& opens(pairs[j as int].1, c, (size / 2 + layer_position(q, n, j)) % size)
            },
        forall|j: nat|
            #![trigger fold_point(x, j)]
            i <= j && 1 <= j < pairs.len() ==> {
                &&& fold_point(x, j) != fe_zero()
                &&& pairs[j as int].0.0 == fold_value(
                    pairs[j - 1].0.0,
                    pairs[j - 1].1.0,
                    fr_from_hash(fold_seed(s0, fri, j)),
                    fold_point(x, j),
                )
            },
    decreases pairs.len() - i,
{
    if i < pairs.len() {
        let pos = layer_position(q, n, i);
        let xi = fold_point(x, i);
        let si = fold_seed(s0, fri, i);
        let r = layers_check(pairs, i, n, pos, xi, si, cp_commitment, fri);
        assert(i < usize::BITS);
        if i + 1 < pairs.len() {
            let next = i + 1;
            assert(i > 0 ==> i - 1 < fri.len());
            assert(fold_point(x, next) == if i != 0 {
                fe_mul(xi, xi)
            } else {
                xi
            });
            assert(fold_seed(s0, fri, next) == if i > 0 && i - 1 < fri.len() {
                si + fri[i - 1]
            } else {
                si
            });
            assert(layer_position(q, n, next) == pos % ((n >> (next as usize)) as nat));
            lemma_layers_accepted(pairs, next, n, q, x, s0, cp_commitment, fri);
            assert forall|j: nat| #![trigger layer_position(q, n, j)] i <= j && j + 1 < pairs.len() implies {
                let size = (n >> (j as usize)) as nat;
                let c = layer_commitment(j, cp_commitment, fri);
                &&& opens(pairs[j as int].0, c, layer_position(q, n, j))
                &&& opens(pairs[j as int].1, c, (size / 2 + layer_position(q, n, j)) % size)
            } by {
                if j == i {
                    let ls = (n >> (i as usize)) as nat;
                    let c = layer_commitment(i, cp_commitment, fri);
                    assert(r is Ok);
                    assert(!(i > 0 && i - 1 >= fri.len()));
                    assert(ls != 0);
                    assert(opens(pairs[i as int].0, c, pos));
                    assert(opens(pairs[i as int].1, c, (ls / 2 + pos) % ls));
                } else {
                    assert(i + 1 < pairs.len() && i + 1 <= j);
                    assert(layer_position(q, n, j) == layer_position(q, n, j));
                    assert(fold_point(x, j) == fold_point(x, j));
                }
            }
            assert forall|j: nat| #![trigger fold_point(x, j)] i <= j && 1 <= j < pairs.len() implies {
                &&& fold_point(x, j) != fe_zero()
                &&& pairs[j as int].0.0 == fold_value(
                    pairs[j - 1].0.0,
                    pairs[j - 1].1.0,
                    fr_from_hash(fold_seed(s0, fri, j)),
                    fold_point(x, j),
                )
            } by {
                if j == i {
                    assert(r is Ok);
                    assert(fri_layer_check(pairs[i - 1].0.0, pairs[i - 1].1.0, pairs[i as int].0.0, fr_from_hash(si), xi) is Ok);
                } else {
                    assert(i + 1 < pairs.len() && i + 1 <= j);
                    assert(layer_position(q, n, j) == layer_position(q, n, j));
                    assert(fold_point(x, j) == fold_point(x, j));
                }
            }
        } else {
            assert forall|j: nat| #![trigger layer_position(q, n, j)] i <= j && j + 1 < pairs.len() implies {
                let size = (n >> (j as usize)) as nat;
                let c = layer_commitment(j, cp_commitment, fri);
                &&& opens(pairs[j as int].0, c, layer_position(q, n, j))
                &&& opens(pairs[j as int].1, c, (size / 2 + layer_position(q, n, j)) % size)
            } by {
                if j == i {
                    let ls = (n >> (i as usize)) as nat;
                    let c = layer_commitment(i, cp_commitment, fri);
                    assert(r is Ok);
                    assert(!(i > 0 && i - 1 >= fri.len()));
                    assert(ls != 0);
                    assert(opens(pairs[i as int].0, c, pos));
                    assert(opens(pairs[i as int].1, c, (ls / 2 + pos) % ls));
                } else {
                    assert(i + 1 < pairs.len() && i + 1 <= j);
                    assert(layer_position(q, n, j) == layer_position(q, n, j));
                    assert(fold_point(x, j) == fold_point(x, j));
                }
            }
            assert forall|j: nat| #![trigger fold_point(x, j)] i <= j && 1 <= j < pairs.len() implies {
                &&& fold_point(x, j) != fe_zero()
                &&& pairs[j as int].0.0 == fold_value(
                    pairs[j - 1].0.0,
                    pairs[j - 1].1.0,
                    fr_from_hash(fold_seed(s0, fri, j)),
                    fold_point(x, j),
                )
            } by {
                if j == i {
                    assert(r is Ok);
                    assert(fri_layer_check(pairs[i - 1].0.0, pairs[i - 1].1.0, pairs[i as int].0.0, fr_from_hash(si), xi) is Ok);
                } else {
                    assert(i + 1 < pairs.len() && i + 1 <= j);
                    assert(layer_position(q, n, j) == layer_position(q, n, j));
                    assert(fold_point(x, j) == fold_point(x, j));
                }
            }
        }
    }
}

/// An accepted proof passes every check on every answer: the proof holds at
/// least one answer; for answer `k`, drawn at index `q` from the transcript
/// replayed through the answers before it, the composition polynomial's
/// opened value is what the trace values imply at the query point
/// `x = 5 * G^q` (whose denominators do not vanish); every layer but the last
/// opens against its commitment at the query's position and the opposite
/// one; every layer's value is the fold of the layer before it; the last
/// layer is constant, hashes to the last FRI commitment, and every answer
/// ends on the same value.
#[verifier::rlimit(60)]
#[verifier::spinoff_prover]
pub proof fn lemma_accepted_query(pv: ProofView, t: nat, blowup_factor: nat, target: FieldElement, k: nat)
    requires
        verify_spec(pv, t, blowup_factor, target) is Ok,
        k < pv.3.len(),
    ensures
        ({
            let size = next_pow2(t + 1);
            let n = size * blowup_factor;
            let q = hash_to_index(replay_seed(pv.0 + pv.1 + flatten(pv.2), pv.3, k), n);
            let a = pv.3[k as int];
            let x = fe_mul(fe_from_nat(5), fe_pow(gen_of(domain_size(n)), q));
            let g = fe_pow(gen_of(domain_size(size)), 1);
            let one = fe_from_nat(1);
            let pairs = a.3;
            &&& pairs.len() >= 1
            &&& fe_sub(x, one) != fe_zero()
            &&& fe_sub(x, fe_pow(g, t)) != fe_zero()
            &&& fe_sub(fe_pow(x, size), one) != fe_zero()
            &&& t >= 1
            &&& pairs[0].0.0 == cp_at(x, a.0.0, a.1.0, a.2.0, g, size, target, t)
            &&& forall|j: nat|
                #![trigger layer_position(q, n as usize, j)]
                j + 1 < pairs.len() ==> {
                    let lsize = ((n as usize) >> (j as usize)) as nat;
                    let c = layer_commitment(j, pv.1, pv.2);
                    &&& opens(pairs[j as int].0, c, layer_position(q, n as usize, j))
                    &&& opens(pairs[j as int].1, c, (lsize / 2 + layer_position(q, n as usize, j)) % lsize)
                }
            &&& forall|j: nat|
                #![trigger fold_point(x, j)]
                1 <= j < pairs.len() ==> {
                    &&& fold_point(x, j) != fe_zero()
                    &&& pairs[j as int].0.0 == fold_value(
                        pairs[j - 1].0.0,
                        pairs[j - 1].1.0,
                        fr_from_hash(fold_seed(pv.0 + pv.1, pv.2, j)),
                        fold_point(x, j),
                    )
                }
            &&& pv.2.len() > 0
            &&& pairs.last().0.0 == pairs.last().1.0
            &&& leaf_hash(pairs.last().0.0) == pv.2.last()
            &&& pairs.last().0.0 == pv.3[0].3.last().0.0
        }),
{
    let size = next_pow2(t + 1);
    let n = size * blowup_factor;
    let seed0 = pv.0 + pv.1 + flatten(pv.2);
    assert(queries_check(pv.3, seed0, pv.0, pv.1, pv.2, size, blowup_factor, target, t) is Ok);
    assert(final_values_check(final_values(pv.3)) is Ok);
    assert(final_values(pv.3)[k as int] == pv.3[k as int].3.last().0.0);
    assert(final_values(pv.3)[0] == pv.3[0].3.last().0.0);
    lemma_accepted_prefix(pv, size, blowup_factor, target, t, k);
    let s = replay_seed(seed0, pv.3, k);
    lemma_queries_check_step(pv.3, k, s, pv.0, pv.1, pv.2, size, blowup_factor, target, t);
    let q = hash_to_index(s, n);
    let a = pv.3[k as int];
    let x = fe_mul(fe_from_nat(5), fe_pow(gen_of(domain_size(n)), q));
    reveal(query_check);
    assert(query_check(q, pv.0, pv.1, pv.2, a, size, blowup_factor, target, t) is Ok);
    assert(consistency_check(x, a.0.0, a.1.0, a.2.0, a.3[0].0.0, size, target, t) is Ok);
    assert(layers_check(a.3, 0, n as usize, q, x, pv.0 + pv.1, pv.1, pv.2) is Ok);
    assert(layer_position(q, n as usize, 0) == q);
    assert(fold_point(x, 0) == x);
    assert(fold_seed(pv.0 + pv.1, pv.2, 0) == pv.0 + pv.1);
    lemma_layers_accepted(a.3, 0, n as usize, q, x, pv.0 + pv.1, pv.1, pv.2);
}

} // verus!
