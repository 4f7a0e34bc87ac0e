//! The prover: trace, low-degree extension, composition polynomial, FRI
//! layers and query answers.
use crate::data::{
    extend_with_hash, extend_with_hashes, extend_with_query, flatten, query_transcript, CpPair,
    Opening, ProverValues, QueryProof, QueryView, ValueAndPath,
};
use crate::hashing::hash_to_index;
use crate::composition::{composite_polynomial, composition_polynomial, divisions_hold, divisions_known, ProverError};
use crate::merkle::{extract_path_from_merkle_tree, lemma_merkle_leaf_opening, level_view, merkle_path, path_in_bounds};
use crate::field::{fe_add, fe_inv, fe_mul, fe_of, fe_pow, fe_from_nat, fe_sub, fe_zero, FieldElement};
use crate::merkle::{compute_merkle_root, leaf_hashes, merkle_levels, merkle_root, tree_view};
use crate::poly::{
    domain_elements, domain_size, evaluation_domain, fft, fft_spec, interpolant, max_radix2_size, next_pow2,
    radix2_domain, supported_domain,
    is_pow2, root_of_unity, Domain,
};
use crate::hashing::{fr_from_hash, random_fr_from_hash};
use crate::acceptance::lemma_prover_output_accepted;
use crate::verifying::{verify_spec, VerifyError};
use vstd::prelude::*;

verus! {

/// Element `i` of the Fibonacci-square sequence starting `a0, a1`:
/// `a[i] = a[i-1]^2 + a[i-2]^2`.
pub open spec fn fib_square(a0: FieldElement, a1: FieldElement, i: nat) -> FieldElement
    decreases i,
{
    if i == 0 {
        a0
    } else if i == 1 {
        a1
    } else {
        let x = fib_square(a0, a1, (i - 1) as nat);
        let y = fib_square(a0, a1, (i - 2) as nat);
        fe_add(fe_mul(x, x), fe_mul(y, y))
    }
}

/// The trace: the first `length` elements of the sequence (at least two).
pub fn calculate_fib_square_trace(a0: FieldElement, a1: FieldElement, length: usize) -> (r: Vec<
    FieldElement,
>)
    ensures
        r.len() == if length < 2 { 2 } else { length },
        forall|i: int| 0 <= i < r.len() ==> #[trigger] r@[i] == fib_square(a0, a1, i as nat),
{
    let mut trace: Vec<FieldElement> = Vec::new();
    trace.push(a0);
    trace.push(a1);
    let mut i: usize = 2;
    while i < length
        invariant
            2 <= i,
            i <= length || i == 2,
            trace.len() == i,
            forall|k: int| 0 <= k < i ==> #[trigger] trace@[k] == fib_square(a0, a1, k as nat),
        decreases length - i,
    {
        let x = crate::field::square(&trace[i - 1]);
        let y = crate::field::square(&trace[i - 2]);
        let next = crate::field::add(&x, &y);
        trace.push(next);
        i = i + 1;
    }
    trace
}

/// `d` is the radix-2 subgroup built for `n` points.
pub open spec fn is_radix2_domain(d: Domain, n: nat) -> bool {
    &&& d.size == next_pow2(n)
    &&& is_pow2(d.size as nat)
    &&& d.size <= max_radix2_size()
    &&& d.size >= n
    &&& d.generator.val() == root_of_unity(d.size as nat)
    &&& fe_pow(d.generator, d.size as nat) == crate::field::fe_one()
    &&& d.size >= 2 ==> fe_pow(d.generator, (d.size / 2) as nat) == crate::field::fe_neg(crate::field::fe_one())
    &&& forall|m: nat|
        is_pow2(m) && m <= d.size ==> #[trigger] root_of_unity(m) == fe_pow(d.generator, (d.size as nat / m) as nat).val()
}

/// The trace polynomial: the interpolant of the trace on the subgroup
/// `GeneralEvaluationDomain::new` builds for as many points as the trace has
/// values (radix-2 up to 2^28 values, mixed-radix beyond; `None` where the
/// field has no such subgroup).
pub fn calculate_trace_polynomial(trace: &Vec<FieldElement>) -> (r: Option<(Vec<FieldElement>, Domain)>)
    ensures
        r is Some <==> supported_domain(trace.len() as nat),
        r matches Some((p, d)) ==> {
            &&& d.size == domain_size(trace.len() as nat)
            &&& d.generator.val() == root_of_unity(d.size as nat)
            &&& p@ == interpolant(trace@, d.size as nat)
            &&& crate::poly::is_interpolant(p@, trace@, d.size as nat)
            &&& trace.len() <= max_radix2_size() ==> is_radix2_domain(d, trace.len() as nat)
        },
{
    let domain = if trace.len() <= 0x1000_0000 {
        radix2_domain(trace.len())?
    } else {
        evaluation_domain(trace.len())?
    };
    let polynomial = crate::poly::interpolate(trace.len(), trace);
    Some((polynomial, domain))
}

/// The coefficients of `p(w*X)`: coefficient `i` times `w^i`.
pub open spec fn coset_shift(p: Seq<FieldElement>, w: FieldElement) -> Seq<FieldElement> {
    Seq::new(p.len(), |i: int| fe_mul(p[i], fe_pow(w, i as nat)))
}

fn shift_coefficients(polynomial: &Vec<FieldElement>, offset: &FieldElement) -> (r: Vec<FieldElement>)
    ensures
        r@ == coset_shift(polynomial@, *offset),
{
    let mut r: Vec<FieldElement> = Vec::new();
    let mut i: usize = 0;
    while i < polynomial.len()
        invariant
            i <= polynomial.len(),
            r.len() == i,
            forall|k: int| 0 <= k < i ==> #[trigger] r@[k] == coset_shift(polynomial@, *offset)[k],
        decreases polynomial.len() - i,
    {
        let w = crate::field::pow(offset, i as u64);
        r.push(crate::field::mul(&polynomial[i], &w));
        i = i + 1;
    }
    assert(r@ =~= coset_shift(polynomial@, *offset));
    r
}

/// The low-degree extension: the polynomial evaluated on the coset
/// `offset * H` of the subgroup `H` that `GeneralEvaluationDomain::new` builds
/// for `size * blowup_factor` points (radix-2 up to 2^28 points, mixed-radix
/// beyond; `None` where the field has no such subgroup or the product
/// overflows).
pub fn lde_on_coset(
    polynomial: &Vec<FieldElement>,
    size: usize,
    blowup_factor: usize,
    offset: FieldElement,
) -> (r: Option<(Vec<FieldElement>, Domain)>)
    ensures
        r is Some <==> size * blowup_factor <= usize::MAX && supported_domain((size * blowup_factor) as nat),
        r matches Some((e, d)) ==> {
            &&& d.size == domain_size((size * blowup_factor) as nat)
            &&& d.generator.val() == root_of_unity(d.size as nat)
            &&& e@ == fft_spec(coset_shift(polynomial@, offset), d.size as nat)
            &&& size * blowup_factor <= max_radix2_size() ==> is_radix2_domain(d, (size * blowup_factor) as nat)
        },
{
    let n = size.checked_mul(blowup_factor)?;
    let extended_domain = if n <= 0x1000_0000 {
        radix2_domain(n)?
    } else {
        evaluation_domain(n)?
    };
    let shifted_coeffs = shift_coefficients(polynomial, &offset);
    Some((fft(n, &shifted_coeffs), extended_domain))
}

/// The inverse of two.
pub open spec fn two_inv() -> FieldElement {
    fe_inv(fe_from_nat(2))
}

/// The value at `x^2` of the next FRI layer, from the values `fx` at `x` and
/// `fnx` at `-x`: `g(x^2) + beta * h(x^2)` where `g` and `h` are the even and
/// odd parts, `g(x^2) = (fx + fnx) / 2` and `h(x^2) = (fx - fnx) / (2x)`.
pub open spec fn fold_value(fx: FieldElement, fnx: FieldElement, beta: FieldElement, x: FieldElement) -> FieldElement {
    fe_add(
        fe_mul(fe_add(fx, fnx), two_inv()),
        fe_mul(beta, fe_mul(fe_mul(fe_sub(fx, fnx), two_inv()), fe_inv(x))),
    )
}

/// The next FRI layer: element `i` folds elements `i` and `i + n/2`.
pub open spec fn fri_fold(evals: Seq<FieldElement>, beta: FieldElement, domain: Seq<FieldElement>) -> Seq<FieldElement> {
    Seq::new(
        evals.len() / 2,
        |i: int| fold_value(evals[i], evals[i + evals.len() / 2], beta, domain[i]),
    )
}

/// The next FRI domain: the squares of the first `n` points.
pub open spec fn squares(domain: Seq<FieldElement>, n: nat) -> Seq<FieldElement> {
    Seq::new(n, |i: int| fe_mul(domain[i], domain[i]))
}

/// One of the first `n` points is zero.
pub open spec fn has_zero_point(domain: Seq<FieldElement>, n: nat) -> bool {
    exists|i: int| 0 <= i < n && domain[i] == fe_zero()
}

/// One FRI folding step; `None` when one of the points it divides by is zero.
pub fn fri_layer(evals: &[FieldElement], beta: FieldElement, domain: &[FieldElement]) -> (r: Option<
    (Vec<FieldElement>, Vec<FieldElement>),
>)
    requires
        domain.len() >= evals.len() / 2,
    ensures
        r is None <==> has_zero_point(domain@, (evals.len() / 2) as nat),
        r matches Some((e, d)) ==> e@ == fri_fold(evals@, beta, domain@) && d@ == squares(
            domain@,
            (evals.len() / 2) as nat,
        ),
{
    let n = evals.len();
    let half = n / 2;
    let mut next_evals: Vec<FieldElement> = Vec::new();
    let mut next_domain: Vec<FieldElement> = Vec::new();
    let two = crate::field::from_u64(2);
    proof {
        crate::field::lemma_small_nonzero(2);
    }
    let inv2 = match crate::field::inverse(&two) {
        Some(t) => t,
        None => {
            return None;
        },
    };
    let mut i: usize = 0;
    while i < half
        invariant
            n == evals.len(),
            half == n / 2,
            domain.len() >= half,
            inv2 == two_inv(),
            i <= half,
            next_evals.len() == i,
            next_domain.len() == i,
            forall|k: int| 0 <= k < i ==> #[trigger] next_evals@[k] == fri_fold(evals@, beta, domain@)[k],
            forall|k: int| 0 <= k < i ==> #[trigger] next_domain@[k] == squares(domain@, half as nat)[k],
            forall|k: int| 0 <= k < i ==> domain@[k] != fe_zero(),
        decreases half - i,
    {
        let x = domain[i];
        let fx = evals[i];
        let fnx = evals[i + half];
        let g = crate::field::mul(&crate::field::add(&fx, &fnx), &inv2);
        let x_inv = match crate::field::inverse(&x) {
            Some(v) => v,
            None => {
                assert(has_zero_point(domain@, (evals.len() / 2) as nat));
                return None;
            },
        };
        let h = crate::field::mul(&crate::field::mul(&crate::field::sub(&fx, &fnx), &inv2), &x_inv);
        next_evals.push(crate::field::add(&g, &crate::field::mul(&beta, &h)));
        next_domain.push(crate::field::mul(&x, &x));
        i = i + 1;
    }
    assert(next_evals@ =~= fri_fold(evals@, beta, domain@));
    assert(next_domain@ =~= squares(domain@, half as nat));
    Some((next_evals, next_domain))
}

/// The FRI layers folded from `evals` on `domain`, each folding challenge
/// drawn from `seed` followed by the roots of the layers before it; `None`
/// when a fold meets a zero point.
pub open spec fn fri_layers(evals: Seq<FieldElement>, domain: Seq<FieldElement>, seed: Seq<u8>) -> Option<
    Seq<Seq<FieldElement>>,
>
    decreases evals.len(),
{
    if evals.len() <= 1 {
        Some(Seq::empty())
    } else if has_zero_point(domain, evals.len() / 2) {
        None
    } else {
        let next = fri_fold(evals, fr_from_hash(seed), domain);
        match fri_layers(next, squares(domain, evals.len() / 2), seed + merkle_root(leaf_hashes(next))) {
            Some(rest) => Some(seq![next] + rest),
            None => None,
        }
    }
}

/// The contents of a sequence of vectors.
pub open spec fn vecs_view(v: Seq<Vec<FieldElement>>) -> Seq<Seq<FieldElement>> {
    v.map_values(|x: Vec<FieldElement>| x@)
}

/// The FRI commitment phase: the Merkle trees, the roots and the values of
/// every layer folded from the composition polynomial's values, down to one
/// value; `None` when a fold meets a zero point.
#[verifier::spinoff_prover]
pub fn calculate_fri_commitments(
    extended_evals: &[FieldElement],
    extended_domain: &[FieldElement],
    extended_trace_commitment: &[u8; 32],
    cp_commitment: &[u8; 32],
) -> (r: Option<(Vec<Vec<Vec<[u8; 32]>>>, Vec<[u8; 32]>, Vec<Vec<FieldElement>>)>)
    requires
        extended_domain.len() >= extended_evals.len() / 2,
    ensures
        r is Some <==> fri_layers(
            extended_evals@,
            extended_domain@,
            extended_trace_commitment@ + cp_commitment@,
        ) is Some,
        r matches Some((trees, commitments, layers)) ==> {
            &&& Some(vecs_view(layers@)) == fri_layers(
                extended_evals@,
                extended_domain@,
                extended_trace_commitment@ + cp_commitment@,
            )
            &&& trees.len() == layers.len() && commitments.len() == layers.len()
            &&& forall|k: int|
                0 <= k < layers.len() ==> #[trigger] tree_view(trees@[k]@) == merkle_levels(
                    leaf_hashes(layers@[k]@),
                ) && commitments@[k]@ == merkle_root(leaf_hashes(layers@[k]@))
        },
{
    let mut fiat_shamir_seed: Vec<u8> = Vec::new();
    extend_with_hash(&mut fiat_shamir_seed, extended_trace_commitment);
    extend_with_hash(&mut fiat_shamir_seed, cp_commitment);
    let mut current_evals: Vec<FieldElement> = crate::field::copy_elements(extended_evals);
    let mut current_domain: Vec<FieldElement> = crate::field::copy_elements(extended_domain);
    let mut commitments: Vec<[u8; 32]> = Vec::new();
    let mut merkle_trees: Vec<Vec<Vec<[u8; 32]>>> = Vec::new();
    let mut evals: Vec<Vec<FieldElement>> = Vec::new();
    let ghost target = fri_layers(
        extended_evals@,
        extended_domain@,
        extended_trace_commitment@ + cp_commitment@,
    );
    assert(fiat_shamir_seed@ =~= extended_trace_commitment@ + cp_commitment@);
    assert(vecs_view(evals@) =~= Seq::<Seq<FieldElement>>::empty());
    while current_evals.len() > 1
        invariant
            current_domain.len() >= current_evals.len() / 2,
            target == fri_layers(
                extended_evals@,
                extended_domain@,
                extended_trace_commitment@ + cp_commitment@,
            ),
            target == match fri_layers(current_evals@, current_domain@, fiat_shamir_seed@) {
                Some(rest) => Some(vecs_view(evals@) + rest),
                None => None::<Seq<Seq<FieldElement>>>,
            },
            merkle_trees.len() == evals.len(),
            commitments.len() == evals.len(),
            forall|k: int|
                0 <= k < evals.len() ==> #[trigger] tree_view(merkle_trees@[k]@) == merkle_levels(
                    leaf_hashes(evals@[k]@),
                ) && commitments@[k]@ == merkle_root(leaf_hashes(evals@[k]@)),
        decreases current_evals.len(),
    {
        let beta = random_fr_from_hash(fiat_shamir_seed.as_slice());
        let layer = fri_layer(current_evals.as_slice(), beta, current_domain.as_slice());
        let (next_evals, next_domain) = match layer {
            Some(l) => l,
            None => {
                return None;
            },
        };
        let (next_merkle_tree, next_commitment) = compute_merkle_root(next_evals.as_slice());
        let ghost old_seed = fiat_shamir_seed@;
        let ghost old_evals = vecs_view(evals@);
        extend_with_hash(&mut fiat_shamir_seed, &next_commitment);
        commitments.push(next_commitment);
        merkle_trees.push(next_merkle_tree);
        evals.push(crate::field::copy_elements(next_evals.as_slice()));
        assert(vecs_view(evals@) =~= old_evals.push(next_evals@));
        proof {
            let rest_opt = fri_layers(next_evals@, next_domain@, fiat_shamir_seed@);
            match rest_opt {
                Some(rest) => {
                    assert(old_evals + (seq![next_evals@] + rest) =~= old_evals.push(next_evals@) + rest);
                },
                None => {},
            }
        }
        current_evals = next_evals;
        current_domain = next_domain;
    }
    assert(fri_layers(current_evals@, current_domain@, fiat_shamir_seed@) == Some(Seq::<Seq<FieldElement>>::empty()));
    assert(vecs_view(evals@) + Seq::<Seq<FieldElement>>::empty() =~= vecs_view(evals@));
    assert(target == Some(vecs_view(evals@)));
    Some((merkle_trees, commitments, evals))
}

/// The opening of value `i` of `evals`: the value and its authentication
/// path in the Merkle tree of `evals`.
pub open spec fn opening(evals: Seq<FieldElement>, i: nat) -> Opening {
    (evals[i as int], merkle_path(i, merkle_levels(leaf_hashes(evals))))
}

/// The openings of a layer at position `i` and at the position of the
/// opposite point, `n/2` further round the layer.
pub open spec fn layer_pair(evals: Seq<FieldElement>, i: nat) -> (Opening, Opening) {
    (opening(evals, i), opening(evals, (evals.len() / 2 + i) % evals.len()))
}

/// The honest answer to query `q`.
pub open spec fn query_view_spec(
    q: nat,
    blowup_factor: nat,
    ext: Seq<FieldElement>,
    cp: Seq<FieldElement>,
    fri: Seq<Seq<FieldElement>>,
) -> QueryView {
    let n = ext.len();
    let gq = (q + blowup_factor) % n;
    let ggq = (gq + blowup_factor) % n;
    (
        opening(ext, q),
        opening(ext, gq),
        opening(ext, ggq),
        seq![layer_pair(cp, q)] + Seq::new(
            fri.len(),
            |k: int| layer_pair(fri[k], q % fri[k].len()),
        ),
    )
}

/// `tree` is the Merkle tree of `evals`, whose length is a power of two.
pub open spec fn committed(evals: Seq<FieldElement>, tree: Seq<Vec<[u8; 32]>>) -> bool {
    &&& is_pow2(evals.len())
    &&& tree_view(tree) == merkle_levels(leaf_hashes(evals))
}

/// The levels of each of a sequence of trees.
pub open spec fn forest_view(trees: Seq<Vec<Vec<[u8; 32]>>>) -> Seq<Seq<Seq<Seq<u8>>>> {
    trees.map_values(|t: Vec<Vec<[u8; 32]>>| tree_view(t@))
}

/// Value `i` of `evals` with the siblings on its path up the levels `tree`.
pub open spec fn tree_opening(evals: Seq<FieldElement>, tree: Seq<Seq<Seq<u8>>>, i: nat) -> Opening {
    (evals[i as int], merkle_path(i, tree))
}

/// The position of the point opposite position `i` in a layer of `n`
/// values: `n/2` further round the layer.
pub open spec fn opposite(i: nat, n: nat) -> nat {
    (n / 2 + i) % n
}

/// The openings at position `i` and at the opposite position.
pub open spec fn tree_pair(evals: Seq<FieldElement>, tree: Seq<Seq<Seq<u8>>>, i: nat) -> (Opening, Opening) {
    (tree_opening(evals, tree, i), tree_opening(evals, tree, opposite(i, evals.len())))
}

/// Value `i` of `evals` exists, and so does every sibling on its path up
/// `tree`.
pub open spec fn can_open(evals: Seq<FieldElement>, tree: Seq<Seq<Seq<u8>>>, i: nat) -> bool {
    i < evals.len() && path_in_bounds(i, tree)
}

/// The layer is not empty, and position `i` (reduced modulo its length) and
/// the opposite position can both be opened.
pub open spec fn layer_can_open(evals: Seq<FieldElement>, tree: Seq<Seq<Seq<u8>>>, i: nat) -> bool {
    &&& evals.len() > 0
    &&& can_open(evals, tree, i % evals.len())
    &&& can_open(evals, tree, opposite(i % evals.len(), evals.len()))
}

/// The smaller of two lengths.
pub open spec fn min_len(a: nat, b: nat) -> nat {
    if a <= b {
        a
    } else {
        b
    }
}

/// Query `q` can be answered from these values and trees: every value and
/// every sibling the answer reads exists. Layers without a tree (or trees
/// without a layer) are not read.
pub open spec fn can_answer(
    q: nat,
    blowup_factor: nat,
    ext: Seq<FieldElement>,
    ext_tree: Seq<Seq<Seq<u8>>>,
    cp: Seq<FieldElement>,
    cp_tree: Seq<Seq<Seq<u8>>>,
    fri: Seq<Seq<FieldElement>>,
    fri_trees: Seq<Seq<Seq<Seq<u8>>>>,
) -> bool {
    let n = ext.len();
    let gq = (q + blowup_factor) % n;
    let ggq = (gq + blowup_factor) % n;
    &&& can_open(ext, ext_tree, q)
    &&& can_open(ext, ext_tree, gq)
    &&& can_open(ext, ext_tree, ggq)
    &&& q < cp.len()
    &&& layer_can_open(cp, cp_tree, q)
    &&& forall|k: int| 0 <= k < min_len(fri.len(), fri_trees.len()) ==> #[trigger] layer_can_open(fri[k], fri_trees[k], q)
}

/// The answer to query `q` read from these values and trees: the trace at
/// `q`, `q + blowup_factor` and `q + 2 * blowup_factor` (round the extended
/// domain), then the composition values and each layer that has a tree at
/// `q` (reduced to the layer) and at the opposite point, each with the
/// siblings on its path up its tree.
pub open spec fn query_answer(
    q: nat,
    blowup_factor: nat,
    ext: Seq<FieldElement>,
    ext_tree: Seq<Seq<Seq<u8>>>,
    cp: Seq<FieldElement>,
    cp_tree: Seq<Seq<Seq<u8>>>,
    fri: Seq<Seq<FieldElement>>,
    fri_trees: Seq<Seq<Seq<Seq<u8>>>>,
) -> QueryView {
    let n = ext.len();
    let gq = (q + blowup_factor) % n;
    let ggq = (gq + blowup_factor) % n;
    (
        tree_opening(ext, ext_tree, q),
        tree_opening(ext, ext_tree, gq),
        tree_opening(ext, ext_tree, ggq),
        seq![tree_pair(cp, cp_tree, q)] + Seq::new(
            min_len(fri.len(), fri_trees.len()),
            |k: int| tree_pair(fri[k], fri_trees[k], q % fri[k].len()),
        ),
    )
}

/// Read from the Merkle trees of the values themselves (power-of-two many of
/// each, as many composition values as trace values, one tree per layer),
/// every query in range can be answered, and the answer is the honest one.
pub proof fn lemma_committed_answer(
    q: nat,
    blowup_factor: nat,
    ext: Seq<FieldElement>,
    ext_tree: Seq<Vec<[u8; 32]>>,
    cp: Seq<FieldElement>,
    cp_tree: Seq<Vec<[u8; 32]>>,
    fri_evals: Seq<Vec<FieldElement>>,
    fri_trees: Seq<Vec<Vec<[u8; 32]>>>,
)
    requires
        q < ext.len(),
        committed(ext, ext_tree),
        committed(cp, cp_tree),
        cp.len() == ext.len(),
        fri_evals.len() == fri_trees.len(),
        forall|k: int| 0 <= k < fri_evals.len() ==> #[trigger] committed(fri_evals[k]@, fri_trees[k]@),
    ensures
        can_answer(q, blowup_factor, ext, tree_view(ext_tree), cp, tree_view(cp_tree), vecs_view(fri_evals), forest_view(fri_trees)),
        query_answer(q, blowup_factor, ext, tree_view(ext_tree), cp, tree_view(cp_tree), vecs_view(fri_evals), forest_view(fri_trees))
            == query_view_spec(q, blowup_factor, ext, cp, vecs_view(fri_evals)),
{
    let n = ext.len();
    let gq = (q + blowup_factor) % n;
    let ggq = (gq + blowup_factor) % n;
    let fri = vecs_view(fri_evals);
    let trees = forest_view(fri_trees);
    lemma_merkle_leaf_opening(ext, q);
    lemma_merkle_leaf_opening(ext, gq);
    lemma_merkle_leaf_opening(ext, ggq);
    lemma_merkle_leaf_opening(cp, q);
    assert(q % cp.len() == q) by {
        vstd::arithmetic::div_mod::lemma_small_mod(q, cp.len());
    }
    lemma_merkle_leaf_opening(cp, opposite(q, cp.len()));
    assert forall|k: int| 0 <= k < min_len(fri.len(), trees.len()) implies #[trigger] layer_can_open(fri[k], trees[k], q)
        && tree_pair(fri[k], trees[k], q % fri[k].len()) == layer_pair(fri[k], q % fri[k].len()) by {
        assert(committed(fri_evals[k]@, fri_trees[k]@));
        assert(fri[k] == fri_evals[k]@);
        assert(trees[k] == tree_view(fri_trees[k]@));
        let len = fri[k].len();
        assert(len > 0);
        let i = q % len;
        lemma_merkle_leaf_opening(fri[k], i);
        lemma_merkle_leaf_opening(fri[k], opposite(i, len));
    }
    let want = query_view_spec(q, blowup_factor, ext, cp, fri);
    let got = query_answer(q, blowup_factor, ext, tree_view(ext_tree), cp, tree_view(cp_tree), fri, trees);
    assert(trees.len() == fri.len());
    assert(got.3.len() == want.3.len());
    assert forall|j: int| 0 <= j < got.3.len() implies got.3[j] == want.3[j] by {
        if j > 0 {
            assert(layer_can_open(fri[j - 1], trees[j - 1], q));
        }
    }
    assert(got.3 =~= want.3);
}

fn open_at(evals: &[FieldElement], tree: &[Vec<[u8; 32]>], i: usize) -> (r: ValueAndPath)
    requires
        can_open(evals@, tree_view(tree@), i as nat),
    ensures
        r.view() == tree_opening(evals@, tree_view(tree@), i as nat),
{
    ValueAndPath { value: evals[i], path: extract_path_from_merkle_tree(&i, tree) }
}

fn open_pair(evals: &[FieldElement], tree: &[Vec<[u8; 32]>], i: usize) -> (r: CpPair)
    requires
        can_open(evals@, tree_view(tree@), i as nat),
        can_open(evals@, tree_view(tree@), opposite(i as nat, evals.len() as nat)),
    ensures
        r.view() == tree_pair(evals@, tree_view(tree@), i as nat),
{
    let n = evals.len();
    let negative_index = if i >= n - n / 2 {
        i - (n - n / 2)
    } else {
        i + n / 2
    };
    proof {
        if i >= n - n / 2 {
            vstd::arithmetic::div_mod::lemma_fundamental_div_mod_converse(
                (n / 2 + i) as int, n as int, 1, negative_index as int);
        } else {
            vstd::arithmetic::div_mod::lemma_small_mod((n / 2 + i) as nat, n as nat);
        }
    }
    CpPair { cp_x: open_at(evals, tree, i), cp_minus_x: open_at(evals, tree, negative_index) }
}

/// The answer to query `q`: the trace at `q`, `q + blowup_factor` and
/// `q + 2 * blowup_factor` (round the extended domain), and the composition
/// polynomial and every FRI layer at `q` (reduced to the layer) and at the
/// opposite point, each with the siblings on its path up the tree given for
/// it.
pub fn calculate_query_proof(
    q: usize,
    blowup_factor: usize,
    extended_trace_evals: &[FieldElement],
    extended_trace_merkle_tree: &[Vec<[u8; 32]>],
    cp_evals: &[FieldElement],
    cp_merkle_tree: &[Vec<[u8; 32]>],
    fri_evals: &[Vec<FieldElement>],
    fri_merkle_tree: &[Vec<Vec<[u8; 32]>>],
) -> (r: QueryProof)
    requires
        extended_trace_evals.len() + blowup_factor <= usize::MAX,
        can_answer(
            q as nat,
            blowup_factor as nat,
            extended_trace_evals@,
            tree_view(extended_trace_merkle_tree@),
            cp_evals@,
            tree_view(cp_merkle_tree@),
            vecs_view(fri_evals@),
            forest_view(fri_merkle_tree@),
        ),
    ensures
        r.view() == query_answer(
            q as nat,
            blowup_factor as nat,
            extended_trace_evals@,
            tree_view(extended_trace_merkle_tree@),
            cp_evals@,
            tree_view(cp_merkle_tree@),
            vecs_view(fri_evals@),
            forest_view(fri_merkle_tree@),
        ),
{
    let ghost fri = vecs_view(fri_evals@);
    let ghost trees = forest_view(fri_merkle_tree@);
    let n = extended_trace_evals.len();
    let f_x = open_at(extended_trace_evals, extended_trace_merkle_tree, q);
    let gq: usize = (q + blowup_factor) % n;
    let f_gx = open_at(extended_trace_evals, extended_trace_merkle_tree, gq);
    let ggq: usize = (gq + blowup_factor) % n;
    let f_g2x = open_at(extended_trace_evals, extended_trace_merkle_tree, ggq);
    let mut cp_pairs: Vec<CpPair> = Vec::new();
    proof {
        vstd::arithmetic::div_mod::lemma_small_mod(q as nat, cp_evals.len() as nat);
    }
    cp_pairs.push(open_pair(cp_evals, cp_merkle_tree, q));
    let m = if fri_evals.len() <= fri_merkle_tree.len() {
        fri_evals.len()
    } else {
        fri_merkle_tree.len()
    };
    let mut k: usize = 0;
    while k < m
        invariant
            k <= m,
            m == min_len(fri.len(), trees.len()),
            fri == vecs_view(fri_evals@),
            trees == forest_view(fri_merkle_tree@),
            forall|j: int| 0 <= j < m ==> #[trigger] layer_can_open(fri[j], trees[j], q as nat),
            cp_pairs.len() == k + 1,
            cp_pairs@[0].view() == tree_pair(cp_evals@, tree_view(cp_merkle_tree@), q as nat),
            forall|j: int|
                0 <= j < k ==> #[trigger] cp_pairs@[j + 1].view() == tree_pair(
                    fri[j],
                    trees[j],
                    (q as nat) % fri[j].len(),
                ),
        decreases m - k,
    {
        let sub_cp_evals = &fri_evals[k];
        assert(layer_can_open(fri[k as int], trees[k as int], q as nat));
        assert(fri[k as int] == sub_cp_evals@);
        assert(trees[k as int] == tree_view(fri_merkle_tree@[k as int]@));
        let index = q % sub_cp_evals.len();
        cp_pairs.push(open_pair(sub_cp_evals.as_slice(), fri_merkle_tree[k].as_slice(), index));
        k = k + 1;
    }
    let r = QueryProof { f_x, f_gx, f_g2x, cp_pairs };
    let ghost want = query_answer(
        q as nat,
        blowup_factor as nat,
        extended_trace_evals@,
        tree_view(extended_trace_merkle_tree@),
        cp_evals@,
        tree_view(cp_merkle_tree@),
        fri,
        trees,
    ).3;
    assert forall|j: int| 0 <= j < r.view().3.len() implies r.view().3[j] == want[j] by {
        if j > 0 {
            assert(r.cp_pairs@[(j - 1) + 1].view() == tree_pair(fri[j - 1], trees[j - 1], (q as nat) % fri[j - 1].len()));
        }
    }
    assert(r.view().3 =~= want);
    r
}

/// The roots of the Merkle trees of the layers, one after the other.
pub open spec fn layer_roots_bytes(layers: Seq<Seq<FieldElement>>) -> Seq<u8>
    decreases layers.len(),
{
    if layers.len() == 0 {
        Seq::empty()
    } else {
        layer_roots_bytes(layers.drop_last()) + merkle_root(leaf_hashes(layers.last()))
    }
}

/// The transcript the query indices are first drawn from: the roots of the
/// extended trace, of the composition polynomial and of every FRI layer.
pub open spec fn query_seed(
    ext: Seq<FieldElement>,
    cp: Seq<FieldElement>,
    fri: Seq<Seq<FieldElement>>,
) -> Seq<u8> {
    merkle_root(leaf_hashes(ext)) + merkle_root(leaf_hashes(cp)) + layer_roots_bytes(fri)
}

/// The honest answers to `count` queries: each index is drawn from the
/// transcript so far, which then takes in every path of the answer.
pub open spec fn query_views(
    seed: Seq<u8>,
    count: nat,
    blowup_factor: nat,
    ext: Seq<FieldElement>,
    cp: Seq<FieldElement>,
    fri: Seq<Seq<FieldElement>>,
) -> Seq<QueryView>
    decreases count,
{
    if count == 0 {
        Seq::empty()
    } else {
        let qv = query_view_spec(hash_to_index(seed, ext.len()), blowup_factor, ext, cp, fri);
        seq![qv] + query_views(seed + query_transcript(qv), (count - 1) as nat, blowup_factor, ext, cp, fri)
    }
}

/// The views of a sequence of query answers.
pub open spec fn proofs_view(proofs: Seq<QueryProof>) -> Seq<QueryView> {
    proofs.map_values(|p: QueryProof| p.view())
}

/// The nodes of the top level of the levels `tree`, one after the other
/// (none for a tree without levels).
pub open spec fn top_level_bytes(tree: Seq<Seq<Seq<u8>>>) -> Seq<u8> {
    if tree.len() == 0 {
        Seq::empty()
    } else {
        flatten(tree.last())
    }
}

/// The top levels of a sequence of trees, one after the other.
pub open spec fn forest_tops_bytes(trees: Seq<Seq<Seq<Seq<u8>>>>) -> Seq<u8>
    decreases trees.len(),
{
    if trees.len() == 0 {
        Seq::empty()
    } else {
        forest_tops_bytes(trees.drop_last()) + top_level_bytes(trees.last())
    }
}

/// The transcript the query indices are first drawn from, read off the
/// trees: the last node of the extended trace's tree, the last node of the
/// composition tree, and every node of the top level of every FRI tree.
pub open spec fn tree_query_seed(
    ext_tree: Seq<Seq<Seq<u8>>>,
    cp_tree: Seq<Seq<Seq<u8>>>,
    fri_trees: Seq<Seq<Seq<Seq<u8>>>>,
) -> Seq<u8> {
    ext_tree.last().last() + cp_tree.last().last() + forest_tops_bytes(fri_trees)
}

/// The answers to `count` queries read from these values and trees: each
/// index is drawn from the transcript so far, which then takes in every path
/// of the answer.
pub open spec fn query_answers(
    seed: Seq<u8>,
    count: nat,
    blowup_factor: nat,
    ext: Seq<FieldElement>,
    ext_tree: Seq<Seq<Seq<u8>>>,
    cp: Seq<FieldElement>,
    cp_tree: Seq<Seq<Seq<u8>>>,
    fri: Seq<Seq<FieldElement>>,
    fri_trees: Seq<Seq<Seq<Seq<u8>>>>,
) -> Seq<QueryView>
    decreases count,
{
    if count == 0 {
        Seq::empty()
    } else {
        let qa = query_answer(hash_to_index(seed, ext.len()), blowup_factor, ext, ext_tree, cp, cp_tree, fri, fri_trees);
        seq![qa] + query_answers(
            seed + query_transcript(qa),
            (count - 1) as nat,
            blowup_factor,
            ext,
            ext_tree,
            cp,
            cp_tree,
            fri,
            fri_trees,
        )
    }
}

/// The answers to the first `k` queries do not depend on how many queries
/// follow: they are the answers to `k` queries.
pub proof fn lemma_query_answers_prefix(
    seed: Seq<u8>,
    count: nat,
    k: nat,
    blowup_factor: nat,
    ext: Seq<FieldElement>,
    ext_tree: Seq<Seq<Seq<u8>>>,
    cp: Seq<FieldElement>,
    cp_tree: Seq<Seq<Seq<u8>>>,
    fri: Seq<Seq<FieldElement>>,
    fri_trees: Seq<Seq<Seq<Seq<u8>>>>,
)
    requires
        k <= count,
    ensures
        query_answers(seed, count, blowup_factor, ext, ext_tree, cp, cp_tree, fri, fri_trees).len() == count,
        query_answers(seed, count, blowup_factor, ext, ext_tree, cp, cp_tree, fri, fri_trees).take(k as int)
            == query_answers(seed, k, blowup_factor, ext, ext_tree, cp, cp_tree, fri, fri_trees),
    decreases count,
{
    if count > 0 {
        let qa = query_answer(hash_to_index(seed, ext.len()), blowup_factor, ext, ext_tree, cp, cp_tree, fri, fri_trees);
        let next = seed + query_transcript(qa);
        let all = query_answers(seed, count, blowup_factor, ext, ext_tree, cp, cp_tree, fri, fri_trees);
        let rest = query_answers(next, (count - 1) as nat, blowup_factor, ext, ext_tree, cp, cp_tree, fri, fri_trees);
        if k > 0 {
            lemma_query_answers_prefix(next, (count - 1) as nat, (k - 1) as nat, blowup_factor, ext, ext_tree, cp, cp_tree, fri, fri_trees);
            let short = query_answers(next, (k - 1) as nat, blowup_factor, ext, ext_tree, cp, cp_tree, fri, fri_trees);
            assert(all.take(k as int) =~= seq![qa] + rest.take(k - 1));
            assert(query_answers(seed, k, blowup_factor, ext, ext_tree, cp, cp_tree, fri, fri_trees) == seq![qa] + short);
        } else {
            lemma_query_answers_prefix(next, (count - 1) as nat, 0, blowup_factor, ext, ext_tree, cp, cp_tree, fri, fri_trees);
            assert(all.take(0) =~= Seq::<QueryView>::empty());
        }
    }
}

/// A drawn index is below a nonzero modulus.
pub proof fn lemma_hash_to_index_bound(seed: Seq<u8>, n: nat)
    requires
        n > 0,
    ensures
        hash_to_index(seed, n) < n,
{
    if seed.len() > 0 {
        let x = (hash_to_index(seed.drop_last(), n) * 256 + seed.last() as nat) % crate::hashing::usize_range();
        assert(x % n < n) by (nonlinear_arith) requires n > 0;
    }
}

/// Read from the Merkle trees of the values themselves, the first transcript
/// is the honest one: the roots of the trace, of the composition values and
/// of every layer.
pub proof fn lemma_committed_seed(
    ext: Seq<FieldElement>,
    ext_tree: Seq<Vec<[u8; 32]>>,
    cp: Seq<FieldElement>,
    cp_tree: Seq<Vec<[u8; 32]>>,
    fri_evals: Seq<Vec<FieldElement>>,
    fri_trees: Seq<Vec<Vec<[u8; 32]>>>,
)
    requires
        committed(ext, ext_tree),
        committed(cp, cp_tree),
        fri_evals.len() == fri_trees.len(),
        forall|k: int| 0 <= k < fri_evals.len() ==> #[trigger] committed(fri_evals[k]@, fri_trees[k]@),
    ensures
        tree_view(ext_tree).len() > 0,
        tree_view(ext_tree).last().len() > 0,
        tree_view(cp_tree).len() > 0,
        tree_view(cp_tree).last().len() > 0,
        tree_query_seed(tree_view(ext_tree), tree_view(cp_tree), forest_view(fri_trees))
            == query_seed(ext, cp, vecs_view(fri_evals)),
{
    crate::merkle::lemma_top_level(leaf_hashes(ext));
    crate::merkle::lemma_top_level(leaf_hashes(cp));
    lemma_committed_tops(fri_evals, fri_trees);
}

/// The top levels of the Merkle trees of power-of-two many values are their
/// roots.
pub proof fn lemma_committed_tops(fri_evals: Seq<Vec<FieldElement>>, fri_trees: Seq<Vec<Vec<[u8; 32]>>>)
    requires
        fri_evals.len() == fri_trees.len(),
        forall|k: int| 0 <= k < fri_evals.len() ==> #[trigger] committed(fri_evals[k]@, fri_trees[k]@),
    ensures
        forest_tops_bytes(forest_view(fri_trees)) == layer_roots_bytes(vecs_view(fri_evals)),
    decreases fri_evals.len(),
{
    if fri_evals.len() > 0 {
        let m = (fri_evals.len() - 1) as int;
        assert forall|k: int| 0 <= k < fri_evals.drop_last().len() implies #[trigger] committed(
            fri_evals.drop_last()[k]@,
            fri_trees.drop_last()[k]@,
        ) by {
            assert(committed(fri_evals[k]@, fri_trees[k]@));
        }
        lemma_committed_tops(fri_evals.drop_last(), fri_trees.drop_last());
        assert(forest_view(fri_trees).drop_last() =~= forest_view(fri_trees.drop_last()));
        assert(vecs_view(fri_evals).drop_last() =~= vecs_view(fri_evals.drop_last()));
        assert(committed(fri_evals[m]@, fri_trees[m]@));
        let layer = fri_evals[m]@;
        crate::merkle::lemma_top_level(leaf_hashes(layer));
        crate::data::lemma_flatten_one(merkle_root(leaf_hashes(layer)));
        assert(forest_view(fri_trees).last() == tree_view(fri_trees[m]@));
        assert(vecs_view(fri_evals).last() == layer);
    } else {
        assert(forest_view(fri_trees) =~= Seq::<Seq<Seq<Seq<u8>>>>::empty());
        assert(vecs_view(fri_evals) =~= Seq::<Seq<FieldElement>>::empty());
    }
}

/// Read from the Merkle trees of the values themselves, the answers to any
/// number of queries from any transcript are the honest ones.
pub proof fn lemma_committed_answers(
    seed: Seq<u8>,
    count: nat,
    blowup_factor: nat,
    ext: Seq<FieldElement>,
    ext_tree: Seq<Vec<[u8; 32]>>,
    cp: Seq<FieldElement>,
    cp_tree: Seq<Vec<[u8; 32]>>,
    fri_evals: Seq<Vec<FieldElement>>,
    fri_trees: Seq<Vec<Vec<[u8; 32]>>>,
)
    requires
        committed(ext, ext_tree),
        committed(cp, cp_tree),
        cp.len() == ext.len(),
        fri_evals.len() == fri_trees.len(),
        forall|k: int| 0 <= k < fri_evals.len() ==> #[trigger] committed(fri_evals[k]@, fri_trees[k]@),
    ensures
        query_answers(seed, count, blowup_factor, ext, tree_view(ext_tree), cp, tree_view(cp_tree), vecs_view(fri_evals), forest_view(fri_trees))
            == query_views(seed, count, blowup_factor, ext, cp, vecs_view(fri_evals)),
    decreases count,
{
    if count > 0 {
        let q = hash_to_index(seed, ext.len());
        lemma_hash_to_index_bound(seed, ext.len());
        lemma_committed_answer(q, blowup_factor, ext, ext_tree, cp, cp_tree, fri_evals, fri_trees);
        let qv = query_view_spec(q, blowup_factor, ext, cp, vecs_view(fri_evals));
        lemma_committed_answers(seed + query_transcript(qv), (count - 1) as nat, blowup_factor, ext, ext_tree, cp, cp_tree, fri_evals, fri_trees);
    }
}

fn last_node(tree: &[Vec<[u8; 32]>]) -> (r: [u8; 32])
    requires
        tree.len() > 0,
        tree@.last().len() > 0,
    ensures
        r@ == tree_view(tree@).last().last(),
{
    let top = &tree[tree.len() - 1];
    assert(tree_view(tree@).last() == level_view(top@));
    top[top.len() - 1]
}

/// The answers to `num_queries` queries, their indices drawn by Fiat-Shamir
/// from the last node of the trace's tree and of the composition tree, every
/// node of the top level of every FRI tree, and the paths already sent.
pub fn calculate_query_proofs(
    num_queries: usize,
    blowup_factor: usize,
    extended_trace_evals: &[FieldElement],
    extended_trace_merkle_tree: &[Vec<[u8; 32]>],
    cp_evals: &[FieldElement],
    cp_merkle_tree: &[Vec<[u8; 32]>],
    fri_evals: &[Vec<FieldElement>],
    fri_merkle_tree: &[Vec<Vec<[u8; 32]>>],
) -> (r: Vec<QueryProof>)
    requires
        extended_trace_evals.len() > 0,
        extended_trace_evals.len() + blowup_factor <= usize::MAX,
        extended_trace_merkle_tree.len() > 0,
        extended_trace_merkle_tree@.last().len() > 0,
        cp_merkle_tree.len() > 0,
        cp_merkle_tree@.last().len() > 0,
        forall|q: nat|
            q < extended_trace_evals.len() ==> #[trigger] can_answer(
                q,
                blowup_factor as nat,
                extended_trace_evals@,
                tree_view(extended_trace_merkle_tree@),
                cp_evals@,
                tree_view(cp_merkle_tree@),
                vecs_view(fri_evals@),
                forest_view(fri_merkle_tree@),
            ),
    ensures
        r.len() == num_queries,
        proofs_view(r@) == query_answers(
            tree_query_seed(tree_view(extended_trace_merkle_tree@), tree_view(cp_merkle_tree@), forest_view(fri_merkle_tree@)),
            num_queries as nat,
            blowup_factor as nat,
            extended_trace_evals@,
            tree_view(extended_trace_merkle_tree@),
            cp_evals@,
            tree_view(cp_merkle_tree@),
            vecs_view(fri_evals@),
            forest_view(fri_merkle_tree@),
        ),
{
    let ghost ext = extended_trace_evals@;
    let ghost et = tree_view(extended_trace_merkle_tree@);
    let ghost cp = cp_evals@;
    let ghost ct = tree_view(cp_merkle_tree@);
    let ghost fri = vecs_view(fri_evals@);
    let ghost trees = forest_view(fri_merkle_tree@);
    let ghost n = ext.len();
    let mut fiat_shamir_seed: Vec<u8> = Vec::new();
    let ext_last = last_node(extended_trace_merkle_tree);
    let cp_last = last_node(cp_merkle_tree);
    extend_with_hash(&mut fiat_shamir_seed, &ext_last);
    extend_with_hash(&mut fiat_shamir_seed, &cp_last);
    let mut k: usize = 0;
    assert(trees.take(0) =~= Seq::<Seq<Seq<Seq<u8>>>>::empty());
    assert(fiat_shamir_seed@ =~= et.last().last() + ct.last().last() + forest_tops_bytes(trees.take(0)));
    while k < fri_merkle_tree.len()
        invariant
            k <= fri_merkle_tree.len(),
            trees == forest_view(fri_merkle_tree@),
            fiat_shamir_seed@ == et.last().last() + ct.last().last() + forest_tops_bytes(trees.take(k as int)),
        decreases fri_merkle_tree.len() - k,
    {
        let tree = &fri_merkle_tree[k];
        assert(trees[k as int] == tree_view(tree@));
        assert(trees.take(k + 1).drop_last() =~= trees.take(k as int));
        assert(trees.take(k + 1).last() == trees[k as int]);
        if tree.len() > 0 {
            let top = &tree[tree.len() - 1];
            assert(tree_view(tree@).last() == level_view(top@));
            extend_with_hashes(&mut fiat_shamir_seed, top);
        } else {
            assert(fiat_shamir_seed@ + top_level_bytes(trees[k as int]) =~= fiat_shamir_seed@);
        }
        assert(fiat_shamir_seed@ =~= et.last().last() + ct.last().last() + forest_tops_bytes(trees.take(k + 1)));
        k = k + 1;
    }
    assert(trees.take(fri_merkle_tree.len() as int) =~= trees);
    let ghost seed0 = fiat_shamir_seed@;
    let mut query_proofs: Vec<QueryProof> = Vec::new();
    let mut i: usize = 0;
    assert(proofs_view(query_proofs@) =~= Seq::<QueryView>::empty());
    assert(Seq::<QueryView>::empty() + query_answers(seed0, num_queries as nat, blowup_factor as nat, ext, et, cp, ct, fri, trees)
        =~= query_answers(seed0, num_queries as nat, blowup_factor as nat, ext, et, cp, ct, fri, trees));
    while i < num_queries
        invariant
            i <= num_queries,
            ext == extended_trace_evals@,
            et == tree_view(extended_trace_merkle_tree@),
            cp == cp_evals@,
            ct == tree_view(cp_merkle_tree@),
            fri == vecs_view(fri_evals@),
            trees == forest_view(fri_merkle_tree@),
            n == ext.len(),
            n > 0,
            extended_trace_evals.len() + blowup_factor <= usize::MAX,
            forall|q: nat| q < n ==> #[trigger] can_answer(q, blowup_factor as nat, ext, et, cp, ct, fri, trees),
            query_proofs.len() == i,
            proofs_view(query_proofs@) + query_answers(
                fiat_shamir_seed@,
                (num_queries - i) as nat,
                blowup_factor as nat,
                ext,
                et,
                cp,
                ct,
                fri,
                trees,
            ) == query_answers(seed0, num_queries as nat, blowup_factor as nat, ext, et, cp, ct, fri, trees),
        decreases num_queries - i,
    {
        let q = crate::hashing::integer_from_hash(fiat_shamir_seed.as_slice(), extended_trace_evals.len());
        assert(can_answer(q as nat, blowup_factor as nat, ext, et, cp, ct, fri, trees));
        let query_proof = calculate_query_proof(
            q,
            blowup_factor,
            extended_trace_evals,
            extended_trace_merkle_tree,
            cp_evals,
            cp_merkle_tree,
            fri_evals,
            fri_merkle_tree,
        );
        let ghost before_seed = fiat_shamir_seed@;
        let ghost before_views = proofs_view(query_proofs@);
        extend_with_query(&mut fiat_shamir_seed, &query_proof);
        let ghost qv = query_proof.view();
        query_proofs.push(query_proof);
        assert(proofs_view(query_proofs@) =~= before_views.push(qv));
        assert(query_answers(before_seed, (num_queries - i) as nat, blowup_factor as nat, ext, et, cp, ct, fri, trees)
            == seq![qv] + query_answers(fiat_shamir_seed@, (num_queries - i - 1) as nat, blowup_factor as nat, ext, et, cp, ct, fri, trees));
        assert(before_views + (seq![qv] + query_answers(fiat_shamir_seed@, (num_queries - i - 1) as nat, blowup_factor as nat, ext, et, cp, ct, fri, trees))
            =~= before_views.push(qv) + query_answers(fiat_shamir_seed@, (num_queries - i - 1) as nat, blowup_factor as nat, ext, et, cp, ct, fri, trees));
        i = i + 1;
    }
    assert(query_answers(fiat_shamir_seed@, 0, blowup_factor as nat, ext, et, cp, ct, fri, trees) =~= Seq::<QueryView>::empty());
    assert(proofs_view(query_proofs@) + Seq::<QueryView>::empty() =~= proofs_view(query_proofs@));
    query_proofs
}

/// The values of the composition polynomial on the coset `offset * H` of
/// the extended subgroup `H` of size `ext_size`, or why it does not exist.
pub open spec fn cp_evaluations(
    f: Seq<FieldElement>,
    domain: Domain,
    ext_size: nat,
    offset: FieldElement,
    target: FieldElement,
    t: nat,
    trace_length: nat,
) -> Result<Seq<FieldElement>, ProverError> {
    match composition_polynomial(f, domain.generator, domain.size as nat, target, t, trace_length) {
        Ok(cp) => Ok(fft_spec(coset_shift(cp, offset), ext_size)),
        Err(e) => Err(e),
    }
}

/// The composition polynomial evaluated on the coset of the extended domain,
/// with the Merkle tree and root of those values; or the first constraint
/// polynomial that does not divide exactly.
pub fn calculate_composite_polynomial(
    f: &Vec<FieldElement>,
    domain: &Domain,
    extended_domain: &Domain,
    offset: FieldElement,
    target: FieldElement,
    target_index: usize,
    trace_length: usize,
) -> (r: Result<(Vec<FieldElement>, Vec<Vec<[u8; 32]>>, [u8; 32]), ProverError>)
    requires
        f.len() <= domain.size,
        1 <= domain.size <= 0x1000_0000,
        trace_length <= 0x1000_0000,
        target_index < trace_length,
        is_pow2(extended_domain.size as nat),
        extended_domain.size <= max_radix2_size(),
    ensures
        match r {
            Ok((e, tree, root)) => {
                &&& cp_evaluations(
                    f@,
                    *domain,
                    extended_domain.size as nat,
                    offset,
                    target,
                    target_index as nat,
                    trace_length as nat,
                ) == Ok::<Seq<FieldElement>, ProverError>(e@)
                &&& tree_view(tree@) == merkle_levels(leaf_hashes(e@))
                &&& root@ == merkle_root(leaf_hashes(e@))
            },
            Err(err) => cp_evaluations(
                f@,
                *domain,
                extended_domain.size as nat,
                offset,
                target,
                target_index as nat,
                trace_length as nat,
            ) == Err::<Seq<FieldElement>, ProverError>(err),
        },
        r is Ok ==> divisions_hold(
            f@,
            domain.generator,
            domain.size as nat,
            target,
            target_index as nat,
            trace_length as nat,
        ),
        divisions_known(
            f@,
            domain.generator,
            domain.size as nat,
            target,
            target_index as nat,
            trace_length as nat,
        ),
{
    let composite = composite_polynomial(f, domain, target, target_index, trace_length)?;
    let shifted_coeffs = shift_coefficients(&composite, &offset);
    proof {
        crate::acceptance::lemma_next_pow2_of_pow2(extended_domain.size as nat);
    }
    let composite_polynomial_evaluations = fft(extended_domain.size, &shifted_coeffs);
    let (cp_merkle_tree, cp_commitment) = compute_merkle_root(composite_polynomial_evaluations.as_slice());
    Ok((composite_polynomial_evaluations, cp_merkle_tree, cp_commitment))
}

/// Every layer folded from a power-of-two number of values has a
/// power-of-two number of values.
pub proof fn lemma_fri_layers_pow2(evals: Seq<FieldElement>, domain: Seq<FieldElement>, seed: Seq<u8>)
    requires
        is_pow2(evals.len()),
        fri_layers(evals, domain, seed) is Some,
    ensures
        forall|k: int|
            0 <= k < fri_layers(evals, domain, seed)->0.len() ==> is_pow2(
                #[trigger] fri_layers(evals, domain, seed)->0[k].len(),
            ),
    decreases evals.len(),
{
    if evals.len() > 1 {
        crate::merkle::lemma_pow2_half(evals.len());
        let half = evals.len() / 2;
        let next = fri_fold(evals, fr_from_hash(seed), domain);
        let nd = squares(domain, half);
        let ns = seed + merkle_root(leaf_hashes(next));
        lemma_fri_layers_pow2(next, nd, ns);
        let rest = fri_layers(next, nd, ns)->0;
        assert forall|k: int|
            0 <= k < fri_layers(evals, domain, seed)->0.len() implies is_pow2(
                #[trigger] fri_layers(evals, domain, seed)->0[k].len(),
            ) by {
            if k > 0 {
                assert(fri_layers(evals, domain, seed)->0[k] == rest[k - 1]);
            }
        }
    }
}

/// The generator of the subgroup of size `size`.
pub open spec fn gen_of(size: nat) -> FieldElement {
    fe_of(root_of_unity(size))
}

/// The coset `offset * H` of the subgroup `H` of size `size`, in order.
pub open spec fn coset_points(size: nat, offset: FieldElement) -> Seq<FieldElement> {
    Seq::new(size, |i: int| fe_mul(fe_pow(gen_of(size), i as nat), offset))
}

/// A proof as its commitments and query answers.
pub type ProofView = (Seq<u8>, Seq<u8>, Seq<Seq<u8>>, Seq<QueryView>);

impl ProverValues {
    pub open spec fn view(&self) -> ProofView {
        (
            self.extended_trace_commitment@,
            self.composite_polynomial_commitment@,
            self.fri_commitments@.map_values(|c: [u8; 32]| c@),
            proofs_view(self.queries_proofs@),
        )
    }
}

/// The trace for target index `t`: the sequence up to the next power of two
/// above `t` (at least two elements).
pub open spec fn trace_spec(a0: FieldElement, a1: FieldElement, t: nat) -> Seq<FieldElement> {
    let n = next_pow2(t + 1);
    Seq::new(if n < 2 { 2 } else { n }, |i: int| fib_square(a0, a1, i as nat))
}

/// The proof the prover produces, or why it produces none. The trace
/// polynomial is extended onto the coset `5 * H` of the extended subgroup
/// `H`, not onto `H`: `H` holds the trace's own subgroup, at whose points
/// the verifier's consistency check divides by zero
/// (`lemma_subgroup_points_divide_by_zero`), while off that subgroup an
/// honest composition value always passes it
/// (`lemma_consistency_off_subgroup`).
pub open spec fn prover_values_spec(
    a0: FieldElement,
    a1: FieldElement,
    t: nat,
    blowup_factor: nat,
    num_queries: nat,
) -> Result<ProofView, ProverError> {
    let n = next_pow2(t + 1);
    if t + 1 > 0x1000_0000 {
        Err(ProverError::TraceTooLong)
    } else if n * blowup_factor > max_radix2_size() {
        Err(ProverError::DomainTooLarge)
    } else {
        let trace = trace_spec(a0, a1, t);
        let dsize = next_pow2(trace.len());
        let f = interpolant(trace, dsize);
        let esize = next_pow2(n * blowup_factor);
        let offset = fe_from_nat(5);
        let ext = fft_spec(coset_shift(f, offset), esize);
        proof_from_extension(f, dsize, ext, esize, offset, trace[t as int], t, n, blowup_factor, num_queries)
    }
}

/// The rest of the proof once the extended trace `ext` is known: the
/// composition polynomial's values, the FRI layers and the query answers.
pub open spec fn proof_from_extension(
    f: Seq<FieldElement>,
    dsize: nat,
    ext: Seq<FieldElement>,
    esize: nat,
    offset: FieldElement,
    target: FieldElement,
    t: nat,
    n: nat,
    blowup_factor: nat,
    num_queries: nat,
) -> Result<ProofView, ProverError> {
    match cp_evaluations(f, Domain { size: dsize as usize, generator: gen_of(dsize) }, esize, offset, target, t, n) {
        Err(e) => Err(e),
        Ok(cpe) => match fri_layers(
            cpe,
            coset_points(esize, offset),
            merkle_root(leaf_hashes(ext)) + merkle_root(leaf_hashes(cpe)),
        ) {
            None => Err(ProverError::ZeroDomainPoint),
            Some(layers) => Ok(
                (
                    merkle_root(leaf_hashes(ext)),
                    merkle_root(leaf_hashes(cpe)),
                    layers.map_values(|l: Seq<FieldElement>| merkle_root(leaf_hashes(l))),
                    query_views(
                        query_seed(ext, cpe, layers),
                        num_queries,
                        blowup_factor,
                        ext,
                        cpe,
                        layers,
                    ),
                ),
            ),
        },
    }
}

fn coset_of(d: &Domain, offset: &FieldElement) -> (r: Vec<FieldElement>)
    ensures
        r.len() == d.size,
        forall|i: int| 0 <= i < d.size ==> #[trigger] r@[i] == fe_mul(fe_pow(d.generator, i as nat), *offset),
{
    let elements = domain_elements(d);
    let mut r: Vec<FieldElement> = Vec::new();
    let mut i: usize = 0;
    while i < elements.len()
        invariant
            i <= elements.len(),
            elements.len() == d.size,
            forall|k: int| 0 <= k < d.size ==> #[trigger] elements@[k] == fe_pow(d.generator, k as nat),
            r.len() == i,
            forall|k: int| 0 <= k < i ==> #[trigger] r@[k] == fe_mul(fe_pow(d.generator, k as nat), *offset),
        decreases elements.len() - i,
    {
        r.push(crate::field::mul(&elements[i], offset));
        i = i + 1;
    }
    r
}

/// Proves knowledge of a sequence `a0, a1, ...` with
/// `a[n+2] = a[n+1]^2 + a[n]^2` whose element `target_index` is the trace's:
/// builds the trace up to the next power of two, extends it by
/// `blowup_factor` onto the coset `5 * H` of the extended subgroup `H` (see
/// `prover_values_spec` for why not onto `H` itself), commits to it and to
/// the composition polynomial, runs FRI
/// and answers `num_queries` queries. It builds a proof whenever the sequence
/// starts with 1, `target_index` is at least 1, `blowup_factor` is a power of
/// two and the extended domain has at most 2^28 elements (past which it
/// refuses). The verifier accepts every proof it returns for a power-of-two
/// `blowup_factor` of at least 2 and at least one query, for the element the
/// trace holds at `target_index`.
#[verifier::rlimit(40)]
pub fn generate_prover_values(
    a0: FieldElement,
    a1: FieldElement,
    target_index: usize,
    blowup_factor: usize,
    num_queries: usize,
) -> (r: Result<ProverValues, ProverError>)
    ensures
        match r {
            Ok(pv) => prover_values_spec(
                a0,
                a1,
                target_index as nat,
                blowup_factor as nat,
                num_queries as nat,
            ) == Ok::<ProofView, ProverError>(pv.view()),
            Err(e) => prover_values_spec(
                a0,
                a1,
                target_index as nat,
                blowup_factor as nat,
                num_queries as nat,
            ) == Err::<ProofView, ProverError>(e),
        },
        r matches Ok(pv) ==> (is_pow2(blowup_factor as nat) && blowup_factor >= 2 && num_queries > 0
            ==> verify_spec(pv.view(), target_index as nat, blowup_factor as nat, fib_square(a0, a1, target_index as nat))
            == Ok::<(), VerifyError>(())),
        a0 == fe_from_nat(1) && 1 <= target_index && next_pow2((target_index + 1) as nat) * blowup_factor <= max_radix2_size()
            && is_pow2(blowup_factor as nat) ==> r is Ok,
{
    let ghost honest = a0 == fe_from_nat(1) && 1 <= target_index && next_pow2((target_index + 1) as nat) * blowup_factor
        <= max_radix2_size() && is_pow2(blowup_factor as nat);
    proof {
        crate::poly::lemma_next_pow2((target_index + 1) as nat);
        if honest {
            assert(next_pow2((target_index + 1) as nat) <= next_pow2((target_index + 1) as nat) * blowup_factor) by (nonlinear_arith)
                requires blowup_factor >= 1;
        }
    }
    if target_index >= 0x1000_0000 {
        return Err(ProverError::TraceTooLong);
    }
    proof {
        crate::poly::lemma_next_pow2((target_index + 1) as nat);
        reveal_with_fuel(is_pow2, 30);
        crate::poly::lemma_next_pow2_le((target_index + 1) as nat, 0x1000_0000);
    }
    let trace_length = crate::hashing::next_power_of_two(target_index + 1);
    let offset = crate::field::generator();
    let trace = calculate_fib_square_trace(a0, a1, trace_length);
    assert(trace@ =~= trace_spec(a0, a1, target_index as nat));
    let (trace_polynomial, domain) = match calculate_trace_polynomial(&trace) {
        Some(x) => x,
        None => {
            return Err(ProverError::TraceTooLong);
        },
    };
    proof {
        crate::field::lemma_fe_of_val(domain.generator);
        crate::poly::lemma_next_pow2(trace.len() as nat);
        if trace_length >= 2 {
            crate::poly::lemma_next_pow2_le(trace.len() as nat, trace_length as nat);
        } else {
            assert(next_pow2(2) == 2);
        }
    }
    let extended_points = match trace_length.checked_mul(blowup_factor) {
        Some(v) => v,
        None => {
            return Err(ProverError::DomainTooLarge);
        },
    };
    if extended_points > 0x1000_0000 {
        return Err(ProverError::DomainTooLarge);
    }
    let (extended_trace, extended_domain) = match lde_on_coset(
        &trace_polynomial,
        trace_length,
        blowup_factor,
        offset,
    ) {
        Some(x) => x,
        None => {
            return Err(ProverError::DomainTooLarge);
        },
    };
    proof {
        crate::field::lemma_fe_of_val(extended_domain.generator);
        assert(blowup_factor <= trace_length * blowup_factor) by (nonlinear_arith)
            requires trace_length >= 1;
    }
    let ghost ext = extended_trace@;
    let target = trace[target_index];
    let r = finish_proof(
        &trace_polynomial,
        &domain,
        extended_trace,
        &extended_domain,
        offset,
        target,
        target_index,
        trace_length,
        blowup_factor,
        num_queries,
    );
    proof {
        if r is Ok && is_pow2(blowup_factor as nat) && blowup_factor >= 2 && num_queries > 0 {
            use_type_invariant(&extended_domain.generator);
            use_type_invariant(&target);
            let n = trace_length as nat;
            let esize = extended_domain.size as nat;
            crate::acceptance::lemma_pow2_product(n, blowup_factor as nat);
            crate::acceptance::lemma_next_pow2_of_pow2(n * (blowup_factor as nat));
            crate::acceptance::lemma_next_pow2_of_pow2(n);
            assert(esize == n * blowup_factor);
            assert(n <= esize) by (nonlinear_arith) requires esize == n * blowup_factor, blowup_factor >= 1;
            assert(esize / n == blowup_factor as nat) by (nonlinear_arith)
                requires esize == n * blowup_factor, n >= 1;
            assert(root_of_unity(n) == fe_pow(extended_domain.generator, blowup_factor as nat).val());
            crate::field::lemma_pow_canonical(extended_domain.generator, blowup_factor as nat);
            crate::field::lemma_canonical_val(fe_pow(extended_domain.generator, blowup_factor as nat));
            crate::field::lemma_fe_of_val(fe_pow(extended_domain.generator, blowup_factor as nat));
            assert(gen_of(n) == fe_pow(extended_domain.generator, blowup_factor as nat));
            assert(gen_of(esize) == extended_domain.generator);
            lemma_prover_output_accepted(
                trace_polynomial@,
                domain.size as nat,
                ext,
                esize,
                extended_domain.generator,
                target,
                target_index as nat,
                n,
                blowup_factor as nat,
                num_queries as nat,
                r->Ok_0.view(),
            );
        }
        if honest {
            let n = trace_length as nat;
            let esize = extended_domain.size as nat;
            use_type_invariant(&a1);
            use_type_invariant(&domain.generator);
            use_type_invariant(&extended_domain.generator);
            crate::acceptance::lemma_field_inverses(offset);
            crate::acceptance::lemma_next_pow2_of_pow2(n);
            assert(domain.size as nat == n);
            assert(trace@ =~= Seq::new(n, |k: int| fib_square(fe_from_nat(1), a1, k as nat)));
            assert(target == fib_square(fe_from_nat(1), a1, target_index as nat));
            crate::acceptance::lemma_honest_proof_exists(
                a1,
                target_index as nat,
                n,
                esize,
                blowup_factor as nat,
                num_queries as nat,
                trace_polynomial@,
                ext,
            );
        }
    }
    r
}

#[verifier::rlimit(30)]
fn finish_proof(
    trace_polynomial: &Vec<FieldElement>,
    domain: &Domain,
    extended_trace: Vec<FieldElement>,
    extended_domain: &Domain,
    offset: FieldElement,
    target: FieldElement,
    target_index: usize,
    trace_length: usize,
    blowup_factor: usize,
    num_queries: usize,
) -> (r: Result<ProverValues, ProverError>)
    requires
        trace_polynomial.len() <= domain.size,
        1 <= domain.size <= 0x1000_0000,
        domain.generator == gen_of(domain.size as nat),
        trace_length <= 0x1000_0000,
        target_index < trace_length,
        is_pow2(extended_domain.size as nat),
        extended_domain.size <= max_radix2_size(),
        extended_domain.generator == gen_of(extended_domain.size as nat),
        blowup_factor <= max_radix2_size(),
        extended_trace.len() == extended_domain.size,
    ensures
        match r {
            Ok(pv) => proof_from_extension(
                trace_polynomial@,
                domain.size as nat,
                extended_trace@,
                extended_domain.size as nat,
                offset,
                target,
                target_index as nat,
                trace_length as nat,
                blowup_factor as nat,
                num_queries as nat,
            ) == Ok::<ProofView, ProverError>(pv.view()),
            Err(e) => proof_from_extension(
                trace_polynomial@,
                domain.size as nat,
                extended_trace@,
                extended_domain.size as nat,
                offset,
                target,
                target_index as nat,
                trace_length as nat,
                blowup_factor as nat,
                num_queries as nat,
            ) == Err::<ProofView, ProverError>(e),
        },
        r is Ok ==> divisions_hold(
            trace_polynomial@,
            domain.generator,
            domain.size as nat,
            target,
            target_index as nat,
            trace_length as nat,
        ),
        divisions_known(
            trace_polynomial@,
            domain.generator,
            domain.size as nat,
            target,
            target_index as nat,
            trace_length as nat,
        ),
{
    assert(*domain == Domain { size: domain.size as usize, generator: gen_of(domain.size as nat) });
    let (extended_trace_merke_tree, extended_trace_commitment) = compute_merkle_root(
        extended_trace.as_slice(),
    );
    let (cp_evaluations, cp_merkle_tree, cp_commitment) = calculate_composite_polynomial(
        &trace_polynomial,
        &domain,
        &extended_domain,
        offset,
        target,
        target_index,
        trace_length,
    )?;
    let extended_domain_points = coset_of(&extended_domain, &offset);
    assert(extended_domain_points@ =~= coset_points(extended_domain.size as nat, offset));
    let fri = calculate_fri_commitments(
        cp_evaluations.as_slice(),
        extended_domain_points.as_slice(),
        &extended_trace_commitment,
        &cp_commitment,
    );
    let (fri_merkle_trees, fri_commitments, fri_evals) = match fri {
        Some(x) => x,
        None => {
            return Err(ProverError::ZeroDomainPoint);
        },
    };
    proof {
        lemma_fri_layers_pow2(
            cp_evaluations@,
            extended_domain_points@,
            extended_trace_commitment@ + cp_commitment@,
        );
        assert forall|k: int| 0 <= k < fri_evals.len() implies #[trigger] committed(
            fri_evals@[k]@,
            fri_merkle_trees@[k]@,
        ) by {
            assert(vecs_view(fri_evals@)[k] == fri_evals@[k]@);
        }
        lemma_committed_seed(
            extended_trace@,
            extended_trace_merke_tree@,
            cp_evaluations@,
            cp_merkle_tree@,
            fri_evals@,
            fri_merkle_trees@,
        );
        assert forall|q: nat| q < extended_trace.len() implies #[trigger] can_answer(
            q,
            blowup_factor as nat,
            extended_trace@,
            tree_view(extended_trace_merke_tree@),
            cp_evaluations@,
            tree_view(cp_merkle_tree@),
            vecs_view(fri_evals@),
            forest_view(fri_merkle_trees@),
        ) by {
            lemma_committed_answer(
                q,
                blowup_factor as nat,
                extended_trace@,
                extended_trace_merke_tree@,
                cp_evaluations@,
                cp_merkle_tree@,
                fri_evals@,
                fri_merkle_trees@,
            );
        }
        lemma_committed_answers(
            tree_query_seed(tree_view(extended_trace_merke_tree@), tree_view(cp_merkle_tree@), forest_view(fri_merkle_trees@)),
            num_queries as nat,
            blowup_factor as nat,
            extended_trace@,
            extended_trace_merke_tree@,
            cp_evaluations@,
            cp_merkle_tree@,
            fri_evals@,
            fri_merkle_trees@,
        );
    }
    let query_proofs = calculate_query_proofs(
        num_queries,
        blowup_factor,
        extended_trace.as_slice(),
        extended_trace_merke_tree.as_slice(),
        cp_evaluations.as_slice(),
        cp_merkle_tree.as_slice(),
        fri_evals.as_slice(),
        fri_merkle_trees.as_slice(),
    );
    let pv = ProverValues {
        extended_trace_commitment,
        composite_polynomial_commitment: cp_commitment,
        fri_commitments,
        queries_proofs: query_proofs,
    };
    assert forall|k: int| 0 <= k < fri_evals.len() implies pv.view().2[k] == merkle_root(
        leaf_hashes(vecs_view(fri_evals@)[k]),
    ) by {
        assert(tree_view(fri_merkle_trees@[k]@) == merkle_levels(leaf_hashes(fri_evals@[k]@)));
        assert(vecs_view(fri_evals@)[k] == fri_evals@[k]@);
    }
    assert(pv.view().2 =~= vecs_view(fri_evals@).map_values(
        |l: Seq<FieldElement>| merkle_root(leaf_hashes(l)),
    ));
    Ok(pv)
}

} // verus!