use ark_bn254::Fr;
use ark_ff::{BigInteger, Field, PrimeField};
use sha2::{Digest, Sha256};
use std::str::FromStr;

use stark101::composition::ProverError;
use stark101::data::{CpPair, ProverValues, QueryProof, ValueAndPath};
use stark101::field::FieldElement;
use stark101::hashing::{
    checked_next_power_of_two, fr_to_bytes, hash_leaf, hash_pair, hashes_equal, integer_from_hash,
    next_power_of_two, random_fr_from_hash,
};
use stark101::merkle::{
    compute_merkle_path_root, compute_merkle_root, extract_path_from_merkle_tree, verify_merke_path,
};
use stark101::poly;
use stark101::prover::{
    calculate_fib_square_trace, calculate_fri_commitments, calculate_query_proof,
    calculate_query_proofs, calculate_trace_polynomial, fri_layer, generate_prover_values,
    lde_on_coset,
};
use stark101::verifying::{
    verify, verify_final_fri_layer, verify_final_fri_layers_consistency, verify_fri_layer,
    verify_trace_to_cp_consistency, VerifyError,
};

fn fe(x: Fr) -> FieldElement {
    FieldElement::from_canonical_limbs(x.into_bigint().0)
}

fn fr(x: &FieldElement) -> Fr {
    Fr::from_bigint(ark_ff::BigInt::new(x.to_limbs())).unwrap()
}

fn fe_dec(s: &str) -> FieldElement {
    fe(Fr::from_str(s).ok().unwrap())
}

fn n(v: u64) -> FieldElement {
    FieldElement::from_u64(v)
}

const TARGET_13: &str =
    "14274385276335341679779924909149056795250951963780061740213911706313607990320";
const TARGET_15: &str =
    "20058280215495444632052566758236617048289674862308296983290231865868158747890";

#[test]
fn field_element_constructors() {
    assert_eq!(fr(&FieldElement::from_u64(7)), Fr::from(7u64));
    assert_eq!(fr(&FieldElement::one()), Fr::from(1u64));
    assert_eq!(fr(&FieldElement::zero()), Fr::from(0u64));
    assert_eq!(FieldElement::one().to_limbs(), [1, 0, 0, 0]);
    let x = Fr::from_str(TARGET_15).ok().unwrap();
    assert_eq!(fe(x).to_limbs(), x.into_bigint().0);
}

#[test]
fn fr_to_bytes_is_little_endian() {
    let b = fr_to_bytes(&n(0x0102_0304));
    assert_eq!(&b[..5], &[4, 3, 2, 1, 0]);
    assert!(b[5..].iter().all(|x| *x == 0));
    let x = Fr::from_str(TARGET_13).ok().unwrap();
    assert_eq!(fr_to_bytes(&fe(x)).to_vec(), x.into_bigint().to_bytes_le());
}

#[test]
fn hash_pair_is_sha256_of_concatenation() {
    let left = [1u8; 32];
    let right = [2u8; 32];
    let mut h = Sha256::new();
    h.update(left);
    h.update(right);
    let expected: [u8; 32] = h.finalize().into();
    assert_eq!(hash_pair(&left, &right), expected);
    assert_ne!(hash_pair(&left, &right), hash_pair(&right, &left));
    assert_ne!(hash_pair(&left, &right), left);
}

#[test]
fn hash_leaf_is_sha256_of_encoding() {
    let v = n(5);
    let expected: [u8; 32] = Sha256::digest(fr_to_bytes(&v)).into();
    assert_eq!(hash_leaf(&v), expected);
}

#[test]
fn random_fr_from_hash_reduces_the_digest() {
    let input = b"stark";
    let digest = Sha256::digest(input);
    let expected = Fr::from_le_bytes_mod_order(&digest);
    assert_eq!(fr(&random_fr_from_hash(input)), expected);
    assert_ne!(random_fr_from_hash(b"a"), random_fr_from_hash(b"b"));
}

#[test]
fn hashes_equal_compares_bytes() {
    let a = [3u8; 32];
    let mut b = a;
    assert!(hashes_equal(&a, &b));
    b[31] = 4;
    assert!(!hashes_equal(&a, &b));
}

#[test]
fn integer_from_hash_exact_values() {
    assert_eq!(integer_from_hash(&[1, 2], 1000), 258);
    assert_eq!(integer_from_hash(&[1, 2], 100), 58);
    assert_eq!(integer_from_hash(&[], 17), 0);
    assert_eq!(integer_from_hash(&[9, 9, 9], 0), 0);
    assert_eq!(integer_from_hash(&[255; 40], 1), 0);
}

#[test]
fn integer_from_hash_stays_below_modulus() {
    for m in 1..50usize {
        let bytes: Vec<u8> = (0..64u8).map(|i| i.wrapping_mul(37)).collect();
        assert!(integer_from_hash(&bytes, m) < m);
    }
}

#[test]
fn next_power_of_two_values() {
    assert_eq!(next_power_of_two(0), 1);
    assert_eq!(next_power_of_two(1), 1);
    assert_eq!(next_power_of_two(5), 8);
    assert_eq!(next_power_of_two(14), 16);
    assert_eq!(next_power_of_two(16), 16);
    assert_eq!(checked_next_power_of_two(usize::MAX), None);
    assert_eq!(checked_next_power_of_two(17), Some(32));
}

#[test]
fn merkle_root_of_four_leaves() {
    let leaves = vec![n(1), n(2), n(3), n(4)];
    let (tree, root) = compute_merkle_root(&leaves);
    let h: Vec<[u8; 32]> = leaves.iter().map(hash_leaf).collect();
    let expected = hash_pair(&hash_pair(&h[0], &h[1]), &hash_pair(&h[2], &h[3]));
    assert_eq!(tree.len(), 3);
    assert_eq!(tree[0], h);
    assert_eq!(tree[2], vec![expected]);
    assert_eq!(root, expected);
}

#[test]
fn merkle_root_pads_odd_levels_with_zero_hash() {
    let leaves = vec![n(1), n(2), n(3)];
    let (tree, root) = compute_merkle_root(&leaves);
    let h: Vec<[u8; 32]> = leaves.iter().map(hash_leaf).collect();
    let expected = hash_pair(&hash_pair(&h[0], &h[1]), &hash_pair(&h[2], &[0u8; 32]));
    assert_eq!(tree.len(), 3);
    assert_eq!(root, expected);
}

#[test]
fn merkle_root_of_one_leaf_is_its_hash() {
    let (tree, root) = compute_merkle_root(&[n(9)]);
    assert_eq!(tree.len(), 1);
    assert_eq!(root, hash_leaf(&n(9)));
}

#[test]
fn every_leaf_opens_to_the_root() {
    let leaves: Vec<FieldElement> = (0..16u64).map(|i| n(i * i + 3)).collect();
    let (tree, root) = compute_merkle_root(&leaves);
    for i in 0..leaves.len() {
        let path = extract_path_from_merkle_tree(&i, &tree);
        assert_eq!(path.len(), 4);
        assert_eq!(compute_merkle_path_root(leaves[i], &path, i), root);
        assert!(verify_merke_path(leaves[i], &path, root, i));
        assert!(!verify_merke_path(n(1000), &path, root, i));
        assert!(!verify_merke_path(leaves[i], &path, root, i ^ 1));
    }
}

#[test]
fn extracted_path_holds_siblings() {
    let leaves: Vec<FieldElement> = (0..4u64).map(n).collect();
    let (tree, _) = compute_merkle_root(&leaves);
    let path = extract_path_from_merkle_tree(&2, &tree);
    assert_eq!(path, vec![tree[0][3], tree[1][0]]);
    let empty: Vec<Vec<[u8; 32]>> = Vec::new();
    assert!(extract_path_from_merkle_tree(&0, &empty).is_empty());
}

#[test]
fn trace_follows_the_recurrence() {
    let trace = calculate_fib_square_trace(n(1), n(10), 16);
    assert_eq!(trace.len(), 16);
    assert_eq!(trace[2], n(101));
    assert_eq!(trace[3], n(101 * 101 + 100));
    for i in 2..16 {
        let expected = fr(&trace[i - 1]).square() + fr(&trace[i - 2]).square();
        assert_eq!(fr(&trace[i]), expected);
    }
    assert_eq!(trace[13], fe_dec(TARGET_13));
    assert_eq!(trace[15], fe_dec(TARGET_15));
}

#[test]
fn short_traces_keep_two_elements() {
    assert_eq!(calculate_fib_square_trace(n(1), n(2), 0).len(), 2);
    assert_eq!(calculate_fib_square_trace(n(1), n(2), 1).len(), 2);
}

#[test]
fn trace_polynomial_interpolates_the_trace() {
    let trace = calculate_fib_square_trace(n(1), n(10), 8);
    let (poly, domain) = calculate_trace_polynomial(&trace).unwrap();
    assert_eq!(domain.size, 8);
    let elements = poly::domain_elements(&domain);
    for i in 0..8 {
        let mut acc = Fr::from(0u64);
        for c in poly.iter().rev() {
            acc = acc * fr(&elements[i]) + fr(c);
        }
        assert_eq!(fe(acc), trace[i]);
    }
    assert_eq!(fr(&domain.generator).pow([8u64]), Fr::from(1u64));
    assert_ne!(fr(&domain.generator).pow([4u64]), Fr::from(1u64));
}

#[test]
fn lde_evaluates_on_the_coset() {
    let coeffs = vec![n(3), n(0), n(2)];
    let offset = n(5);
    let (evals, domain) = lde_on_coset(&coeffs, 2, 4, offset).unwrap();
    assert_eq!(evals.len(), 8);
    let elements = poly::domain_elements(&domain);
    for i in 0..8 {
        let x = fr(&elements[i]) * Fr::from(5u64);
        assert_eq!(fr(&evals[i]), Fr::from(3u64) + Fr::from(2u64) * x * x);
    }
    assert!(lde_on_coset(&coeffs, 1 << 20, 1 << 20, offset).is_none());
}

#[test]
fn fri_layer_folds_even_and_odd_parts() {
    // p(X) = 1 + 2X + 3X^2 + 4X^3 on the coset 5*<w>, w of order 4
    let d = poly::radix2_domain(4).unwrap();
    let elements = poly::domain_elements(&d);
    let points: Vec<Fr> = elements.iter().map(|e| fr(e) * Fr::from(5u64)).collect();
    let p = |x: Fr| Fr::from(1u64) + Fr::from(2u64) * x + Fr::from(3u64) * x * x + Fr::from(4u64) * x * x * x;
    let evals: Vec<FieldElement> = points.iter().map(|x| fe(p(*x))).collect();
    let domain: Vec<FieldElement> = points.iter().map(|x| fe(*x)).collect();
    let beta = n(7);
    let (next, next_domain) = fri_layer(&evals, beta, &domain).unwrap();
    assert_eq!(next.len(), 2);
    for i in 0..2 {
        // g(Y) = 1 + 3Y, h(Y) = 2 + 4Y at Y = x^2
        let y = points[i] * points[i];
        let expected = Fr::from(1u64) + Fr::from(3u64) * y + Fr::from(7u64) * (Fr::from(2u64) + Fr::from(4u64) * y);
        assert_eq!(fr(&next[i]), expected);
        assert_eq!(fr(&next_domain[i]), y);
        assert!(verify_fri_layer(&evals[i], &evals[i + 2], &next[i], &beta, &domain[i]).is_ok());
    }
}

#[test]
fn fri_layer_refuses_a_zero_point() {
    let evals = vec![n(1), n(2)];
    assert!(fri_layer(&evals, n(3), &[FieldElement::zero()]).is_none());
}

#[test]
fn fri_commitments_fold_down_to_one_value() {
    let d = poly::radix2_domain(8).unwrap();
    let points: Vec<FieldElement> = poly::domain_elements(&d).iter().map(|e| fe(fr(e) * Fr::from(5u64))).collect();
    let evals: Vec<FieldElement> = (0..8u64).map(|i| n(i + 1)).collect();
    let (trees, commitments, layers) = calculate_fri_commitments(&evals, &points, &[0u8; 32], &[1u8; 32]).unwrap();
    assert_eq!(layers.len(), 3);
    assert_eq!(layers[0].len(), 4);
    assert_eq!(layers[2].len(), 1);
    for k in 0..3 {
        assert_eq!(compute_merkle_root(&layers[k]).1, commitments[k]);
        assert_eq!(trees[k].last().unwrap()[0], commitments[k]);
    }
}

#[test]
fn final_layer_checks() {
    let v = n(11);
    assert_eq!(verify_final_fri_layer(v, v, &hash_leaf(&v)), Ok(()));
    assert_eq!(verify_final_fri_layer(v, n(12), &hash_leaf(&v)), Err(VerifyError::FinalLayerNotConstant));
    assert_eq!(verify_final_fri_layer(v, v, &[0u8; 32]), Err(VerifyError::FinalLayerCommitmentMismatch));
    assert_eq!(verify_final_fri_layers_consistency(&vec![v, v, v]), Ok(()));
    assert_eq!(verify_final_fri_layers_consistency(&vec![v, v, n(1)]), Err(VerifyError::FinalLayersInconsistent));
    assert_eq!(verify_final_fri_layers_consistency(&vec![]), Err(VerifyError::NoQueries));
}

#[test]
fn fri_layer_check_rejects_a_wrong_value() {
    assert_eq!(verify_fri_layer(&n(1), &n(2), &n(3), &n(4), &n(5)), Err(VerifyError::FriLayerMismatch));
    assert_eq!(verify_fri_layer(&n(1), &n(2), &n(3), &n(4), &FieldElement::zero()), Err(VerifyError::DivisionByZero));
}

#[test]
fn consistency_check_errors() {
    let x = n(1);
    assert_eq!(
        verify_trace_to_cp_consistency(x, n(1), n(1), n(1), n(1), 16, 8, n(1), 13),
        Err(VerifyError::DivisionByZero)
    );
    assert_eq!(
        verify_trace_to_cp_consistency(n(5), n(1), n(1), n(1), n(1), 1, 8, n(1), 13),
        Err(VerifyError::TraceDomainTooSmall)
    );
    assert_eq!(
        verify_trace_to_cp_consistency(n(5), n(1), n(1), n(1), n(1), 16, 8, n(1), 0),
        Err(VerifyError::TargetIndexZero)
    );
    assert_eq!(
        verify_trace_to_cp_consistency(n(5), n(1), n(1), n(1), n(1), 16, 8, n(1), 13),
        Err(VerifyError::CpConsistencyMismatch)
    );
}

fn honest_proof() -> ProverValues {
    generate_prover_values(n(1), n(10), 13, 8, 20).unwrap()
}

#[test]
fn honest_proof_verifies() {
    let pv = honest_proof();
    assert_eq!(pv.queries_proofs.len(), 20);
    assert_eq!(pv.fri_commitments.len(), 7);
    assert_eq!(verify(pv, 13, 8, fe_dec(TARGET_13)), Ok(()));
}

#[test]
fn honest_proof_with_other_parameters_verifies() {
    let pv = generate_prover_values(n(1), n(3), 6, 4, 3).unwrap();
    let target = calculate_fib_square_trace(n(1), n(3), 8)[6];
    assert_eq!(verify(pv, 6, 4, target), Ok(()));
}

#[test]
fn wrong_target_is_rejected() {
    let pv = honest_proof();
    assert_eq!(verify(pv, 13, 8, n(42)), Err(VerifyError::CpConsistencyMismatch));
}

#[test]
fn tampered_value_is_rejected() {
    let mut pv = honest_proof();
    pv.queries_proofs[0].f_x.value = fe(fr(&pv.queries_proofs[0].f_x.value) + Fr::from(1u64));
    assert_eq!(verify(pv, 13, 8, fe_dec(TARGET_13)), Err(VerifyError::MerklePathMismatch));
}

#[test]
fn tampered_commitment_is_rejected() {
    let mut pv = honest_proof();
    pv.extended_trace_commitment[0] ^= 1;
    assert_eq!(verify(pv, 13, 8, fe_dec(TARGET_13)), Err(VerifyError::MerklePathMismatch));
}

#[test]
fn missing_layers_are_rejected() {
    let mut pv = honest_proof();
    pv.queries_proofs[0].cp_pairs.clear();
    assert_eq!(verify(pv, 13, 8, fe_dec(TARGET_13)), Err(VerifyError::EmptyQuery));
}

#[test]
fn extra_layers_are_rejected() {
    let mut pv = honest_proof();
    let last = pv.queries_proofs[0].cp_pairs.last().unwrap();
    let extra = CpPair {
        cp_x: ValueAndPath { value: last.cp_x.value, path: last.cp_x.path.clone() },
        cp_minus_x: ValueAndPath { value: last.cp_minus_x.value, path: last.cp_minus_x.path.clone() },
    };
    pv.queries_proofs[0].cp_pairs.push(extra);
    assert_eq!(verify(pv, 13, 8, fe_dec(TARGET_13)), Err(VerifyError::TooManyLayers));
}

#[test]
fn changed_fri_commitments_are_rejected() {
    let mut pv = honest_proof();
    pv.fri_commitments.clear();
    assert_eq!(verify(pv, 13, 8, fe_dec(TARGET_13)), Err(VerifyError::MerklePathMismatch));
}

#[test]
fn proof_without_queries_is_rejected() {
    let mut pv = honest_proof();
    pv.queries_proofs.clear();
    assert_eq!(verify(pv, 13, 8, fe_dec(TARGET_13)), Err(VerifyError::NoQueries));
}

#[test]
fn huge_target_index_is_rejected_by_the_verifier() {
    let pv = honest_proof();
    assert_eq!(verify(pv, usize::MAX, 8, n(1)), Err(VerifyError::DomainTooLarge));
}

#[test]
fn zero_blowup_is_rejected_by_the_verifier() {
    let pv = generate_prover_values(n(1), n(10), 13, 0, 1).unwrap();
    assert_eq!(verify(pv, 13, 0, fe_dec(TARGET_13)), Err(VerifyError::EmptyDomain));
}

#[test]
fn prover_errors() {
    assert_eq!(generate_prover_values(n(2), n(10), 13, 8, 1).err(), Some(ProverError::BoundaryNotDivisible));
    assert_eq!(generate_prover_values(n(1), n(10), 0, 8, 1).err(), Some(ProverError::TargetIndexZero));
    assert_eq!(generate_prover_values(n(1), n(10), 1 << 28, 8, 1).err(), Some(ProverError::TraceTooLong));
    assert_eq!(generate_prover_values(n(1), n(10), 13, 1 << 25, 1).err(), Some(ProverError::DomainTooLarge));
}

#[test]
fn proof_shape() {
    let pv = generate_prover_values(n(1), n(10), 13, 8, 2).unwrap();
    let q: &QueryProof = &pv.queries_proofs[0];
    assert_eq!(q.cp_pairs.len(), 8);
    let first: &CpPair = &q.cp_pairs[0];
    let fx: &ValueAndPath = &q.f_x;
    assert_eq!(fx.path.len(), 7);
    assert_eq!(first.cp_x.path.len(), 7);
    let last = q.cp_pairs.last().unwrap();
    assert_eq!(last.cp_x.value, last.cp_minus_x.value);
    assert!(last.cp_x.path.is_empty());
}

#[test]
fn proofs_are_deterministic() {
    let a = honest_proof();
    let b = honest_proof();
    assert_eq!(a.extended_trace_commitment, b.extended_trace_commitment);
    assert_eq!(a.composite_polynomial_commitment, b.composite_polynomial_commitment);
    assert_eq!(a.fri_commitments, b.fri_commitments);
}

#[test]
fn honest_proof_with_blowup_two_verifies() {
    let pv = generate_prover_values(n(1), n(5), 1, 2, 2).unwrap();
    let target = calculate_fib_square_trace(n(1), n(5), 2)[1];
    assert_eq!(verify(pv, 1, 2, target), Ok(()));
}

#[test]
fn honest_proof_with_large_trace_verifies() {
    let pv = generate_prover_values(n(1), n(7), 40, 2, 4).unwrap();
    let target = calculate_fib_square_trace(n(1), n(7), 64)[40];
    assert_eq!(verify(pv, 40, 2, target), Ok(()));
}

#[test]
fn non_power_of_two_blowup_is_not_accepted() {
    let pv = generate_prover_values(n(1), n(10), 13, 3, 2).unwrap();
    assert!(verify(pv, 13, 3, fe_dec(TARGET_13)).is_err());
}

#[test]
fn blowup_one_is_not_accepted() {
    let pv = generate_prover_values(n(1), n(10), 13, 1, 2).unwrap();
    assert!(verify(pv, 13, 1, fe_dec(TARGET_13)).is_err());
}

fn h(b: u8) -> [u8; 32] {
    [b; 32]
}

fn hand_made_inputs() -> (
    Vec<FieldElement>,
    Vec<Vec<[u8; 32]>>,
    Vec<FieldElement>,
    Vec<Vec<FieldElement>>,
    Vec<Vec<Vec<[u8; 32]>>>,
) {
    let ext = vec![n(10), n(11), n(12), n(13)];
    let tree = vec![vec![h(0), h(1), h(2), h(3)], vec![h(4), h(5)], vec![h(6)]];
    let cp = vec![n(20), n(21), n(22), n(23)];
    let fri_evals = vec![vec![n(30), n(31)], vec![n(40)]];
    let fri_trees = vec![vec![vec![h(7), h(8)], vec![h(9)]], vec![vec![h(10)]]];
    (ext, tree, cp, fri_evals, fri_trees)
}

fn check_opening(o: &ValueAndPath, value: u64, path: &[u8]) {
    assert_eq!(o.value, n(value));
    let want: Vec<[u8; 32]> = path.iter().map(|b| h(*b)).collect();
    assert_eq!(o.path, want);
}

#[test]
fn query_proof_reads_the_given_trees() {
    let (ext, tree, cp, fri_evals, fri_trees) = hand_made_inputs();
    let p = calculate_query_proof(1, 2, &ext, &tree, &cp, &tree, &fri_evals, &fri_trees);
    check_opening(&p.f_x, 11, &[0, 5]);
    check_opening(&p.f_gx, 13, &[2, 4]);
    check_opening(&p.f_g2x, 11, &[0, 5]);
    assert_eq!(p.cp_pairs.len(), 3);
    check_opening(&p.cp_pairs[0].cp_x, 21, &[0, 5]);
    check_opening(&p.cp_pairs[0].cp_minus_x, 23, &[2, 4]);
    check_opening(&p.cp_pairs[1].cp_x, 31, &[7]);
    check_opening(&p.cp_pairs[1].cp_minus_x, 30, &[8]);
    check_opening(&p.cp_pairs[2].cp_x, 40, &[]);
    check_opening(&p.cp_pairs[2].cp_minus_x, 40, &[]);
}

#[test]
fn query_proof_skips_layers_without_a_tree() {
    let (ext, tree, cp, fri_evals, fri_trees) = hand_made_inputs();
    let p = calculate_query_proof(2, 1, &ext, &tree, &cp, &tree, &fri_evals, &fri_trees[..1]);
    assert_eq!(p.cp_pairs.len(), 2);
    check_opening(&p.f_x, 12, &[3, 4]);
    check_opening(&p.f_gx, 13, &[2, 4]);
    check_opening(&p.f_g2x, 10, &[1, 5]);
    check_opening(&p.cp_pairs[1].cp_x, 30, &[8]);
    check_opening(&p.cp_pairs[1].cp_minus_x, 31, &[7]);
}

#[test]
fn query_proofs_draw_indices_from_the_tree_tops() {
    let (ext, tree, cp, fri_evals, fri_trees) = hand_made_inputs();
    let proofs = calculate_query_proofs(2, 2, &ext, &tree, &cp, &tree, &fri_evals, &fri_trees);
    assert_eq!(proofs.len(), 2);
    let mut seed: Vec<u8> = Vec::new();
    for b in [6u8, 6, 9, 10] {
        seed.extend_from_slice(&h(b));
    }
    for p in proofs.iter() {
        let q = integer_from_hash(&seed, 4);
        let want = calculate_query_proof(q, 2, &ext, &tree, &cp, &tree, &fri_evals, &fri_trees);
        assert_eq!(p.f_x.value, want.f_x.value);
        assert_eq!(p.f_x.path, want.f_x.path);
        assert_eq!(p.cp_pairs.len(), want.cp_pairs.len());
        for (a, b) in p.cp_pairs.iter().zip(want.cp_pairs.iter()) {
            assert_eq!(a.cp_x.value, b.cp_x.value);
            assert_eq!(a.cp_minus_x.path, b.cp_minus_x.path);
        }
        for o in [&p.f_x, &p.f_gx, &p.f_g2x] {
            for node in o.path.iter() {
                seed.extend_from_slice(node);
            }
        }
        for pair in p.cp_pairs.iter() {
            for node in pair.cp_x.path.iter().chain(pair.cp_minus_x.path.iter()) {
                seed.extend_from_slice(node);
            }
        }
    }
}

#[test]
fn fold_checked_from_the_opposite_point_is_accepted() {
    let d = poly::radix2_domain(8).unwrap();
    let points: Vec<FieldElement> = poly::domain_elements(&d).iter().map(|e| fe(fr(e) * Fr::from(5u64))).collect();
    let evals: Vec<FieldElement> = (0..8u64).map(|i| n(3 * i + 2)).collect();
    let beta = n(9);
    let (next, _) = fri_layer(&evals, beta, &points).unwrap();
    for i in 0..4 {
        assert_eq!(fr(&points[i + 4]), -fr(&points[i]));
        assert_eq!(verify_fri_layer(&evals[i + 4], &evals[i], &next[i], &beta, &points[i + 4]), Ok(()));
        assert_eq!(verify_fri_layer(&evals[i], &evals[i + 4], &next[i], &beta, &points[i]), Ok(()));
    }
}

#[test]
fn encoded_elements_decode_back() {
    for x in [Fr::from(0u64), Fr::from(1u64), Fr::from(0x0102_0304_0506_0708u64), Fr::from_str(TARGET_15).ok().unwrap(), -Fr::from(1u64)] {
        let bytes = fr_to_bytes(&fe(x));
        assert_eq!(Fr::from_le_bytes_mod_order(&bytes), x);
    }
}

#[test]
fn honest_statements_get_a_proof() {
    for a1 in [2u64, 10, 12345] {
        for t in [1usize, 2, 5, 13] {
            for b in [1usize, 2, 4] {
                let r = generate_prover_values(n(1), n(a1), t, b, 2);
                assert!(r.is_ok(), "a1 = {}, t = {}, b = {}", a1, t, b);
            }
        }
    }
}

#[test]
fn evaluation_domain_sizes() {
    let d = poly::evaluation_domain(5).unwrap();
    assert_eq!(d.size, 8);
    let d = poly::evaluation_domain(1 << 28).unwrap();
    assert_eq!(d.size, 1 << 28);
    let d = poly::evaluation_domain((1 << 28) + 1).unwrap();
    assert_eq!(d.size, 9 << 25);
    assert_eq!(fr(&d.generator).pow([d.size as u64]), Fr::from(1u64));
    let d = poly::evaluation_domain(1 << 29).unwrap();
    assert_eq!(d.size, 9 << 26);
    assert_eq!(fr(&d.generator).pow([d.size as u64]), Fr::from(1u64));
    assert_ne!(fr(&d.generator).pow([(d.size / 2) as u64]), Fr::from(1u64));
    let d = poly::evaluation_domain(5 << 28).unwrap();
    assert_eq!(d.size, 9 << 28);
    assert!(poly::evaluation_domain((9 << 28) + 1).is_none());
}

#[test]
fn query_indices_do_not_depend_on_later_queries() {
    let (ext, tree, cp, fri_evals, fri_trees) = hand_made_inputs();
    let three = calculate_query_proofs(3, 2, &ext, &tree, &cp, &tree, &fri_evals, &fri_trees);
    let two = calculate_query_proofs(2, 2, &ext, &tree, &cp, &tree, &fri_evals, &fri_trees);
    assert_eq!(three.len(), 3);
    for (a, b) in three.iter().zip(two.iter()) {
        for (x, y) in [(&a.f_x, &b.f_x), (&a.f_gx, &b.f_gx), (&a.f_g2x, &b.f_g2x)] {
            assert_eq!(x.value, y.value);
            assert_eq!(x.path, y.path);
        }
        assert_eq!(a.cp_pairs.len(), b.cp_pairs.len());
        for (p, r) in a.cp_pairs.iter().zip(b.cp_pairs.iter()) {
            assert_eq!(p.cp_x.value, r.cp_x.value);
            assert_eq!(p.cp_minus_x.value, r.cp_minus_x.value);
            assert_eq!(p.cp_x.path, r.cp_x.path);
        }
    }
}

fn eval_at(coeffs: &[FieldElement], x: Fr) -> Fr {
    let mut acc = Fr::from(0u64);
    for c in coeffs.iter().rev() {
        acc = acc * x + fr(c);
    }
    acc
}

#[test]
fn honest_composition_passes_off_the_subgroup() {
    let t = 5usize;
    let trace = calculate_fib_square_trace(n(1), n(3), 8);
    let (f, domain) = calculate_trace_polynomial(&trace).unwrap();
    let cp = stark101::composition::composite_polynomial(&f, &domain, trace[t], t, 8).unwrap();
    let g = fr(&domain.generator);
    for x in [Fr::from(7u64), Fr::from(5u64) * g, Fr::from(123456789u64)] {
        assert_ne!(x.pow([8u64]), Fr::from(1u64));
        let r = verify_trace_to_cp_consistency(
            fe(x),
            fe(eval_at(&f, x)),
            fe(eval_at(&f, g * x)),
            fe(eval_at(&f, g * g * x)),
            fe(eval_at(&cp, x)),
            8,
            2,
            trace[t],
            t,
        );
        assert_eq!(r, Ok(()));
    }
}

#[test]
fn subgroup_points_divide_by_zero() {
    let d = poly::radix2_domain(8).unwrap();
    for x in poly::domain_elements(&d) {
        assert_eq!(
            verify_trace_to_cp_consistency(x, n(1), n(2), n(3), n(4), 8, 2, n(9), 5),
            Err(VerifyError::DivisionByZero)
        );
    }
}
