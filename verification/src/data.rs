//! What the prover sends: commitments and, for every query, the opened
//! values with their Merkle authentication paths.
use crate::field::FieldElement;
use crate::merkle::level_view;
use vstd::prelude::*;

verus! {

/// An opened value and its authentication path.
pub struct ValueAndPath {
    pub value: FieldElement,
    pub path: Vec<[u8; 32]>,
}

/// The openings of a layer polynomial at `x` and at `-x`.
pub struct CpPair {
    pub cp_x: ValueAndPath,
    pub cp_minus_x: ValueAndPath,
}

/// The answer to one query: the trace at `x`, `g*x` and `g^2*x`, and the
/// composition polynomial and every FRI layer at `x` and `-x`.
pub struct QueryProof {
    pub f_x: ValueAndPath,
    pub f_gx: ValueAndPath,
    pub f_g2x: ValueAndPath,
    pub cp_pairs: Vec<CpPair>,
}

/// The whole proof.
pub struct ProverValues {
    pub extended_trace_commitment: [u8; 32],
    pub composite_polynomial_commitment: [u8; 32],
    pub fri_commitments: Vec<[u8; 32]>,
    pub queries_proofs: Vec<QueryProof>,
}

/// An opening as a value and a sequence of hashes.
pub type Opening = (FieldElement, Seq<Seq<u8>>);

/// A query answer as three trace openings and a sequence of layer pairs.
pub type QueryView = (Opening, Opening, Opening, Seq<(Opening, Opening)>);

impl ValueAndPath {
    pub open spec fn view(&self) -> Opening {
        (self.value, level_view(self.path@))
    }
}

impl CpPair {
    pub open spec fn view(&self) -> (Opening, Opening) {
        (self.cp_x.view(), self.cp_minus_x.view())
    }
}

impl QueryProof {
    pub open spec fn view(&self) -> QueryView {
        (
            self.f_x.view(),
            self.f_gx.view(),
            self.f_g2x.view(),
            self.cp_pairs@.map_values(|p: CpPair| p.view()),
        )
    }
}

/// The bytes of a sequence of hashes, one after the other.
pub open spec fn flatten(hashes: Seq<Seq<u8>>) -> Seq<u8>
    decreases hashes.len(),
{
    if hashes.len() == 0 {
        Seq::empty()
    } else {
        flatten(hashes.drop_last()) + hashes.last()
    }
}

/// The bytes of a single hash are the hash.
pub proof fn lemma_flatten_one(h: Seq<u8>)
    ensures
        flatten(seq![h]) == h,
{
    let s = seq![h];
    assert(s.drop_last() =~= Seq::<Seq<u8>>::empty());
    assert(flatten(s.drop_last()) == Seq::<u8>::empty());
    assert(s.last() == h);
    assert(flatten(s) == flatten(s.drop_last()) + s.last());
    assert(Seq::<u8>::empty() + h =~= h);
}

/// The bytes of the paths of a sequence of layer pairs, pair by pair, the
/// path at `x` before the path at `-x`.
pub open spec fn pairs_transcript(pairs: Seq<(Opening, Opening)>) -> Seq<u8>
    decreases pairs.len(),
{
    if pairs.len() == 0 {
        Seq::empty()
    } else {
        pairs_transcript(pairs.drop_last()) + flatten(pairs.last().0.1) + flatten(pairs.last().1.1)
    }
}

/// The bytes a query answer adds to the Fiat-Shamir transcript: every hash
/// of every path, in the order the answer lists them.
pub open spec fn query_transcript(q: QueryView) -> Seq<u8> {
    flatten(q.0.1) + flatten(q.1.1) + flatten(q.2.1) + pairs_transcript(q.3)
}

/// Appends the 32 bytes of `h` to `seed`.
pub fn extend_with_hash(seed: &mut Vec<u8>, h: &[u8; 32])
    ensures
        final(seed)@ == old(seed)@ + h@,
{
    let ghost start = seed@;
    let mut i: usize = 0;
    while i < 32
        invariant
            i <= 32,
            seed@ == start + h@.take(i as int),
        decreases 32 - i,
    {
        seed.push(h[i]);
        assert(start + h@.take(i + 1) =~= (start + h@.take(i as int)).push(h@[i as int]));
        i = i + 1;
    }
    assert(h@.take(32) =~= h@);
}

/// Appends every hash of `nodes`, in order, to `seed`.
pub fn extend_with_hashes(seed: &mut Vec<u8>, nodes: &Vec<[u8; 32]>)
    ensures
        final(seed)@ == old(seed)@ + flatten(level_view(nodes@)),
{
    let ghost start = seed@;
    let ghost all = level_view(nodes@);
    let mut i: usize = 0;
    assert(all.take(0) =~= Seq::<Seq<u8>>::empty());
    assert(start + flatten(Seq::<Seq<u8>>::empty()) =~= start);
    while i < nodes.len()
        invariant
            i <= nodes.len(),
            all == level_view(nodes@),
            seed@ == start + flatten(all.take(i as int)),
        decreases nodes.len() - i,
    {
        extend_with_hash(seed, &nodes[i]);
        assert(all.take(i + 1).drop_last() =~= all.take(i as int));
        assert(start + flatten(all.take(i + 1)) =~= start + flatten(all.take(i as int)) + nodes@[i as int]@);
        i = i + 1;
    }
    assert(all.take(nodes.len() as int) =~= all);
}

/// Appends the transcript of a query answer to `seed`.
pub fn extend_with_query(seed: &mut Vec<u8>, proof: &QueryProof)
    ensures
        final(seed)@ == old(seed)@ + query_transcript(proof.view()),
{
    let ghost start = seed@;
    extend_with_hashes(seed, &proof.f_x.path);
    extend_with_hashes(seed, &proof.f_gx.path);
    extend_with_hashes(seed, &proof.f_g2x.path);
    let ghost mid = seed@;
    let ghost pairs = proof.view().3;
    let mut i: usize = 0;
    assert(pairs.take(0) =~= Seq::<(Opening, Opening)>::empty());
    assert(mid + pairs_transcript(Seq::<(Opening, Opening)>::empty()) =~= mid);
    while i < proof.cp_pairs.len()
        invariant
            i <= proof.cp_pairs.len(),
            pairs == proof.view().3,
            seed@ == mid + pairs_transcript(pairs.take(i as int)),
        decreases proof.cp_pairs.len() - i,
    {
        let pair = &proof.cp_pairs[i];
        extend_with_hashes(seed, &pair.cp_x.path);
        extend_with_hashes(seed, &pair.cp_minus_x.path);
        assert(pairs.take(i + 1).drop_last() =~= pairs.take(i as int));
        assert(pairs.take(i + 1).last() == pair.view());
        assert(mid + pairs_transcript(pairs.take(i + 1)) =~= mid + pairs_transcript(pairs.take(i as int))
            + flatten(level_view(pair.cp_x.path@)) + flatten(level_view(pair.cp_minus_x.path@)));
        i = i + 1;
    }
    assert(pairs.take(proof.cp_pairs.len() as int) =~= pairs);
    assert(seed@ =~= start + query_transcript(proof.view()));
}

} // verus!
