//! Merkle trees over field elements: building the tree, extracting the
//! authentication path of a leaf, and recomputing a root from a path.
use crate::field::FieldElement;
use crate::hashing::{hash_leaf, hash_pair, hashes_equal, leaf_hash, pair_hash};
use crate::poly::is_pow2;
use vstd::prelude::*;

verus! {

/// The 32 zero bytes that stand in for a missing right child.
pub open spec fn zero_hash() -> Seq<u8> {
    Seq::new(32, |i: int| 0u8)
}

/// The leaf hashes of a sequence of values.
pub open spec fn leaf_hashes(leaves: Seq<FieldElement>) -> Seq<Seq<u8>> {
    leaves.map_values(|v: FieldElement| leaf_hash(v))
}

/// The level above `level`: node `i` hashes nodes `2i` and `2i+1` (the zero
/// hash when `2i+1` is past the end).
pub open spec fn next_level(level: Seq<Seq<u8>>) -> Seq<Seq<u8>> {
    Seq::new(
        ((level.len() + 1) / 2) as nat,
        |i: int|
            pair_hash(
                level[2 * i],
                if 2 * i + 1 < level.len() {
                    level[2 * i + 1]
                } else {
                    zero_hash()
                },
            ),
    )
}

/// All levels of the Merkle tree built on `level`, from `level` itself up to
/// the level with one node.
pub open spec fn merkle_levels(level: Seq<Seq<u8>>) -> Seq<Seq<Seq<u8>>>
    decreases level.len(),
{
    if level.len() <= 1 {
        seq![level]
    } else {
        seq![level] + merkle_levels(next_level(level))
    }
}

/// The root of the Merkle tree built on `level`.
pub open spec fn merkle_root(level: Seq<Seq<u8>>) -> Seq<u8> {
    merkle_levels(level).last()[0]
}

/// The index of the other child of the same parent.
pub open spec fn sibling(i: nat) -> nat {
    if i % 2 == 0 {
        i + 1
    } else {
        (i - 1) as nat
    }
}

/// The authentication path of node `i` of the lowest level: its sibling,
/// then the sibling of its parent, and so on below the top level.
pub open spec fn merkle_path(i: nat, levels: Seq<Seq<Seq<u8>>>) -> Seq<Seq<u8>>
    decreases levels.len(),
{
    if levels.len() <= 1 {
        Seq::empty()
    } else {
        seq![levels[0][sibling(i) as int]] + merkle_path(i / 2, levels.drop_first())
    }
}

/// Every sibling on the path of node `i` exists.
pub open spec fn path_in_bounds(i: nat, levels: Seq<Seq<Seq<u8>>>) -> bool
    decreases levels.len(),
{
    levels.len() <= 1 || (sibling(i) < levels[0].len() && path_in_bounds(i / 2, levels.drop_first()))
}

/// The hash of the parent of `h` (node `i`) and its sibling `s`, the lower
/// index first.
pub open spec fn combine(h: Seq<u8>, s: Seq<u8>, i: nat) -> Seq<u8> {
    if i % 2 == 0 {
        pair_hash(h, s)
    } else {
        pair_hash(s, h)
    }
}

/// The root reached from hash `h` at index `index` by hashing in the path.
pub open spec fn path_root(h: Seq<u8>, path: Seq<Seq<u8>>, index: nat) -> Seq<u8>
    decreases path.len(),
{
    if path.len() == 0 {
        h
    } else {
        path_root(combine(h, path[0], index), path.drop_first(), index / 2)
    }
}

/// The hashes of a level, as byte sequences.
pub open spec fn level_view(level: Seq<[u8; 32]>) -> Seq<Seq<u8>> {
    level.map_values(|h: [u8; 32]| h@)
}

/// The levels of a tree, as sequences of byte sequences.
pub open spec fn tree_view(tree: Seq<Vec<[u8; 32]>>) -> Seq<Seq<Seq<u8>>> {
    tree.map_values(|l: Vec<[u8; 32]>| level_view(l@))
}

fn copy_level(level: &Vec<[u8; 32]>) -> (r: Vec<[u8; 32]>)
    ensures
        r@ == level@,
{
    let mut r: Vec<[u8; 32]> = Vec::new();
    let mut i: usize = 0;
    while i < level.len()
        invariant
            i <= level.len(),
            r@ == level@.take(i as int),
        decreases level.len() - i,
    {
        r.push(level[i]);
        assert(level@.take(i + 1) =~= level@.take(i as int).push(level@[i as int]));
        i = i + 1;
    }
    assert(level@.take(level.len() as int) =~= level@);
    r
}

fn hash_level_up(level: &Vec<[u8; 32]>) -> (r: Vec<[u8; 32]>)
    ensures
        level_view(r@) == next_level(level_view(level@)),
{
    let n = level.len();
    let half = n / 2 + n % 2;
    let mut r: Vec<[u8; 32]> = Vec::new();
    let mut i: usize = 0;
    let ghost lv = level_view(level@);
    while i < half
        invariant
            n == level.len(),
            half == (n + 1) / 2,
            lv == level_view(level@),
            i <= half,
            r.len() == i,
            forall|k: int| 0 <= k < i ==> #[trigger] r@[k]@ == next_level(lv)[k],
        decreases half - i,
    {
        let left = level[2 * i];
        let right = if 2 * i + 1 < n {
            level[2 * i + 1]
        } else {
            [0u8; 32]
        };
        proof {
            if 2 * i + 1 >= n {
                assert(right@ =~= zero_hash());
            }
        }
        let h = hash_pair(&left, &right);
        r.push(h);
        i = i + 1;
    }
    assert(level_view(r@) =~= next_level(lv));
    r
}

/// Builds the Merkle tree of the values: every level from the leaf hashes up
/// to the root level, and the root itself.
pub fn compute_merkle_root(leaves_values: &[FieldElement]) -> (r: (Vec<Vec<[u8; 32]>>, [u8; 32]))
    requires
        leaves_values.len() > 0,
    ensures
        tree_view(r.0@) == merkle_levels(leaf_hashes(leaves_values@)),
        r.1@ == merkle_root(leaf_hashes(leaves_values@)),
{
    let ghost leaves = leaf_hashes(leaves_values@);
    let mut current_level: Vec<[u8; 32]> = Vec::new();
    let mut i: usize = 0;
    while i < leaves_values.len()
        invariant
            i <= leaves_values.len(),
            leaves == leaf_hashes(leaves_values@),
            level_view(current_level@) == leaves.take(i as int),
        decreases leaves_values.len() - i,
    {
        let ghost before = level_view(current_level@);
        let h = hash_leaf(&leaves_values[i]);
        current_level.push(h);
        assert(level_view(current_level@) =~= before.push(h@));
        assert(leaves.take(i + 1) =~= leaves.take(i as int).push(leaves[i as int]));
        i = i + 1;
    }
    assert(leaves.take(leaves_values.len() as int) =~= leaves);
    let mut merkle_tree: Vec<Vec<[u8; 32]>> = Vec::new();
    assert(tree_view(merkle_tree@) =~= Seq::<Seq<Seq<u8>>>::empty());
    while current_level.len() > 1
        invariant
            current_level.len() >= 1,
            tree_view(merkle_tree@) + merkle_levels(level_view(current_level@)) == merkle_levels(
                leaves,
            ),
        decreases current_level.len(),
    {
        let ghost before = tree_view(merkle_tree@);
        let ghost cur = level_view(current_level@);
        merkle_tree.push(copy_level(&current_level));
        assert(tree_view(merkle_tree@) =~= before.push(cur));
        assert(merkle_levels(cur) == seq![cur] + merkle_levels(next_level(cur)));
        assert(before + merkle_levels(cur) =~= before.push(cur) + merkle_levels(next_level(cur)));
        current_level = hash_level_up(&current_level);
    }
    let ghost before = tree_view(merkle_tree@);
    let ghost cur = level_view(current_level@);
    merkle_tree.push(copy_level(&current_level));
    assert(tree_view(merkle_tree@) =~= before.push(cur));
    assert(merkle_levels(cur) == seq![cur]);
    assert(tree_view(merkle_tree@) =~= merkle_levels(leaves));
    let root = current_level[0];
    (merkle_tree, root)
}

/// The authentication path of leaf `index`: the sibling hash at every level
/// below the root, lowest first.
pub fn extract_path_from_merkle_tree(index: &usize, merkle_tree: &[Vec<[u8; 32]>]) -> (r: Vec<
    [u8; 32],
>)
    requires
        path_in_bounds(*index as nat, tree_view(merkle_tree@)),
    ensures
        level_view(r@) == merkle_path(*index as nat, tree_view(merkle_tree@)),
{
    let ghost full = tree_view(merkle_tree@);
    let mut path: Vec<[u8; 32]> = Vec::new();
    let mut current_index: usize = *index;
    let n = merkle_tree.len();
    let last = if n > 0 {
        n - 1
    } else {
        0
    };
    let mut k: usize = 0;
    assert(full.skip(0) =~= full);
    assert(level_view(path@) =~= Seq::<Seq<u8>>::empty());
    while k < last
        invariant
            n == merkle_tree.len(),
            last == if n > 0 { n - 1 } else { 0 },
            k <= last,
            full == tree_view(merkle_tree@),
            level_view(path@) + merkle_path(current_index as nat, full.skip(k as int)) == merkle_path(
                *index as nat,
                full,
            ),
            path_in_bounds(current_index as nat, full.skip(k as int)),
        decreases last - k,
    {
        let ghost rest = full.skip(k as int);
        assert(rest.len() > 1);
        assert(rest[0] == level_view(merkle_tree@[k as int]@));
        let sibling_index = if current_index % 2 == 0 {
            current_index + 1
        } else {
            current_index - 1
        };
        let level = &merkle_tree[k];
        let node = level[sibling_index];
        let ghost before = level_view(path@);
        path.push(node);
        assert(level_view(path@) =~= before.push(node@));
        assert(rest.drop_first() =~= full.skip(k + 1));
        assert(before + merkle_path(current_index as nat, rest) =~= before.push(node@) + merkle_path(
            (current_index / 2) as nat,
            rest.drop_first(),
        ));
        current_index = current_index / 2;
        k = k + 1;
    }
    assert(merkle_path(current_index as nat, full.skip(k as int)) =~= Seq::<Seq<u8>>::empty());
    assert(level_view(path@) =~= level_view(path@) + Seq::<Seq<u8>>::empty());
    path
}

/// The root obtained by hashing `leaf` up along `path`, the leaf being at
/// position `index` of the lowest level.
pub fn compute_merkle_path_root(leaf: FieldElement, path: &Vec<[u8; 32]>, index: usize) -> (r: [u8;
    32])
    ensures
        r@ == path_root(leaf_hash(leaf), level_view(path@), index as nat),
{
    let mut current_hash = hash_leaf(&leaf);
    let mut current_index = index;
    let ghost p = level_view(path@);
    let mut k: usize = 0;
    assert(p.skip(0) =~= p);
    while k < path.len()
        invariant
            k <= path.len(),
            p == level_view(path@),
            path_root(current_hash@, p.skip(k as int), current_index as nat) == path_root(
                leaf_hash(leaf),
                p,
                index as nat,
            ),
        decreases path.len() - k,
    {
        let sibling_hash = &path[k];
        assert(p.skip(k as int).drop_first() =~= p.skip(k + 1));
        if current_index % 2 == 0 {
            current_hash = hash_pair(&current_hash, sibling_hash);
        } else {
            current_hash = hash_pair(sibling_hash, &current_hash);
        }
        current_index = current_index / 2;
        k = k + 1;
    }
    assert(p.skip(k as int) =~= Seq::<Seq<u8>>::empty());
    current_hash
}

/// The path opens `leaf` at `index` against `commited_root`.
pub fn verify_merke_path(leaf: FieldElement, path: &Vec<[u8; 32]>, commited_root: [u8; 32], index: usize) -> (r:
    bool)
    ensures
        r == (path_root(leaf_hash(leaf), level_view(path@), index as nat) == commited_root@),
{
    let current_hash = compute_merkle_path_root(leaf, path, index);
    hashes_equal(&current_hash, &commited_root)
}

/// The top level of a tree built on at least one node holds exactly one node,
/// the root.
pub proof fn lemma_top_level(level: Seq<Seq<u8>>)
    requires
        level.len() >= 1,
    ensures
        merkle_levels(level).len() >= 1,
        merkle_levels(level).last().len() == 1,
        merkle_levels(level).last() == seq![merkle_root(level)],
    decreases level.len(),
{
    if level.len() > 1 {
        lemma_top_level(next_level(level));
        assert(merkle_levels(level).last() == merkle_levels(next_level(level)).last());
    }
    assert(merkle_levels(level).last() =~= seq![merkle_root(level)]);
}

/// A power of two above 1 is even, and its half is a power of two.
pub proof fn lemma_pow2_half(n: nat)
    requires
        is_pow2(n),
        n > 1,
    ensures
        n % 2 == 0,
        is_pow2(n / 2),
        n / 2 >= 1,
        (n + 1) / 2 == n / 2,
{
}

/// Every node of a level with a power-of-two number of nodes opens to the
/// root of its tree: each sibling on its path exists, and hashing the node up
/// along the path gives the root.
pub proof fn lemma_merkle_opening(level: Seq<Seq<u8>>, i: nat)
    requires
        is_pow2(level.len()),
        i < level.len(),
    ensures
        path_in_bounds(i, merkle_levels(level)),
        path_root(level[i as int], merkle_path(i, merkle_levels(level)), i) == merkle_root(level),
    decreases level.len(),
{
    let ml = merkle_levels(level);
    if level.len() <= 1 {
        assert(ml == seq![level]);
        assert(merkle_path(i, ml) =~= Seq::<Seq<u8>>::empty());
    } else {
        let nx = next_level(level);
        lemma_pow2_half(level.len());
        assert(nx.len() == level.len() / 2);
        assert(i / 2 < nx.len());
        lemma_merkle_opening(nx, i / 2);
        assert(ml == seq![level] + merkle_levels(nx));
        assert(ml.drop_first() =~= merkle_levels(nx));
        assert(ml[0] == level);
        assert(ml.len() > 1);
        assert(sibling(i) < level.len());
        let s = level[sibling(i) as int];
        assert(combine(level[i as int], s, i) == nx[(i / 2) as int]) by {
            if i % 2 == 0 {
                assert(2 * (i / 2) == i);
            } else {
                assert(2 * (i / 2) + 1 == i);
            }
        }
        let p = merkle_path(i, ml);
        assert(p == seq![s] + merkle_path(i / 2, merkle_levels(nx)));
        assert(p.drop_first() =~= merkle_path(i / 2, merkle_levels(nx)));
        assert(p[0] == s);
        assert(merkle_levels(nx).len() >= 1);
        assert(ml.last() == merkle_levels(nx).last());
    }
}

/// Merkle completeness: with a power-of-two number of values, the
/// authentication path of every value leads from its leaf hash to the root
/// of the tree built on the values, and extracting that path reads no missing
/// sibling.
pub proof fn lemma_merkle_leaf_opening(leaves: Seq<FieldElement>, i: nat)
    requires
        is_pow2(leaves.len()),
        i < leaves.len(),
    ensures
        path_in_bounds(i, merkle_levels(leaf_hashes(leaves))),
        path_root(leaf_hash(leaves[i as int]), merkle_path(i, merkle_levels(leaf_hashes(leaves))), i)
            == merkle_root(leaf_hashes(leaves)),
{
    lemma_merkle_opening(leaf_hashes(leaves), i);
}

/// A missing right child is 32 zero bytes: a level with an odd number of
/// nodes (at least three) has the same parent level, and so the same root, as
/// that level with 32 zero bytes appended as one more node.
pub proof fn lemma_odd_level_padding(level: Seq<Seq<u8>>)
    requires
        level.len() % 2 == 1,
        level.len() >= 3,
    ensures
        next_level(level) == next_level(level.push(Seq::new(32, |k: int| 0u8))),
        merkle_root(level) == merkle_root(level.push(Seq::new(32, |k: int| 0u8))),
{
    let padded = level.push(Seq::new(32, |k: int| 0u8));
    assert(zero_hash() =~= Seq::new(32, |k: int| 0u8));
    assert(next_level(level) =~= next_level(padded));
    assert(merkle_levels(level) == seq![level] + merkle_levels(next_level(level)));
    assert(merkle_levels(padded) == seq![padded] + merkle_levels(next_level(padded)));
    lemma_top_level(next_level(level));
}

/// Above its first level, a tree has the root of the level above.
proof fn lemma_root_of_next(level: Seq<Seq<u8>>)
    requires
        level.len() > 1,
    ensures
        merkle_root(level) == merkle_root(next_level(level)),
{
    lemma_top_level(next_level(level));
    assert(merkle_levels(level) == seq![level] + merkle_levels(next_level(level)));
}

/// A tree on two halves of equal power-of-two size is the pair of the trees
/// on the halves: its root is the hash of the left half's root followed by
/// the right half's.
pub proof fn lemma_root_of_halves(left: Seq<Seq<u8>>, right: Seq<Seq<u8>>)
    requires
        is_pow2(left.len()),
        left.len() == right.len(),
    ensures
        merkle_root(left + right) == pair_hash(merkle_root(left), merkle_root(right)),
    decreases left.len(),
{
    let both = left + right;
    if left.len() == 1 {
        assert(next_level(both) =~= seq![pair_hash(left[0], right[0])]);
        lemma_root_of_next(both);
        assert(merkle_levels(next_level(both)) == seq![next_level(both)]);
        assert(merkle_levels(left) == seq![left]);
        assert(merkle_levels(right) == seq![right]);
    } else {
        lemma_pow2_half(left.len());
        assert(next_level(both) =~= next_level(left) + next_level(right));
        lemma_root_of_halves(next_level(left), next_level(right));
        lemma_root_of_next(both);
        lemma_root_of_next(left);
        lemma_root_of_next(right);
    }
}

} // verus!
