//! Inclusion proofs: extracting the ordered sibling-digest path for a
//! target digest, and the proof that folding that path reproduces the
//! root digest.

use vstd::prelude::*;
use crate::hash::pair_hash;
use crate::tree::{
    build_level, build_tree, combine, leaf_trees, lemma_build_level_len, lemma_build_tree_wf,
    lemma_leaf_trees_wf, merkle_root, node_view, HashTree, MerkleNode,
};

verus! {

impl HashTree {
    /// Whether some node of the tree carries the target digest.
    pub open spec fn contains(self, target: Seq<char>) -> bool
        decreases self,
    {
        match self {
            HashTree::Leaf { hash } => hash == target,
            HashTree::Node { hash, left, right } => {
                hash == target || left.contains(target) || right.contains(target)
            },
        }
    }

    /// The sibling digests on the path from the target to the root, in
    /// leaf-to-root order, following the leftmost match first.
    pub open spec fn proof_path(self, target: Seq<char>) -> Seq<Seq<char>>
        decreases self,
    {
        match self {
            HashTree::Leaf { .. } => seq![],
            HashTree::Node { hash, left, right } => {
                if hash == target {
                    seq![]
                } else if left.contains(target) {
                    left.proof_path(target).push(right.hash())
                } else {
                    right.proof_path(target).push(left.hash())
                }
            },
        }
    }

    /// The side taken at each step of the proof path: true where the
    /// recomputed digest is the left operand of the pair hash (the
    /// sibling sits on the right), false where it is the right operand.
    pub open spec fn proof_dirs(self, target: Seq<char>) -> Seq<bool>
        decreases self,
    {
        match self {
            HashTree::Leaf { .. } => seq![],
            HashTree::Node { hash, left, right } => {
                if hash == target {
                    seq![]
                } else if left.contains(target) {
                    left.proof_dirs(target).push(true)
                } else {
                    right.proof_dirs(target).push(false)
                }
            },
        }
    }
}

/// Recomputes a root digest from a starting digest: each sibling digest
/// is combined with the running digest by the pair hash, on the side the
/// direction gives (true: running digest on the left).
pub open spec fn fold_proof(start: Seq<char>, siblings: Seq<Seq<char>>, dirs: Seq<bool>) -> Seq<
    char,
>
    decreases siblings.len(),
{
    if siblings.len() == 0 {
        start
    } else {
        let next = if dirs[0] {
            pair_hash(start, siblings[0])
        } else {
            pair_hash(siblings[0], start)
        };
        fold_proof(next, siblings.skip(1), dirs.skip(1))
    }
}

/// Appending one step to a proof path folds as one more pair hash on the
/// recorded side.
proof fn lemma_fold_proof_push(
    start: Seq<char>,
    siblings: Seq<Seq<char>>,
    dirs: Seq<bool>,
    sib: Seq<char>,
    d: bool,
)
    requires
        dirs.len() == siblings.len(),
    ensures
        fold_proof(start, siblings.push(sib), dirs.push(d)) == (if d {
            pair_hash(fold_proof(start, siblings, dirs), sib)
        } else {
            pair_hash(sib, fold_proof(start, siblings, dirs))
        }),
    decreases siblings.len(),
{
    if siblings.len() == 0 {
        let step = if d {
            pair_hash(start, sib)
        } else {
            pair_hash(sib, start)
        };
        assert(siblings.push(sib)[0] == sib);
        assert(dirs.push(d)[0] == d);
        assert(siblings.push(sib).skip(1) =~= Seq::<Seq<char>>::empty());
        assert(dirs.push(d).skip(1) =~= Seq::<bool>::empty());
        assert(fold_proof(step, Seq::<Seq<char>>::empty(), Seq::<bool>::empty()) == step);
        assert(fold_proof(start, siblings, dirs) == start);
    } else {
        let next = if dirs[0] {
            pair_hash(start, siblings[0])
        } else {
            pair_hash(siblings[0], start)
        };
        assert(siblings.push(sib)[0] == siblings[0]);
        assert(dirs.push(d)[0] == dirs[0]);
        assert(siblings.push(sib).skip(1) =~= siblings.skip(1).push(sib));
        assert(dirs.push(d).skip(1) =~= dirs.skip(1).push(d));
        lemma_fold_proof_push(next, siblings.skip(1), dirs.skip(1), sib, d);
    }
}

/// A proof path and its directions have one entry per level.
pub proof fn lemma_proof_path_len(t: HashTree, target: Seq<char>)
    ensures
        t.proof_path(target).len() == t.proof_dirs(target).len(),
    decreases t,
{
    match t {
        HashTree::Leaf { .. } => {},
        HashTree::Node { left, right, .. } => {
            lemma_proof_path_len(*left, target);
            lemma_proof_path_len(*right, target);
        },
    }
}

/// Proof validity: for any digest contained in a well-formed tree,
/// folding the extracted sibling path over the target digest, on the
/// recorded sides, reproduces the tree's root digest.
pub proof fn lemma_proof_valid(t: HashTree, target: Seq<char>)
    requires
        t.wf(),
        t.contains(target),
    ensures
        fold_proof(target, t.proof_path(target), t.proof_dirs(target)) == t.hash(),
    decreases t,
{
    match t {
        HashTree::Leaf { .. } => {},
        HashTree::Node { hash, left, right } => {
            if hash == target {
            } else if left.contains(target) {
                lemma_proof_valid(*left, target);
                lemma_proof_path_len(*left, target);
                lemma_fold_proof_push(
                    target,
                    left.proof_path(target),
                    left.proof_dirs(target),
                    right.hash(),
                    true,
                );
            } else {
                lemma_proof_valid(*right, target);
                lemma_proof_path_len(*right, target);
                lemma_fold_proof_push(
                    target,
                    right.proof_path(target),
                    right.proof_dirs(target),
                    left.hash(),
                    false,
                );
            }
        },
    }
}

/// One pairing pass keeps containment: a digest held by some subtree of
/// a level is held by some subtree of the next level.
proof fn lemma_build_level_contains(ts: Seq<HashTree>, target: Seq<char>)
    requires
        exists|k: int| 0 <= k < ts.len() && (#[trigger] ts[k]).contains(target),
    ensures
        exists|j: int|
            0 <= j < build_level(ts).len() && (#[trigger] build_level(ts)[j]).contains(target),
    decreases ts.len(),
{
    let k = choose|k: int| 0 <= k < ts.len() && (#[trigger] ts[k]).contains(target);
    if ts.len() >= 2 {
        if k < 2 {
            assert(combine(ts[0], ts[1]).contains(target));
            assert(build_level(ts)[0] == combine(ts[0], ts[1]));
            assert(0 <= 0 < build_level(ts).len() && build_level(ts)[0].contains(target));
        } else {
            assert(ts.skip(2)[k - 2] == ts[k]);
            assert(0 <= k - 2 < ts.skip(2).len() && (ts.skip(2)[k - 2]).contains(target));
            lemma_build_level_contains(ts.skip(2), target);
            let j = choose|j: int|
                0 <= j < build_level(ts.skip(2)).len() && (#[trigger] build_level(
                    ts.skip(2),
                )[j]).contains(target);
            assert(build_level(ts)[j + 1] == build_level(ts.skip(2))[j]);
            assert(0 <= j + 1 < build_level(ts).len() && (build_level(ts)[j + 1]).contains(
                target,
            ));
        }
    }
}

/// Containment carries through the whole construction.
proof fn lemma_build_tree_contains(ts: Seq<HashTree>, target: Seq<char>)
    requires
        ts.len() >= 1,
        exists|k: int| 0 <= k < ts.len() && (#[trigger] ts[k]).contains(target),
    ensures
        build_tree(ts).contains(target),
    decreases ts.len(),
{
    if ts.len() == 1 {
        let k = choose|k: int| 0 <= k < ts.len() && (#[trigger] ts[k]).contains(target);
        assert(k == 0);
    } else {
        lemma_build_level_len(ts);
        lemma_build_level_contains(ts, target);
        lemma_build_tree_contains(build_level(ts), target);
    }
}

/// Every digest of a leaf list is contained in the tree built over it:
/// requesting a proof for a genuine leaf always finds one.
pub proof fn lemma_leaf_contained(hashes: Seq<Seq<char>>, k: int)
    requires
        0 <= k < hashes.len(),
    ensures
        build_tree(leaf_trees(hashes)).contains(hashes[k]),
{
    assert(leaf_trees(hashes)[k] == (HashTree::Leaf { hash: hashes[k] }));
    assert(0 <= k < leaf_trees(hashes).len() && (leaf_trees(hashes)[k]).contains(hashes[k]));
    lemma_build_tree_contains(leaf_trees(hashes), hashes[k]);
}

/// Proof validity, end to end: for the tree built over any non-empty
/// ordered list of leaf digests and any digest that tree contains,
/// folding the extracted sibling path over the target digest, on the
/// recorded sides, reproduces the root digest of that list.
pub proof fn lemma_inclusion_proof_valid(hashes: Seq<Seq<char>>, target: Seq<char>)
    requires
        hashes.len() >= 1,
        build_tree(leaf_trees(hashes)).contains(target),
    ensures
        fold_proof(
            target,
            build_tree(leaf_trees(hashes)).proof_path(target),
            build_tree(leaf_trees(hashes)).proof_dirs(target),
        ) == merkle_root(hashes),
{
    lemma_leaf_trees_wf(hashes);
    lemma_build_tree_wf(leaf_trees(hashes));
    lemma_proof_valid(build_tree(leaf_trees(hashes)), target);
}

/// Searches the tree depth-first for the target digest; where it is
/// found, appends the sibling digests of the path, in leaf-to-root
/// order, to `out`. A node with only one child never arises from
/// `build_merkle_tree` (see `well_shaped`); the search treats such a
/// node as its model does, as a leaf.
pub fn build_proof(node: &MerkleNode, target_hash: &String, out: &mut Vec<String>) -> (found: bool)
    ensures
        found == node@.contains(target_hash@),
        found ==> final(out).deep_view() == old(out).deep_view() + node@.proof_path(target_hash@),
        !found ==> final(out)@ == old(out)@,
    decreases *node,
{
    if node.hash == *target_hash {
        proof {
            assert(node@.proof_path(target_hash@) =~= Seq::<Seq<char>>::empty());
            assert(old(out).deep_view() + node@.proof_path(target_hash@) =~= old(
                out,
            ).deep_view());
        }
        return true;
    }
    match (&node.left, &node.right) {
        (Some(left), Some(right)) => {
            if build_proof(left, target_hash, out) {
                let ghost mid: Seq<Seq<char>> = out.deep_view();
                out.push(right.hash.clone());
                proof {
                    let t = target_hash@;
                    let lv = node_view(**left);
                    let rv = node_view(**right);
                    assert(node@ == (HashTree::Node {
                        hash: node.hash@,
                        left: Box::new(lv),
                        right: Box::new(rv),
                    }));
                    assert(rv.hash() == right.hash@);
                    assert(node@.proof_path(t) == lv.proof_path(t).push(right.hash@));
                    assert(out.deep_view() =~= mid.push(right.hash@));
                    assert(out.deep_view() =~= old(out).deep_view() + node@.proof_path(t));
                }
                true
            } else if build_proof(right, target_hash, out) {
                let ghost mid: Seq<Seq<char>> = out.deep_view();
                out.push(left.hash.clone());
                proof {
                    let t = target_hash@;
                    let lv = node_view(**left);
                    let rv = node_view(**right);
                    assert(node@ == (HashTree::Node {
                        hash: node.hash@,
                        left: Box::new(lv),
                        right: Box::new(rv),
                    }));
                    assert(lv.hash() == left.hash@);
                    assert(node@.proof_path(t) == rv.proof_path(t).push(left.hash@));
                    assert(out.deep_view() =~= mid.push(left.hash@));
                    assert(out.deep_view() =~= old(out).deep_view() + node@.proof_path(t));
                }
                true
            } else {
                false
            }
        },
        _ => false,
    }
}

/// Extracts the inclusion proof for a target digest: the ordered list
/// of sibling digests from the leaf's immediate sibling up to the level
/// just below the root. Returns None where no node of the tree carries
/// the target digest, distinguishing "not found" from the empty proof
/// of a digest found at the root.
pub fn get_merkle_proof(node: &MerkleNode, target_hash: &String) -> (result: Option<Vec<String>>)
    ensures
        result is Some <==> node@.contains(target_hash@),
        result matches Some(p) ==> p.deep_view() == node@.proof_path(target_hash@),
{
    let mut out: Vec<String> = Vec::new();
    let found = build_proof(node, target_hash, &mut out);
    if found {
        proof {
            assert(Seq::<Seq<char>>::empty() + node@.proof_path(target_hash@) =~= node@.proof_path(
                target_hash@,
            ));
        }
        Some(out)
    } else {
        None
    }
}

} // verus!
