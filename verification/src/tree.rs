//! The Merkle tree: its nodes, its mathematical model, and the
//! bottom-up construction of the tree from an ordered list of leaves.

use vstd::prelude::*;
use crate::hash::{hash_pair, keccak_hex, leaf_hash, pair_hash};

verus! {

/// The mathematical model of a tree node: a leaf digest, or an internal
/// node holding its digest and its two children.
pub enum HashTree {
    Leaf { hash: Seq<char> },
    Node { hash: Seq<char>, left: Box<HashTree>, right: Box<HashTree> },
}

impl HashTree {
    /// The digest at the top of this (sub)tree.
    pub open spec fn hash(self) -> Seq<char> {
        match self {
            HashTree::Leaf { hash } => hash,
            HashTree::Node { hash, .. } => hash,
        }
    }

    /// Every internal node's digest is the pair hash of its children's
    /// digests.
    pub open spec fn wf(self) -> bool
        decreases self,
    {
        match self {
            HashTree::Leaf { .. } => true,
            HashTree::Node { hash, left, right } => {
                &&& hash == pair_hash(left.hash(), right.hash())
                &&& left.wf()
                &&& right.wf()
            },
        }
    }
}

/// One node of the Merkle tree. A leaf has both children absent; an
/// internal node has both present. A carried node (an unpaired node
/// passed unchanged to the next level during construction) keeps both
/// children absent.
pub struct MerkleNode {
    pub hash: String,
    pub left: Option<Box<MerkleNode>>,
    pub right: Option<Box<MerkleNode>>,
}

/// The model of a node: an internal node only where both children are
/// present, a leaf otherwise.
pub open spec fn node_view(n: MerkleNode) -> HashTree
    decreases n,
{
    match n.left {
        Some(l) => match n.right {
            Some(r) => HashTree::Node {
                hash: n.hash@,
                left: Box::new(node_view(*l)),
                right: Box::new(node_view(*r)),
            },
            None => HashTree::Leaf { hash: n.hash@ },
        },
        None => HashTree::Leaf { hash: n.hash@ },
    }
}

impl View for MerkleNode {
    type V = HashTree;

    open spec fn view(&self) -> HashTree {
        node_view(*self)
    }
}

/// The models of a sequence of nodes.
pub open spec fn views_of(ns: Seq<MerkleNode>) -> Seq<HashTree> {
    ns.map_values(|n: MerkleNode| node_view(n))
}

/// A node with no children at all.
pub open spec fn childless(n: MerkleNode) -> bool {
    n.left is None && n.right is None
}

/// The concrete shape invariant: every node has either both children or
/// none. Under it the model determines the concrete children, since no
/// one-child node hides behind a leaf model.
pub open spec fn well_shaped(n: MerkleNode) -> bool
    decreases n,
{
    match n.left {
        Some(l) => match n.right {
            Some(r) => well_shaped(*l) && well_shaped(*r),
            None => false,
        },
        None => n.right is None,
    }
}

/// The left-to-right in-order sequence of childless nodes of a tree:
/// the nodes the construction placed and never gave children.
pub open spec fn tree_leaves(n: MerkleNode) -> Seq<MerkleNode>
    decreases n,
{
    match n.left {
        Some(l) => match n.right {
            Some(r) => tree_leaves(*l) + tree_leaves(*r),
            None => seq![n],
        },
        None => seq![n],
    }
}

/// The in-order childless nodes of all trees of one level, left to
/// right.
pub open spec fn level_leaves(ns: Seq<MerkleNode>) -> Seq<MerkleNode>
    decreases ns.len(),
{
    if ns.len() == 0 {
        Seq::empty()
    } else {
        tree_leaves(ns[0]) + level_leaves(ns.skip(1))
    }
}

/// Appending a tree to a level appends its leaves.
proof fn lemma_level_leaves_push(ns: Seq<MerkleNode>, x: MerkleNode)
    ensures
        level_leaves(ns.push(x)) == level_leaves(ns) + tree_leaves(x),
    decreases ns.len(),
{
    if ns.len() == 0 {
        assert(ns.push(x)[0] == x);
        assert(ns.push(x).skip(1) =~= Seq::<MerkleNode>::empty());
        assert(level_leaves(Seq::<MerkleNode>::empty()) == Seq::<MerkleNode>::empty());
        assert(level_leaves(ns.push(x)) == tree_leaves(x) + level_leaves(ns.push(x).skip(1)));
        assert(level_leaves(ns.push(x)) =~= level_leaves(ns) + tree_leaves(x));
    } else {
        assert(ns.push(x)[0] == ns[0]);
        assert(ns.push(x).skip(1) =~= ns.skip(1).push(x));
        lemma_level_leaves_push(ns.skip(1), x);
        assert(level_leaves(ns) == tree_leaves(ns[0]) + level_leaves(ns.skip(1)));
        assert(level_leaves(ns.push(x)) == tree_leaves(ns[0]) + level_leaves(ns.skip(1).push(x)));
        assert(level_leaves(ns.push(x)) =~= level_leaves(ns) + tree_leaves(x));
    }
}

/// A level of childless nodes has exactly those nodes as its leaves, in
/// order.
pub proof fn lemma_level_leaves_childless(ns: Seq<MerkleNode>)
    requires
        forall|i: int| 0 <= i < ns.len() ==> childless(#[trigger] ns[i]),
    ensures
        level_leaves(ns) == ns,
    decreases ns.len(),
{
    if ns.len() > 0 {
        assert(tree_leaves(ns[0]) == seq![ns[0]]);
        lemma_level_leaves_childless(ns.skip(1));
        assert(level_leaves(ns) =~= ns);
    } else {
        assert(level_leaves(ns) =~= ns);
    }
}

impl MerkleNode {
    /// A leaf node carrying the given digest and no children.
    pub fn new(hash: String) -> (node: Self)
        ensures
            node.hash == hash,
            node.left is None,
            node.right is None,
            node@ == (HashTree::Leaf { hash: hash@ }),
    {
        MerkleNode { hash, left: None, right: None }
    }
}

/// The parent of two subtrees: its digest is the pair hash of the
/// children's digests, left first.
pub open spec fn combine(l: HashTree, r: HashTree) -> HashTree {
    HashTree::Node { hash: pair_hash(l.hash(), r.hash()), left: Box::new(l), right: Box::new(r) }
}

/// One pass of pairing: adjacent subtrees are combined left to right,
/// and a final unpaired subtree is carried forward unchanged.
pub open spec fn build_level(ts: Seq<HashTree>) -> Seq<HashTree>
    decreases ts.len(),
{
    if ts.len() >= 2 {
        seq![combine(ts[0], ts[1])] + build_level(ts.skip(2))
    } else {
        ts
    }
}

/// One pairing pass halves the level, rounding up.
pub proof fn lemma_build_level_len(ts: Seq<HashTree>)
    ensures
        build_level(ts).len() == (ts.len() + 1) / 2,
    decreases ts.len(),
{
    if ts.len() >= 2 {
        lemma_build_level_len(ts.skip(2));
    }
}

/// The tree over an ordered, non-empty sequence of subtrees: pairing
/// passes are repeated until a single tree remains.
pub open spec fn build_tree(ts: Seq<HashTree>) -> HashTree
    decreases ts.len(),
    when ts.len() >= 1
{
    if ts.len() == 1 {
        ts[0]
    } else {
        proof {
            lemma_build_level_len(ts);
        }
        build_tree(build_level(ts))
    }
}

/// The leaf subtrees for an ordered sequence of leaf digests.
pub open spec fn leaf_trees(hashes: Seq<Seq<char>>) -> Seq<HashTree> {
    hashes.map_values(|h: Seq<char>| HashTree::Leaf { hash: h })
}

/// The leaf digests of an ordered sequence of addresses.
pub open spec fn leaf_hashes(addresses: Seq<Seq<char>>) -> Seq<Seq<char>> {
    addresses.map_values(|a: Seq<char>| keccak_hex(a))
}

/// The root digest of the tree built over an ordered, non-empty
/// sequence of leaf digests.
pub open spec fn merkle_root(hashes: Seq<Seq<char>>) -> Seq<char> {
    build_tree(leaf_trees(hashes)).hash()
}

/// One pairing pass keeps well-formedness.
pub proof fn lemma_build_level_wf(ts: Seq<HashTree>)
    requires
        forall|i: int| 0 <= i < ts.len() ==> (#[trigger] ts[i]).wf(),
    ensures
        forall|i: int| 0 <= i < build_level(ts).len() ==> (#[trigger] build_level(ts)[i]).wf(),
    decreases ts.len(),
{
    if ts.len() >= 2 {
        assert(forall|i: int| 0 <= i < ts.skip(2).len() ==> (#[trigger] ts.skip(2)[i]).wf());
        lemma_build_level_wf(ts.skip(2));
        assert forall|i: int| 0 <= i < build_level(ts).len() implies (#[trigger] build_level(
            ts,
        )[i]).wf() by {
            if i == 0 {
                assert(ts[0].wf() && ts[1].wf());
            } else {
                assert(build_level(ts)[i] == build_level(ts.skip(2))[i - 1]);
            }
        }
    }
}

/// A tree built from well-formed subtrees is well-formed.
pub proof fn lemma_build_tree_wf(ts: Seq<HashTree>)
    requires
        ts.len() >= 1,
        forall|i: int| 0 <= i < ts.len() ==> (#[trigger] ts[i]).wf(),
    ensures
        build_tree(ts).wf(),
    decreases ts.len(),
{
    if ts.len() > 1 {
        lemma_build_level_len(ts);
        lemma_build_level_wf(ts);
        lemma_build_tree_wf(build_level(ts));
    }
}

/// Leaf subtrees are well-formed.
pub proof fn lemma_leaf_trees_wf(hashes: Seq<Seq<char>>)
    ensures
        leaf_trees(hashes).len() == hashes.len(),
        forall|i: int| 0 <= i < hashes.len() ==> (#[trigger] leaf_trees(hashes)[i]).wf(),
{
}

/// Determinism: the root digest is a function of the ordered leaf
/// digests alone, so building twice from the same list gives the same
/// root.
pub proof fn lemma_root_deterministic(hashes1: Seq<Seq<char>>, hashes2: Seq<Seq<char>>)
    requires
        hashes1 == hashes2,
    ensures
        merkle_root(hashes1) == merkle_root(hashes2),
{
}

/// A single-leaf tree: the root digest is the leaf digest itself, with
/// no pairing performed.
pub proof fn lemma_single_leaf_root(h: Seq<char>)
    ensures
        merkle_root(seq![h]) == h,
{
    assert(leaf_trees(seq![h]) =~= seq![HashTree::Leaf { hash: h }]);
}

/// Over two leaf digests the root is the pair hash of the two, left
/// first.
pub proof fn lemma_two_leaf_root(a: Seq<char>, b: Seq<char>)
    ensures
        merkle_root(seq![a, b]) == pair_hash(a, b),
{
    let la = HashTree::Leaf { hash: a };
    let lb = HashTree::Leaf { hash: b };
    let ts = seq![la, lb];
    assert(leaf_trees(seq![a, b]) =~= ts);
    assert(ts.skip(2) =~= Seq::<HashTree>::empty());
    assert(build_level(Seq::<HashTree>::empty()) == Seq::<HashTree>::empty());
    assert(build_level(ts) == seq![combine(ts[0], ts[1])] + build_level(ts.skip(2)));
    assert(build_level(ts) =~= seq![combine(la, lb)]);
    assert(build_tree(seq![combine(la, lb)]) == combine(la, lb));
    assert(build_tree(ts) == combine(la, lb));
}

/// The odd-leaf carry: over three leaf digests the unpaired third is
/// carried up one level, so the root is the hash of (the hash of the
/// first two) with the third.
pub proof fn lemma_three_leaf_root(a: Seq<char>, b: Seq<char>, c: Seq<char>)
    ensures
        merkle_root(seq![a, b, c]) == pair_hash(pair_hash(a, b), c),
{
    let la = HashTree::Leaf { hash: a };
    let lb = HashTree::Leaf { hash: b };
    let lc = HashTree::Leaf { hash: c };
    let ts = seq![la, lb, lc];
    assert(leaf_trees(seq![a, b, c]) =~= ts);
    let p = combine(la, lb);
    assert(ts.skip(2) =~= seq![lc]);
    assert(build_level(seq![lc]) == seq![lc]);
    assert(build_level(ts) == seq![combine(ts[0], ts[1])] + build_level(ts.skip(2)));
    assert(build_level(ts) =~= seq![p, lc]);
    let level2 = seq![p, lc];
    assert(level2.skip(2) =~= Seq::<HashTree>::empty());
    assert(build_level(Seq::<HashTree>::empty()) == Seq::<HashTree>::empty());
    assert(build_level(level2) == seq![combine(level2[0], level2[1])] + build_level(level2.skip(2)));
    assert(build_level(level2) =~= seq![combine(p, lc)]);
    assert(build_tree(seq![combine(p, lc)]) == combine(p, lc));
    assert(build_tree(level2) == combine(p, lc));
    assert(build_tree(ts) == combine(p, lc));
}

/// Builds the Merkle tree over an ordered, non-empty sequence of
/// leaves: adjacent nodes are paired level by level, an unpaired final
/// node is carried forward unchanged, until a single root remains. The
/// input nodes stand unchanged in the result, in order, as its childless
/// nodes; no other childless node exists, and where the inputs are
/// well-shaped the whole result is.
pub fn build_merkle_tree(leaves: Vec<MerkleNode>) -> (root: MerkleNode)
    requires
        leaves@.len() >= 1,
    ensures
        root@ == build_tree(views_of(leaves@)),
        tree_leaves(root) == level_leaves(leaves@),
        (forall|i: int| 0 <= i < leaves@.len() ==> childless(#[trigger] leaves@[i]))
            ==> tree_leaves(root) == leaves@,
        (forall|i: int| 0 <= i < leaves@.len() ==> well_shaped(#[trigger] leaves@[i]))
            ==> well_shaped(root),
        leaves@.len() == 1 ==> root == leaves@[0],
{
    let ghost orig: Seq<HashTree> = views_of(leaves@);
    let ghost orig_nodes: Seq<MerkleNode> = leaves@;
    let ghost shaped_in: bool = forall|i: int|
        0 <= i < leaves@.len() ==> well_shaped(#[trigger] leaves@[i]);
    let mut level = leaves;
    while level.len() > 1
        invariant
            level@.len() >= 1,
            build_tree(views_of(level@)) == build_tree(orig),
            level_leaves(level@) == level_leaves(orig_nodes),
            shaped_in ==> (forall|i: int|
                0 <= i < level@.len() ==> well_shaped(#[trigger] level@[i])),
            orig_nodes.len() == 1 ==> level@ == orig_nodes,
        decreases level@.len(),
    {
        let ghost lvl: Seq<HashTree> = views_of(level@);
        let ghost lvl_nodes: Seq<MerkleNode> = level@;
        let mut next: Vec<MerkleNode> = Vec::new();
        while level.len() >= 2
            invariant
                views_of(next@) + build_level(views_of(level@)) =~= build_level(lvl),
                2 * next@.len() + level@.len() == lvl.len(),
                level_leaves(next@) + level_leaves(level@) == level_leaves(lvl_nodes),
                shaped_in ==> (forall|i: int|
                    0 <= i < next@.len() ==> well_shaped(#[trigger] next@[i])),
                shaped_in ==> (forall|i: int|
                    0 <= i < level@.len() ==> well_shaped(#[trigger] level@[i])),
            decreases level@.len(),
        {
            let ghost cur: Seq<HashTree> = views_of(level@);
            let ghost cur_nodes: Seq<MerkleNode> = level@;
            let ghost next_before: Seq<MerkleNode> = next@;
            let a = level.remove(0);
            let b = level.remove(0);
            proof {
                assert(level@ =~= cur_nodes.skip(2));
                assert(views_of(level@) =~= cur.skip(2));
                assert(cur[0] == a@ && cur[1] == b@);
                assert(cur_nodes[0] == a && cur_nodes[1] == b);
            }
            let parent_hash = hash_pair(a.hash.as_str(), b.hash.as_str());
            let parent = MerkleNode {
                hash: parent_hash,
                left: Some(Box::new(a)),
                right: Some(Box::new(b)),
            };
            proof {
                assert(parent@ == combine(cur[0], cur[1]));
                assert(tree_leaves(parent) == tree_leaves(cur_nodes[0]) + tree_leaves(
                    cur_nodes[1],
                ));
                if shaped_in {
                    assert(well_shaped(cur_nodes[0]) && well_shaped(cur_nodes[1]));
                    assert(well_shaped(parent));
                    assert forall|i: int| 0 <= i < level@.len() implies well_shaped(
                        #[trigger] level@[i],
                    ) by {
                        assert(level@[i] == cur_nodes[i + 2]);
                    }
                }
            }
            next.push(parent);
            proof {
                assert(views_of(next@) =~= views_of(next@.drop_last()).push(parent@));
                assert(build_level(cur) =~= seq![combine(cur[0], cur[1])] + build_level(
                    cur.skip(2),
                ));
                assert(views_of(next@) + build_level(views_of(level@)) =~= build_level(lvl));
                lemma_level_leaves_push(next_before, parent);
                assert(cur_nodes.skip(1).skip(1) =~= cur_nodes.skip(2));
                assert(cur_nodes.skip(1)[0] == cur_nodes[1]);
                assert(level_leaves(cur_nodes) == tree_leaves(cur_nodes[0]) + level_leaves(
                    cur_nodes.skip(1),
                ));
                assert(level_leaves(cur_nodes.skip(1)) == tree_leaves(cur_nodes[1])
                    + level_leaves(cur_nodes.skip(2)));
                assert(level_leaves(next@) + level_leaves(level@) =~= level_leaves(next_before)
                    + level_leaves(cur_nodes));
                assert(level_leaves(next@) + level_leaves(level@) == level_leaves(lvl_nodes));
            }
        }
        if level.len() == 1 {
            let ghost next_before: Seq<MerkleNode> = next@;
            let ghost rest_nodes: Seq<MerkleNode> = level@;
            let carried = level.remove(0);
            proof {
                assert(build_level(views_of(level@).push(carried@)) =~= views_of(
                    level@,
                ).push(carried@));
                assert(rest_nodes[0] == carried);
            }
            next.push(carried);
            proof {
                assert(views_of(next@) =~= views_of(next@.drop_last()).push(carried@));
                assert(views_of(next@) =~= build_level(lvl));
                lemma_level_leaves_push(next_before, carried);
                assert(rest_nodes.skip(1) =~= Seq::<MerkleNode>::empty());
                assert(level_leaves(Seq::<MerkleNode>::empty()) == Seq::<MerkleNode>::empty());
                assert(level_leaves(rest_nodes) == tree_leaves(rest_nodes[0]) + level_leaves(
                    rest_nodes.skip(1),
                ));
                assert(level_leaves(rest_nodes) =~= tree_leaves(carried));
                assert(level_leaves(next@) == level_leaves(lvl_nodes));
            }
        } else {
            proof {
                assert(views_of(level@) =~= Seq::<HashTree>::empty());
                assert(build_level(views_of(level@)) =~= Seq::<HashTree>::empty());
                assert(views_of(next@) =~= build_level(lvl));
                assert(level_leaves(level@) =~= Seq::<MerkleNode>::empty());
                assert(level_leaves(next@) =~= level_leaves(next@) + level_leaves(level@));
                assert(level_leaves(next@) == level_leaves(lvl_nodes));
            }
        }
        proof {
            lemma_build_level_len(lvl);
            assert(build_tree(views_of(next@)) == build_tree(lvl));
        }
        level = next;
    }
    let ghost last: Seq<HashTree> = views_of(level@);
    let ghost last_nodes: Seq<MerkleNode> = level@;
    let root = level.remove(0);
    proof {
        assert(build_tree(last) == last[0]);
        assert(last[0] == root@);
        assert(last_nodes[0] == root);
        assert(last_nodes.skip(1) =~= Seq::<MerkleNode>::empty());
        assert(level_leaves(Seq::<MerkleNode>::empty()) == Seq::<MerkleNode>::empty());
        assert(level_leaves(last_nodes) == tree_leaves(last_nodes[0]) + level_leaves(
            last_nodes.skip(1),
        ));
        assert(level_leaves(last_nodes) =~= tree_leaves(root));
        if forall|i: int| 0 <= i < orig_nodes.len() ==> childless(#[trigger] orig_nodes[i]) {
            lemma_level_leaves_childless(orig_nodes);
        }
    }
    root
}

/// Builds the Merkle tree where the leaf list is non-empty, and rejects
/// an empty list explicitly instead of failing on it.
pub fn try_build_merkle_tree(leaves: Vec<MerkleNode>) -> (result: Option<MerkleNode>)
    ensures
        result is Some <==> leaves@.len() >= 1,
        result matches Some(root) ==> root@ == build_tree(views_of(leaves@)),
        result matches Some(root) ==> tree_leaves(root) == level_leaves(leaves@),
        result matches Some(root) ==> ((forall|i: int|
            0 <= i < leaves@.len() ==> childless(#[trigger] leaves@[i])) ==> tree_leaves(root)
            == leaves@),
        result matches Some(root) ==> ((forall|i: int|
            0 <= i < leaves@.len() ==> well_shaped(#[trigger] leaves@[i])) ==> well_shaped(root)),
        result matches Some(root) ==> (leaves@.len() == 1 ==> root == leaves@[0]),
{
    if leaves.len() == 0 {
        None
    } else {
        Some(build_merkle_tree(leaves))
    }
}

/// Hashes an ordered list of addresses into the ordered list of leaf
/// nodes of the tree.
pub fn leaves_from_addresses(addresses: &Vec<String>) -> (leaves: Vec<MerkleNode>)
    ensures
        views_of(leaves@) == leaf_trees(leaf_hashes(addresses.deep_view())),
        forall|i: int| 0 <= i < leaves@.len() ==> childless(#[trigger] leaves@[i]),
        forall|i: int| 0 <= i < leaves@.len() ==> well_shaped(#[trigger] leaves@[i]),
{
    let mut leaves: Vec<MerkleNode> = Vec::new();
    let mut i: usize = 0;
    while i < addresses.len()
        invariant
            i <= addresses@.len(),
            views_of(leaves@) =~= leaf_trees(leaf_hashes(addresses.deep_view().take(i as int))),
            forall|j: int| 0 <= j < leaves@.len() ==> childless(#[trigger] leaves@[j]),
            forall|j: int| 0 <= j < leaves@.len() ==> well_shaped(#[trigger] leaves@[j]),
        decreases addresses@.len() - i,
    {
        let ghost prev: Seq<MerkleNode> = leaves@;
        let h = leaf_hash(addresses[i].as_str());
        let node = MerkleNode::new(h);
        proof {
            assert(node@ == (HashTree::Leaf { hash: keccak_hex(addresses.deep_view()[i as int]) }));
        }
        leaves.push(node);
        i = i + 1;
        proof {
            let dv = addresses.deep_view();
            let target = leaf_trees(leaf_hashes(dv.take(i as int)));
            assert(views_of(prev).len() == prev.len());
            assert(prev.len() == i - 1);
            assert(leaves@.len() == i);
            assert(target.len() == i);
            assert forall|j: int| 0 <= j < leaves@.len() implies views_of(leaves@)[j] == target[j] by {
                assert(views_of(leaves@)[j] == node_view(leaves@[j]));
                assert(target[j] == (HashTree::Leaf { hash: keccak_hex(dv[j]) }));
                if j < i - 1 {
                    assert(leaves@[j] == prev[j]);
                    assert(views_of(prev)[j] == node_view(prev[j]));
                    assert(views_of(prev)[j] == leaf_trees(leaf_hashes(dv.take(i - 1)))[j]);
                }
            }
            assert(views_of(leaves@) =~= target);
        }
    }
    proof {
        assert(addresses.deep_view().take(addresses@.len() as int) =~= addresses.deep_view());
        assert(views_of(leaves@) =~= leaf_trees(leaf_hashes(addresses.deep_view())));
    }
    leaves
}

} // verus!
