//! A complete binary Merkle tree in array form, with a lookup from each leaf's
//! hash to its slot, and inclusion proofs made of sibling hashes.
//!
//! Node `i` has children `2i + 1` and `2i + 2`; the root is node 0. For `n`
//! leaves the tree has `2n - 1` nodes, and leaf `k` sits, hashed, in slot
//! `2n - 2 - k`: the leaves fill the last `n` slots in reverse input order.

use vstd::prelude::*;
use crate::hashing::{
    bytes_eq, hash_pair, keccak256, keccak_of, lemma_pair_hash_symmetric, pair_hash,
};

verus! {

/// The ways in which building a tree or a proof can fail.
#[derive(Debug, Clone, Copy, PartialEq, Eq, Structural)]
pub enum MerkleError {
    /// A tree was requested over no leaves at all.
    EmptyInput,
    /// A proof was requested for a value whose hash is not a leaf of the tree.
    LeafNotFound,
}

/// The bytes of each value of a sequence of 32-byte values.
pub open spec fn views(s: Seq<[u8; 32]>) -> Seq<Seq<u8>> {
    s.map_values(|a: [u8; 32]| a@)
}

/// The index of the first leaf slot in a tree of `size` nodes.
pub open spec fn first_leaf_slot(size: int) -> int {
    (size - 1) / 2
}

/// Node `i` of the tree over `leaves`: a leaf slot holds the hash of its leaf,
/// an inner node the pair hash of its two children.
pub open spec fn node_of(leaves: Seq<Seq<u8>>, i: int) -> Seq<u8>
    decreases 2 * leaves.len() - 1 - i,
{
    let size = 2 * leaves.len() - 1;
    if i < 0 || i >= size {
        Seq::empty()
    } else if i >= leaves.len() - 1 {
        keccak_of(leaves[size - 1 - i])
    } else {
        pair_hash(node_of(leaves, 2 * i + 1), node_of(leaves, 2 * i + 2))
    }
}

/// All `2n - 1` nodes of the tree over `n` leaves, root first.
pub open spec fn tree_of(leaves: Seq<Seq<u8>>) -> Seq<Seq<u8>> {
    Seq::new((2 * leaves.len() - 1) as nat, |i: int| node_of(leaves, i))
}

/// The index of the node that shares its parent with node `i`.
pub open spec fn sibling_of(i: int) -> int {
    if i % 2 == 1 {
        i + 1
    } else {
        i - 1
    }
}

/// The index of the parent of node `i`.
pub open spec fn parent_of(i: int) -> int {
    (i - 1) / 2
}

/// The sibling hashes met on the way from node `i` up to the root, lowest
/// first.
pub open spec fn proof_path(nodes: Seq<Seq<u8>>, i: int) -> Seq<Seq<u8>>
    decreases i,
{
    if i <= 0 {
        Seq::empty()
    } else {
        seq![nodes[sibling_of(i)]] + proof_path(nodes, parent_of(i))
    }
}

/// The hash reached from `h` by pair-hashing it with each element of `proof`
/// in turn.
pub open spec fn fold_proof(h: Seq<u8>, proof: Seq<Seq<u8>>) -> Seq<u8>
    decreases proof.len(),
{
    if proof.len() == 0 {
        h
    } else {
        fold_proof(pair_hash(h, proof[0]), proof.drop_first())
    }
}

/// A tree in array form: an odd number of 32-byte nodes, each inner node the
/// pair hash of its two children.
pub open spec fn nodes_wf(nodes: Seq<Seq<u8>>) -> bool {
    &&& nodes.len() % 2 == 1
    &&& forall|i: int| 0 <= i < nodes.len() ==> (#[trigger] nodes[i]).len() == 32
    &&& forall|i: int|
        0 <= i && 2 * i + 2 < nodes.len() ==> #[trigger] nodes[i] == pair_hash(
            nodes[2 * i + 1],
            nodes[2 * i + 2],
        )
}

/// Whether slot `j` is a leaf slot of `nodes` that holds `h`.
pub open spec fn leaf_slot_holds(nodes: Seq<Seq<u8>>, j: int, h: Seq<u8>) -> bool {
    first_leaf_slot(nodes.len() as int) <= j < nodes.len() && nodes[j] == h
}

/// Pair-hashing a node with the sibling hashes on its way up reproduces the
/// root, in any well-formed tree.
pub proof fn lemma_path_reaches_root(nodes: Seq<Seq<u8>>, i: int)
    requires
        nodes_wf(nodes),
        0 <= i < nodes.len(),
    ensures
        fold_proof(nodes[i], proof_path(nodes, i)) == nodes[0],
    decreases i,
{
    if i > 0 {
        let p = parent_of(i);
        let s = sibling_of(i);
        assert(nodes[p] == pair_hash(nodes[2 * p + 1], nodes[2 * p + 2]));
        lemma_pair_hash_symmetric(nodes[i], nodes[s]);
        let path = proof_path(nodes, i);
        assert(path.drop_first() =~= proof_path(nodes, p));
        lemma_path_reaches_root(nodes, p);
    }
}

/// The tree over a leaf sequence is well formed wherever its nodes are
/// 32 bytes long.
proof fn lemma_tree_of_wf(leaves: Seq<Seq<u8>>, nodes: Seq<Seq<u8>>)
    requires
        leaves.len() >= 1,
        nodes == tree_of(leaves),
        forall|i: int| 0 <= i < nodes.len() ==> (#[trigger] nodes[i]).len() == 32,
    ensures
        nodes_wf(nodes),
{
    assert forall|i: int| 0 <= i && 2 * i + 2 < nodes.len() implies #[trigger] nodes[i]
        == pair_hash(nodes[2 * i + 1], nodes[2 * i + 2]) by {
        assert(nodes[i] == node_of(leaves, i));
    }
}

/// One entry of the lookup index: a leaf hash and the slot that holds it.
#[derive(Debug, Clone, Copy)]
struct LookupEntry {
    hash: [u8; 32],
    index: usize,
}

/// The lookup index over the leaf slots `lo..` of `nodes`: one entry per
/// distinct hash held there, pointing at the lowest slot that holds it (the
/// leaf that came last in input order); no two entries share a hash.
spec fn lookup_wf(nodes: Seq<Seq<u8>>, lo: int, lookup: Seq<LookupEntry>) -> bool {
    &&& forall|p: int|
        0 <= p < lookup.len() ==> {
            let e = #[trigger] lookup[p];
            &&& lo <= e.index < nodes.len()
            &&& nodes[e.index as int] == e.hash@
            &&& forall|j: int| lo <= j < nodes.len() && nodes[j] == e.hash@ ==> e.index <= j
        }
    &&& forall|j: int|
        lo <= j < nodes.len() ==> exists|p: int|
            0 <= p < lookup.len() && (#[trigger] lookup[p]).hash@ == #[trigger] nodes[j]
    &&& forall|p: int, q: int|
        0 <= p < q < lookup.len() ==> (#[trigger] lookup[p]).hash@ != (#[trigger] lookup[q]).hash@
}

/// The position in `lookup` of the entry for `h`, if there is one.
fn find_entry(lookup: &Vec<LookupEntry>, h: &[u8; 32]) -> (r: Option<usize>)
    ensures
        match r {
            Some(p) => p < lookup@.len() && lookup@[p as int].hash@ == h@,
            None => forall|p: int| 0 <= p < lookup@.len() ==> lookup@[p].hash@ != h@,
        },
{
    let mut p: usize = 0;
    while p < lookup.len()
        invariant
            0 <= p <= lookup@.len(),
            forall|q: int| 0 <= q < p ==> lookup@[q].hash@ != h@,
        decreases lookup@.len() - p,
    {
        if bytes_eq(&lookup[p].hash, h) {
            return Some(p);
        }
        p = p + 1;
    }
    None
}

/// A Merkle tree over 32-byte leaves, built once and then only read.
#[derive(Debug)]
pub struct MerkleTree {
    tree: Vec<[u8; 32]>,
    hash_lookup: Vec<LookupEntry>,
}

impl MerkleTree {
    /// The nodes of the tree, root first.
    pub closed spec fn nodes(&self) -> Seq<Seq<u8>> {
        views(self.tree@)
    }

    /// The tree is well formed and its lookup index covers its leaf slots.
    pub closed spec fn wf(&self) -> bool {
        &&& nodes_wf(self.nodes())
        &&& lookup_wf(self.nodes(), first_leaf_slot(self.nodes().len() as int), self.hash_lookup@)
    }

    /// Builds the tree over `data`: leaf `k` of `n` goes, hashed, to slot
    /// `2n - 2 - k`, and each inner node, deepest first, is the pair hash of
    /// its children. Fails on an empty leaf sequence.
    pub fn new(data: Vec<[u8; 32]>) -> (r: Result<MerkleTree, MerkleError>)
        requires
            2 * data@.len() <= usize::MAX,
        ensures
            match r {
                Ok(t) => data@.len() >= 1 && t.wf() && t.nodes() == tree_of(views(data@)),
                Err(e) => data@.len() == 0 && e == MerkleError::EmptyInput,
            },
    {
        if data.len() == 0 {
            return Err(MerkleError::EmptyInput);
        }
        let (tree, hash_lookup) = Self::build(&data);
        Ok(MerkleTree { tree, hash_lookup })
    }

    /// Hashes the leaves into their slots, fills the lookup index, then
    /// computes the inner nodes bottom-up.
    fn build(leaves: &Vec<[u8; 32]>) -> (r: (Vec<[u8; 32]>, Vec<LookupEntry>))
        requires
            leaves@.len() >= 1,
            2 * leaves@.len() <= usize::MAX,
        ensures
            views(r.0@) == tree_of(views(leaves@)),
            nodes_wf(views(r.0@)),
            lookup_wf(views(r.0@), first_leaf_slot(r.0@.len() as int), r.1@),
    {
        let ghost lv = views(leaves@);
        let ghost target = tree_of(lv);
        let n = leaves.len();
        let size = 2 * n - 1;
        let mut tree: Vec<[u8; 32]> = vec![[0u8; 32]; size];
        let mut hash_lookup: Vec<LookupEntry> = Vec::new();
        let mut i: usize = 0;
        while i < n
            invariant
                n == leaves@.len(),
                size == 2 * n - 1,
                lv == views(leaves@),
                target == tree_of(lv),
                tree@.len() == size,
                0 <= i <= n,
                forall|j: int| size - i <= j < size ==> (#[trigger] tree@[j])@ == target[j],
                lookup_wf(target, size - i, hash_lookup@),
            decreases n - i,
        {
            let index = size - 1 - i;
            let leaf = leaves[i];
            let h = keccak256(leaf.as_slice());
            assert(target[index as int] == node_of(lv, index as int));
            assert(lv[i as int] == leaf@);
            tree.set(index, h);
            let ghost old_lookup = hash_lookup@;
            match find_entry(&hash_lookup, &h) {
                Some(p) => {
                    hash_lookup.set(p, LookupEntry { hash: h, index });
                    proof {
                        assert forall|j: int|
                            size - (i + 1) <= j < size implies exists|q: int|
                            0 <= q < hash_lookup@.len() && (#[trigger] hash_lookup@[q]).hash@
                                == #[trigger] target[j] by {
                            if j == index {
                                assert(hash_lookup@[p as int].hash@ == target[j]);
                            } else {
                                let q = choose|q: int|
                                    0 <= q < old_lookup.len() && (#[trigger] old_lookup[q]).hash@
                                        == target[j];
                                assert(hash_lookup@[q].hash@ == target[j]);
                            }
                        }
                    }
                },
                None => {
                    hash_lookup.push(LookupEntry { hash: h, index });
                    proof {
                        let last = old_lookup.len() as int;
                        assert(hash_lookup@[last].hash@ == h@);
                        assert forall|j: int|
                            size - (i + 1) <= j < size implies exists|q: int|
                            0 <= q < hash_lookup@.len() && (#[trigger] hash_lookup@[q]).hash@
                                == #[trigger] target[j] by {
                            if j == index {
                                assert(hash_lookup@[last].hash@ == target[j]);
                            } else {
                                let q = choose|q: int|
                                    0 <= q < old_lookup.len() && (#[trigger] old_lookup[q]).hash@
                                        == target[j];
                                assert(hash_lookup@[q].hash@ == target[j]);
                            }
                        }
                        assert forall|j: int|
                            size - (i + 1) <= j < size && target[j] == h@ implies index <= j by {
                            if j != index {
                                let q = choose|q: int|
                                    0 <= q < old_lookup.len() && (#[trigger] old_lookup[q]).hash@
                                        == #[trigger] target[j];
                                assert(old_lookup[q].hash@ != h@);
                            }
                        }
                    }
                },
            }
            i = i + 1;
        }
        let mut k: usize = size - n;
        while k > 0
            invariant
                n == leaves@.len(),
                size == 2 * n - 1,
                lv == views(leaves@),
                target == tree_of(lv),
                tree@.len() == size,
                0 <= k <= n - 1,
                forall|j: int| k <= j < size ==> (#[trigger] tree@[j])@ == target[j],
            decreases k,
        {
            k = k - 1;
            let h = hash_pair(&tree[Self::left_child_index(k)], &tree[Self::right_child_index(k)]);
            assert(target[k as int] == node_of(lv, k as int));
            tree.set(k, h);
        }
        proof {
            assert(views(tree@) =~= target);
            lemma_tree_of_wf(lv, views(tree@));
        }
        (tree, hash_lookup)
    }

    /// Two trees built from the same non-empty leaf sequence have the same
    /// nodes, and so the same root, which is 32 bytes long.
    pub proof fn lemma_root_determined_by_leaves(a: &MerkleTree, b: &MerkleTree, leaves: Seq<[u8; 32]>)
        requires
            leaves.len() >= 1,
            a.nodes() == tree_of(views(leaves)),
            b.nodes() == tree_of(views(leaves)),
        ensures
            a.nodes() == b.nodes(),
            a.nodes().len() >= 1,
            a.nodes()[0].len() == 32,
            a.nodes()[0] == b.nodes()[0],
    {
        assert(tree_of(views(leaves)).len() == 2 * leaves.len() - 1);
        assert(a.tree@.len() == a.nodes().len());
        assert(a.nodes()[0] == a.tree@[0]@);
    }

    /// The root hash: node 0, or `None` for a tree without nodes (which a
    /// tree built by `new` never is).
    pub fn get_root(&self) -> (r: Option<[u8; 32]>)
        ensures
            r is None <==> self.nodes().len() == 0,
            r matches Some(root) ==> root@ == self.nodes()[0],
            self.wf() ==> r is Some,
    {
        if self.tree.len() == 0 {
            return None;
        }
        Some(self.tree[0])
    }

    /// The number of nodes, `2n - 1` for `n` leaves.
    pub fn len(&self) -> (r: usize)
        ensures
            r == self.nodes().len(),
    {
        self.tree.len()
    }

    /// The inclusion proof of `leaf`: the sibling hashes on the way from the
    /// slot that the lookup index gives for the leaf's hash up to the root.
    /// Where several leaves share that hash, the slot is that of the one that
    /// came last in input order. Fails where no leaf slot holds the hash.
    pub fn get_proof(&self, leaf: &[u8; 32]) -> (r: Result<Vec<[u8; 32]>, MerkleError>)
        requires
            self.wf(),
        ensures
            r is Ok <==> exists|j: int| leaf_slot_holds(self.nodes(), j, keccak_of(leaf@)),
            r matches Err(e) ==> e == MerkleError::LeafNotFound,
            r is Ok ==> exists|j: int|
                {
                    &&& leaf_slot_holds(self.nodes(), j, keccak_of(leaf@))
                    &&& forall|j2: int|
                        leaf_slot_holds(self.nodes(), j2, keccak_of(leaf@)) ==> j <= j2
                    &&& views(r->Ok_0@) == proof_path(self.nodes(), j)
                },
            r is Ok ==> fold_proof(keccak_of(leaf@), views(r->Ok_0@)) == self.nodes()[0],
    {
        let ghost nodes = self.nodes();
        let ghost lo = first_leaf_slot(nodes.len() as int);
        let h = keccak256(leaf.as_slice());
        let found = find_entry(&self.hash_lookup, &h);
        match found {
            None => {
                proof {
                    if exists|j: int| leaf_slot_holds(nodes, j, h@) {
                        let j = choose|j: int| leaf_slot_holds(nodes, j, h@);
                        assert(lo <= j < nodes.len());
                        let q = choose|q: int|
                            0 <= q < self.hash_lookup@.len() && (#[trigger] self.hash_lookup@[q]).hash@
                                == #[trigger] nodes[j];
                    }
                }
                Err(MerkleError::LeafNotFound)
            },
            Some(p) => {
                let start = self.hash_lookup[p].index;
                assert(leaf_slot_holds(nodes, start as int, h@));
                let mut proof: Vec<[u8; 32]> = Vec::new();
                let mut idx: usize = start;
                let size = self.tree.len();
                while idx > 0
                    invariant
                        size == nodes.len(),
                        nodes == self.nodes(),
                        nodes_wf(nodes),
                        self.tree@.len() == nodes.len(),
                        0 <= idx < nodes.len(),
                        0 <= start < nodes.len(),
                        views(proof@) + proof_path(nodes, idx as int) == proof_path(
                            nodes,
                            start as int,
                        ),
                    decreases idx,
                {
                    let sib = if idx % 2 == 1 {
                        assert(idx + 1 < size);
                        idx + 1
                    } else {
                        idx - 1
                    };
                    let ghost before = views(proof@);
                    proof.push(self.tree[sib]);
                    proof {
                        let path = proof_path(nodes, idx as int);
                        assert(views(proof@) =~= before + seq![nodes[sib as int]]);
                        assert(path == seq![nodes[sib as int]] + proof_path(
                            nodes,
                            parent_of(idx as int),
                        ));
                        assert(views(proof@) + proof_path(nodes, parent_of(idx as int))
                            =~= before + path);
                    }
                    idx = (idx - 1) / 2;
                }
                proof {
                    assert(views(proof@) =~= views(proof@) + proof_path(nodes, 0));
                    lemma_path_reaches_root(nodes, start as int);
                }
                Ok(proof)
            },
        }
    }

    /// The index of the left child of node `i`.
    fn left_child_index(i: usize) -> (r: usize)
        requires
            2 * i + 1 <= usize::MAX,
        ensures
            r == 2 * i + 1,
    {
        2 * i + 1
    }

    /// The index of the right child of node `i`.
    fn right_child_index(i: usize) -> (r: usize)
        requires
            2 * i + 2 <= usize::MAX,
        ensures
            r == 2 * i + 2,
    {
        2 * i + 2
    }
}

} // verus!
