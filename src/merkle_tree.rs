//! The digest tree over a sequence of leaves, and its plain consistency check.
use crate::digest::{all_canonical, concat_digests, is_canonical, Digest};
use crate::layout::{is_power_of_two, level_of, locate, num_nodes, position_of, valid_leaf_count};
use vstd::prelude::*;

verus! {

/// Why a tree was refused before or while it was proved.
#[derive(Clone, Copy, Debug, PartialEq, Eq, Structural)]
pub enum TreeError {
    /// The leaf count is not a power of two of at least two, the number of
    /// stored digests does not match it, or a value is not below the field order.
    Malformed,
    /// This node reads a stored digest, of one of its two children, that
    /// differs from the hash of that child's input.
    DigestMismatch { level: usize, position: usize },
    /// The declared root differs from the top digest of the tree, or the top
    /// digest differs from the hash of its input.
    RootMismatch,
    /// The prover failed on the circuit of this node.
    ProvingFailed { level: usize, position: usize },
}

/// A complete binary hash tree: the leaves, every digest in level order
/// (leaves first, root last), and the root that the tree declares.
pub struct MerkleTree {
    pub leaves: Vec<Vec<u64>>,
    pub digests: Vec<Digest>,
    pub root: Digest,
}

/// The leaves as sequences of field elements.
pub open spec fn leaf_views(leaves: Seq<Vec<u64>>) -> Seq<Seq<u64>> {
    leaves.map_values(|l: Vec<u64>| l@)
}

/// The digests as sequences of field elements.
pub open spec fn digest_views(digests: Seq<Digest>) -> Seq<Seq<u64>> {
    digests.map_values(|d: Digest| d@)
}

/// What the digest of the node at flat index `i` is the hash of: a leaf's data,
/// or its two children's digests one after the other.
pub open spec fn node_input(leaves: Seq<Seq<u64>>, digests: Seq<Seq<u64>>, i: int) -> Seq<u64> {
    let n = leaves.len() as int;
    if i < n {
        leaves[i]
    } else {
        digests[2 * (i - n)] + digests[2 * (i - n) + 1]
    }
}

/// `digests` is the digest tree of `leaves` under the hash function `h`.
pub open spec fn is_digest_tree(
    h: spec_fn(Seq<u64>) -> Seq<u64>,
    leaves: Seq<Seq<u64>>,
    digests: Seq<Seq<u64>>,
) -> bool {
    &&& digests.len() == num_nodes(leaves.len())
    &&& forall|i: int|
        0 <= i < digests.len() ==> #[trigger] digests[i] == h(node_input(leaves, digests, i))
}

/// `d` equals a value that `hash` returned for an input equal to `input`.
pub open spec fn hashed_from<H: Fn(Vec<u64>) -> Digest>(hash: H, input: Seq<u64>, d: Digest) -> bool {
    exists|x: Vec<u64>, e: Digest| x@ == input && e@ == d@ && #[trigger] hash.ensures((x,), e)
}

/// `hash` returned, for an input equal to `input`, a value other than `d`.
pub open spec fn mismatched_from<H: Fn(Vec<u64>) -> Digest>(
    hash: H,
    input: Seq<u64>,
    d: Digest,
) -> bool {
    exists|x: Vec<u64>, e: Digest| x@ == input && e@ != d@ && #[trigger] hash.ensures((x,), e)
}

/// Every digest of `digests` is what `hash` returned for that node's input.
pub open spec fn built_with<H: Fn(Vec<u64>) -> Digest>(
    hash: H,
    leaves: Seq<Seq<u64>>,
    digests: Seq<Digest>,
) -> bool {
    &&& digests.len() == num_nodes(leaves.len())
    &&& forall|i: int|
        0 <= i < digests.len() ==> #[trigger] hashed_from(
            hash,
            node_input(leaves, digest_views(digests), i),
            digests[i],
        )
}

/// The data that the digest of node `i` is the hash of.
pub fn node_input_of(leaves: &Vec<Vec<u64>>, digests: &Vec<Digest>, i: usize) -> (r: Vec<u64>)
    requires
        i < leaves@.len() || 2 * (i - leaves@.len()) + 1 < digests@.len(),
    ensures
        r@ == node_input(leaf_views(leaves@), digest_views(digests@), i as int),
{
    let n = leaves.len();
    if i < n {
        let r = leaves[i].clone();
        assert(r@ =~= leaves@[i as int]@);
        r
    } else {
        let j = i - n;
        let m = digests.len();
        assert(2 * j + 1 < m);
        concat_digests(&digests[2 * j], &digests[2 * j + 1])
    }
}

/// Node `i` is the first node, in level order, whose stored digest differs
/// from what `hash` returned for its input.
pub open spec fn first_mismatch_at<H: Fn(Vec<u64>) -> Digest>(
    tree: MerkleTree,
    hash: H,
    i: int,
) -> bool {
    let l = leaf_views(tree.leaves@);
    let d = digest_views(tree.digests@);
    &&& 0 <= i < tree.digests@.len()
    &&& mismatched_from(hash, node_input(l, d, i), tree.digests@[i])
    &&& forall|k: int|
        0 <= k < i ==> #[trigger] hashed_from(hash, node_input(l, d, k), tree.digests@[k])
}

/// What `MerkleTree::check` returns, in terms of what `hash` returns. A wrong
/// stored digest is reported where it is first read: at its parent, one level
/// up at half its position (the node at flat index `n + i / 2`, see
/// `lemma_parent_located`), or, for the top digest, by the root comparison.
pub open spec fn check_outcome<H: Fn(Vec<u64>) -> Digest>(
    tree: MerkleTree,
    hash: H,
    r: Result<(), TreeError>,
) -> bool {
    let n = tree.leaves@.len() as nat;
    let top = tree.digests@.len() - 1;
    &&& (r == Err::<(), TreeError>(TreeError::Malformed) <==> !tree.well_formed())
    &&& (r is Ok ==> {
        &&& tree.well_formed()
        &&& built_with(hash, leaf_views(tree.leaves@), tree.digests@)
        &&& tree.root@ == tree.digests@.last()@
    })
    &&& (r == Err::<(), TreeError>(TreeError::RootMismatch) ==> {
        &&& tree.well_formed()
        &&& {
            ||| first_mismatch_at(tree, hash, top)
            ||| {
                &&& built_with(hash, leaf_views(tree.leaves@), tree.digests@)
                &&& tree.root@ != tree.digests@.last()@
            }
        }
    })
    &&& (r matches Err(TreeError::DigestMismatch { level, position }) ==> {
        &&& tree.well_formed()
        &&& exists|i: int|
            {
                &&& #[trigger] first_mismatch_at(tree, hash, i)
                &&& i < top
                &&& level == level_of(n, i as nat) + 1
                &&& position == position_of(n, i as nat) / 2
            }
    })
    &&& !(r matches Err(TreeError::ProvingFailed { .. }))
}

impl MerkleTree {
    /// Builds the tree over `data`, hashing with `hash`: each leaf's data first,
    /// then each pair of neighbouring digests, level by level, up to the root.
    pub fn create<H: Fn(Vec<u64>) -> Digest>(data: Vec<Vec<u64>>, hash: H) -> (r: MerkleTree)
        requires
            valid_leaf_count(data@.len() as nat),
            data@.len() <= usize::MAX / 2,
            forall|i: int| 0 <= i < data@.len() ==> all_canonical(#[trigger] data@[i]@),
            forall|x: Vec<u64>| #[trigger] hash.requires((x,)),
        ensures
            r.leaves@ == data@,
            built_with(hash, leaf_views(data@), r.digests@),
            r.root == r.digests@.last(),
    {
        let n = data.len();
        let total = 2 * n - 1;
        let mut digests: Vec<Digest> = Vec::new();
        while digests.len() < total
            invariant
                n == data@.len(),
                total == 2 * n - 1,
                n >= 2,
                digests@.len() <= total,
                forall|x: Vec<u64>| #[trigger] hash.requires((x,)),
                forall|i: int|
                    0 <= i < digests@.len() ==> #[trigger] hashed_from(
                        hash,
                        node_input(leaf_views(data@), digest_views(digests@), i),
                        digests@[i],
                    ),
            decreases total - digests@.len(),
        {
            let i = digests.len();
            let input = node_input_of(&data, &digests, i);
            let ghost input_view = input@;
            let d = hash(input);
            let ghost before = digests@;
            digests.push(d);
            assert forall|k: int| 0 <= k < digests@.len() implies #[trigger] hashed_from(
                hash,
                node_input(leaf_views(data@), digest_views(digests@), k),
                digests@[k],
            ) by {
                if k < i {
                    assert(node_input(leaf_views(data@), digest_views(digests@), k)
                        == node_input(leaf_views(data@), digest_views(before), k));
                } else {
                    assert(node_input(leaf_views(data@), digest_views(digests@), k) == input_view);
                }
            }
        }
        let root = digests[total - 1];
        MerkleTree { leaves: data, digests, root }
    }

    /// The leaf count is valid, the digests number as many as the tree has
    /// nodes, and every value held is a field element in canonical form.
    pub open spec fn well_formed(&self) -> bool {
        &&& valid_leaf_count(self.leaves@.len() as nat)
        &&& self.digests@.len() == num_nodes(self.leaves@.len() as nat)
        &&& forall|i: int| 0 <= i < self.leaves@.len() ==> all_canonical(#[trigger] self.leaves@[i]@)
        &&& forall|i: int| 0 <= i < self.digests@.len() ==> all_canonical(#[trigger] self.digests@[i]@)
        &&& all_canonical(self.root@)
    }

    /// Tells whether the tree is well formed.
    pub fn is_well_formed(&self) -> (r: bool)
        ensures
            r == self.well_formed(),
    {
        let n = self.leaves.len();
        if n < 2 || !is_power_of_two(n) {
            return false;
        }
        if !(self.digests.len() >= n && self.digests.len() - n == n - 1) {
            return false;
        }
        let mut i: usize = 0;
        while i < n
            invariant
                n == self.leaves@.len(),
                i <= n,
                forall|k: int| 0 <= k < i ==> all_canonical(#[trigger] self.leaves@[k]@),
            decreases n - i,
        {
            if !is_canonical(&self.leaves[i]) {
                return false;
            }
            i = i + 1;
        }
        let mut k: usize = 0;
        while k < self.digests.len()
            invariant
                k <= self.digests@.len(),
                forall|j: int| 0 <= j < k ==> all_canonical(#[trigger] self.digests@[j]@),
            decreases self.digests@.len() - k,
        {
            if !self.digests[k].is_canonical() {
                return false;
            }
            k = k + 1;
        }
        self.root.is_canonical()
    }

    /// The flat index of the first node, in level order, whose stored digest
    /// differs from what `hash` gives for its input; `None` when there is none.
    pub fn first_mismatch<H: Fn(Vec<u64>) -> Digest>(&self, hash: &H) -> (r: Option<usize>)
        requires
            self.well_formed(),
            forall|x: Vec<u64>| #[trigger] hash.requires((x,)),
        ensures
            r is None ==> built_with(*hash, leaf_views(self.leaves@), self.digests@),
            r matches Some(i) ==> first_mismatch_at(*self, *hash, i as int),
    {
        let total = self.digests.len();
        let mut i: usize = 0;
        while i < total
            invariant
                total == self.digests@.len(),
                self.well_formed(),
                i <= total,
                forall|x: Vec<u64>| #[trigger] hash.requires((x,)),
                forall|k: int|
                    0 <= k < i ==> #[trigger] hashed_from(
                        *hash,
                        node_input(leaf_views(self.leaves@), digest_views(self.digests@), k),
                        self.digests@[k],
                    ),
            decreases total - i,
        {
            let input = node_input_of(&self.leaves, &self.digests, i);
            let e = hash(input);
            if !e.same_as(&self.digests[i]) {
                return Some(i);
            }
            i = i + 1;
        }
        None
    }

    /// Checks the tree in plain values before any proving: its form, then each
    /// stored digest against the hash of its input in level order, then the
    /// declared root against the top digest. A wrong digest is reported at the
    /// node that reads it: its parent, or the root comparison for the top digest.
    pub fn check<H: Fn(Vec<u64>) -> Digest>(&self, hash: &H) -> (r: Result<(), TreeError>)
        requires
            forall|x: Vec<u64>| #[trigger] hash.requires((x,)),
        ensures
            check_outcome(*self, *hash, r),
    {
        if !self.is_well_formed() {
            return Err(TreeError::Malformed);
        }
        match self.first_mismatch(hash) {
            Some(i) => {
                if i == self.digests.len() - 1 {
                    Err(TreeError::RootMismatch)
                } else {
                    let (level, position) = locate(self.leaves.len(), i);
                    Err(TreeError::DigestMismatch { level: level + 1, position: position / 2 })
                }
            },
            None => {
                let last = self.digests.len() - 1;
                if self.root.same_as(&self.digests[last]) {
                    Ok(())
                } else {
                    Err(TreeError::RootMismatch)
                }
            },
        }
    }
}

} // verus!
