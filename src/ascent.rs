//! The bottom-up proving of a tree, one level at a time.
//!
//! Step `k` proves every node of level `k + 1` from the two children below it:
//! at step 0 from the leaves' data and digests, later from the child digests
//! and the proofs that the step before produced. The proving itself happens
//! outside; an `Ascent` says what each step must prove, and turns the outcome
//! of a step into the next state or into the failing node.
use crate::digest::Digest;
use crate::layout::{
    is_pow2, lemma_level_start_located, lemma_level_start_step, lemma_start_doubles, level_of,
    level_start, level_width, position_of, valid_leaf_count,
};
use crate::merkle_tree::{
    check_outcome, digest_views, is_digest_tree, leaf_views, node_input, MerkleTree, TreeError,
};
use crate::pairwise_hash::HashData;
use vstd::prelude::*;

verus! {

/// One node to prove.
#[derive(Clone, Debug)]
pub enum NodeJob {
    /// A parent of two leaves, proved from the leaves' data and digests.
    LeafPair { left: HashData, right: HashData },
    /// A parent of two inner nodes, proved from their digests and from their
    /// proofs, given by position among the proofs of the step before.
    Inner { left_hash: Digest, right_hash: Digest, left_proof: usize, right_proof: usize },
}

/// Where the ascent over a tree stands.
pub struct Ascent {
    /// The number of leaves of the tree.
    pub leaf_count: usize,
    /// The number of steps done.
    pub step: usize,
    /// The flat index of the first child of this step.
    pub start: usize,
    /// The number of children of this step: twice the nodes it proves.
    pub width: usize,
}

/// Position `j` of step `step` is the node above the children at flat indices
/// `start + 2 * j` and `start + 2 * j + 1`.
pub open spec fn job_of(tree: MerkleTree, step: nat, start: nat, j: int, job: NodeJob) -> bool {
    if step == 0 {
        job matches NodeJob::LeafPair { left, right } && {
            &&& left.data@ == tree.leaves@[2 * j]@
            &&& left.hash == tree.digests@[2 * j]
            &&& right.data@ == tree.leaves@[2 * j + 1]@
            &&& right.hash == tree.digests@[2 * j + 1]
        }
    } else {
        job matches NodeJob::Inner { left_hash, right_hash, left_proof, right_proof } && {
            &&& left_hash == tree.digests@[start + 2 * j]
            &&& right_hash == tree.digests@[start + 2 * j + 1]
            &&& left_proof == 2 * j
            &&& right_proof == 2 * j + 1
        }
    }
}

/// The node that position `j` of the next step proves is the one stored at
/// flat index `start + width + j`, on level `step + 1` at position `j` (the
/// level and position that a failure of its proving reports), and its input is the two child digests that
/// the job names: on a digest tree under `h`, its stored digest is `h` of
/// them, and at the leaves each named digest is `h` of the named data.
pub proof fn lemma_job_proves_stored_node(
    h: spec_fn(Seq<u64>) -> Seq<u64>,
    tree: MerkleTree,
    a: Ascent,
    j: int,
    job: NodeJob,
)
    requires
        a.wf(),
        a.width >= 2,
        tree.well_formed(),
        tree.leaves@.len() == a.leaf_count,
        is_digest_tree(h, leaf_views(tree.leaves@), digest_views(tree.digests@)),
        0 <= j < a.width / 2,
        job_of(tree, a.step as nat, a.start as nat, j, job),
    ensures
        a.start + a.width + j < tree.digests@.len(),
        level_of(a.leaf_count as nat, (a.start + a.width + j) as nat) == a.step + 1,
        position_of(a.leaf_count as nat, (a.start + a.width + j) as nat) == j,
        job matches NodeJob::LeafPair { left, right } ==> {
            &&& tree.digests@[a.start + a.width + j]@ == h(left.hash@ + right.hash@)
            &&& left.hash@ == h(left.data@)
            &&& right.hash@ == h(right.data@)
        },
        job matches NodeJob::Inner { left_hash, right_hash, .. } ==> tree.digests@[a.start
            + a.width + j]@ == h(left_hash@ + right_hash@),
{
    let n = a.leaf_count as nat;
    let k = a.step as nat;
    let l = leaf_views(tree.leaves@);
    let d = digest_views(tree.digests@);
    let i = a.start + a.width + j;
    lemma_level_start_step(n, k);
    lemma_start_doubles(n, k);
    lemma_level_start_located(n, k + 1, j as nat);
    assert(level_start(n, k + 1) == n + level_start((n / 2) as nat, k));
    assert(2 * (i - n) == a.start + 2 * j);
    assert(d[i] == h(node_input(l, d, i)));
    assert(node_input(l, d, i) == d[a.start + 2 * j] + d[a.start + 2 * j + 1]);
    if a.step == 0 {
        assert(d[2 * j] == h(node_input(l, d, 2 * j)));
        assert(d[2 * j + 1] == h(node_input(l, d, 2 * j + 1)));
    }
}

impl Ascent {
    pub open spec fn wf(&self) -> bool {
        let n = self.leaf_count as nat;
        &&& valid_leaf_count(n)
        &&& self.width >= 1
        &&& is_pow2(self.width as nat)
        &&& self.start == level_start(n, self.step as nat)
        &&& self.width == level_width(n, self.step as nat)
        &&& self.start + 2 * self.width - 1 == 2 * n - 1
        &&& 2 * n - 1 <= usize::MAX
        &&& self.step <= self.start
    }

    /// Checks `tree` with `hash` (see `MerkleTree::check`) and, where it passes,
    /// starts the ascent at the leaves.
    pub fn start<H: Fn(Vec<u64>) -> Digest>(tree: &MerkleTree, hash: &H) -> (r: Result<
        Ascent,
        TreeError,
    >)
        requires
            forall|x: Vec<u64>| #[trigger] hash.requires((x,)),
        ensures
            r matches Ok(a) ==> {
                &&& check_outcome(*tree, *hash, Ok(()))
                &&& a.wf()
                &&& a.leaf_count == tree.leaves@.len()
                &&& a.step == 0
            },
            r matches Err(e) ==> check_outcome(*tree, *hash, Err(e)),
    {
        match tree.check(hash) {
            Ok(()) => {
                let n = tree.leaves.len();
                let total = tree.digests.len();
                assert(level_start(n as nat, 0) == 0);
                assert(level_width(n as nat, 0) == n);
                assert(total == 2 * n - 1);
                Ok(Ascent { leaf_count: n, step: 0, start: 0, width: n })
            },
            Err(e) => Err(e),
        }
    }

    /// Every node is proved: the last step proved the root.
    pub fn is_done(&self) -> (r: bool)
        ensures
            r == (self.width == 1),
    {
        self.width == 1
    }

    /// The nodes that the next step proves, left to right; `None` once the root
    /// is proved.
    pub fn next_jobs(&self, tree: &MerkleTree) -> (r: Option<Vec<NodeJob>>)
        requires
            self.wf(),
            tree.well_formed(),
            tree.leaves@.len() == self.leaf_count,
        ensures
            r is None <==> self.width == 1,
            r matches Some(jobs) ==> {
                &&& jobs@.len() == self.width / 2
                &&& forall|j: int|
                    0 <= j < jobs@.len() ==> job_of(
                        *tree,
                        self.step as nat,
                        self.start as nat,
                        j,
                        #[trigger] jobs@[j],
                    )
            },
    {
        if self.width == 1 {
            return None;
        }
        let half = self.width / 2;
        let mut jobs: Vec<NodeJob> = Vec::with_capacity(half);
        let mut j: usize = 0;
        while j < half
            invariant
                self.wf(),
                tree.well_formed(),
                tree.leaves@.len() == self.leaf_count,
                half == self.width / 2,
                self.width >= 2,
                j <= half,
                jobs@.len() == j,
                forall|k: int|
                    0 <= k < j ==> job_of(
                        *tree,
                        self.step as nat,
                        self.start as nat,
                        k,
                        #[trigger] jobs@[k],
                    ),
            decreases half - j,
        {
            let l = self.start + 2 * j;
            let job = if self.step == 0 {
                let left = HashData::new(tree.leaves[l].clone(), tree.digests[l]);
                let right = HashData::new(tree.leaves[l + 1].clone(), tree.digests[l + 1]);
                proof {
                    assert(left.data@ =~= tree.leaves@[l as int]@);
                    assert(right.data@ =~= tree.leaves@[l + 1]@);
                }
                NodeJob::LeafPair { left, right }
            } else {
                NodeJob::Inner {
                    left_hash: tree.digests[l],
                    right_hash: tree.digests[l + 1],
                    left_proof: 2 * j,
                    right_proof: 2 * j + 1,
                }
            };
            jobs.push(job);
            j = j + 1;
        }
        Some(jobs)
    }

    /// Takes the outcome of the step that `next_jobs` gave, one entry per node
    /// in the same order (`true` where the node was proved). Where every node was
    /// proved the ascent moves up a level; otherwise it stays and reports the
    /// leftmost node that failed.
    pub fn finish_step(&mut self, proved: &Vec<bool>) -> (r: Result<(), TreeError>)
        requires
            old(self).wf(),
            old(self).width >= 2,
            proved@.len() == old(self).width / 2,
        ensures
            r is Ok <==> forall|j: int| 0 <= j < proved@.len() ==> #[trigger] proved@[j],
            r is Ok ==> {
                &&& final(self).wf()
                &&& final(self).leaf_count == old(self).leaf_count
                &&& final(self).step == old(self).step + 1
                &&& final(self).start == old(self).start + old(self).width
                &&& final(self).width == old(self).width / 2
            },
            r matches Err(e) ==> {
                &&& *final(self) == *old(self)
                &&& exists|p: int|
                    {
                        &&& 0 <= p < proved@.len()
                        &&& !#[trigger] proved@[p]
                        &&& forall|j: int| 0 <= j < p ==> #[trigger] proved@[j]
                        &&& e == TreeError::ProvingFailed {
                            level: (old(self).step + 1) as usize,
                            position: p as usize,
                        }
                    }
            },
    {
        let mut p: usize = 0;
        while p < proved.len()
            invariant
                *self == *old(self),
                self.wf(),
                self.width >= 2,
                p <= proved@.len(),
                forall|j: int| 0 <= j < p ==> #[trigger] proved@[j],
            decreases proved@.len() - p,
        {
            if !proved[p] {
                return Err(TreeError::ProvingFailed { level: self.step + 1, position: p });
            }
            p = p + 1;
        }
        proof {
            lemma_level_start_step(self.leaf_count as nat, self.step as nat);
        }
        self.start = self.start + self.width;
        self.width = self.width / 2;
        self.step = self.step + 1;
        Ok(())
    }
}

} // verus!
