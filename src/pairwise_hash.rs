//! A pair of leaves and their parent: what the leaf-level circuit proves.
use crate::digest::{concat_digests, Digest};
use crate::merkle_tree::{hashed_from, mismatched_from};
use vstd::prelude::*;

verus! {

/// A leaf's raw data together with its claimed digest.
#[derive(Clone, Debug)]
pub struct HashData {
    pub data: Vec<u64>,
    pub hash: Digest,
}

impl HashData {
    pub fn new(data: Vec<u64>, hash: Digest) -> (r: HashData)
        ensures
            r.data@ == data@,
            r.hash == hash,
    {
        HashData { data, hash }
    }
}

/// The digest of the parent of `left` and `right`: the hash of the two digests
/// one after the other.
pub fn parent_digest<H: Fn(Vec<u64>) -> Digest>(left: &Digest, right: &Digest, hash: &H) -> (r: Digest)
    requires
        forall|x: Vec<u64>| #[trigger] hash.requires((x,)),
    ensures
        hashed_from(*hash, left@ + right@, r),
{
    let input = concat_digests(left, right);
    hash(input)
}

/// Tells whether `d` is what `hash` gives for `input`.
fn hashes_to<H: Fn(Vec<u64>) -> Digest>(input: Vec<u64>, d: &Digest, hash: &H) -> (r: bool)
    requires
        forall|x: Vec<u64>| #[trigger] hash.requires((x,)),
    ensures
        r ==> hashed_from(*hash, input@, *d),
        !r ==> mismatched_from(*hash, input@, *d),
{
    let e = hash(input);
    e.same_as(d)
}

/// Two leaves, each with its data and claimed digest, and the digest of their parent.
#[derive(Clone, Debug)]
pub struct PairwiseHash {
    pub left_child: HashData,
    pub right_child: HashData,
    pub parent_hash: Digest,
}

impl PairwiseHash {
    /// Pairs two leaves; the parent digest is computed from the two claimed
    /// digests with `hash`.
    pub fn new<H: Fn(Vec<u64>) -> Digest>(
        left_child_data: Vec<u64>,
        left_child_hash: Digest,
        right_child_data: Vec<u64>,
        right_child_hash: Digest,
        hash: &H,
    ) -> (r: PairwiseHash)
        requires
            forall|x: Vec<u64>| #[trigger] hash.requires((x,)),
        ensures
            r.left_child.data@ == left_child_data@,
            r.left_child.hash == left_child_hash,
            r.right_child.data@ == right_child_data@,
            r.right_child.hash == right_child_hash,
            hashed_from(*hash, left_child_hash@ + right_child_hash@, r.parent_hash),
    {
        let parent_hash = parent_digest(&left_child_hash, &right_child_hash, hash);
        PairwiseHash {
            left_child: HashData::new(left_child_data, left_child_hash),
            right_child: HashData::new(right_child_data, right_child_hash),
            parent_hash,
        }
    }

    /// The parent digest that the proof of this pair exposes.
    pub fn evaluate(&self) -> (r: Digest)
        ensures
            r == self.parent_hash,
    {
        self.parent_hash
    }

    /// What the leaf-level circuit asserts, under `hash`: each leaf's data hashes
    /// to its claimed digest, and the two digests hash to the parent digest.
    pub open spec fn holds_under<H: Fn(Vec<u64>) -> Digest>(&self, hash: H) -> bool {
        &&& hashed_from(hash, self.left_child.data@, self.left_child.hash)
        &&& hashed_from(hash, self.right_child.data@, self.right_child.hash)
        &&& hashed_from(
            hash,
            self.left_child.hash@ + self.right_child.hash@,
            self.parent_hash,
        )
    }

    /// Checks in plain values the equalities that the leaf-level circuit
    /// asserts; a pair that fails here has no proof.
    pub fn witness_consistent<H: Fn(Vec<u64>) -> Digest>(&self, hash: &H) -> (r: bool)
        requires
            forall|x: Vec<u64>| #[trigger] hash.requires((x,)),
        ensures
            r ==> self.holds_under(*hash),
            !r ==> {
                ||| mismatched_from(*hash, self.left_child.data@, self.left_child.hash)
                ||| mismatched_from(*hash, self.right_child.data@, self.right_child.hash)
                ||| mismatched_from(
                    *hash,
                    self.left_child.hash@ + self.right_child.hash@,
                    self.parent_hash,
                )
            },
    {
        if !hashes_to(self.left_child.data.clone(), &self.left_child.hash, hash) {
            return false;
        }
        if !hashes_to(self.right_child.data.clone(), &self.right_child.hash, hash) {
            return false;
        }
        let input = concat_digests(&self.left_child.hash, &self.right_child.hash);
        hashes_to(input, &self.parent_hash, hash)
    }
}

} // verus!
