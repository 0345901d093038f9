//! What the inner-level circuit asserts, in plain values.
//!
//! An inner node is proved from the digests of its two children and from
//! their proofs: the circuit verifies each child proof, requires that it
//! exposes exactly the four elements of the claimed child digest, and that
//! the two digests hash to the parent digest it exposes itself.
use crate::digest::{concat_digests, Digest};
use crate::merkle_tree::{hashed_from, mismatched_from};
use vstd::prelude::*;

verus! {

/// Tells whether a child proof's public values are exactly the claimed digest.
pub fn exposes_digest(public_inputs: &Vec<u64>, claimed: &Digest) -> (r: bool)
    ensures
        r == (public_inputs@ == claimed@),
{
    if public_inputs.len() != 4 {
        return false;
    }
    let mut i: usize = 0;
    while i < 4
        invariant
            public_inputs@.len() == 4,
            i <= 4,
            forall|k: int| 0 <= k < i ==> public_inputs@[k] == claimed@[k],
        decreases 4 - i,
    {
        if public_inputs[i] != claimed.elements[i] {
            return false;
        }
        i = i + 1;
    }
    assert(public_inputs@ =~= claimed@);
    true
}

/// Checks in plain values what the inner-level circuit asserts beside the
/// verification of the two child proofs: each child proof exposes its claimed
/// digest, and the two digests hash, under `hash`, to `parent`.
pub fn inner_witness_consistent<H: Fn(Vec<u64>) -> Digest>(
    left_hash: &Digest,
    left_public_inputs: &Vec<u64>,
    right_hash: &Digest,
    right_public_inputs: &Vec<u64>,
    parent: &Digest,
    hash: &H,
) -> (r: bool)
    requires
        forall|x: Vec<u64>| #[trigger] hash.requires((x,)),
    ensures
        r ==> {
            &&& left_public_inputs@ == left_hash@
            &&& right_public_inputs@ == right_hash@
            &&& hashed_from(*hash, left_hash@ + right_hash@, *parent)
        },
        !r ==> {
            ||| left_public_inputs@ != left_hash@
            ||| right_public_inputs@ != right_hash@
            ||| mismatched_from(*hash, left_hash@ + right_hash@, *parent)
        },
{
    if !exposes_digest(left_public_inputs, left_hash) || !exposes_digest(
        right_public_inputs,
        right_hash,
    ) {
        return false;
    }
    let e = hash(concat_digests(left_hash, right_hash));
    e.same_as(parent)
}

} // verus!
