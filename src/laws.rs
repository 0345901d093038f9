//! What holds of every digest tree, whatever the hash function: the stored
//! root is the root of the recursive definition, and a single change to a
//! valid tree is found by the plain check where the changed value is first
//! read, and at no node before.
use crate::digest::Digest;
use crate::layout::{is_pow2, level_of, position_of, valid_leaf_count};
use crate::merkle_tree::{
    built_with, check_outcome, digest_views, first_mismatch_at, hashed_from, is_digest_tree,
    leaf_views, mismatched_from, node_input, MerkleTree, TreeError,
};
use vstd::prelude::*;

verus! {

/// The root of the tree over the leaf digests `level`, defined top-down: the
/// hash of the roots of its left and right halves.
pub open spec fn merkle_root(h: spec_fn(Seq<u64>) -> Seq<u64>, level: Seq<Seq<u64>>) -> Seq<u64>
    decreases level.len(),
{
    if level.len() <= 1 {
        level[0]
    } else {
        let half = (level.len() / 2) as int;
        h(merkle_root(h, level.subrange(0, half)) + merkle_root(h, level.subrange(half, level.len() as int)))
    }
}

/// The leaf digests: the hash of each leaf's data.
pub open spec fn leaf_digests(h: spec_fn(Seq<u64>) -> Seq<u64>, leaves: Seq<Seq<u64>>) -> Seq<Seq<u64>> {
    Seq::new(leaves.len(), |i: int| h(leaves[i]))
}

/// The level above `level`: the hash of each pair of neighbours.
pub open spec fn pair_up(h: spec_fn(Seq<u64>) -> Seq<u64>, level: Seq<Seq<u64>>) -> Seq<Seq<u64>> {
    Seq::new(level.len() / 2, |j: int| h(level[2 * j] + level[2 * j + 1]))
}

/// The root of the tree over `level`, computed bottom-up, one level at a time.
pub open spec fn bottom_up_root(h: spec_fn(Seq<u64>) -> Seq<u64>, level: Seq<Seq<u64>>) -> Seq<u64>
    decreases level.len(),
{
    if level.len() <= 1 {
        level[0]
    } else {
        bottom_up_root(h, pair_up(h, level))
    }
}

/// `d` stores, in level order, the tree whose lowest level is `base`.
pub open spec fn is_pair_tree(
    h: spec_fn(Seq<u64>) -> Seq<u64>,
    base: Seq<Seq<u64>>,
    d: Seq<Seq<u64>>,
) -> bool {
    let m = base.len();
    &&& d.len() == 2 * m - 1
    &&& forall|i: int| 0 <= i < m ==> #[trigger] d[i] == base[i]
    &&& forall|j: int| 0 <= j < m - 1 ==> #[trigger] d[m + j] == h(d[2 * j] + d[2 * j + 1])
}

proof fn lemma_pair_tree_top(h: spec_fn(Seq<u64>) -> Seq<u64>, base: Seq<Seq<u64>>, d: Seq<Seq<u64>>)
    requires
        base.len() >= 1,
        is_pow2(base.len() as nat),
        is_pair_tree(h, base, d),
    ensures
        d.last() == bottom_up_root(h, base),
    decreases base.len(),
{
    let m = base.len() as int;
    if m > 1 {
        let half = m / 2;
        let upper = d.subrange(m, 2 * m - 1);
        let next = pair_up(h, base);
        assert forall|i: int| 0 <= i < half implies #[trigger] upper[i] == next[i] by {
            assert(upper[i] == d[m + i]);
            assert(d[2 * i] == base[2 * i]);
            assert(d[2 * i + 1] == base[2 * i + 1]);
        }
        assert forall|j: int| 0 <= j < half - 1 implies #[trigger] upper[half + j] == h(
            upper[2 * j] + upper[2 * j + 1],
        ) by {
            assert(upper[half + j] == d[m + (half + j)]);
            assert(d[m + (half + j)] == h(d[2 * (half + j)] + d[2 * (half + j) + 1]));
            assert(upper[2 * j] == d[m + 2 * j]);
            assert(upper[2 * j + 1] == d[m + 2 * j + 1]);
        }
        assert(is_pair_tree(h, next, upper));
        lemma_pair_tree_top(h, next, upper);
        assert(d.last() == upper.last());
    }
}

proof fn lemma_pair_up_halves(h: spec_fn(Seq<u64>) -> Seq<u64>, level: Seq<Seq<u64>>)
    requires
        level.len() >= 4,
        level.len() % 4 == 0,
    ensures
        pair_up(h, level).subrange(0, (level.len() / 4) as int) == pair_up(
            h,
            level.subrange(0, (level.len() / 2) as int),
        ),
        pair_up(h, level).subrange((level.len() / 4) as int, (level.len() / 2) as int) == pair_up(
            h,
            level.subrange((level.len() / 2) as int, level.len() as int),
        ),
{
    let m = level.len() as int;
    let p = pair_up(h, level);
    let left = level.subrange(0, m / 2);
    let right = level.subrange(m / 2, m);
    assert(p.subrange(0, m / 4) =~= pair_up(h, left));
    assert forall|j: int| 0 <= j < m / 4 implies #[trigger] p.subrange(m / 4, m / 2)[j] == pair_up(
        h,
        right,
    )[j] by {
        assert(right[2 * j] == level[m / 2 + 2 * j]);
        assert(right[2 * j + 1] == level[m / 2 + 2 * j + 1]);
        assert(2 * (m / 4 + j) == m / 2 + 2 * j);
    }
    assert(p.subrange(m / 4, m / 2) =~= pair_up(h, right));
}

proof fn lemma_pow2_half(n: nat)
    requires
        is_pow2(n),
        n >= 2,
    ensures
        is_pow2(n / 2),
        n % 2 == 0,
        n / 2 >= 1,
{
}

proof fn lemma_bottom_up_is_recursive(h: spec_fn(Seq<u64>) -> Seq<u64>, level: Seq<Seq<u64>>)
    requires
        level.len() >= 1,
        is_pow2(level.len() as nat),
    ensures
        bottom_up_root(h, level) == merkle_root(h, level),
    decreases level.len(),
{
    let m = level.len() as int;
    if m == 2 {
        let p = pair_up(h, level);
        assert(p.len() == 1);
        assert(bottom_up_root(h, level) == bottom_up_root(h, p));
        assert(bottom_up_root(h, p) == p[0]);
        assert(merkle_root(h, level.subrange(0, 1)) == level[0]);
        assert(merkle_root(h, level.subrange(1, 2)) == level[1]);
    } else if m > 2 {
        lemma_pow2_half(m as nat);
        lemma_pow2_half((m / 2) as nat);
        assert(m % 4 == 0);
        let p = pair_up(h, level);
        let left = level.subrange(0, m / 2);
        let right = level.subrange(m / 2, m);
        lemma_pair_up_halves(h, level);
        assert(p.len() == m / 2);
        lemma_bottom_up_is_recursive(h, p);
        assert(bottom_up_root(h, level) == bottom_up_root(h, p));
        assert(merkle_root(h, p) == h(
            merkle_root(h, p.subrange(0, m / 4)) + merkle_root(h, p.subrange(m / 4, m / 2)),
        ));
        lemma_bottom_up_is_recursive(h, left);
        lemma_bottom_up_is_recursive(h, right);
        lemma_bottom_up_is_recursive(h, pair_up(h, left));
        lemma_bottom_up_is_recursive(h, pair_up(h, right));
        assert(bottom_up_root(h, left) == bottom_up_root(h, pair_up(h, left)));
        assert(bottom_up_root(h, right) == bottom_up_root(h, pair_up(h, right)));
        assert(merkle_root(h, level) == h(merkle_root(h, left) + merkle_root(h, right)));
    }
}

/// The last stored digest of a digest tree is the root that the recursive
/// definition gives: the hash of the roots of the two halves of the leaves.
pub proof fn lemma_root_is_merkle_root(
    h: spec_fn(Seq<u64>) -> Seq<u64>,
    leaves: Seq<Seq<u64>>,
    digests: Seq<Seq<u64>>,
)
    requires
        valid_leaf_count(leaves.len() as nat),
        is_digest_tree(h, leaves, digests),
    ensures
        digests.last() == merkle_root(h, leaf_digests(h, leaves)),
{
    let n = leaves.len() as int;
    let base = leaf_digests(h, leaves);
    assert forall|i: int| 0 <= i < n implies #[trigger] digests[i] == base[i] by {
        assert(digests[i] == h(node_input(leaves, digests, i)));
    }
    assert forall|j: int| 0 <= j < n - 1 implies #[trigger] digests[n + j] == h(
        digests[2 * j] + digests[2 * j + 1],
    ) by {
        assert(digests[n + j] == h(node_input(leaves, digests, n + j)));
    }
    assert(is_pair_tree(h, base, digests));
    lemma_pair_tree_top(h, base, digests);
    lemma_bottom_up_is_recursive(h, base);
}

/// `hash` can be called on any input and computes `h`.
pub open spec fn computes<H: Fn(Vec<u64>) -> Digest>(hash: H, h: spec_fn(Seq<u64>) -> Seq<u64>) -> bool {
    &&& forall|x: Vec<u64>| #[trigger] hash.requires((x,))
    &&& forall|x: Vec<u64>, e: Digest| #[trigger] hash.ensures((x,), e) ==> e@ == h(x@)
}

/// Digests that a hash computing `h` produced form the digest tree under `h`.
pub proof fn lemma_built_with_function<H: Fn(Vec<u64>) -> Digest>(
    hash: H,
    h: spec_fn(Seq<u64>) -> Seq<u64>,
    leaves: Seq<Seq<u64>>,
    digests: Seq<Digest>,
)
    requires
        computes(hash, h),
        built_with(hash, leaves, digests),
    ensures
        is_digest_tree(h, leaves, digest_views(digests)),
{
    let d = digest_views(digests);
    assert forall|i: int| 0 <= i < d.len() implies #[trigger] d[i] == h(node_input(leaves, d, i)) by {
        assert(hashed_from(hash, node_input(leaves, d, i), digests[i]));
        let (x, e) = choose|x: Vec<u64>, e: Digest|
            x@ == node_input(leaves, d, i) && e@ == digests[i]@ && #[trigger] hash.ensures((x,), e);
    }
}

/// The root that `MerkleTree::create` stores, hashing with a function `h`, is
/// the root that the recursive definition gives for the same leaves.
pub proof fn lemma_created_root<H: Fn(Vec<u64>) -> Digest>(
    hash: H,
    h: spec_fn(Seq<u64>) -> Seq<u64>,
    tree: MerkleTree,
)
    requires
        computes(hash, h),
        valid_leaf_count(tree.leaves@.len() as nat),
        built_with(hash, leaf_views(tree.leaves@), tree.digests@),
        tree.root == tree.digests@.last(),
    ensures
        tree.root@ == merkle_root(h, leaf_digests(h, leaf_views(tree.leaves@))),
{
    lemma_built_with_function(hash, h, leaf_views(tree.leaves@), tree.digests@);
    lemma_root_is_merkle_root(h, leaf_views(tree.leaves@), digest_views(tree.digests@));
}

/// Where `hash` computes `h` and the stored digest of node `i` is `h` of its
/// input, the check finds no mismatch there.
proof fn lemma_no_mismatch_at<H: Fn(Vec<u64>) -> Digest>(
    hash: H,
    h: spec_fn(Seq<u64>) -> Seq<u64>,
    input: Seq<u64>,
    d: Digest,
)
    requires
        computes(hash, h),
        d@ == h(input),
    ensures
        !mismatched_from(hash, input, d),
{
}

/// Where `hash` computes `h` and the stored digest of node `i` differs from
/// `h` of its input, the check does not take it for a match.
proof fn lemma_not_hashed_from<H: Fn(Vec<u64>) -> Digest>(
    hash: H,
    h: spec_fn(Seq<u64>) -> Seq<u64>,
    input: Seq<u64>,
    d: Digest,
)
    requires
        computes(hash, h),
        d@ != h(input),
    ensures
        !hashed_from(hash, input, d),
{
}

/// Under `h`, node `t` is the first node, in level order, whose stored
/// digest is not `h` of its input.
pub open spec fn first_wrong_under(h: spec_fn(Seq<u64>) -> Seq<u64>, tree: MerkleTree, t: int) -> bool {
    let l = leaf_views(tree.leaves@);
    let d = digest_views(tree.digests@);
    &&& 0 <= t < d.len()
    &&& d[t] != h(node_input(l, d, t))
    &&& forall|k: int| 0 <= k < t ==> #[trigger] d[k] == h(node_input(l, d, k))
}

proof fn lemma_first_wrong_unique(h: spec_fn(Seq<u64>) -> Seq<u64>, tree: MerkleTree, i: int, t: int)
    requires
        first_wrong_under(h, tree, i),
        first_wrong_under(h, tree, t),
    ensures
        i == t,
{
}

/// The first mismatch that the check meets, with a hash computing `h`, is the
/// first wrong node under `h`.
proof fn lemma_first_mismatch_is_first_wrong<H: Fn(Vec<u64>) -> Digest>(
    hash: H,
    h: spec_fn(Seq<u64>) -> Seq<u64>,
    tree: MerkleTree,
    i: int,
)
    requires
        computes(hash, h),
        first_mismatch_at(tree, hash, i),
    ensures
        first_wrong_under(h, tree, i),
{
    let l = leaf_views(tree.leaves@);
    let d = digest_views(tree.digests@);
    let (x, e) = choose|x: Vec<u64>, e: Digest|
        x@ == node_input(l, d, i) && e@ != tree.digests@[i]@ && #[trigger] hash.ensures((x,), e);
    assert forall|k: int| 0 <= k < i implies #[trigger] d[k] == h(node_input(l, d, k)) by {
        assert(hashed_from(hash, node_input(l, d, k), tree.digests@[k]));
        let (x2, e2) = choose|x2: Vec<u64>, e2: Digest|
            x2@ == node_input(l, d, k) && e2@ == tree.digests@[k]@ && #[trigger] hash.ensures(
                (x2,),
                e2,
            );
    }
}

/// With a hash that computes `h`, the check reports the first wrong node
/// where it is first read: at its parent, one level up at half its position,
/// and for the top digest by the root comparison. No node before it fails.
pub proof fn lemma_check_reports_first_wrong<H: Fn(Vec<u64>) -> Digest>(
    hash: H,
    h: spec_fn(Seq<u64>) -> Seq<u64>,
    tree: MerkleTree,
    t: int,
    r: Result<(), TreeError>,
)
    requires
        computes(hash, h),
        tree.well_formed(),
        first_wrong_under(h, tree, t),
        check_outcome(tree, hash, r),
    ensures
        t < tree.digests@.len() - 1 ==> r == Err::<(), TreeError>(
            TreeError::DigestMismatch {
                level: (level_of(tree.leaves@.len() as nat, t as nat) + 1) as usize,
                position: (position_of(tree.leaves@.len() as nat, t as nat) / 2) as usize,
            },
        ),
        t == tree.digests@.len() - 1 ==> r == Err::<(), TreeError>(TreeError::RootMismatch),
{
    let l = leaf_views(tree.leaves@);
    let d = digest_views(tree.digests@);
    let top = tree.digests@.len() - 1;
    lemma_not_hashed_from(hash, h, node_input(l, d, t), tree.digests@[t]);
    assert(!built_with(hash, l, tree.digests@));
    if let Err(TreeError::DigestMismatch { level, position }) = r {
        let i = choose|i: int|
            {
                &&& #[trigger] first_mismatch_at(tree, hash, i)
                &&& i < top
                &&& level == level_of(tree.leaves@.len() as nat, i as nat) + 1
                &&& position == position_of(tree.leaves@.len() as nat, i as nat) / 2
            };
        lemma_first_mismatch_is_first_wrong(hash, h, tree, i);
        lemma_first_wrong_unique(h, tree, i, t);
    }
    if first_mismatch_at(tree, hash, top) {
        lemma_first_mismatch_is_first_wrong(hash, h, tree, top);
        lemma_first_wrong_unique(h, tree, top, t);
    }
}

/// With a hash that computes `h`, a tree whose every stored digest is `h` of
/// its input passes the check of its nodes; only the root comparison remains.
pub proof fn lemma_check_of_right_nodes<H: Fn(Vec<u64>) -> Digest>(
    hash: H,
    h: spec_fn(Seq<u64>) -> Seq<u64>,
    tree: MerkleTree,
    r: Result<(), TreeError>,
)
    requires
        computes(hash, h),
        tree.well_formed(),
        is_digest_tree(h, leaf_views(tree.leaves@), digest_views(tree.digests@)),
        check_outcome(tree, hash, r),
    ensures
        tree.root@ == tree.digests@.last()@ ==> r is Ok,
        tree.root@ != tree.digests@.last()@ ==> r == Err::<(), TreeError>(TreeError::RootMismatch),
{
    let l = leaf_views(tree.leaves@);
    let d = digest_views(tree.digests@);
    let top = tree.digests@.len() - 1;
    if let Err(TreeError::DigestMismatch { level, position }) = r {
        let i = choose|i: int|
            {
                &&& #[trigger] first_mismatch_at(tree, hash, i)
                &&& i < top
                &&& level == level_of(tree.leaves@.len() as nat, i as nat) + 1
                &&& position == position_of(tree.leaves@.len() as nat, i as nat) / 2
            };
        lemma_first_mismatch_is_first_wrong(hash, h, tree, i);
        assert(d[i] == h(node_input(l, d, i)));
    }
    if first_mismatch_at(tree, hash, top) {
        lemma_first_mismatch_is_first_wrong(hash, h, tree, top);
        assert(d[top] == h(node_input(l, d, top)));
    }
}

/// A valid tree (every stored digest the hash of its input, the declared root
/// the top digest) passes the plain check, so that its ascent starts.
pub proof fn lemma_valid_tree_passes<H: Fn(Vec<u64>) -> Digest>(
    hash: H,
    h: spec_fn(Seq<u64>) -> Seq<u64>,
    tree: MerkleTree,
    r: Result<(), TreeError>,
)
    requires
        computes(hash, h),
        tree.well_formed(),
        is_digest_tree(h, leaf_views(tree.leaves@), digest_views(tree.digests@)),
        tree.root@ == tree.digests@.last()@,
        check_outcome(tree, hash, r),
    ensures
        r is Ok,
{
    lemma_check_of_right_nodes(hash, h, tree, r);
}

/// Only the children of a node feed its input, and they come before it.
proof fn lemma_input_before_change(
    leaves: Seq<Seq<u64>>,
    digests: Seq<Seq<u64>>,
    t: int,
    v: Seq<u64>,
    i: int,
)
    requires
        leaves.len() >= 1,
        digests.len() == 2 * leaves.len() - 1,
        0 <= i <= t < digests.len(),
    ensures
        node_input(leaves, digests.update(t, v), i) == node_input(leaves, digests, i),
{
}

/// Changing the stored digest of one node of a valid tree makes the check
/// fail where that digest is first read, and at no node before: at its
/// parent, one level up at half its position, or, for the top digest, at the
/// comparison with the declared root.
pub proof fn lemma_changed_digest_found<H: Fn(Vec<u64>) -> Digest>(
    hash: H,
    h: spec_fn(Seq<u64>) -> Seq<u64>,
    valid: MerkleTree,
    changed: MerkleTree,
    t: int,
    r: Result<(), TreeError>,
)
    requires
        computes(hash, h),
        valid.well_formed(),
        changed.well_formed(),
        is_digest_tree(h, leaf_views(valid.leaves@), digest_views(valid.digests@)),
        0 <= t < valid.digests@.len(),
        changed.leaves@ == valid.leaves@,
        changed.digests@ == valid.digests@.update(t, changed.digests@[t]),
        changed.digests@[t]@ != valid.digests@[t]@,
        check_outcome(changed, hash, r),
    ensures
        t < valid.digests@.len() - 1 ==> r == Err::<(), TreeError>(
            TreeError::DigestMismatch {
                level: (level_of(valid.leaves@.len() as nat, t as nat) + 1) as usize,
                position: (position_of(valid.leaves@.len() as nat, t as nat) / 2) as usize,
            },
        ),
        t == valid.digests@.len() - 1 ==> r == Err::<(), TreeError>(TreeError::RootMismatch),
{
    let l = leaf_views(valid.leaves@);
    let d = digest_views(valid.digests@);
    let d2 = digest_views(changed.digests@);
    assert(leaf_views(changed.leaves@) == l);
    assert(d2 =~= d.update(t, changed.digests@[t]@));
    assert forall|k: int| 0 <= k < t implies #[trigger] d2[k] == h(node_input(l, d2, k)) by {
        lemma_input_before_change(l, d, t, changed.digests@[t]@, k);
        assert(d[k] == h(node_input(l, d, k)));
    }
    lemma_input_before_change(l, d, t, changed.digests@[t]@, t);
    assert(d[t] == h(node_input(l, d, t)));
    assert(first_wrong_under(h, changed, t));
    lemma_check_reports_first_wrong(hash, h, changed, t, r);
}

/// Changing the data of one leaf of a valid tree, but not its stored digest,
/// makes the check fail at the leaf pair that reads it (level 1, half the
/// leaf's position), where the new data hashes to something else than the
/// stored digest.
pub proof fn lemma_changed_leaf_found<H: Fn(Vec<u64>) -> Digest>(
    hash: H,
    h: spec_fn(Seq<u64>) -> Seq<u64>,
    valid: MerkleTree,
    changed: MerkleTree,
    t: int,
    r: Result<(), TreeError>,
)
    requires
        computes(hash, h),
        valid.well_formed(),
        changed.well_formed(),
        is_digest_tree(h, leaf_views(valid.leaves@), digest_views(valid.digests@)),
        0 <= t < valid.leaves@.len(),
        changed.leaves@ == valid.leaves@.update(t, changed.leaves@[t]),
        changed.digests@ == valid.digests@,
        h(changed.leaves@[t]@) != valid.digests@[t]@,
        check_outcome(changed, hash, r),
    ensures
        r == Err::<(), TreeError>(TreeError::DigestMismatch { level: 1, position: (t / 2) as usize }),
{
    let n = valid.leaves@.len();
    let l = leaf_views(valid.leaves@);
    let l2 = leaf_views(changed.leaves@);
    let d = digest_views(valid.digests@);
    assert(l2 =~= l.update(t, changed.leaves@[t]@));
    assert forall|k: int| 0 <= k < t implies #[trigger] d[k] == h(node_input(l2, d, k)) by {
        assert(node_input(l2, d, k) == node_input(l, d, k));
        assert(d[k] == h(node_input(l, d, k)));
    }
    assert(node_input(l2, d, t) == changed.leaves@[t]@);
    assert(first_wrong_under(h, changed, t));
    lemma_check_reports_first_wrong(hash, h, changed, t, r);
}

/// Replacing the declared root of a valid tree with another digest makes the
/// final root comparison fail, while every node of the tree still checks.
pub proof fn lemma_changed_root_found<H: Fn(Vec<u64>) -> Digest>(
    hash: H,
    h: spec_fn(Seq<u64>) -> Seq<u64>,
    valid: MerkleTree,
    changed: MerkleTree,
    r: Result<(), TreeError>,
)
    requires
        computes(hash, h),
        changed.well_formed(),
        is_digest_tree(h, leaf_views(valid.leaves@), digest_views(valid.digests@)),
        changed.leaves@ == valid.leaves@,
        changed.digests@ == valid.digests@,
        changed.root@ != valid.digests@.last()@,
        check_outcome(changed, hash, r),
    ensures
        r == Err::<(), TreeError>(TreeError::RootMismatch),
{
    lemma_check_of_right_nodes(hash, h, changed, r);
}

/// With a hash that computes a function, the plain check of a tree has one
/// outcome: checking the same tree twice gives the same result.
pub proof fn lemma_check_is_repeatable<H: Fn(Vec<u64>) -> Digest>(
    hash: H,
    h: spec_fn(Seq<u64>) -> Seq<u64>,
    tree: MerkleTree,
    r1: Result<(), TreeError>,
    r2: Result<(), TreeError>,
)
    requires
        computes(hash, h),
        check_outcome(tree, hash, r1),
        check_outcome(tree, hash, r2),
    ensures
        r1 is Ok <==> r2 is Ok,
        r1 is Err ==> r1 == r2,
{
    if tree.well_formed() {
        let top = tree.digests@.len() - 1;
        if let Err(TreeError::DigestMismatch { level, position }) = r1 {
            let i = choose|i: int|
                {
                    &&& #[trigger] first_mismatch_at(tree, hash, i)
                    &&& i < top
                    &&& level == level_of(tree.leaves@.len() as nat, i as nat) + 1
                    &&& position == position_of(tree.leaves@.len() as nat, i as nat) / 2
                };
            lemma_first_mismatch_is_first_wrong(hash, h, tree, i);
            lemma_check_reports_first_wrong(hash, h, tree, i, r2);
        } else if first_mismatch_at(tree, hash, top) {
            lemma_first_mismatch_is_first_wrong(hash, h, tree, top);
            lemma_check_reports_first_wrong(hash, h, tree, top, r1);
            lemma_check_reports_first_wrong(hash, h, tree, top, r2);
        } else if r1 is Ok || r1 == Err::<(), TreeError>(TreeError::RootMismatch) {
            lemma_built_with_function(hash, h, leaf_views(tree.leaves@), tree.digests@);
            lemma_check_of_right_nodes(hash, h, tree, r1);
            lemma_check_of_right_nodes(hash, h, tree, r2);
        }
    }
}

} // verus!
