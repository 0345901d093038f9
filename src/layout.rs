//! Where each node of a complete binary hash tree sits.
//!
//! The digests of a tree over `n` leaves are stored in level order: the `n`
//! leaf digests first, then the `n / 2` digests of the level above, and so on
//! up to the root, `2 * n - 1` in all. The node at flat index `n + j` is the
//! parent of the nodes at flat indices `2 * j` and `2 * j + 1`.
use vstd::prelude::*;

verus! {

/// `n` is a power of two (one included).
pub open spec fn is_pow2(n: nat) -> bool
    decreases n,
{
    if n <= 1 {
        n == 1
    } else {
        n % 2 == 0 && is_pow2((n / 2) as nat)
    }
}

/// A tree can be built over `n` leaves: a power of two, and at least one pair.
pub open spec fn valid_leaf_count(n: nat) -> bool {
    n >= 2 && is_pow2(n)
}

/// The number of digests that a tree over `n` leaves stores.
pub open spec fn num_nodes(n: nat) -> nat {
    (2 * n - 1) as nat
}

/// The level of the node at flat index `i` (the leaves are level 0).
pub open spec fn level_of(n: nat, i: nat) -> nat
    decreases n,
{
    if i < n || n <= 1 {
        0
    } else {
        1 + level_of((n / 2) as nat, (i - n) as nat)
    }
}

/// The position of the node at flat index `i` within its level, from the left.
pub open spec fn position_of(n: nat, i: nat) -> nat
    decreases n,
{
    if i < n || n <= 1 {
        i
    } else {
        position_of((n / 2) as nat, (i - n) as nat)
    }
}

/// The flat index of the first node of level `k`.
pub open spec fn level_start(n: nat, k: nat) -> nat
    decreases k,
{
    if k == 0 {
        0
    } else {
        n + level_start((n / 2) as nat, (k - 1) as nat)
    }
}

/// The number of nodes on level `k`.
pub open spec fn level_width(n: nat, k: nat) -> nat
    decreases k,
{
    if k == 0 {
        n
    } else {
        level_width((n / 2) as nat, (k - 1) as nat)
    }
}

/// The flat index of the first node of level `k + 1` follows the nodes of level `k`.
pub proof fn lemma_level_start_step(n: nat, k: nat)
    ensures
        level_start(n, k + 1) == level_start(n, k) + level_width(n, k),
        level_width(n, k + 1) == level_width(n, k) / 2,
    decreases k,
{
    let m = (n / 2) as nat;
    assert(level_start(n, k + 1) == n + level_start(m, k));
    assert(level_width(n, k + 1) == level_width(m, k));
    if k > 0 {
        lemma_level_start_step(m, (k - 1) as nat);
        assert(level_start(n, k) == n + level_start(m, (k - 1) as nat));
        assert(level_width(n, k) == level_width(m, (k - 1) as nat));
    } else {
        assert(level_start(m, 0) == 0);
        assert(level_width(m, 0) == m);
    }
}

proof fn lemma_width_bound(n: nat, k: nat)
    ensures
        level_width(n, k) <= n,
    decreases k,
{
    if k > 0 {
        lemma_width_bound((n / 2) as nat, (k - 1) as nat);
    }
}

/// Below the root, the first node of level `k` of the tree over the `n / 2`
/// parents of the leaves sits at half the flat index of that of level `k`.
pub proof fn lemma_start_doubles(n: nat, k: nat)
    requires
        is_pow2(n),
        n >= 2,
        level_width(n, k) >= 2,
    ensures
        2 * level_start((n / 2) as nat, k) == level_start(n, k),
    decreases k,
{
    let m = (n / 2) as nat;
    if k > 0 {
        let k1 = (k - 1) as nat;
        assert(level_width(n, k) == level_width(m, k1));
        lemma_width_bound(m, k1);
        lemma_start_doubles(m, k1);
        assert(level_start(n, k) == n + level_start(m, k1));
        assert(level_start(m, k) == m + level_start((m / 2) as nat, k1));
    }
}

/// The node `j` of level `k`, counted from the left, is the one that the flat
/// layout places on level `k` at position `j`.
pub proof fn lemma_level_start_located(n: nat, k: nat, j: nat)
    requires
        j < level_width(n, k),
    ensures
        level_of(n, level_start(n, k) + j) == k,
        position_of(n, level_start(n, k) + j) == j,
    decreases k,
{
    if k > 0 {
        let m = (n / 2) as nat;
        let k1 = (k - 1) as nat;
        assert(level_width(n, k) == level_width(m, k1));
        lemma_width_bound(m, k1);
        lemma_level_start_located(m, k1, j);
        assert(level_start(n, k) == n + level_start(m, k1));
    }
}

/// The parent of the node at flat index `i` (below the root) is the node at
/// flat index `n + i / 2`: one level up, at half the position.
pub proof fn lemma_parent_located(n: nat, i: nat)
    requires
        valid_leaf_count(n),
        i + 2 < 2 * n,
    ensures
        level_of(n, n + i / 2) == level_of(n, i) + 1,
        position_of(n, n + i / 2) == position_of(n, i) / 2,
    decreases n,
{
    let m = (n / 2) as nat;
    assert(level_of(n, n + i / 2) == 1 + level_of(m, i / 2));
    assert(position_of(n, n + i / 2) == position_of(m, i / 2));
    if i < n {
        assert(i / 2 < m);
    } else {
        let i1 = (i - n) as nat;
        assert(n >= 4);
        assert(i / 2 == m + i1 / 2);
        lemma_parent_located(m, i1);
    }
}

/// Tells whether `n` is a power of two.
pub fn is_power_of_two(n: usize) -> (r: bool)
    ensures
        r == is_pow2(n as nat),
{
    if n == 0 {
        return false;
    }
    let mut m: usize = n;
    while m > 1 && m % 2 == 0
        invariant
            m >= 1,
            is_pow2(n as nat) == is_pow2(m as nat),
        decreases m,
    {
        m = m / 2;
    }
    m == 1
}

/// The level and the position within it of the node at flat index `i`.
pub fn locate(n: usize, i: usize) -> (r: (usize, usize))
    requires
        valid_leaf_count(n as nat),
        i < num_nodes(n as nat),
    ensures
        r.0 == level_of(n as nat, i as nat),
        r.1 == position_of(n as nat, i as nat),
        r.0 <= i,
{
    let mut w: usize = n;
    let mut base: usize = 0;
    let mut level: usize = 0;
    while i - base >= w && w > 1
        invariant
            w >= 1,
            is_pow2(w as nat),
            base <= i,
            level <= base,
            base + 2 * w - 1 <= 2 * n - 1,
            i < base + 2 * w - 1,
            level_of(n as nat, i as nat) == level + level_of(w as nat, (i - base) as nat),
            position_of(n as nat, i as nat) == position_of(w as nat, (i - base) as nat),
        decreases w,
    {
        base = base + w;
        w = w / 2;
        level = level + 1;
    }
    (level, i - base)
}

} // verus!
