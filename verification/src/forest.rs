//! The merge forest behind `node_to_part`: each node is filtered, is its own
//! representative, or points at the node it was merged into.
use vstd::prelude::*;
use crate::io::FILTERED;

verus! {

/// Following parent pointers from `x` for at most `k` steps stays among the
/// live nodes below `n` and arrives at a representative.
pub open spec fn reaches_root(node_to_part: Seq<usize>, n: int, x: int, k: nat) -> bool
    decreases k,
{
    &&& 0 <= x < n
    &&& node_to_part[x] != FILTERED
    &&& (node_to_part[x] == x || (k > 0 && reaches_root(
        node_to_part,
        n,
        node_to_part[x] as int,
        (k - 1) as nat,
    )))
}

/// The node at which a walk of at most `k` parent steps from `x` stops: the
/// first representative on the way, or the `k`-th ancestor.
pub open spec fn walk(node_to_part: Seq<usize>, x: int, k: nat) -> int
    decreases k,
{
    if k == 0 || node_to_part[x] == x {
        x
    } else {
        walk(node_to_part, node_to_part[x] as int, (k - 1) as nat)
    }
}

/// The first `n` entries of `node_to_part` form a forest: every node that is
/// not filtered leads, by parent pointers through live nodes, to a
/// self-pointing representative.
pub open spec fn is_forest(node_to_part: Seq<usize>, n: int) -> bool {
    &&& 0 <= n <= node_to_part.len()
    &&& n <= FILTERED
    &&& forall|x: int|
        0 <= x < n && node_to_part[x] != FILTERED ==> exists|k: nat| #[trigger]
            reaches_root(node_to_part, n, x, k)
}

/// Every live node among the first `n` points directly at a representative.
pub open spec fn is_flat(node_to_part: Seq<usize>, n: int) -> bool {
    &&& 0 <= n <= node_to_part.len()
    &&& n <= FILTERED
    &&& forall|x: int|
        0 <= x < n && #[trigger] node_to_part[x] != FILTERED ==> node_to_part[x] < n
            && node_to_part[node_to_part[x] as int] == node_to_part[x]
}

/// The representative of the group of a live node `x`.
pub open spec fn representative(node_to_part: Seq<usize>, n: int, x: int) -> int {
    walk(node_to_part, x, choose|k: nat| reaches_root(node_to_part, n, x, k))
}

/// The forest with every live node pointing directly at its representative.
/// Filtered nodes and the entries from `n` on are as they were.
pub open spec fn flattened(node_to_part: Seq<usize>, n: int) -> Seq<usize> {
    Seq::new(
        node_to_part.len(),
        |x: int|
            if 0 <= x < n && node_to_part[x] != FILTERED {
                representative(node_to_part, n, x) as usize
            } else {
                node_to_part[x]
            },
    )
}

/// The number of representatives among the first `n` nodes.
pub open spec fn count_roots(node_to_part: Seq<usize>, n: int) -> nat
    decreases n,
{
    if n <= 0 {
        0
    } else {
        count_roots(node_to_part, n - 1) + if node_to_part[n - 1] == n - 1 {
            1nat
        } else {
            0nat
        }
    }
}

/// `after` differs from `before` only in live nodes that now point directly at
/// their representative.
pub open spec fn compresses(before: Seq<usize>, after: Seq<usize>, n: int) -> bool {
    &&& after.len() == before.len()
    &&& forall|x: int|
        0 <= x < before.len() ==> #[trigger] after[x] == before[x] || (x < n && before[x]
            != FILTERED && after[x] == representative(before, n, x))
}

/// More steps reach the same representative.
pub proof fn lemma_walk_more(node_to_part: Seq<usize>, n: int, x: int, k: nat, m: nat)
    requires
        reaches_root(node_to_part, n, x, k),
        k <= m,
    ensures
        reaches_root(node_to_part, n, x, m),
        walk(node_to_part, x, m) == walk(node_to_part, x, k),
    decreases k,
{
    if node_to_part[x] != x {
        lemma_walk_more(node_to_part, n, node_to_part[x] as int, (k - 1) as nat, (m - 1) as nat);
    }
}

/// A walk that reaches a representative stops at a live, self-pointing node
/// below `n`.
pub proof fn lemma_walk_ends_at_root(node_to_part: Seq<usize>, n: int, x: int, k: nat)
    requires
        reaches_root(node_to_part, n, x, k),
    ensures
        0 <= walk(node_to_part, x, k) < n,
        node_to_part[walk(node_to_part, x, k)] == walk(node_to_part, x, k),
    decreases k,
{
    if node_to_part[x] != x {
        lemma_walk_ends_at_root(node_to_part, n, node_to_part[x] as int, (k - 1) as nat);
    }
}

/// The representative does not depend on the number of steps allowed, as long
/// as they suffice.
pub proof fn lemma_representative(node_to_part: Seq<usize>, n: int, x: int, k: nat)
    requires
        reaches_root(node_to_part, n, x, k),
    ensures
        representative(node_to_part, n, x) == walk(node_to_part, x, k),
        0 <= representative(node_to_part, n, x) < n,
        node_to_part[representative(node_to_part, n, x)] == representative(node_to_part, n, x),
        node_to_part[x] == x ==> representative(node_to_part, n, x) == x,
        node_to_part[x] != x ==> {
            &&& k > 0
            &&& reaches_root(node_to_part, n, node_to_part[x] as int, (k - 1) as nat)
            &&& representative(node_to_part, n, node_to_part[x] as int) == representative(
                node_to_part,
                n,
                x,
            )
            &&& representative(node_to_part, n, x) != x
        },
{
    let c = choose|c: nat| reaches_root(node_to_part, n, x, c);
    if c <= k {
        lemma_walk_more(node_to_part, n, x, c, k);
    } else {
        lemma_walk_more(node_to_part, n, x, k, c);
    }
    lemma_walk_ends_at_root(node_to_part, n, x, k);
    if node_to_part[x] != x {
        let p = node_to_part[x] as int;
        let j = (k - 1) as nat;
        assert(reaches_root(node_to_part, n, p, j));
        let cp = choose|c: nat| reaches_root(node_to_part, n, p, c);
        if cp <= j {
            lemma_walk_more(node_to_part, n, p, cp, j);
        } else {
            lemma_walk_more(node_to_part, n, p, j, cp);
        }
    }
}

/// A compressed forest is a forest with the same representatives.
pub proof fn lemma_compress_walk(before: Seq<usize>, after: Seq<usize>, n: int, x: int, k: nat)
    requires
        0 <= n <= before.len(),
        n <= FILTERED,
        compresses(before, after, n),
        reaches_root(before, n, x, k),
    ensures
        reaches_root(after, n, x, k),
        walk(after, x, k) == walk(before, x, k),
    decreases k,
{
    lemma_representative(before, n, x, k);
    if before[x] == x {
        assert(after[x] == x);
    } else {
        let p = before[x] as int;
        let j = (k - 1) as nat;
        lemma_compress_walk(before, after, n, p, j);
        if after[x] != before[x] {
            let r = representative(before, n, x);
            lemma_representative(before, n, p, j);
            assert(after[r] == r);
            assert(reaches_root(after, n, r, 0));
            lemma_walk_more(after, n, r, 0, j);
            assert(walk(after, r, j) == r);
        }
    }
}

/// Compression keeps the forest, its representatives, and which nodes are
/// filtered or self-pointing.
pub proof fn lemma_compress_forest(before: Seq<usize>, after: Seq<usize>, n: int)
    requires
        is_forest(before, n),
        compresses(before, after, n),
    ensures
        is_forest(after, n),
        forall|x: int|
            0 <= x < n ==> ((#[trigger] after[x]) == FILTERED <==> before[x] == FILTERED),
        forall|x: int| 0 <= x < n ==> ((#[trigger] after[x]) == x <==> before[x] == x),
        forall|x: int|
            0 <= x < n && before[x] != FILTERED ==> #[trigger] representative(after, n, x)
                == representative(before, n, x),
{
    assert forall|x: int| 0 <= x < n implies ((#[trigger] after[x]) == FILTERED <==> before[x]
        == FILTERED) && (after[x] == x <==> before[x] == x) by {
        if before[x] != FILTERED {
            let k = choose|k: nat| reaches_root(before, n, x, k);
            lemma_representative(before, n, x, k);
        }
    }
    assert forall|x: int| 0 <= x < n && after[x] != FILTERED implies exists|k: nat| #[trigger]
        reaches_root(after, n, x, k) by {
        let k = choose|k: nat| reaches_root(before, n, x, k);
        lemma_compress_walk(before, after, n, x, k);
    }
    assert forall|x: int| 0 <= x < n && before[x] != FILTERED implies #[trigger] representative(
        after,
        n,
        x,
    ) == representative(before, n, x) by {
        let k = choose|k: nat| reaches_root(before, n, x, k);
        lemma_compress_walk(before, after, n, x, k);
        lemma_representative(before, n, x, k);
        lemma_representative(after, n, x, k);
    }
}

/// The number of representatives depends only on which nodes point at
/// themselves.
pub proof fn lemma_count_roots_same(a: Seq<usize>, b: Seq<usize>, n: int)
    requires
        forall|x: int| 0 <= x < n ==> ((#[trigger] a[x]) == x <==> b[x] == x),
    ensures
        count_roots(a, n) == count_roots(b, n),
    decreases n,
{
    if n > 0 {
        lemma_count_roots_same(a, b, n - 1);
        assert(a[n - 1] == n - 1 <==> b[n - 1] == n - 1);
    }
}

/// There are no more representatives than nodes, and as many only when every
/// node is its own representative.
pub proof fn lemma_count_roots_bound(node_to_part: Seq<usize>, n: int)
    requires
        0 <= n,
    ensures
        count_roots(node_to_part, n) <= n,
        count_roots(node_to_part, n) == n <==> forall|x: int|
            0 <= x < n ==> (#[trigger] node_to_part[x]) == x,
    decreases n,
{
    if n > 0 {
        lemma_count_roots_bound(node_to_part, n - 1);
        if count_roots(node_to_part, n) == n {
            assert forall|x: int| 0 <= x < n implies (#[trigger] node_to_part[x]) == x by {
                if x < n - 1 {
                }
            }
        }
        if forall|x: int| 0 <= x < n ==> (#[trigger] node_to_part[x]) == x {
            assert(node_to_part[n - 1] == n - 1);
        }
    }
}

/// A flat forest is a forest, and flattening it changes nothing.
pub proof fn lemma_flat_is_forest(node_to_part: Seq<usize>, n: int)
    requires
        is_flat(node_to_part, n),
    ensures
        is_forest(node_to_part, n),
        flattened(node_to_part, n) == node_to_part,
{
    assert forall|x: int| 0 <= x < n && node_to_part[x] != FILTERED implies exists|k: nat| #[trigger]
        reaches_root(node_to_part, n, x, k) by {
        let p = node_to_part[x] as int;
        assert(reaches_root(node_to_part, n, p, 0));
        assert(reaches_root(node_to_part, n, x, 1));
    }
    assert forall|x: int| 0 <= x < node_to_part.len() implies flattened(node_to_part, n)[x]
        == node_to_part[x] by {
        if x < n && node_to_part[x] != FILTERED {
            let p = node_to_part[x] as int;
            assert(reaches_root(node_to_part, n, p, 0));
            assert(reaches_root(node_to_part, n, x, 1));
            lemma_representative(node_to_part, n, x, 1);
            assert(walk(node_to_part, p, 0) == p);
        }
    }
    assert(flattened(node_to_part, n) =~= node_to_part);
}

/// The flattened forest is flat, and it is a compression of the forest.
pub proof fn lemma_flattened_is_flat(node_to_part: Seq<usize>, n: int)
    requires
        is_forest(node_to_part, n),
    ensures
        is_flat(flattened(node_to_part, n), n),
        compresses(node_to_part, flattened(node_to_part, n), n),
{
    let f = flattened(node_to_part, n);
    assert forall|x: int| 0 <= x < n && #[trigger] f[x] != FILTERED implies f[x] < n && f[f[x] as int]
        == f[x] by {
        let k = choose|k: nat| reaches_root(node_to_part, n, x, k);
        lemma_representative(node_to_part, n, x, k);
        let r = representative(node_to_part, n, x);
        assert(reaches_root(node_to_part, n, r, 0));
        lemma_representative(node_to_part, n, r, 0);
    }
    assert forall|x: int| 0 <= x < node_to_part.len() implies #[trigger] f[x] == node_to_part[x] || (x
        < n && node_to_part[x] != FILTERED && f[x] == representative(node_to_part, n, x)) by {
        if x < n && node_to_part[x] != FILTERED {
            let k = choose|k: nat| reaches_root(node_to_part, n, x, k);
            lemma_representative(node_to_part, n, x, k);
        }
    }
}

/// Idempotence of resolution: flattening a flattened forest changes neither
/// any entry nor the number of representatives.
pub proof fn lemma_flatten_idempotent(node_to_part: Seq<usize>, n: int)
    requires
        is_forest(node_to_part, n),
    ensures
        is_forest(flattened(node_to_part, n), n),
        flattened(flattened(node_to_part, n), n) == flattened(node_to_part, n),
        count_roots(flattened(node_to_part, n), n) == count_roots(node_to_part, n),
{
    lemma_flattened_is_flat(node_to_part, n);
    lemma_flat_is_forest(flattened(node_to_part, n), n);
    lemma_compress_forest(node_to_part, flattened(node_to_part, n), n);
    lemma_count_roots_same(flattened(node_to_part, n), node_to_part, n);
}

/// The forest after representative `u` is pointed at `v`.
pub open spec fn merged(node_to_part: Seq<usize>, u: int, v: usize) -> Seq<usize> {
    node_to_part.update(u, v)
}

/// Whether nodes that had one representative in `before` have one in `after`:
/// groups are joined, never split.
pub open spec fn coarsened(before: Seq<usize>, after: Seq<usize>, n: int) -> bool {
    forall|x: int, y: int|
        0 <= x < n && 0 <= y < n && before[x] != FILTERED && before[y] != FILTERED
            && representative(before, n, x) == representative(before, n, y)
            ==> #[trigger] representative(after, n, x) == #[trigger] representative(after, n, y)
}

/// `after` came from `before` by merges that spared the protected nodes: the
/// same nodes are filtered, the representative of a live node changed only if
/// neither the old nor the new one is protected, and no group was split.
pub open spec fn merged_legally(
    before: Seq<usize>,
    after: Seq<usize>,
    protected: Set<usize>,
    n: int,
) -> bool {
    &&& forall|x: int| 0 <= x < n ==> ((#[trigger] after[x]) == FILTERED <==> before[x] == FILTERED)
    &&& forall|x: int|
        0 <= x < n && before[x] != FILTERED ==> #[trigger] representative(after, n, x)
            == representative(before, n, x) || (!protected.contains(
            representative(before, n, x) as usize,
        ) && !protected.contains(representative(after, n, x) as usize))
    &&& coarsened(before, after, n)
}

/// Walking in the forest in which representative `u` points at representative
/// `v` ends where it ended before, except that walks that ended at `u` go on
/// to `v`.
pub proof fn lemma_merge_walk(node_to_part: Seq<usize>, n: int, u: int, v: usize, x: int, k: nat)
    requires
        0 <= n <= node_to_part.len(),
        n <= FILTERED,
        0 <= u < n,
        v < n,
        node_to_part[u] == u,
        node_to_part[v as int] == v,
        u != v,
        reaches_root(node_to_part, n, x, k),
    ensures
        reaches_root(merged(node_to_part, u, v), n, x, k + 1),
        walk(merged(node_to_part, u, v), x, k + 1) == if walk(node_to_part, x, k) == u {
            v as int
        } else {
            walk(node_to_part, x, k)
        },
    decreases k,
{
    let after = merged(node_to_part, u, v);
    if node_to_part[x] == x {
        if x == u {
            assert(reaches_root(after, n, v as int, 0));
            lemma_walk_more(after, n, v as int, 0, k);
        }
    } else {
        lemma_merge_walk(node_to_part, n, u, v, node_to_part[x] as int, (k - 1) as nat);
    }
}

/// Pointing one representative at another keeps the forest; the groups of the
/// two become one, represented by `v`, and all other groups stay.
pub proof fn lemma_merge_forest(node_to_part: Seq<usize>, n: int, u: int, v: usize)
    requires
        is_forest(node_to_part, n),
        0 <= u < n,
        v < n,
        node_to_part[u] == u,
        node_to_part[v as int] == v,
        u != v,
    ensures
        is_forest(merged(node_to_part, u, v), n),
        forall|x: int|
            0 <= x < n && node_to_part[x] != FILTERED ==> #[trigger] representative(
                merged(node_to_part, u, v),
                n,
                x,
            ) == if representative(node_to_part, n, x) == u {
                v as int
            } else {
                representative(node_to_part, n, x)
            },
{
    let after = merged(node_to_part, u, v);
    assert forall|x: int| 0 <= x < n && after[x] != FILTERED implies exists|k: nat| #[trigger]
        reaches_root(after, n, x, k) by {
        let k = choose|k: nat| reaches_root(node_to_part, n, x, k);
        lemma_merge_walk(node_to_part, n, u, v, x, k);
    }
    assert forall|x: int| 0 <= x < n && node_to_part[x] != FILTERED implies #[trigger] representative(
        after,
        n,
        x,
    ) == if representative(node_to_part, n, x) == u {
        v as int
    } else {
        representative(node_to_part, n, x)
    } by {
        let k = choose|k: nat| reaches_root(node_to_part, n, x, k);
        lemma_merge_walk(node_to_part, n, u, v, x, k);
        lemma_representative(node_to_part, n, x, k);
        lemma_representative(after, n, x, k + 1);
    }
}

/// A merge of two unprotected representatives extends a legal history.
pub proof fn lemma_merged_legally_step(
    before: Seq<usize>,
    node_to_part: Seq<usize>,
    protected: Set<usize>,
    n: int,
    u: int,
    v: usize,
)
    requires
        is_forest(node_to_part, n),
        merged_legally(before, node_to_part, protected, n),
        0 <= u < n,
        v < n,
        node_to_part[u] == u,
        node_to_part[v as int] == v,
        u != v,
        !protected.contains(u as usize),
        !protected.contains(v),
    ensures
        merged_legally(before, merged(node_to_part, u, v), protected, n),
{
    let after = merged(node_to_part, u, v);
    lemma_merge_forest(node_to_part, n, u, v);
    assert forall|x: int| 0 <= x < n && before[x] != FILTERED implies #[trigger] representative(
        after,
        n,
        x,
    ) == representative(before, n, x) || (!protected.contains(representative(before, n, x) as usize)
        && !protected.contains(representative(after, n, x) as usize)) by {
        assert(node_to_part[x] != FILTERED);
        assert(representative(node_to_part, n, x) == representative(before, n, x) || (
        !protected.contains(representative(before, n, x) as usize) && !protected.contains(
            representative(node_to_part, n, x) as usize,
        )));
    }
    assert forall|x: int, y: int|
        0 <= x < n && 0 <= y < n && before[x] != FILTERED && before[y] != FILTERED
            && representative(before, n, x) == representative(
            before,
            n,
            y,
        ) implies #[trigger] representative(after, n, x) == #[trigger] representative(after, n, y) by {
        assert(node_to_part[x] != FILTERED && node_to_part[y] != FILTERED);
        assert(representative(node_to_part, n, x) == representative(node_to_part, n, y));
    }
}

/// Flattening keeps a legal history legal, and the entries of the flat forest
/// are the representatives.
pub proof fn lemma_merged_legally_flat(
    before: Seq<usize>,
    node_to_part: Seq<usize>,
    protected: Set<usize>,
    n: int,
)
    requires
        is_forest(before, n),
        is_forest(node_to_part, n),
        merged_legally(before, node_to_part, protected, n),
    ensures
        merged_legally(before, flattened(node_to_part, n), protected, n),
        forall|x: int|
            0 <= x < n && before[x] != FILTERED ==> (#[trigger] flattened(node_to_part, n)[x])
                == representative(before, n, x) || (!protected.contains(
                representative(before, n, x) as usize,
            ) && !protected.contains(flattened(node_to_part, n)[x])),
{
    let flat = flattened(node_to_part, n);
    lemma_flattened_is_flat(node_to_part, n);
    lemma_compress_forest(node_to_part, flat, n);
    assert forall|x: int| 0 <= x < n && before[x] != FILTERED implies (#[trigger] flat[x])
        == representative(node_to_part, n, x) by {
        assert(node_to_part[x] != FILTERED);
        let k = choose|k: nat| reaches_root(node_to_part, n, x, k);
        lemma_representative(node_to_part, n, x, k);
    }
    assert forall|x: int| 0 <= x < n && before[x] != FILTERED implies #[trigger] representative(
        flat,
        n,
        x,
    ) == representative(before, n, x) || (!protected.contains(representative(before, n, x) as usize)
        && !protected.contains(representative(flat, n, x) as usize)) by {
        assert(node_to_part[x] != FILTERED);
        assert(representative(flat, n, x) == representative(node_to_part, n, x));
    }
    assert forall|x: int, y: int|
        0 <= x < n && 0 <= y < n && before[x] != FILTERED && before[y] != FILTERED
            && representative(before, n, x) == representative(
            before,
            n,
            y,
        ) implies #[trigger] representative(flat, n, x) == #[trigger] representative(flat, n, y) by {
        assert(node_to_part[x] != FILTERED && node_to_part[y] != FILTERED);
        assert(representative(node_to_part, n, x) == representative(node_to_part, n, y));
        assert(representative(flat, n, x) == representative(node_to_part, n, x));
        assert(representative(flat, n, y) == representative(node_to_part, n, y));
    }
}

/// Every protected node among the first `n` is filtered or forms a partition
/// of its own: it is its own representative, and no other node points at it.
pub open spec fn kept_apart(node_to_part: Seq<usize>, protected: Set<usize>, n: int) -> bool {
    forall|x: int|
        0 <= x < n && #[trigger] protected.contains(x as usize) ==> {
            &&& node_to_part[x] == FILTERED || node_to_part[x] == x
            &&& forall|y: int| 0 <= y < n && y != x ==> #[trigger] node_to_part[y] != x
        }
}

/// Legal merges keep the protected nodes apart.
pub proof fn lemma_kept_apart(before: Seq<usize>, after: Seq<usize>, protected: Set<usize>, n: int)
    requires
        is_flat(before, n),
        is_flat(after, n),
        merged_legally(before, after, protected, n),
        kept_apart(before, protected, n),
    ensures
        kept_apart(after, protected, n),
{
    lemma_flat_is_forest(before, n);
    lemma_flat_is_forest(after, n);
    assert forall|x: int| 0 <= x < n && #[trigger] protected.contains(x as usize) implies {
        &&& after[x] == FILTERED || after[x] == x
        &&& forall|y: int| 0 <= y < n && y != x ==> #[trigger] after[y] != x
    } by {
        if before[x] != FILTERED {
            assert(flattened(before, n)[x] == before[x]);
            assert(flattened(after, n)[x] == after[x]);
            assert(representative(after, n, x) == representative(before, n, x) || (
            !protected.contains(representative(before, n, x) as usize) && !protected.contains(
                representative(after, n, x) as usize,
            )));
        }
        assert forall|y: int| 0 <= y < n && y != x implies #[trigger] after[y] != x by {
            if after[y] != FILTERED {
                assert(before[y] != FILTERED);
                assert(flattened(before, n)[y] == before[y]);
                assert(flattened(after, n)[y] == after[y]);
                assert(representative(after, n, y) == representative(before, n, y) || (
                !protected.contains(representative(before, n, y) as usize) && !protected.contains(
                    representative(after, n, y) as usize,
                )));
                assert(before[y] != x);
            }
        }
    }
}

/// No illegal merges: after legal merges from a forest in which the protected
/// nodes were apart, no node that is protected or filtered points at another.
pub proof fn lemma_no_illegal_merges(
    before: Seq<usize>,
    after: Seq<usize>,
    protected: Set<usize>,
    n: int,
    x: int,
    y: int,
)
    requires
        is_flat(before, n),
        is_flat(after, n),
        merged_legally(before, after, protected, n),
        kept_apart(before, protected, n),
        0 <= x < n,
        0 <= y < n,
        x != y,
        protected.contains(x as usize) || before[x] == FILTERED,
        protected.contains(y as usize) || before[y] == FILTERED,
    ensures
        after[x] != y,
        after[y] != x,
{
    lemma_kept_apart(before, after, protected, n);
    if protected.contains(x as usize) {
        assert(after[x] == FILTERED || after[x] == x);
    }
    if protected.contains(y as usize) {
        assert(after[y] == FILTERED || after[y] == y);
    }
}

/// Two forests with the same last entry compare in the number of their
/// representatives as they do without it.
pub proof fn lemma_count_roots_last(a: Seq<usize>, b: Seq<usize>, n: int)
    requires
        0 <= n < a.len(),
        a.len() == b.len(),
        a[n] == b[n],
    ensures
        count_roots(a, n + 1) - count_roots(a, n) == count_roots(b, n + 1) - count_roots(b, n),
{
}

} // verus!
