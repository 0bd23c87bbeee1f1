//! The model of the min-size refinement: which nodes are unmerged singletons
//! that are too short to keep.
use vstd::prelude::*;
use crate::forest::{is_flat, kept_apart};
use crate::io::{Genome, PathBundle, FILTERED};

verus! {

/// The number of nodes among the first `n` that point at `target`.
pub open spec fn pointers_to(node_to_part: Seq<usize>, n: int, target: int) -> nat
    decreases n,
{
    if n <= 0 {
        0
    } else {
        pointers_to(node_to_part, n - 1, target) + if node_to_part[n - 1] == target {
            1nat
        } else {
            0nat
        }
    }
}

/// Every entry among the first `n` is filtered or names one of the first `n`
/// nodes.
pub open spec fn parents_in_range(node_to_part: Seq<usize>, n: int) -> bool {
    &&& 0 <= n <= node_to_part.len()
    &&& n <= FILTERED
    &&& forall|x: int|
        0 <= x < n ==> (#[trigger] node_to_part[x]) == FILTERED || node_to_part[x] < n
}

/// The number of positions that an element from `start` to `end` covers; an
/// element that ends before it starts covers none.
pub open spec fn element_length(start: usize, end: usize) -> int {
    if start <= end {
        end - start + 1
    } else {
        0
    }
}

/// Whether the bundle gives coordinates for element `j` of its path `p`.
pub open spec fn has_coordinates(bundle: PathBundle, p: int, j: int) -> bool {
    &&& 0 <= p < bundle.path_starts@.len()
    &&& p < bundle.path_ends@.len()
    &&& 0 <= j < bundle.path_starts@[p]@.len()
    &&& j < bundle.path_ends@[p]@.len()
}

/// Whether element `j` of path `p` of genome `g` is an occurrence of node `id`
/// with coordinates that make it shorter than `min_size`.
pub open spec fn short_at(genomes: Seq<Genome>, g: int, p: int, j: int, min_size: usize, id: int) -> bool {
    &&& 0 <= g < genomes.len()
    &&& 0 <= p < genomes[g].bundle.paths@.len()
    &&& 0 <= j < genomes[g].bundle.paths@[p]@.len()
    &&& genomes[g].bundle.paths@[p]@[j].id == id
    &&& has_coordinates(genomes[g].bundle, p, j)
    &&& element_length(
        genomes[g].bundle.path_starts@[p]@[j],
        genomes[g].bundle.path_ends@[p]@[j],
    ) < min_size
}

/// Whether position `(g, p, j)` comes before position `(gi, pi, k)` when the
/// genomes are read path by path.
pub open spec fn position_before(g: int, p: int, j: int, gi: int, pi: int, k: int) -> bool {
    g < gi || (g == gi && (p < pi || (p == pi && j < k)))
}

/// Whether node `id` has an occurrence shorter than `min_size` before position
/// `(gi, pi, k)`.
pub open spec fn short_before(
    genomes: Seq<Genome>,
    gi: int,
    pi: int,
    k: int,
    min_size: usize,
    id: int,
) -> bool {
    exists|g: int, p: int, j: int| #[trigger]
        short_at(genomes, g, p, j, min_size, id) && position_before(g, p, j, gi, pi, k)
}

/// Whether node `id` has an occurrence shorter than `min_size` anywhere.
pub open spec fn is_short(genomes: Seq<Genome>, min_size: usize, id: int) -> bool {
    exists|g: int, p: int, j: int| #[trigger] short_at(genomes, g, p, j, min_size, id)
}

/// The forest after the refinement: a node that alone points at itself or is
/// alone pointed at, and has an occurrence shorter than `min_size`, is
/// filtered; every other entry stays.
pub open spec fn refined(
    node_to_part: Seq<usize>,
    n: int,
    genomes: Seq<Genome>,
    min_size: usize,
) -> Seq<usize> {
    Seq::new(
        node_to_part.len(),
        |x: int|
            if 0 <= x < n && pointers_to(node_to_part, n, x) == 1 && is_short(
                genomes,
                min_size,
                x,
            ) {
                FILTERED
            } else {
                node_to_part[x]
            },
    )
}

/// No more nodes point at a target than there are nodes.
pub proof fn lemma_pointers_bound(node_to_part: Seq<usize>, n: int, target: int)
    requires
        0 <= n,
    ensures
        pointers_to(node_to_part, n, target) <= n,
    decreases n,
{
    if n > 0 {
        lemma_pointers_bound(node_to_part, n - 1, target);
    }
}

/// A node below `n` that points at `target` is counted.
pub proof fn lemma_pointers_one(node_to_part: Seq<usize>, n: int, target: int, x: int)
    requires
        0 <= x < n,
        node_to_part[x] == target,
    ensures
        pointers_to(node_to_part, n, target) >= 1,
    decreases n,
{
    if x < n - 1 {
        lemma_pointers_one(node_to_part, n - 1, target, x);
    }
}

/// Two different nodes below `n` that point at `target` are both counted.
pub proof fn lemma_pointers_two(node_to_part: Seq<usize>, n: int, target: int, x: int, y: int)
    requires
        0 <= x < y < n,
        node_to_part[x] == target,
        node_to_part[y] == target,
    ensures
        pointers_to(node_to_part, n, target) >= 2,
    decreases n,
{
    if y < n - 1 {
        lemma_pointers_two(node_to_part, n - 1, target, x, y);
    } else {
        lemma_pointers_one(node_to_part, n - 1, target, x);
    }
}

/// Refining a flat forest leaves it flat: only representatives without
/// followers are filtered.
pub proof fn lemma_refined_flat(node_to_part: Seq<usize>, n: int, genomes: Seq<Genome>, min_size: usize)
    requires
        is_flat(node_to_part, n),
    ensures
        is_flat(refined(node_to_part, n, genomes, min_size), n),
{
    let after = refined(node_to_part, n, genomes, min_size);
    assert forall|y: int| 0 <= y < n && #[trigger] after[y] != FILTERED implies after[y] < n && after[after[y] as int]
        == after[y] by {
        assert(node_to_part[y] != FILTERED);
        let r = node_to_part[y] as int;
        assert(after[y] == r);
        assert(node_to_part[r] == r);
        if after[r] == FILTERED {
            assert(pointers_to(node_to_part, n, r) == 1);
            if y < r {
                lemma_pointers_two(node_to_part, n, r, y, r);
            } else if r < y {
                lemma_pointers_two(node_to_part, n, r, r, y);
            }
        }
    }
}

/// What the refinement has done when it stands before position
/// `(gi, pi, k)`: the singletons with a short occurrence before that position
/// are filtered, and nothing else has changed.
pub open spec fn refining(
    before: Seq<usize>,
    n: int,
    genomes: Seq<Genome>,
    gi: int,
    pi: int,
    k: int,
    min_size: usize,
    current: Seq<usize>,
) -> bool {
    &&& current.len() == before.len()
    &&& forall|x: int|
        0 <= x < before.len() ==> #[trigger] current[x] == if x < n && pointers_to(before, n, x) == 1
            && short_before(genomes, gi, pi, k, min_size, x) {
            FILTERED
        } else {
            before[x]
        }
}

/// Moving one element on adds exactly the short occurrence at the old
/// position, if there is one.
pub proof fn lemma_short_before_step(
    genomes: Seq<Genome>,
    gi: int,
    pi: int,
    k: int,
    min_size: usize,
    id: int,
)
    ensures
        short_before(genomes, gi, pi, k + 1, min_size, id) <==> short_before(
            genomes,
            gi,
            pi,
            k,
            min_size,
            id,
        ) || short_at(genomes, gi, pi, k, min_size, id),
{
    if short_before(genomes, gi, pi, k + 1, min_size, id) {
        let (g, p, j) = choose|g: int, p: int, j: int| #[trigger]
            short_at(genomes, g, p, j, min_size, id) && position_before(g, p, j, gi, pi, k + 1);
        if !(g == gi && p == pi && j == k) {
            assert(short_at(genomes, g, p, j, min_size, id) && position_before(g, p, j, gi, pi, k));
        }
    }
    if short_before(genomes, gi, pi, k, min_size, id) {
        let (g, p, j) = choose|g: int, p: int, j: int| #[trigger]
            short_at(genomes, g, p, j, min_size, id) && position_before(g, p, j, gi, pi, k);
        assert(short_at(genomes, g, p, j, min_size, id) && position_before(g, p, j, gi, pi, k + 1));
    }
    if short_at(genomes, gi, pi, k, min_size, id) {
        assert(short_at(genomes, gi, pi, k, min_size, id) && position_before(gi, pi, k, gi, pi, k + 1));
    }
}

/// The end of a path is the start of the next, and the end of a genome the
/// start of the next.
pub proof fn lemma_short_before_wrap(
    genomes: Seq<Genome>,
    gi: int,
    pi: int,
    min_size: usize,
    id: int,
)
    requires
        0 <= gi < genomes.len(),
        0 <= pi <= genomes[gi].bundle.paths@.len(),
    ensures
        pi < genomes[gi].bundle.paths@.len() ==> (short_before(
            genomes,
            gi,
            pi,
            genomes[gi].bundle.paths@[pi]@.len() as int,
            min_size,
            id,
        ) <==> short_before(genomes, gi, pi + 1, 0, min_size, id)),
        pi == genomes[gi].bundle.paths@.len() ==> (short_before(genomes, gi, pi, 0, min_size, id)
            <==> short_before(genomes, gi + 1, 0, 0, min_size, id)),
{
    if pi < genomes[gi].bundle.paths@.len() {
        let len = genomes[gi].bundle.paths@[pi]@.len() as int;
        if short_before(genomes, gi, pi, len, min_size, id) {
            let (g, p, j) = choose|g: int, p: int, j: int| #[trigger]
                short_at(genomes, g, p, j, min_size, id) && position_before(g, p, j, gi, pi, len);
            assert(short_at(genomes, g, p, j, min_size, id) && position_before(
                g,
                p,
                j,
                gi,
                pi + 1,
                0,
            ));
        }
        if short_before(genomes, gi, pi + 1, 0, min_size, id) {
            let (g, p, j) = choose|g: int, p: int, j: int| #[trigger]
                short_at(genomes, g, p, j, min_size, id) && position_before(g, p, j, gi, pi + 1, 0);
            assert(short_at(genomes, g, p, j, min_size, id) && position_before(g, p, j, gi, pi, len));
        }
    } else {
        if short_before(genomes, gi, pi, 0, min_size, id) {
            let (g, p, j) = choose|g: int, p: int, j: int| #[trigger]
                short_at(genomes, g, p, j, min_size, id) && position_before(g, p, j, gi, pi, 0);
            assert(short_at(genomes, g, p, j, min_size, id) && position_before(
                g,
                p,
                j,
                gi + 1,
                0,
                0,
            ));
        }
        if short_before(genomes, gi + 1, 0, 0, min_size, id) {
            let (g, p, j) = choose|g: int, p: int, j: int| #[trigger]
                short_at(genomes, g, p, j, min_size, id) && position_before(g, p, j, gi + 1, 0, 0);
            assert(short_at(genomes, g, p, j, min_size, id) && position_before(g, p, j, gi, pi, 0));
        }
    }
}

/// Nothing lies before the first position, and everything before the end.
pub proof fn lemma_short_before_ends(genomes: Seq<Genome>, min_size: usize, id: int)
    ensures
        !short_before(genomes, 0, 0, 0, min_size, id),
        short_before(genomes, genomes.len() as int, 0, 0, min_size, id) <==> is_short(
            genomes,
            min_size,
            id,
        ),
{
    if is_short(genomes, min_size, id) {
        let (g, p, j) = choose|g: int, p: int, j: int| #[trigger]
            short_at(genomes, g, p, j, min_size, id);
        assert(short_at(genomes, g, p, j, min_size, id) && position_before(
            g,
            p,
            j,
            genomes.len() as int,
            0,
            0,
        ));
    }
}

/// Refining keeps the protected nodes apart: it only filters nodes.
pub proof fn lemma_refined_kept_apart(
    node_to_part: Seq<usize>,
    protected: Set<usize>,
    n: int,
    genomes: Seq<Genome>,
    min_size: usize,
)
    requires
        0 <= n <= node_to_part.len(),
        n <= FILTERED,
        kept_apart(node_to_part, protected, n),
    ensures
        kept_apart(refined(node_to_part, n, genomes, min_size), protected, n),
{
    let after = refined(node_to_part, n, genomes, min_size);
    assert forall|x: int| 0 <= x < n && #[trigger] protected.contains(x as usize) implies {
        &&& after[x] == FILTERED || after[x] == x
        &&& forall|y: int| 0 <= y < n && y != x ==> #[trigger] after[y] != x
    } by {
        assert(node_to_part[x] == FILTERED || node_to_part[x] == x);
        assert forall|y: int| 0 <= y < n && y != x implies #[trigger] after[y] != x by {
            assert(node_to_part[y] != x);
        }
    }
}

} // verus!
