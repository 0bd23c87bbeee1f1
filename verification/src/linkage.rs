//! Why the nodes of one partition hang together: a merge joins two nodes that
//! are neighbours, and the neighbours in a contraction under way trace back to
//! neighbours in the graph at the start.
use vstd::prelude::*;
use crate::contraction::{
    first_live, first_other, lemma_first_live, lemma_first_other, live, merge, merges, rehome,
    rehome_one, settle, unconsumed, well_formed, Contraction,
};
use crate::forest::{
    flattened, is_forest, lemma_merge_forest, lemma_representative, reaches_root, representative,
};
use crate::graph::opposite;
use crate::io::FILTERED;

verus! {

/// Whether node `b` is a neighbour of node `a`: an extremity of `b` stands in
/// the list of an extremity of `a`.
pub open spec fn adjacent(graph: Seq<Seq<usize>>, a: int, b: int) -> bool {
    exists|e: int, k: int|
        0 <= e < graph.len() && 0 <= k < graph[e].len() && e / 2 == a && (#[trigger] graph[e][k]) / 2
            == b
}

/// Whether two nodes are tied: they are one node, or they are among the first
/// `n` nodes and are neighbours in the graph or have one representative in the
/// forest.
pub open spec fn tied(graph: Seq<Seq<usize>>, node_to_part: Seq<usize>, n: int, a: int, b: int) -> bool {
    ||| a == b
    ||| {
        &&& 0 <= a < n
        &&& 0 <= b < n
        &&& {
            ||| adjacent(graph, a, b)
            ||| adjacent(graph, b, a)
            ||| (node_to_part[a] != FILTERED && node_to_part[b] != FILTERED && representative(
                node_to_part,
                n,
                a,
            ) == representative(node_to_part, n, b))
        }
    }
}

/// Whether each of the nodes is tied to the next.
pub open spec fn chain(graph: Seq<Seq<usize>>, node_to_part: Seq<usize>, n: int, nodes: Seq<int>) -> bool {
    nodes.len() > 0 && forall|i: int|
        0 <= i < nodes.len() - 1 ==> tied(graph, node_to_part, n, #[trigger] nodes[i], nodes[i + 1])
}

/// Whether a chain of tied nodes leads from `a` to `b`.
pub open spec fn joined(graph: Seq<Seq<usize>>, node_to_part: Seq<usize>, n: int, a: int, b: int) -> bool {
    exists|nodes: Seq<int>| #[trigger]
        chain(graph, node_to_part, n, nodes) && nodes[0] == a && nodes[nodes.len() - 1] == b
}

/// Tied nodes are joined, and every node is joined to itself.
pub proof fn lemma_joined_tied(graph: Seq<Seq<usize>>, node_to_part: Seq<usize>, n: int, a: int, b: int)
    requires
        tied(graph, node_to_part, n, a, b),
    ensures
        joined(graph, node_to_part, n, a, b),
        joined(graph, node_to_part, n, a, a),
{
    let pair = seq![a, b];
    assert(pair[0] == a && pair[1] == b);
    assert(chain(graph, node_to_part, n, pair));
    let one = seq![a];
    assert(one[0] == a);
    assert(chain(graph, node_to_part, n, one));
}

/// Every node is joined to itself.
pub proof fn lemma_joined_self(graph: Seq<Seq<usize>>, node_to_part: Seq<usize>, n: int, a: int)
    ensures
        joined(graph, node_to_part, n, a, a),
{
    lemma_joined_tied(graph, node_to_part, n, a, a);
}

/// Being joined goes both ways.
pub proof fn lemma_joined_symmetric(
    graph: Seq<Seq<usize>>,
    node_to_part: Seq<usize>,
    n: int,
    a: int,
    b: int,
)
    requires
        joined(graph, node_to_part, n, a, b),
    ensures
        joined(graph, node_to_part, n, b, a),
{
    let nodes = choose|nodes: Seq<int>| #[trigger]
        chain(graph, node_to_part, n, nodes) && nodes[0] == a && nodes[nodes.len() - 1] == b;
    let back = Seq::new(nodes.len(), |i: int| nodes[nodes.len() - 1 - i]);
    assert forall|i: int| 0 <= i < back.len() - 1 implies tied(
        graph,
        node_to_part,
        n,
        #[trigger] back[i],
        back[i + 1],
    ) by {
        let j = nodes.len() - 2 - i;
        assert(tied(graph, node_to_part, n, nodes[j], nodes[j + 1]));
    }
    assert(chain(graph, node_to_part, n, back));
}

/// Being joined carries over from link to link.
pub proof fn lemma_joined_transitive(
    graph: Seq<Seq<usize>>,
    node_to_part: Seq<usize>,
    n: int,
    a: int,
    b: int,
    c: int,
)
    requires
        joined(graph, node_to_part, n, a, b),
        joined(graph, node_to_part, n, b, c),
    ensures
        joined(graph, node_to_part, n, a, c),
{
    let first = choose|nodes: Seq<int>| #[trigger]
        chain(graph, node_to_part, n, nodes) && nodes[0] == a && nodes[nodes.len() - 1] == b;
    let second = choose|nodes: Seq<int>| #[trigger]
        chain(graph, node_to_part, n, nodes) && nodes[0] == b && nodes[nodes.len() - 1] == c;
    let both = first + second;
    assert forall|i: int| 0 <= i < both.len() - 1 implies tied(
        graph,
        node_to_part,
        n,
        #[trigger] both[i],
        both[i + 1],
    ) by {
        if i < first.len() - 1 {
            assert(tied(graph, node_to_part, n, first[i], first[i + 1]));
        } else if i >= first.len() {
            let j = i - first.len();
            assert(tied(graph, node_to_part, n, second[j], second[j + 1]));
        }
    }
    assert(chain(graph, node_to_part, n, both));
}

/// Whether the live neighbours in `graph` trace back to the start: where a
/// live extremity stands in the list of another, neither being the telomere,
/// their nodes are joined in the graph and the forest of the start.
pub open spec fn neighbours_joined(
    origin: Seq<Seq<usize>>,
    start: Seq<usize>,
    n: int,
    graph: Seq<Seq<usize>>,
    node_to_part: Seq<usize>,
) -> bool {
    forall|e: int, k: int|
        0 <= e < graph.len() && 0 <= k < graph[e].len() && e / 2 < n && live(node_to_part, e as usize)
            && (#[trigger] graph[e][k]) / 2 < n && live(node_to_part, graph[e][k]) ==> joined(
            origin,
            start,
            n,
            e / 2,
            graph[e][k] as int / 2,
        )
}

/// Whether a contraction under way traces back to the start: every node is
/// joined to its representative, and the live neighbours trace back.
pub closed spec fn traceable(
    origin: Seq<Seq<usize>>,
    start: Seq<usize>,
    n: int,
    graph: Seq<Seq<usize>>,
    node_to_part: Seq<usize>,
) -> bool {
    &&& forall|x: int|
        0 <= x < n && start[x] != FILTERED ==> joined(
            origin,
            start,
            n,
            x,
            #[trigger] representative(node_to_part, n, x),
        )
    &&& neighbours_joined(origin, start, n, graph, node_to_part)
}

/// A contraction traces back to its own start.
pub proof fn lemma_traceable_start(graph: Seq<Seq<usize>>, node_to_part: Seq<usize>, n: int)
    requires
        is_forest(node_to_part, n),
    ensures
        traceable(graph, node_to_part, n, graph, node_to_part),
{
    assert forall|x: int| 0 <= x < n && node_to_part[x] != FILTERED implies joined(
        graph,
        node_to_part,
        n,
        x,
        #[trigger] representative(node_to_part, n, x),
    ) by {
        let k = choose|k: nat| reaches_root(node_to_part, n, x, k);
        lemma_representative(node_to_part, n, x, k);
        let r = representative(node_to_part, n, x);
        assert(reaches_root(node_to_part, n, r, 0));
        lemma_representative(node_to_part, n, r, 0);
        lemma_joined_tied(graph, node_to_part, n, x, r);
    }
    assert forall|e: int, k: int|
        0 <= e < graph.len() && 0 <= k < graph[e].len() && e / 2 < n && live(node_to_part, e as usize)
            && (#[trigger] graph[e][k]) / 2 < n && live(node_to_part, graph[e][k]) implies joined(
        graph,
        node_to_part,
        n,
        e / 2,
        graph[e][k] as int / 2,
    ) by {
        assert(adjacent(graph, e / 2, graph[e][k] as int / 2));
        lemma_joined_tied(graph, node_to_part, n, e / 2, graph[e][k] as int / 2);
    }
}

/// In a contraction that traces back to the start, two nodes with one
/// representative are joined.
pub proof fn lemma_traceable_joined(
    origin: Seq<Seq<usize>>,
    start: Seq<usize>,
    n: int,
    graph: Seq<Seq<usize>>,
    node_to_part: Seq<usize>,
    x: int,
    y: int,
)
    requires
        traceable(origin, start, n, graph, node_to_part),
        0 <= x < n,
        0 <= y < n,
        start[x] != FILTERED,
        start[y] != FILTERED,
        representative(node_to_part, n, x) == representative(node_to_part, n, y),
    ensures
        joined(origin, start, n, x, y),
{
    let r = representative(node_to_part, n, x);
    assert(joined(origin, start, n, x, r));
    assert(joined(origin, start, n, y, representative(node_to_part, n, y)));
    lemma_joined_symmetric(origin, start, n, y, r);
    lemma_joined_transitive(origin, start, n, x, r, y);
}

/// In a contraction that traces back to the start, the nodes that share an
/// entry of the flattened forest are joined.
pub proof fn lemma_partitions_joined(
    origin: Seq<Seq<usize>>,
    start: Seq<usize>,
    n: int,
    graph: Seq<Seq<usize>>,
    node_to_part: Seq<usize>,
)
    requires
        traceable(origin, start, n, graph, node_to_part),
        is_forest(node_to_part, n),
        forall|x: int| 0 <= x < n ==> (start[x] != FILTERED <==> node_to_part[x] != FILTERED),
    ensures
        forall|x: int, y: int|
            0 <= x < n && 0 <= y < n && flattened(node_to_part, n)[x] != FILTERED && (
            #[trigger] flattened(node_to_part, n)[x]) == (#[trigger] flattened(node_to_part, n)[y])
                ==> joined(origin, start, n, x, y),
{
    let flat = flattened(node_to_part, n);
    assert forall|x: int, y: int|
        0 <= x < n && 0 <= y < n && flat[x] != FILTERED && (#[trigger] flat[x]) == (
        #[trigger] flat[y]) implies joined(origin, start, n, x, y) by {
        assert(node_to_part[x] != FILTERED);
        assert(node_to_part[y] != FILTERED);
        assert(flat[x] == representative(node_to_part, n, x) as usize);
        assert(flat[y] == representative(node_to_part, n, y) as usize);
        let kx = choose|k: nat| reaches_root(node_to_part, n, x, k);
        let ky = choose|k: nat| reaches_root(node_to_part, n, y, k);
        lemma_representative(node_to_part, n, x, kx);
        lemma_representative(node_to_part, n, y, ky);
        lemma_traceable_joined(origin, start, n, graph, node_to_part, x, y);
    }
}

/// Settling takes every entry from the list.
proof fn lemma_settle_entries(adj: Seq<usize>, next: usize, node_to_part: Seq<usize>)
    ensures
        settle(adj, next, node_to_part).adj.len() == adj.len(),
        forall|k: int|
            0 <= k < adj.len() ==> exists|m: int|
                0 <= m < adj.len() && #[trigger] settle(adj, next, node_to_part).adj[k] == adj[m],
{
    let i = first_live(adj, node_to_part, next as int);
    lemma_first_live(adj, node_to_part, next as int);
    let out = settle(adj, next, node_to_part).adj;
    if i < adj.len() {
        let j = first_other(adj, node_to_part, i + 1, adj[i]);
        lemma_first_other(adj, node_to_part, i + 1, adj[i]);
        assert forall|k: int| 0 <= k < adj.len() implies exists|m: int|
            0 <= m < adj.len() && #[trigger] out[k] == adj[m] by {
            if k == j - 1 {
                assert(out[k] == adj[i]);
            } else {
                assert(out[k] == adj[k]);
            }
        }
    } else {
        assert forall|k: int| 0 <= k < adj.len() implies exists|m: int|
            0 <= m < adj.len() && #[trigger] out[k] == adj[m] by {
            assert(out[k] == adj[k]);
        }
    }
}

/// Whether two nodes are joined or one of them is not among the first `n`.
pub open spec fn linked(origin: Seq<Seq<usize>>, start: Seq<usize>, n: int, a: int, b: int) -> bool {
    a >= n || b >= n || joined(origin, start, n, a, b)
}

/// Whether every entry of the list `e` of `after` that is not in the list `e`
/// of `before` belongs to a node that is joined to the node of `e`, as far as
/// both are among the first `n`.
pub open spec fn grown_by_joined(
    origin: Seq<Seq<usize>>,
    start: Seq<usize>,
    n: int,
    before: Seq<Seq<usize>>,
    after: Seq<Seq<usize>>,
) -> bool {
    &&& after.len() == before.len()
    &&& forall|e: int, k: int|
        0 <= e < after.len() && 0 <= k < after[e].len() ==> (exists|m: int|
            0 <= m < before[e].len() && before[e][m] == #[trigger] after[e][k]) || linked(
            origin,
            start,
            n,
            e / 2,
            after[e][k] as int / 2,
        )
}

/// Lists that grow only by joined neighbours, under a forest in which no
/// extremity comes to life, keep the live neighbours traced back.
proof fn lemma_grown_keeps(
    origin: Seq<Seq<usize>>,
    start: Seq<usize>,
    n: int,
    before: Seq<Seq<usize>>,
    after: Seq<Seq<usize>>,
    old_forest: Seq<usize>,
    new_forest: Seq<usize>,
)
    requires
        neighbours_joined(origin, start, n, before, old_forest),
        grown_by_joined(origin, start, n, before, after),
        forall|x: usize| x / 2 < n && live(new_forest, x) ==> live(old_forest, x),
    ensures
        neighbours_joined(origin, start, n, after, new_forest),
{
    assert forall|e: int, k: int|
        0 <= e < after.len() && 0 <= k < after[e].len() && e / 2 < n && live(new_forest, e as usize)
            && (#[trigger] after[e][k]) / 2 < n && live(new_forest, after[e][k]) implies joined(
        origin,
        start,
        n,
        e / 2,
        after[e][k] as int / 2,
    ) by {
        if !linked(origin, start, n, e / 2, after[e][k] as int / 2) {
            let m = choose|m: int| 0 <= m < before[e].len() && before[e][m] == after[e][k];
            assert(live(old_forest, e as usize));
            assert(live(old_forest, before[e][m]));
            assert(joined(origin, start, n, e / 2, before[e][m] as int / 2));
        }
    }
}

/// Re-homing one neighbour that is joined to the node of `v_ext` lets the
/// lists grow only by joined neighbours.
proof fn lemma_rehome_one_grows(
    origin: Seq<Seq<usize>>,
    start: Seq<usize>,
    n: int,
    s: Contraction,
    w_ext: usize,
    v_ext: usize,
    u2_ext: usize,
)
    requires
        w_ext < s.graph.len(),
        v_ext < s.graph.len(),
        live(s.node_to_part, w_ext) ==> linked(origin, start, n, w_ext as int / 2, v_ext as int / 2),
    ensures
        grown_by_joined(origin, start, n, s.graph, rehome_one(s, w_ext, v_ext, u2_ext).graph),
        rehome_one(s, w_ext, v_ext, u2_ext).node_to_part == s.node_to_part,
{
    let after = rehome_one(s, w_ext, v_ext, u2_ext).graph;
    let w = w_ext as int / 2;
    let v = v_ext as int / 2;
    lemma_joined_self(origin, start, n, v);
    lemma_joined_self(origin, start, n, w);
    if s.node_to_part[w] == w {
        if w < n && v < n {
            lemma_joined_symmetric(origin, start, n, w, v);
        }
        let g1 = s.graph.update(w_ext as int, s.graph[w_ext as int].push(v_ext));
        let g2 = g1.update(v_ext as int, g1[v_ext as int].push(w_ext));
        let st = settle(g2[w_ext as int], s.next_adj[w_ext as int], s.node_to_part);
        lemma_settle_entries(g2[w_ext as int], s.next_adj[w_ext as int], s.node_to_part);
        assert(after == g2.update(w_ext as int, st.adj));
        assert forall|e: int, k: int| 0 <= e < g2.len() && 0 <= k < g2[e].len() implies (exists|m: int|
            0 <= m < s.graph[e].len() && s.graph[e][m] == #[trigger] g2[e][k]) || linked(
            origin,
            start,
            n,
            e / 2,
            g2[e][k] as int / 2,
        ) by {
            if k < s.graph[e].len() {
                assert(g2[e][k] == s.graph[e][k]);
            } else {
                assert(e == w_ext || e == v_ext);
                assert(g2[e][k] == v_ext || g2[e][k] == w_ext);
            }
        }
        assert forall|e: int, k: int| 0 <= e < after.len() && 0 <= k < after[e].len() implies (exists|
            m: int,
        |
            0 <= m < s.graph[e].len() && s.graph[e][m] == #[trigger] after[e][k]) || linked(
            origin,
            start,
            n,
            e / 2,
            after[e][k] as int / 2,
        ) by {
            if e == w_ext {
                let m = choose|m: int| 0 <= m < g2[e].len() && st.adj[k] == g2[e][m];
                assert(after[e][k] == g2[e][m]);
            } else {
                assert(after[e][k] == g2[e][k]);
            }
        }
    } else if w_ext == u2_ext {
        assert forall|e: int, k: int| 0 <= e < after.len() && 0 <= k < after[e].len() implies (exists|
            m: int,
        |
            0 <= m < s.graph[e].len() && s.graph[e][m] == #[trigger] after[e][k]) || linked(
            origin,
            start,
            n,
            e / 2,
            after[e][k] as int / 2,
        ) by {
            if k < s.graph[e].len() {
                assert(after[e][k] == s.graph[e][k]);
            }
        }
    } else {
        assert forall|e: int, k: int| 0 <= e < after.len() && 0 <= k < after[e].len() implies (exists|
            m: int,
        |
            0 <= m < s.graph[e].len() && s.graph[e][m] == #[trigger] after[e][k]) || linked(
            origin,
            start,
            n,
            e / 2,
            after[e][k] as int / 2,
        ) by {
            assert(after[e][k] == s.graph[e][k]);
        }
    }
}

/// Growing twice by joined neighbours is growing by joined neighbours.
proof fn lemma_grown_twice(
    origin: Seq<Seq<usize>>,
    start: Seq<usize>,
    n: int,
    a: Seq<Seq<usize>>,
    b: Seq<Seq<usize>>,
    c: Seq<Seq<usize>>,
)
    requires
        grown_by_joined(origin, start, n, a, b),
        grown_by_joined(origin, start, n, b, c),
    ensures
        grown_by_joined(origin, start, n, a, c),
{
    assert forall|e: int, k: int| 0 <= e < c.len() && 0 <= k < c[e].len() implies (exists|m: int|
        0 <= m < a[e].len() && a[e][m] == #[trigger] c[e][k]) || linked(
        origin,
        start,
        n,
        e / 2,
        c[e][k] as int / 2,
    ) by {
        if !linked(origin, start, n, e / 2, c[e][k] as int / 2) {
            let m = choose|m: int| 0 <= m < b[e].len() && b[e][m] == c[e][k];
            assert(b[e][m] == c[e][k]);
            assert((exists|i: int| 0 <= i < a[e].len() && a[e][i] == #[trigger] b[e][m]) || linked(
                origin,
                start,
                n,
                e / 2,
                b[e][m] as int / 2,
            ));
        }
    }
}

/// Re-homing neighbours that are joined to the node of `v_ext` lets the lists
/// grow only by joined neighbours.
proof fn lemma_rehome_grows(
    origin: Seq<Seq<usize>>,
    start: Seq<usize>,
    n: int,
    s: Contraction,
    moved: Seq<usize>,
    v_ext: usize,
    u2_ext: usize,
)
    requires
        v_ext < s.graph.len(),
        forall|i: int| 0 <= i < moved.len() ==> (#[trigger] moved[i]) < s.graph.len(),
        forall|i: int|
            0 <= i < moved.len() && live(s.node_to_part, #[trigger] moved[i]) ==> linked(
                origin,
                start,
                n,
                moved[i] as int / 2,
                v_ext as int / 2,
            ),
    ensures
        grown_by_joined(origin, start, n, s.graph, rehome(s, moved, v_ext, u2_ext).graph),
        rehome(s, moved, v_ext, u2_ext).node_to_part == s.node_to_part,
    decreases moved.len(),
{
    if moved.len() == 0 {
        assert forall|e: int, k: int| 0 <= e < s.graph.len() && 0 <= k < s.graph[e].len() implies (
        exists|m: int| 0 <= m < s.graph[e].len() && s.graph[e][m] == #[trigger] s.graph[e][k]) || linked(
            origin,
            start,
            n,
            e / 2,
            s.graph[e][k] as int / 2,
        ) by {}
    } else {
        let front = moved.drop_last();
        assert forall|i: int| 0 <= i < front.len() implies (#[trigger] front[i]) < s.graph.len() && (live(
            s.node_to_part,
            front[i],
        ) ==> linked(origin, start, n, front[i] as int / 2, v_ext as int / 2)) by {
            assert(front[i] == moved[i]);
        }
        lemma_rehome_grows(origin, start, n, s, front, v_ext, u2_ext);
        let mid = rehome(s, front, v_ext, u2_ext);
        assert(moved.last() == moved[moved.len() - 1]);
        lemma_rehome_one_grows(origin, start, n, mid, moved.last(), v_ext, u2_ext);
        lemma_grown_twice(
            origin,
            start,
            n,
            s.graph,
            mid.graph,
            rehome_one(mid, moved.last(), v_ext, u2_ext).graph,
        );
    }
}

/// A merge keeps the contraction traceable: the two nodes are neighbours, so
/// they are joined, and so is every node that is re-homed.
pub proof fn lemma_merge_traceable(
    origin: Seq<Seq<usize>>,
    start: Seq<usize>,
    n: int,
    s: Contraction,
    duplicates: Set<usize>,
    u_ext: usize,
)
    requires
        well_formed(s),
        s.node_to_part.len() == n + 1,
        u_ext < s.graph.len(),
        is_forest(s.node_to_part, n),
        forall|x: int| 0 <= x < n ==> (start[x] != FILTERED ==> s.node_to_part[x] != FILTERED),
        merges(s, duplicates, u_ext),
        traceable(origin, start, n, s.graph, s.node_to_part),
    ensures
        traceable(origin, start, n, merge(s, u_ext).graph, merge(s, u_ext).node_to_part),
{
    let u = u_ext as int / 2;
    let v_ext = s.graph[u_ext as int][s.next_adj[u_ext as int] as int];
    let v = v_ext as int / 2;
    let u2_ext = opposite(u_ext as int) as usize;
    let moved = unconsumed(s.graph[u2_ext as int], s.next_adj[u2_ext as int]);
    let s1 = Contraction {
        graph: s.graph.update(u2_ext as int, Seq::empty()),
        node_to_part: s.node_to_part.update(u, v as usize),
        ..s
    };
    let s2 = rehome(s1, moved, v_ext, u2_ext);
    let st = settle(s2.graph[v_ext as int], s2.next_adj[v_ext as int], s2.node_to_part);
    let fin = merge(s, u_ext);
    let forest = s1.node_to_part;
    assert(v_ext < s.graph.len());
    assert(u < n && v < n);
    assert(joined(origin, start, n, u, v));
    lemma_joined_symmetric(origin, start, n, u, v);
    // the lists once the far list of the merged node is taken
    assert(grown_by_joined(origin, start, n, s.graph, s1.graph)) by {
        assert forall|e: int, k: int| 0 <= e < s1.graph.len() && 0 <= k < s1.graph[e].len() implies (
        exists|m: int| 0 <= m < s.graph[e].len() && s.graph[e][m] == #[trigger] s1.graph[e][k])
            || linked(origin, start, n, e / 2, s1.graph[e][k] as int / 2) by {
            assert(s1.graph[e][k] == s.graph[e][k]);
        }
    }
    // the neighbours that are re-homed
    assert forall|i: int| 0 <= i < moved.len() implies (#[trigger] moved[i]) < s1.graph.len() && (live(
        forest,
        moved[i],
    ) ==> linked(origin, start, n, moved[i] as int / 2, v)) by {
        let at = s.next_adj[u2_ext as int] + i;
        assert(moved[i] == s.graph[u2_ext as int][at]);
        assert(s.graph[u2_ext as int][at] < s.graph.len());
        if live(forest, moved[i]) {
            if moved[i] as int / 2 < n {
                assert(live(s.node_to_part, moved[i]));
                assert(live(s.node_to_part, u2_ext));
                assert(joined(origin, start, n, u2_ext as int / 2, s.graph[u2_ext as int][at] as int / 2));
                lemma_joined_symmetric(origin, start, n, u, moved[i] as int / 2);
                lemma_joined_transitive(origin, start, n, moved[i] as int / 2, u, v);
            }
        }
    }
    lemma_rehome_grows(origin, start, n, s1, moved, v_ext, u2_ext);
    lemma_grown_twice(origin, start, n, s.graph, s1.graph, s2.graph);
    lemma_settle_entries(s2.graph[v_ext as int], s2.next_adj[v_ext as int], s2.node_to_part);
    assert(grown_by_joined(origin, start, n, s2.graph, fin.graph)) by {
        assert forall|e: int, k: int| 0 <= e < fin.graph.len() && 0 <= k < fin.graph[e].len() implies (
        exists|m: int| 0 <= m < s2.graph[e].len() && s2.graph[e][m] == #[trigger] fin.graph[e][k])
            || linked(origin, start, n, e / 2, fin.graph[e][k] as int / 2) by {
            if e == v_ext {
                let m = choose|m: int|
                    0 <= m < s2.graph[e].len() && st.adj[k] == s2.graph[v_ext as int][m];
                assert(fin.graph[e][k] == s2.graph[e][m]);
            } else {
                assert(fin.graph[e][k] == s2.graph[e][k]);
            }
        }
    }
    lemma_grown_twice(origin, start, n, s.graph, s2.graph, fin.graph);
    lemma_grown_keeps(origin, start, n, s.graph, fin.graph, s.node_to_part, forest);
    assert(fin.node_to_part == forest);
    // every node and its representative
    lemma_merge_forest(s.node_to_part, n, u, v as usize);
    assert forall|x: int| 0 <= x < n && start[x] != FILTERED implies joined(
        origin,
        start,
        n,
        x,
        #[trigger] representative(forest, n, x),
    ) by {
        assert(s.node_to_part[x] != FILTERED);
        assert(joined(origin, start, n, x, representative(s.node_to_part, n, x)));
        if representative(s.node_to_part, n, x) == u {
            lemma_joined_transitive(origin, start, n, x, u, v);
        }
    }
}

} // verus!
