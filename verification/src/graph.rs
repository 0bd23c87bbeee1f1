//! The mathematical model of the bidirected graph: adjacency lists indexed by
//! extremity, and the edges that a genome path contributes.
use vstd::prelude::*;
use crate::io::SignedId;

verus! {

/// The adjacency lists of a graph, one sequence of neighbours per extremity.
pub open spec fn adjacency(g: Seq<Vec<usize>>) -> Seq<Seq<usize>> {
    Seq::new(g.len(), |e: int| g[e]@)
}

/// The extremity through which a path enters an element.
pub open spec fn entry_extremity(el: SignedId) -> int {
    2 * el.id + if el.plus { 0int } else { 1int }
}

/// The extremity through which a path leaves an element.
pub open spec fn exit_extremity(el: SignedId) -> int {
    2 * el.id + if el.plus { 1int } else { 0int }
}

/// The other extremity of the same node.
pub open spec fn opposite(ext: int) -> int {
    if ext % 2 == 0 { ext + 1 } else { ext - 1 }
}

/// Every neighbour recorded in `g` is an extremity of `g`.
pub open spec fn in_range(g: Seq<Seq<usize>>) -> bool {
    forall|e: int, k: int| 0 <= e < g.len() && 0 <= k < g[e].len() ==> (#[trigger] g[e][k]) < g.len()
}

/// Every recorded edge is recorded from both of its ends.
pub open spec fn symmetric(g: Seq<Seq<usize>>) -> bool {
    forall|e: int, k: int|
        0 <= e < g.len() && 0 <= k < g[e].len() ==> {
            &&& (#[trigger] g[e][k]) < g.len()
            &&& g[g[e][k] as int].contains(e as usize)
        }
}

/// The graph after the edge between `u` and `v` is recorded. An edge that is
/// already present changes nothing; a new one is appended to the lists of both
/// ends (twice to the same list when `u == v`).
pub open spec fn add_edge(g: Seq<Seq<usize>>, u: usize, v: usize) -> Seq<Seq<usize>> {
    if g[u as int].contains(v) {
        g
    } else {
        let g1 = g.update(u as int, g[u as int].push(v));
        g1.update(v as int, g1[v as int].push(u))
    }
}

/// The graph after a sequence of edges is recorded, first to last.
pub open spec fn add_edges(g: Seq<Seq<usize>>, edges: Seq<(usize, usize)>) -> Seq<Seq<usize>>
    decreases edges.len(),
{
    if edges.len() == 0 {
        g
    } else {
        let e = edges.last();
        add_edge(add_edges(g, edges.drop_last()), e.0, e.1)
    }
}

/// Recording an edge keeps the shape of the graph and every neighbour that
/// was already recorded, and leaves each end in the other's list.
pub proof fn lemma_add_edge_shape(g: Seq<Seq<usize>>, u: usize, v: usize)
    requires
        u < g.len(),
        v < g.len(),
    ensures
        add_edge(g, u, v).len() == g.len(),
        in_range(g) ==> in_range(add_edge(g, u, v)),
        add_edge(g, u, v)[u as int].contains(v),
        !g[u as int].contains(v) ==> add_edge(g, u, v)[v as int].contains(u),
        forall|e: int, w: usize|
            0 <= e < g.len() && g[e].contains(w) ==> #[trigger] add_edge(g, u, v)[e].contains(w),
{
    let h = add_edge(g, u, v);
    if !g[u as int].contains(v) {
        let g1 = g.update(u as int, g[u as int].push(v));
        let n = g[u as int].len() as int;
        assert(g1[u as int][n] == v);
        assert(h[u as int][n] == v);
        assert(h[v as int][g1[v as int].len() as int] == u);
    }
    assert forall|e: int, w: usize| 0 <= e < g.len() && g[e].contains(w) implies #[trigger] add_edge(
        g,
        u,
        v,
    )[e].contains(w) by {
        let k = choose|k: int| 0 <= k < g[e].len() && g[e][k] == w;
        assert(h[e][k] == w);
    }
    if in_range(g) {
        assert forall|e: int, k: int| 0 <= e < h.len() && 0 <= k < h[e].len() implies (#[trigger] h[e][k])
            < h.len() by {
            if k < g[e].len() {
                assert(h[e][k] == g[e][k]);
            }
        }
    }
}

/// Whether node `x` is its own representative in `node_to_part`.
pub open spec fn is_root(node_to_part: Seq<usize>, x: int) -> bool {
    0 <= x < node_to_part.len() && node_to_part[x] == x
}

/// The elements of a path whose node is currently a representative, in path
/// order. Only these take part in the graph.
pub open spec fn live_elements(path: Seq<SignedId>, node_to_part: Seq<usize>) -> Seq<SignedId> {
    path.filter(|el: SignedId| is_root(node_to_part, el.id as int))
}

/// The edges that lead into each live element of a path: the telomere into the
/// first, and the exit of each element into the entry of the next.
pub open spec fn chain_edges(live: Seq<SignedId>, telomere: usize) -> Seq<(usize, usize)> {
    Seq::new(
        live.len(),
        |k: int|
            (
                if k == 0 {
                    telomere
                } else {
                    exit_extremity(live[k - 1]) as usize
                },
                entry_extremity(live[k]) as usize,
            ),
    )
}

/// All edges of one path: its chain, closed by the edge from the exit of the
/// last live element to the telomere. A path without live elements has none.
pub open spec fn path_edges(path: Seq<SignedId>, node_to_part: Seq<usize>, telomere: usize) -> Seq<
    (usize, usize),
> {
    let live = live_elements(path, node_to_part);
    if live.len() == 0 {
        Seq::empty()
    } else {
        chain_edges(live, telomere).push((exit_extremity(live.last()) as usize, telomere))
    }
}

/// The graph after the edges of a sequence of paths are recorded, path by path.
pub open spec fn add_paths(
    g: Seq<Seq<usize>>,
    paths: Seq<Seq<SignedId>>,
    node_to_part: Seq<usize>,
    telomere: usize,
) -> Seq<Seq<usize>>
    decreases paths.len(),
{
    if paths.len() == 0 {
        g
    } else {
        add_edges(
            add_paths(g, paths.drop_last(), node_to_part, telomere),
            path_edges(paths.last(), node_to_part, telomere),
        )
    }
}

/// The graph without edges over `num_nodes` nodes: two extremities per node
/// and the telomere.
pub open spec fn empty_graph(num_nodes: int) -> Seq<Seq<usize>> {
    Seq::new((2 * num_nodes + 1) as nat, |e: int| Seq::<usize>::empty())
}

/// The bidirected graph of a collection of paths: the telomere is extremity
/// `2 * num_nodes`, and the edges of the paths are recorded in order.
pub open spec fn build_graph(paths: Seq<Seq<SignedId>>, node_to_part: Seq<usize>, num_nodes: int) -> Seq<
    Seq<usize>,
> {
    add_paths(empty_graph(num_nodes), paths, node_to_part, (2 * num_nodes) as usize)
}

/// Every element of the paths names a node below `num_nodes`.
pub open spec fn paths_in_range(paths: Seq<Seq<SignedId>>, num_nodes: int) -> bool {
    forall|p: int, k: int|
        0 <= p < paths.len() && 0 <= k < paths[p].len() ==> (#[trigger] paths[p][k]).id < num_nodes
}

/// Recording one more edge after a sequence of edges.
pub proof fn lemma_add_edges_push(g: Seq<Seq<usize>>, edges: Seq<(usize, usize)>, e: (usize, usize))
    ensures
        add_edges(g, edges.push(e)) == add_edge(add_edges(g, edges), e.0, e.1),
{
    assert(edges.push(e).drop_last() =~= edges);
}

/// Recording the edges of one more path after a sequence of paths.
pub proof fn lemma_add_paths_push(
    g: Seq<Seq<usize>>,
    paths: Seq<Seq<SignedId>>,
    p: Seq<SignedId>,
    node_to_part: Seq<usize>,
    telomere: usize,
)
    ensures
        add_paths(g, paths.push(p), node_to_part, telomere) == add_edges(
            add_paths(g, paths, node_to_part, telomere),
            path_edges(p, node_to_part, telomere),
        ),
{
    assert(paths.push(p).drop_last() =~= paths);
}

/// Extending a path by one element extends its live elements by that element
/// exactly when its node is a representative.
pub proof fn lemma_live_step(path: Seq<SignedId>, node_to_part: Seq<usize>, i: int)
    requires
        0 <= i < path.len(),
    ensures
        live_elements(path.take(i + 1), node_to_part) == if is_root(node_to_part, path[i].id as int) {
            live_elements(path.take(i), node_to_part).push(path[i])
        } else {
            live_elements(path.take(i), node_to_part)
        },
{
    let pred = |el: SignedId| is_root(node_to_part, el.id as int);
    assert(path.take(i + 1) =~= path.take(i).push(path[i]));
    path.take(i).lemma_filter_push(path[i], pred);
}

/// The chain of a live sequence extended by one element is the old chain
/// followed by the edge into the new element.
pub proof fn lemma_chain_push(live: Seq<SignedId>, el: SignedId, telomere: usize)
    ensures
        chain_edges(live.push(el), telomere) == chain_edges(live, telomere).push(
            (
                if live.len() == 0 {
                    telomere
                } else {
                    exit_extremity(live.last()) as usize
                },
                entry_extremity(el) as usize,
            ),
        ),
{
    assert(chain_edges(live.push(el), telomere) =~= chain_edges(live, telomere).push(
        (
            if live.len() == 0 {
                telomere
            } else {
                exit_extremity(live.last()) as usize
            },
            entry_extremity(el) as usize,
        ),
    ));
}

/// Recording an edge between two extremities of a symmetric graph leaves it
/// symmetric.
pub proof fn lemma_add_edge_symmetric(g: Seq<Seq<usize>>, u: usize, v: usize)
    requires
        u < g.len(),
        v < g.len(),
        symmetric(g),
    ensures
        symmetric(add_edge(g, u, v)),
{
    let h = add_edge(g, u, v);
    lemma_add_edge_shape(g, u, v);
    assert forall|e: int, k: int| 0 <= e < h.len() && 0 <= k < h[e].len() implies {
        &&& (#[trigger] h[e][k]) < h.len()
        &&& h[h[e][k] as int].contains(e as usize)
    } by {
        if k < g[e].len() {
            assert(h[e][k] == g[e][k]);
            assert(g[g[e][k] as int].contains(e as usize));
        } else {
            // a new entry: it is `v` in the list of `u`, or `u` in the list of `v`
            assert(!g[u as int].contains(v));
            if e == u && h[e][k] == v {
            } else {
                assert(e == v && h[e][k] == u);
            }
        }
    }
}

/// Recording edges between extremities of a symmetric graph leaves it
/// symmetric and of the same size.
pub proof fn lemma_add_edges_symmetric(g: Seq<Seq<usize>>, edges: Seq<(usize, usize)>)
    requires
        symmetric(g),
        forall|k: int| 0 <= k < edges.len() ==> (#[trigger] edges[k]).0 < g.len() && edges[k].1 < g.len(),
    ensures
        symmetric(add_edges(g, edges)),
        add_edges(g, edges).len() == g.len(),
    decreases edges.len(),
{
    if edges.len() > 0 {
        lemma_add_edges_symmetric(g, edges.drop_last());
        let e = edges.last();
        lemma_add_edge_shape(add_edges(g, edges.drop_last()), e.0, e.1);
        lemma_add_edge_symmetric(add_edges(g, edges.drop_last()), e.0, e.1);
    }
}

/// The edges of a path over nodes below `num_nodes` join extremities of the
/// graph over `num_nodes` nodes.
pub proof fn lemma_path_edges_in_range(
    path: Seq<SignedId>,
    node_to_part: Seq<usize>,
    num_nodes: int,
)
    requires
        forall|k: int| 0 <= k < path.len() ==> (#[trigger] path[k]).id < num_nodes,
        2 * num_nodes + 1 <= usize::MAX,
    ensures
        forall|k: int|
            0 <= k < path_edges(path, node_to_part, (2 * num_nodes) as usize).len() ==> {
                &&& (#[trigger] path_edges(path, node_to_part, (2 * num_nodes) as usize)[k]).0 < 2
                    * num_nodes + 1
                &&& path_edges(path, node_to_part, (2 * num_nodes) as usize)[k].1 < 2 * num_nodes + 1
            },
{
    let telomere = (2 * num_nodes) as usize;
    let pred = |el: SignedId| is_root(node_to_part, el.id as int);
    let live = live_elements(path, node_to_part);
    assert forall|k: int| 0 <= k < live.len() implies (#[trigger] live[k]).id < num_nodes by {
        assert(live.contains(live[k]));
        path.lemma_filter_contains_rev(pred, live[k]);
        let j = choose|j: int| 0 <= j < path.len() && path[j] == live[k];
        assert(path[j].id < num_nodes);
    }
    let edges = path_edges(path, node_to_part, telomere);
    assert forall|k: int| 0 <= k < edges.len() implies (#[trigger] edges[k]).0 < 2 * num_nodes + 1
        && edges[k].1 < 2 * num_nodes + 1 by {
        if k < live.len() {
            assert(edges[k] == chain_edges(live, telomere)[k]);
            assert(live[k].id < num_nodes);
            if k > 0 {
                assert(live[k - 1].id < num_nodes);
            }
        } else {
            assert(live.last().id < num_nodes);
        }
    }
}

/// Symmetry of the built graph: whenever the bidirected graph of a
/// collection of paths records `v` as a neighbour of `u`, it records `u` as a
/// neighbour of `v`.
pub proof fn lemma_build_graph_symmetric(
    paths: Seq<Seq<SignedId>>,
    node_to_part: Seq<usize>,
    num_nodes: int,
)
    requires
        0 <= num_nodes,
        2 * num_nodes + 1 <= usize::MAX,
        paths_in_range(paths, num_nodes),
    ensures
        build_graph(paths, node_to_part, num_nodes).len() == 2 * num_nodes + 1,
        symmetric(build_graph(paths, node_to_part, num_nodes)),
    decreases paths.len(),
{
    let telomere = (2 * num_nodes) as usize;
    if paths.len() > 0 {
        assert(paths_in_range(paths.drop_last(), num_nodes)) by {
            assert forall|p: int, k: int|
                0 <= p < paths.drop_last().len() && 0 <= k < paths.drop_last()[p].len() implies (
            #[trigger] paths.drop_last()[p][k]).id < num_nodes by {
                assert(paths.drop_last()[p][k] == paths[p][k]);
            }
        }
        lemma_build_graph_symmetric(paths.drop_last(), node_to_part, num_nodes);
        assert forall|k: int| 0 <= k < paths.last().len() implies (#[trigger] paths.last()[k]).id
            < num_nodes by {
            assert(paths.last()[k] == paths[paths.len() - 1][k]);
        }
        lemma_path_edges_in_range(paths.last(), node_to_part, num_nodes);
        lemma_add_edges_symmetric(
            build_graph(paths.drop_last(), node_to_part, num_nodes),
            path_edges(paths.last(), node_to_part, telomere),
        );
    }
}

} // verus!
