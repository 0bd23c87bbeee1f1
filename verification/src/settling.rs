//! Why a contraction that has come to rest has left no chain uncontracted:
//! the cursors of the live extremities keep a discipline that ties the state
//! of the work list to the live neighbours of each extremity.
use vstd::prelude::*;
use crate::contraction::{
    at_rest, first_live, first_other, initial, lemma_first_live, lemma_first_live_none,
    lemma_first_other, live, merges, merges_plainly, rehome_one, settle, unconsumed, well_formed,
    Contraction,
};
use crate::graph::{
    add_edge, add_edges, build_graph, chain_edges, empty_graph, is_root, lemma_add_edge_shape,
    lemma_add_edge_symmetric, live_elements, opposite, path_edges, paths_in_range, symmetric,
};
use crate::io::SignedId;

verus! {

/// Whether `x` occurs in `adj`.
pub open spec fn occurs(adj: Seq<usize>, x: usize) -> bool {
    exists|k: int| 0 <= k < adj.len() && #[trigger] adj[k] == x
}

/// Whether the cursor `next` of the list `adj` has passed only entries that
/// are dead or repeat the entry on which it stands.
pub open spec fn sound_list(adj: Seq<usize>, next: int, node_to_part: Seq<usize>) -> bool {
    &&& next == 0 || next < adj.len()
    &&& forall|k: int|
        0 <= k < next && k < adj.len() ==> !live(node_to_part, #[trigger] adj[k]) || adj[k] == adj[next]
}

/// Whether `x` is an extremity of the last node of the forest, the one that
/// stands for the telomere.
pub open spec fn of_telomere(node_to_part: Seq<usize>, x: usize) -> bool {
    x as int / 2 == node_to_part.len() - 1
}

/// Whether the list `adj` of an extremity of node `own` is tidy: it holds an
/// extremity of its own node or the telomere, or no live entry, or its cursor
/// stands on a live entry that is its last or is followed by a different live
/// entry.
pub open spec fn tidy_list(adj: Seq<usize>, next: int, node_to_part: Seq<usize>, own: int) -> bool {
    ||| exists|k: int| 0 <= k < adj.len() && (#[trigger] adj[k]) / 2 == own
    ||| exists|k: int| 0 <= k < adj.len() && of_telomere(node_to_part, #[trigger] adj[k])
    ||| forall|k: int| 0 <= k < adj.len() ==> !live(node_to_part, #[trigger] adj[k])
    ||| {
        &&& 0 <= next < adj.len()
        &&& live(node_to_part, adj[next])
        &&& next == adj.len() - 1 || (live(node_to_part, adj[next + 1]) && adj[next + 1] != adj[next])
    }
}

/// Whether a cursor that stands on a dead entry stands on the telomere or on
/// an extremity of a node that was merged into the node `own` of the list.
pub open spec fn anchored_list(adj: Seq<usize>, next: int, node_to_part: Seq<usize>, own: int) -> bool {
    0 <= next < adj.len() && !live(node_to_part, adj[next]) ==> node_to_part[adj[next] as int / 2]
        == own || of_telomere(node_to_part, adj[next])
}

/// Whether a list is tidy and its cursor anchored.
pub open spec fn kept_list(adj: Seq<usize>, next: int, node_to_part: Seq<usize>, own: int) -> bool {
    tidy_list(adj, next, node_to_part, own) && anchored_list(adj, next, node_to_part, own)
}

/// Whether `e` is a live extremity of the graph.
pub open spec fn alive(s: Contraction, e: int) -> bool {
    0 <= e < s.graph.len() && live(s.node_to_part, e as usize)
}

/// Whether entry `k` of the list of the live extremity `e` is live.
pub open spec fn linked(s: Contraction, e: int, k: int) -> bool {
    alive(s, e) && 0 <= k < s.graph[e].len() && live(s.node_to_part, s.graph[e][k])
}

/// Whether every live extremity has a sound cursor and a tidy list.
pub open spec fn disciplined(s: Contraction) -> bool {
    forall|e: int| #[trigger]
        alive(s, e) ==> sound_list(s.graph[e], s.next_adj[e] as int, s.node_to_part) && kept_list(
            s.graph[e],
            s.next_adj[e] as int,
            s.node_to_part,
            e / 2,
        )
}

/// Whether adjacency among live extremities is mutual.
pub open spec fn mutual(s: Contraction) -> bool {
    forall|e: int, k: int| #[trigger]
        linked(s, e, k) ==> occurs(s.graph[s.graph[e][k] as int], e as usize)
}

/// Whether extremity `e` could still be contracted: it is live, no telomere
/// and no duplicate, and all its neighbours that count are one live extremity
/// of another node that is no telomere and no duplicate either. The
/// neighbours that count are the live ones and the telomere, whatever the
/// forest holds for it.
pub open spec fn contractible(
    graph: Seq<Seq<usize>>,
    node_to_part: Seq<usize>,
    duplicates: Set<usize>,
    e: int,
) -> bool {
    &&& 0 <= e < graph.len() - 1
    &&& live(node_to_part, e as usize)
    &&& !duplicates.contains((e / 2) as usize)
    &&& exists|x: usize|
        {
            &&& #[trigger] occurs(graph[e], x)
            &&& live(node_to_part, x)
            &&& forall|k: int|
                0 <= k < graph[e].len() && (live(node_to_part, #[trigger] graph[e][k]) || graph[e][k]
                    == graph.len() - 1) ==> graph[e][k] == x
            &&& x != graph.len() - 1
            &&& x / 2 != e / 2
            &&& !duplicates.contains(x / 2)
        }
}

/// Whether no chain is left to contract: no extremity is contractible.
pub open spec fn exhausted(graph: Seq<Seq<usize>>, node_to_part: Seq<usize>, duplicates: Set<usize>) -> bool {
    forall|e: int| 0 <= e < graph.len() ==> !#[trigger] contractible(graph, node_to_part, duplicates, e)
}

/// A disciplined state at rest has no chain left to contract.
pub proof fn lemma_exhausted(s: Contraction, duplicates: Set<usize>)
    requires
        well_formed(s),
        s.graph.len() <= usize::MAX,
        disciplined(s),
        at_rest(s, duplicates),
    ensures
        exhausted(s.graph, s.node_to_part, duplicates),
{
    assert forall|e: int| 0 <= e < s.graph.len() implies !#[trigger] contractible(
        s.graph,
        s.node_to_part,
        duplicates,
        e,
    ) by {
        if contractible(s.graph, s.node_to_part, duplicates, e) {
            let adj = s.graph[e];
            let next = s.next_adj[e] as int;
            let ntp = s.node_to_part;
            let x = choose|x: usize|
                {
                    &&& #[trigger] occurs(adj, x)
                    &&& live(ntp, x)
                    &&& forall|k: int|
                        0 <= k < adj.len() && (live(ntp, #[trigger] adj[k]) || adj[k] == s.graph.len()
                            - 1) ==> adj[k] == x
                    &&& x != s.graph.len() - 1
                    &&& x / 2 != e / 2
                    &&& !duplicates.contains(x / 2)
                };
            let at = choose|k: int| 0 <= k < adj.len() && #[trigger] adj[k] == x;
            assert(alive(s, e));
            assert(sound_list(adj, next, ntp) && kept_list(adj, next, ntp, e / 2));
            if exists|k: int| 0 <= k < adj.len() && (#[trigger] adj[k]) / 2 == e / 2 {
                let k = choose|k: int| 0 <= k < adj.len() && (#[trigger] adj[k]) / 2 == e / 2;
                assert(live(ntp, adj[k]));
                assert(adj[k] == x);
            }
            if exists|k: int| 0 <= k < adj.len() && of_telomere(ntp, #[trigger] adj[k]) {
                let k = choose|k: int| 0 <= k < adj.len() && of_telomere(ntp, #[trigger] adj[k]);
                assert(adj[k] < s.graph.len());
                assert(adj[k] == s.graph.len() - 1);
                assert(adj[k] == x);
            }
            assert(live(ntp, adj[at]));
            assert(0 <= next < adj.len() && live(ntp, adj[next]));
            assert(adj[next] == x);
            if next != adj.len() - 1 {
                assert(adj[next + 1] == x);
            }
            assert(merges(s, duplicates, e as usize));
        }
    }
}

/// Appending an entry keeps a cursor sound.
pub(crate) proof fn lemma_push_sound(adj: Seq<usize>, next: int, node_to_part: Seq<usize>, x: usize)
    requires
        sound_list(adj, next, node_to_part),
    ensures
        sound_list(adj.push(x), next, node_to_part),
{
    let after = adj.push(x);
    assert forall|k: int| 0 <= k < next && k < after.len() implies !live(
        node_to_part,
        #[trigger] after[k],
    ) || after[k] == after[next] by {
        assert(after[k] == adj[k]);
        assert(after[next] == adj[next]);
    }
}

/// Settling a list with a sound cursor leaves the cursor sound and the list
/// tidy, and keeps every live entry in the list.
pub(crate) proof fn lemma_settle_tidy(adj: Seq<usize>, next: usize, node_to_part: Seq<usize>, own: int)
    requires
        adj.len() <= usize::MAX,
        sound_list(adj, next as int, node_to_part),
    ensures
        sound_list(
            settle(adj, next, node_to_part).adj,
            settle(adj, next, node_to_part).next as int,
            node_to_part,
        ),
        tidy_list(
            settle(adj, next, node_to_part).adj,
            settle(adj, next, node_to_part).next as int,
            node_to_part,
            own,
        ),
        anchored_list(adj, next as int, node_to_part, own) ==> anchored_list(
            settle(adj, next, node_to_part).adj,
            settle(adj, next, node_to_part).next as int,
            node_to_part,
            own,
        ),
        forall|k: int|
            next <= k < adj.len() && live(node_to_part, #[trigger] adj[k]) ==> live(
                node_to_part,
                settle(adj, next, node_to_part).adj[settle(adj, next, node_to_part).next as int],
            ),
{
    let st = settle(adj, next, node_to_part);
    let i = first_live(adj, node_to_part, next as int);
    lemma_first_live(adj, node_to_part, next as int);
    if i < adj.len() {
        let kept = adj[i];
        let j = first_other(adj, node_to_part, i + 1, kept);
        lemma_first_other(adj, node_to_part, i + 1, kept);
        lemma_between(adj, node_to_part, i + 1, kept);
        lemma_before_live(adj, node_to_part, next as int);
        assert(st.adj == adj.update(j - 1, kept));
        assert(st.next == j - 1);
        assert forall|k: int| 0 <= k < st.next && k < st.adj.len() implies !live(
            node_to_part,
            #[trigger] st.adj[k],
        ) || st.adj[k] == st.adj[st.next as int] by {
            assert(st.adj[k] == adj[k]);
            if k < next {
                if live(node_to_part, adj[k]) {
                    assert(adj[k] == adj[next as int]);
                    assert(i == next);
                }
            } else if k < i {
            } else if k > i {
            }
        }
        if j < adj.len() {
            assert(st.adj[j] == adj[j]);
        }
    } else {
        assert(st.adj == adj);
        if adj.len() > 0 {
            assert forall|k: int| 0 <= k < adj.len() implies !live(node_to_part, #[trigger] adj[k]) by {
                if k >= next {
                    lemma_first_live_none(adj, node_to_part, next as int, k);
                } else {
                    lemma_first_live_none(adj, node_to_part, next as int, next as int);
                }
            }
        }
    }
}

/// Between a start and the first other live entry, every entry is dead or
/// the kept one.
pub(crate) proof fn lemma_between(adj: Seq<usize>, node_to_part: Seq<usize>, from: int, kept: usize)
    requires
        0 <= from <= adj.len(),
    ensures
        forall|k: int|
            from <= k < first_other(adj, node_to_part, from, kept) ==> !live(
                node_to_part,
                #[trigger] adj[k],
            ) || adj[k] == kept,
        first_other(adj, node_to_part, from, kept) < adj.len() ==> live(
            node_to_part,
            adj[first_other(adj, node_to_part, from, kept)],
        ) && adj[first_other(adj, node_to_part, from, kept)] != kept,
    decreases adj.len() - from,
{
    if from < adj.len() && !(live(node_to_part, adj[from]) && adj[from] != kept) {
        lemma_between(adj, node_to_part, from + 1, kept);
    }
}

/// Before the first live entry from a start on, every entry is dead.
pub(crate) proof fn lemma_before_live(adj: Seq<usize>, node_to_part: Seq<usize>, from: int)
    requires
        0 <= from,
    ensures
        forall|k: int|
            from <= k < first_live(adj, node_to_part, from) && k < adj.len() ==> !live(
                node_to_part,
                #[trigger] adj[k],
            ),
    decreases adj.len() - from,
{
    if from < adj.len() && !live(node_to_part, adj[from]) {
        lemma_before_live(adj, node_to_part, from + 1);
    }
}

/// Whether `e` is among the moved neighbours that are still to be re-homed.
pub open spec fn pending(moved: Seq<usize>, m: int, e: usize) -> bool {
    exists|i: int| 0 <= m <= i < moved.len() && #[trigger] moved[i] == e
}

/// The neighbour into whose node the node of `u_ext` is merged.
pub open spec fn target(s: Contraction, u_ext: usize) -> usize {
    s.graph[u_ext as int][s.next_adj[u_ext as int] as int]
}

/// The neighbours of the far extremity of `u_ext` that are re-homed.
pub open spec fn moved_of(s: Contraction, u_ext: usize) -> Seq<usize> {
    unconsumed(s.graph[opposite(u_ext as int)], s.next_adj[opposite(u_ext as int)])
}

/// What holds while the node of `u_ext` is merged, after `m` of its far
/// neighbours have been re-homed: the node is dead, every live extremity has a
/// sound cursor, every live extremity but the target has a tidy list or is
/// still to be re-homed, and adjacency among live extremities is mutual.
pub open spec fn during(before: Contraction, now: Contraction, u_ext: usize, m: int) -> bool {
    &&& now.graph.len() == before.graph.len()
    &&& now.next_adj.len() == before.next_adj.len()
    &&& now.node_to_part == before.node_to_part.update(
        u_ext as int / 2,
        (target(before, u_ext) / 2) as usize,
    )
    &&& forall|e: int| #[trigger]
        alive(now, e) ==> sound_list(now.graph[e], now.next_adj[e] as int, now.node_to_part)
    &&& forall|e: int| #[trigger]
        alive(now, e) && e != target(before, u_ext) ==> kept_list(
            now.graph[e],
            now.next_adj[e] as int,
            now.node_to_part,
            e / 2,
        ) || pending(moved_of(before, u_ext), m, e as usize)
    &&& anchored_list(
        now.graph[target(before, u_ext) as int],
        now.next_adj[target(before, u_ext) as int] as int,
        now.node_to_part,
        target(before, u_ext) as int / 2,
    )
    &&& mutual(now)
}

/// Pointing a representative at another node leaves every other extremity as
/// live as it was, and the extremities of the node dead.
pub(crate) proof fn lemma_live_after_merge(node_to_part: Seq<usize>, u: int, v: usize, x: usize)
    requires
        0 <= u < node_to_part.len(),
        x / 2 < node_to_part.len(),
        v != u,
    ensures
        live(node_to_part.update(u, v), x) <==> live(node_to_part, x) && x / 2 != u,
{
}

/// The state in which the merged node is dead and its far list is taken.
pub open spec fn begun(s: Contraction, u_ext: usize) -> Contraction {
    Contraction {
        graph: s.graph.update(opposite(u_ext as int), Seq::empty()),
        node_to_part: s.node_to_part.update(u_ext as int / 2, (target(s, u_ext) / 2) as usize),
        ..s
    }
}

/// A live extremity of which no neighbour belongs to the merged node has a
/// tidy list when the merge begins.
pub(crate) proof fn lemma_start_tidy(s: Contraction, duplicates: Set<usize>, u_ext: usize, e: int)
    requires
        well_formed(s),
        s.graph.len() <= usize::MAX,
        0 <= u_ext < s.graph.len(),
        merges(s, duplicates, u_ext),
        0 <= e < s.graph.len(),
        live(begun(s, u_ext).node_to_part, e as usize),
        kept_list(s.graph[e], s.next_adj[e] as int, s.node_to_part, e / 2),
        forall|k: int| 0 <= k < s.graph[e].len() ==> (#[trigger] s.graph[e][k]) / 2 != u_ext / 2,
    ensures
        kept_list(
            begun(s, u_ext).graph[e],
            begun(s, u_ext).next_adj[e] as int,
            begun(s, u_ext).node_to_part,
            e / 2,
        ),
{
    let u = u_ext as int / 2;
    let v = (target(s, u_ext) / 2) as usize;
    let adj = s.graph[e];
    let ntp0 = s.node_to_part;
    let ntp1 = begun(s, u_ext).node_to_part;
    assert(begun(s, u_ext).graph[e] == adj);
    assert forall|k: int| 0 <= k < adj.len() implies (live(ntp1, #[trigger] adj[k]) <==> live(
        ntp0,
        adj[k],
    )) && ntp1[adj[k] as int / 2] == ntp0[adj[k] as int / 2] by {
        assert(adj[k] < s.graph.len());
        lemma_live_after_merge(ntp0, u, v, adj[k]);
    }
    let next = s.next_adj[e] as int;
    if 0 <= next < adj.len() {
        assert(ntp1[adj[next] as int / 2] == ntp0[adj[next] as int / 2]);
    }
}

/// A live extremity that has a neighbour at the merged node is the target of
/// the merge or one of the far neighbours that are re-homed.
pub(crate) proof fn lemma_start_neighbours(s: Contraction, duplicates: Set<usize>, u_ext: usize, e: int, k: int)
    requires
        well_formed(s),
        s.graph.len() <= usize::MAX,
        0 <= u_ext < s.graph.len(),
        disciplined(s),
        mutual(s),
        merges(s, duplicates, u_ext),
        0 <= e < s.graph.len(),
        live(s.node_to_part, e as usize),
        0 <= k < s.graph[e].len(),
        s.graph[e][k] / 2 == u_ext / 2,
    ensures
        e == target(s, u_ext) || pending(moved_of(s, u_ext), 0, e as usize),
{
    let u2 = opposite(u_ext as int);
    let moved = moved_of(s, u_ext);
    let ntp0 = s.node_to_part;
    let y = s.graph[e][k];
    assert(y < s.graph.len());
    assert(live(ntp0, y));
    assert(linked(s, e, k));
    assert(occurs(s.graph[y as int], e as usize));
    let list = s.graph[y as int];
    let cursor = s.next_adj[y as int] as int;
    let at = choose|at: int| 0 <= at < list.len() && #[trigger] list[at] == e as usize;
    assert(alive(s, y as int));
    assert(sound_list(list, cursor, ntp0));
    if y == u_ext {
        if at < cursor {
            assert(list[at] == list[cursor]);
        }
    } else {
        assert(y == u2);
        if at < cursor {
            assert(list[at] == list[cursor]);
            assert(moved[0] == e as usize);
        } else {
            assert(moved[at - cursor] == e as usize);
        }
    }
}

/// When a merge begins, every live cursor is sound.
pub(crate) proof fn lemma_start_sound(s: Contraction, duplicates: Set<usize>, u_ext: usize, e: int)
    requires
        well_formed(s),
        s.graph.len() <= usize::MAX,
        0 <= u_ext < s.graph.len(),
        merges(s, duplicates, u_ext),
        0 <= e < s.graph.len(),
        live(begun(s, u_ext).node_to_part, e as usize),
        sound_list(s.graph[e], s.next_adj[e] as int, s.node_to_part),
    ensures
        sound_list(
            begun(s, u_ext).graph[e],
            begun(s, u_ext).next_adj[e] as int,
            begun(s, u_ext).node_to_part,
        ),
{
    let u = u_ext as int / 2;
    let v = (target(s, u_ext) / 2) as usize;
    let adj = s.graph[e];
    let ntp0 = s.node_to_part;
    let ntp1 = begun(s, u_ext).node_to_part;
    lemma_live_after_merge(ntp0, u, v, e as usize);
    assert(begun(s, u_ext).graph[e] == adj);
    assert forall|k: int| 0 <= k < s.next_adj[e] && k < adj.len() implies !live(
        ntp1,
        #[trigger] adj[k],
    ) || adj[k] == adj[s.next_adj[e] as int] by {
        assert(adj[k] < s.graph.len());
        lemma_live_after_merge(ntp0, u, v, adj[k]);
    }
}

/// When a merge begins, adjacency among the extremities that stay live is
/// mutual.
pub(crate) proof fn lemma_start_mutual(s: Contraction, duplicates: Set<usize>, u_ext: usize)
    requires
        well_formed(s),
        s.graph.len() <= usize::MAX,
        0 <= u_ext < s.graph.len(),
        mutual(s),
        merges(s, duplicates, u_ext),
    ensures
        mutual(begun(s, u_ext)),
{
    let u = u_ext as int / 2;
    let v = (target(s, u_ext) / 2) as usize;
    let now = begun(s, u_ext);
    let ntp0 = s.node_to_part;
    let ntp1 = now.node_to_part;
    assert forall|e: int, k: int| #[trigger] linked(now, e, k) implies occurs(
        now.graph[now.graph[e][k] as int],
        e as usize,
    ) by {
        lemma_live_after_merge(ntp0, u, v, e as usize);
        assert(now.graph[e] == s.graph[e]);
        let x = s.graph[e][k];
        assert(x < s.graph.len());
        lemma_live_after_merge(ntp0, u, v, x);
        assert(linked(s, e, k));
        assert(occurs(s.graph[x as int], e as usize));
        assert(now.graph[x as int] == s.graph[x as int]);
    }
}

/// When a merge begins, the discipline holds for all but the far neighbours
/// of the merged node, which are still to be re-homed.
pub(crate) proof fn lemma_merge_start(s: Contraction, duplicates: Set<usize>, u_ext: usize)
    requires
        well_formed(s),
        s.graph.len() <= usize::MAX,
        0 <= u_ext < s.graph.len(),
        disciplined(s),
        mutual(s),
        merges(s, duplicates, u_ext),
    ensures
        during(s, begun(s, u_ext), u_ext, 0),
{
    let u = u_ext as int / 2;
    let v = (target(s, u_ext) / 2) as usize;
    let now = begun(s, u_ext);
    let ntp0 = s.node_to_part;
    let ntp1 = now.node_to_part;
    lemma_start_mutual(s, duplicates, u_ext);
    assert forall|e: int| #[trigger] alive(now, e) implies sound_list(
        now.graph[e],
        now.next_adj[e] as int,
        ntp1,
    ) by {
        lemma_live_after_merge(ntp0, u, v, e as usize);
        assert(alive(s, e));
        lemma_start_sound(s, duplicates, u_ext, e);
    }
    assert(anchored_list(
        now.graph[target(s, u_ext) as int],
        now.next_adj[target(s, u_ext) as int] as int,
        ntp1,
        target(s, u_ext) as int / 2,
    )) by {
        let t = target(s, u_ext) as int;
        assert(t < s.graph.len());
        assert(alive(s, t));
        let list = s.graph[t];
        let at = s.next_adj[t] as int;
        assert(now.graph[t] == list);
        if 0 <= at < list.len() {
            assert(list[at] < s.graph.len());
            lemma_live_after_merge(ntp0, u, v, list[at]);
        }
    }
    assert forall|e: int| #[trigger] alive(now, e) && e != target(s, u_ext) implies kept_list(
        now.graph[e],
        now.next_adj[e] as int,
        ntp1,
        e / 2,
    ) || pending(moved_of(s, u_ext), 0, e as usize) by {
        lemma_live_after_merge(ntp0, u, v, e as usize);
        assert(alive(s, e));
        if !pending(moved_of(s, u_ext), 0, e as usize) {
            assert forall|k: int| 0 <= k < s.graph[e].len() implies (#[trigger] s.graph[e][k]) / 2
                != u_ext / 2 by {
                if s.graph[e][k] / 2 == u_ext / 2 {
                    lemma_start_neighbours(s, duplicates, u_ext, e, k);
                }
            }
            lemma_start_tidy(s, duplicates, u_ext, e);
        }
    }
}

/// Whether the neighbour `w_ext` is re-homed: its node is live.
pub open spec fn rehomes(s: Contraction, w_ext: usize) -> bool {
    s.node_to_part[w_ext as int / 2] == w_ext / 2
}

/// An occurrence in a list is an occurrence in the list with one more entry.
pub(crate) proof fn lemma_occurs_push(adj: Seq<usize>, x: usize, y: usize)
    ensures
        occurs(adj, y) ==> occurs(adj.push(x), y),
        occurs(adj.push(x), x),
        occurs(adj.push(x), y) ==> occurs(adj, y) || y == x,
{
    let after = adj.push(x);
    if occurs(adj, y) {
        let k = choose|k: int| 0 <= k < adj.len() && #[trigger] adj[k] == y;
        assert(after[k] == y);
    }
    assert(after[adj.len() as int] == x);
    if occurs(after, y) {
        let k = choose|k: int| 0 <= k < after.len() && #[trigger] after[k] == y;
        if k < adj.len() {
            assert(adj[k] == y);
        }
    }
}

/// What re-homing one neighbour does to the list of one extremity `e`: the
/// list of any extremity but the neighbour and the target stays; a sound
/// cursor stays sound; live entries stay; the only new live entries are the
/// target in the list of the neighbour and the neighbour in the list of the
/// target, or the target in its own list where the neighbour is the far
/// extremity of the merged node itself; and the list of a re-homed neighbour
/// is left tidy.
pub(crate) proof fn lemma_step_at(cur: Contraction, w_ext: usize, v_ext: usize, u2_ext: usize, e: int, own: int)
    requires
        0 <= e < cur.graph.len(),
        w_ext < cur.graph.len(),
        v_ext < cur.graph.len(),
        cur.next_adj.len() == cur.graph.len(),
        rehome_one(cur, w_ext, v_ext, u2_ext).graph[e].len() <= usize::MAX,
    ensures
        rehome_one(cur, w_ext, v_ext, u2_ext).node_to_part == cur.node_to_part,
        rehome_one(cur, w_ext, v_ext, u2_ext).graph.len() == cur.graph.len(),
        rehome_one(cur, w_ext, v_ext, u2_ext).next_adj.len() == cur.next_adj.len(),
        e != w_ext && e != v_ext ==> rehome_one(cur, w_ext, v_ext, u2_ext).graph[e] == cur.graph[e]
            && rehome_one(cur, w_ext, v_ext, u2_ext).next_adj[e] == cur.next_adj[e],
        sound_list(cur.graph[e], cur.next_adj[e] as int, cur.node_to_part) ==> sound_list(
            rehome_one(cur, w_ext, v_ext, u2_ext).graph[e],
            rehome_one(cur, w_ext, v_ext, u2_ext).next_adj[e] as int,
            cur.node_to_part,
        ),
        forall|y: usize|
            live(cur.node_to_part, y) && occurs(cur.graph[e], y) ==> #[trigger] occurs(
                rehome_one(cur, w_ext, v_ext, u2_ext).graph[e],
                y,
            ),
        forall|y: usize|
            live(cur.node_to_part, y) && #[trigger] occurs(
                rehome_one(cur, w_ext, v_ext, u2_ext).graph[e],
                y,
            ) ==> {
                ||| occurs(cur.graph[e], y)
                ||| rehomes(cur, w_ext) && e == w_ext && y == v_ext
                ||| rehomes(cur, w_ext) && e == v_ext && y == w_ext
                ||| !rehomes(cur, w_ext) && w_ext == u2_ext && e == v_ext && y == v_ext
            },
        rehomes(cur, w_ext) && e == w_ext && live(cur.node_to_part, v_ext) ==> occurs(
            rehome_one(cur, w_ext, v_ext, u2_ext).graph[e],
            v_ext,
        ),
        rehomes(cur, w_ext) && e == v_ext ==> occurs(
            rehome_one(cur, w_ext, v_ext, u2_ext).graph[e],
            w_ext,
        ),
        rehomes(cur, w_ext) && e == w_ext && live(cur.node_to_part, v_ext) && sound_list(
            cur.graph[e],
            cur.next_adj[e] as int,
            cur.node_to_part,
        ) ==> kept_list(
            rehome_one(cur, w_ext, v_ext, u2_ext).graph[e],
            rehome_one(cur, w_ext, v_ext, u2_ext).next_adj[e] as int,
            cur.node_to_part,
            own,
        ),
        live(cur.node_to_part, v_ext) && sound_list(
            cur.graph[e],
            cur.next_adj[e] as int,
            cur.node_to_part,
        ) && anchored_list(cur.graph[e], cur.next_adj[e] as int, cur.node_to_part, own)
            ==> anchored_list(
            rehome_one(cur, w_ext, v_ext, u2_ext).graph[e],
            rehome_one(cur, w_ext, v_ext, u2_ext).next_adj[e] as int,
            cur.node_to_part,
            own,
        ),
{
    let nxt = rehome_one(cur, w_ext, v_ext, u2_ext);
    let ntp = cur.node_to_part;
    let adj = cur.graph[e];
    let next = cur.next_adj[e];
    if rehomes(cur, w_ext) {
        let g1 = cur.graph.update(w_ext as int, cur.graph[w_ext as int].push(v_ext));
        let g2 = g1.update(v_ext as int, g1[v_ext as int].push(w_ext));
        let st = settle(g2[w_ext as int], cur.next_adj[w_ext as int], ntp);
        assert(nxt.graph == g2.update(w_ext as int, st.adj));
        if e == w_ext {
            let grown = g2[w_ext as int];
            assert(nxt.graph[e] == st.adj);
            lemma_settle_len(grown, next, ntp);
            if sound_list(adj, next as int, ntp) {
                lemma_push_sound(adj, next as int, ntp, v_ext);
            }
            if w_ext == v_ext {
                assert(grown == adj.push(v_ext).push(w_ext));
                if sound_list(adj, next as int, ntp) {
                    lemma_push_sound(adj.push(v_ext), next as int, ntp, w_ext);
                }
            } else {
                assert(grown == adj.push(v_ext));
            }
            if sound_list(adj, next as int, ntp) {
                lemma_settle_tidy(grown, next, ntp, own);
                if live(ntp, v_ext) {
                    assert(grown[adj.len() as int] == v_ext);
                    assert(next <= adj.len());
                }
                if 0 <= next < adj.len() {
                    assert(grown[next as int] == adj[next as int]);
                }
            }
            assert forall|y: usize| live(ntp, y) implies (occurs(st.adj, y) <==> occurs(grown, y)) by {
                lemma_settle_live(grown, next, ntp, y);
            }
            assert forall|y: usize| live(ntp, y) && occurs(adj, y) implies #[trigger] occurs(
                nxt.graph[e],
                y,
            ) by {
                lemma_occurs_push(adj, v_ext, y);
                lemma_occurs_push(adj.push(v_ext), w_ext, y);
            }
            assert forall|y: usize| live(ntp, y) && #[trigger] occurs(nxt.graph[e], y) implies {
                ||| occurs(adj, y)
                ||| rehomes(cur, w_ext) && e == w_ext && y == v_ext
                ||| rehomes(cur, w_ext) && e == v_ext && y == w_ext
                ||| !rehomes(cur, w_ext) && w_ext == u2_ext && e == v_ext && y == v_ext
            } by {
                lemma_occurs_push(adj, v_ext, y);
                lemma_occurs_push(adj.push(v_ext), w_ext, y);
            }
            if live(ntp, v_ext) {
                lemma_occurs_push(adj, v_ext, v_ext);
                lemma_occurs_push(adj.push(v_ext), w_ext, v_ext);
            }
            if e == v_ext {
                lemma_occurs_push(adj.push(v_ext), w_ext, w_ext);
                assert(live(ntp, w_ext));
            }
        } else if e == v_ext {
            assert(nxt.graph[e] == adj.push(w_ext));
            assert(nxt.next_adj[e] == next);
            if sound_list(adj, next as int, ntp) {
                lemma_push_sound(adj, next as int, ntp, w_ext);
                if 0 <= next < adj.len() {
                    assert(adj.push(w_ext)[next as int] == adj[next as int]);
                } else {
                    assert(adj.push(w_ext)[adj.len() as int] == w_ext);
                    assert(live(ntp, w_ext));
                }
            }
            assert forall|y: usize| live(ntp, y) && occurs(adj, y) implies #[trigger] occurs(
                nxt.graph[e],
                y,
            ) by {
                lemma_occurs_push(adj, w_ext, y);
            }
            assert forall|y: usize| live(ntp, y) && #[trigger] occurs(nxt.graph[e], y) implies {
                ||| occurs(adj, y)
                ||| rehomes(cur, w_ext) && e == w_ext && y == v_ext
                ||| rehomes(cur, w_ext) && e == v_ext && y == w_ext
                ||| !rehomes(cur, w_ext) && w_ext == u2_ext && e == v_ext && y == v_ext
            } by {
                lemma_occurs_push(adj, w_ext, y);
            }
            lemma_occurs_push(adj, w_ext, w_ext);
        } else {
            assert(nxt.graph[e] == adj);
        }
    } else if w_ext == u2_ext {
        if e == v_ext {
            assert(nxt.graph[e] == adj.push(v_ext));
            if sound_list(adj, next as int, ntp) {
                lemma_push_sound(adj, next as int, ntp, v_ext);
                if 0 <= next < adj.len() {
                    assert(adj.push(v_ext)[next as int] == adj[next as int]);
                } else {
                    assert(adj.push(v_ext)[adj.len() as int] == v_ext);
                }
            }
            assert forall|y: usize| live(ntp, y) && occurs(adj, y) implies #[trigger] occurs(
                nxt.graph[e],
                y,
            ) by {
                lemma_occurs_push(adj, v_ext, y);
            }
            assert forall|y: usize| live(ntp, y) && #[trigger] occurs(nxt.graph[e], y) implies {
                ||| occurs(adj, y)
                ||| rehomes(cur, w_ext) && e == w_ext && y == v_ext
                ||| rehomes(cur, w_ext) && e == v_ext && y == w_ext
                ||| !rehomes(cur, w_ext) && w_ext == u2_ext && e == v_ext && y == v_ext
            } by {
                lemma_occurs_push(adj, v_ext, y);
            }
        } else {
            assert(nxt.graph[e] == adj);
        }
    }
}

/// Settling keeps the length of the list.
pub(crate) proof fn lemma_settle_len(adj: Seq<usize>, next: usize, node_to_part: Seq<usize>)
    ensures
        settle(adj, next, node_to_part).adj.len() == adj.len(),
{
    let i = first_live(adj, node_to_part, next as int);
    lemma_first_live(adj, node_to_part, next as int);
    if i < adj.len() {
        lemma_first_other(adj, node_to_part, i + 1, adj[i]);
    }
}

/// Settling keeps every live entry in the list and adds none.
pub(crate) proof fn lemma_settle_live(adj: Seq<usize>, next: usize, node_to_part: Seq<usize>, x: usize)
    requires
        adj.len() <= usize::MAX,
        live(node_to_part, x),
    ensures
        occurs(settle(adj, next, node_to_part).adj, x) <==> occurs(adj, x),
{
    let st = settle(adj, next, node_to_part);
    let i = first_live(adj, node_to_part, next as int);
    lemma_first_live(adj, node_to_part, next as int);
    if i < adj.len() {
        let kept = adj[i];
        let j = first_other(adj, node_to_part, i + 1, kept);
        lemma_first_other(adj, node_to_part, i + 1, kept);
        lemma_between(adj, node_to_part, i + 1, kept);
        assert(st.adj == adj.update(j - 1, kept));
        if occurs(adj, x) {
            let k = choose|k: int| 0 <= k < adj.len() && #[trigger] adj[k] == x;
            if k == j - 1 {
                assert(adj[k] == kept);
                assert(st.adj[j - 1] == x);
            } else {
                assert(st.adj[k] == x);
            }
        }
        if occurs(st.adj, x) {
            let k = choose|k: int| 0 <= k < st.adj.len() && #[trigger] st.adj[k] == x;
            if k == j - 1 {
                assert(adj[i] == x);
            } else {
                assert(adj[k] == x);
            }
        }
    }
}

/// After one more neighbour is re-homed, a live entry still has the extremity
/// in whose list it stands in its own list.
pub(crate) proof fn lemma_step_mutual(
    cur: Contraction,
    w_ext: usize,
    v_ext: usize,
    u2_ext: usize,
    e: int,
    k: int,
)
    requires
        well_formed(cur),
        well_formed(rehome_one(cur, w_ext, v_ext, u2_ext)),
        mutual(cur),
        w_ext < cur.graph.len(),
        v_ext < cur.graph.len(),
        live(cur.node_to_part, v_ext),
        forall|x: int|
            0 <= x < cur.graph.len() ==> (#[trigger] rehome_one(cur, w_ext, v_ext, u2_ext).graph[x]).len()
                <= usize::MAX,
        linked(rehome_one(cur, w_ext, v_ext, u2_ext), e, k),
    ensures
        occurs(
            rehome_one(cur, w_ext, v_ext, u2_ext).graph[rehome_one(
                cur,
                w_ext,
                v_ext,
                u2_ext,
            ).graph[e][k] as int],
            e as usize,
        ),
{
    let nxt = rehome_one(cur, w_ext, v_ext, u2_ext);
    let ntp = cur.node_to_part;
    let x = nxt.graph[e][k];
    lemma_step_at(cur, w_ext, v_ext, u2_ext, e, 0);
    assert(x < nxt.graph.len());
    assert(nxt.graph[x as int].len() <= usize::MAX);
    lemma_step_at(cur, w_ext, v_ext, u2_ext, x as int, 0);
    assert(occurs(nxt.graph[e], x));
    if occurs(cur.graph[e], x) {
        let k0 = choose|k0: int| 0 <= k0 < cur.graph[e].len() && #[trigger] cur.graph[e][k0] == x;
        assert(linked(cur, e, k0));
        assert(occurs(cur.graph[x as int], e as usize));
        assert(live(ntp, e as usize));
        assert(occurs(nxt.graph[x as int], e as usize));
    } else if rehomes(cur, w_ext) && e == w_ext && x == v_ext {
        assert(occurs(nxt.graph[v_ext as int], w_ext));
    } else if rehomes(cur, w_ext) && e == v_ext && x == w_ext {
        assert(occurs(nxt.graph[w_ext as int], v_ext));
    } else {
        assert(e == v_ext && x == v_ext);
        assert(occurs(nxt.graph[e], x));
    }
}

/// Re-homing one more neighbour keeps what holds during a merge.
pub(crate) proof fn lemma_rehome_step(before: Contraction, cur: Contraction, u_ext: usize, m: int)
    requires
        during(before, cur, u_ext, m),
        well_formed(cur),
        cur.graph.len() <= usize::MAX,
        0 <= m < moved_of(before, u_ext).len(),
        moved_of(before, u_ext)[m] < cur.graph.len(),
        target(before, u_ext) < cur.graph.len(),
        live(cur.node_to_part, target(before, u_ext)),
        well_formed(
            rehome_one(
                cur,
                moved_of(before, u_ext)[m],
                target(before, u_ext),
                opposite(u_ext as int) as usize,
            ),
        ),
        forall|x: int|
            0 <= x < cur.graph.len() ==> (#[trigger] rehome_one(
                cur,
                moved_of(before, u_ext)[m],
                target(before, u_ext),
                opposite(u_ext as int) as usize,
            ).graph[x]).len() <= usize::MAX,
    ensures
        during(
            before,
            rehome_one(
                cur,
                moved_of(before, u_ext)[m],
                target(before, u_ext),
                opposite(u_ext as int) as usize,
            ),
            u_ext,
            m + 1,
        ),
{
    let moved = moved_of(before, u_ext);
    let w_ext = moved[m];
    let v_ext = target(before, u_ext);
    let u2_ext = opposite(u_ext as int) as usize;
    let nxt = rehome_one(cur, w_ext, v_ext, u2_ext);
    let ntp = cur.node_to_part;
    assert(nxt.graph[0].len() <= usize::MAX);
    lemma_step_at(cur, w_ext, v_ext, u2_ext, 0, 0);
    assert forall|e: int| #[trigger] alive(nxt, e) implies sound_list(
        nxt.graph[e],
        nxt.next_adj[e] as int,
        nxt.node_to_part,
    ) by {
        assert(nxt.graph[e].len() <= usize::MAX);
        lemma_step_at(cur, w_ext, v_ext, u2_ext, e, e / 2);
        assert(alive(cur, e));
    }
    assert(anchored_list(
        nxt.graph[v_ext as int],
        nxt.next_adj[v_ext as int] as int,
        nxt.node_to_part,
        v_ext as int / 2,
    )) by {
        assert(nxt.graph[v_ext as int].len() <= usize::MAX);
        lemma_step_at(cur, w_ext, v_ext, u2_ext, v_ext as int, v_ext as int / 2);
        assert(alive(cur, v_ext as int));
    }
    assert forall|e: int| #[trigger] alive(nxt, e) && e != v_ext implies kept_list(
        nxt.graph[e],
        nxt.next_adj[e] as int,
        nxt.node_to_part,
        e / 2,
    ) || pending(moved, m + 1, e as usize) by {
        assert(nxt.graph[e].len() <= usize::MAX);
        lemma_step_at(cur, w_ext, v_ext, u2_ext, e, e / 2);
        assert(alive(cur, e));
        if e != w_ext {
            if !kept_list(cur.graph[e], cur.next_adj[e] as int, ntp, e / 2) {
                let i = choose|i: int| 0 <= m <= i < moved.len() && #[trigger] moved[i] == e as usize;
                assert(moved[i] == e as usize && m + 1 <= i);
            }
        }
    }
    assert forall|e: int, k: int| #[trigger] linked(nxt, e, k) implies occurs(
        nxt.graph[nxt.graph[e][k] as int],
        e as usize,
    ) by {
        lemma_step_mutual(cur, w_ext, v_ext, u2_ext, e, k);
    }
}

/// When all far neighbours are re-homed, settling the target and emptying the
/// list of the merged extremity restores the discipline.
pub(crate) proof fn lemma_merge_finish(before: Contraction, cur: Contraction, fin: Contraction, u_ext: usize)
    requires
        during(before, cur, u_ext, moved_of(before, u_ext).len() as int),
        well_formed(cur),
        well_formed(fin),
        0 <= u_ext < cur.graph.len(),
        before.node_to_part[u_ext as int / 2] == u_ext / 2,
        target(before, u_ext) / 2 != u_ext / 2,
        u_ext as int / 2 < before.node_to_part.len(),
        target(before, u_ext) < cur.graph.len(),
        cur.graph[target(before, u_ext) as int].len() <= usize::MAX,
        fin.graph == cur.graph.update(
            target(before, u_ext) as int,
            settle(
                cur.graph[target(before, u_ext) as int],
                cur.next_adj[target(before, u_ext) as int],
                cur.node_to_part,
            ).adj,
        ).update(u_ext as int, Seq::empty()),
        fin.next_adj == cur.next_adj.update(
            target(before, u_ext) as int,
            settle(
                cur.graph[target(before, u_ext) as int],
                cur.next_adj[target(before, u_ext) as int],
                cur.node_to_part,
            ).next,
        ),
        fin.node_to_part == cur.node_to_part,
    ensures
        disciplined(fin),
        mutual(fin),
{
    let v_ext = target(before, u_ext);
    let ntp = cur.node_to_part;
    let list = cur.graph[v_ext as int];
    let cursor = cur.next_adj[v_ext as int];
    let st = settle(list, cursor, ntp);
    let moved = moved_of(before, u_ext);
    lemma_settle_len(list, cursor, ntp);
    assert(!live(ntp, u_ext));
    assert forall|e: int| #[trigger] alive(fin, e) implies sound_list(
        fin.graph[e],
        fin.next_adj[e] as int,
        fin.node_to_part,
    ) && kept_list(fin.graph[e], fin.next_adj[e] as int, fin.node_to_part, e / 2) by {
        assert(alive(cur, e));
        assert(e != u_ext);
        if e == v_ext {
            lemma_settle_tidy(list, cursor, ntp, e / 2);
        } else {
            assert(fin.graph[e] == cur.graph[e]);
            assert(!pending(moved, moved.len() as int, e as usize));
        }
    }
    assert forall|e: int, k: int| #[trigger] linked(fin, e, k) implies occurs(
        fin.graph[fin.graph[e][k] as int],
        e as usize,
    ) by {
        let x = fin.graph[e][k];
        assert(alive(cur, e));
        assert(e != u_ext);
        assert(x < fin.graph.len());
        assert(x != u_ext);
        if e == v_ext {
            lemma_settle_live(list, cursor, ntp, x);
            assert(occurs(st.adj, x));
        } else {
            assert(fin.graph[e] == cur.graph[e]);
        }
        assert(occurs(cur.graph[e], x));
        let k0 = choose|k0: int| 0 <= k0 < cur.graph[e].len() && #[trigger] cur.graph[e][k0] == x;
        assert(linked(cur, e, k0));
        assert(occurs(cur.graph[x as int], e as usize));
        if x == v_ext {
            lemma_settle_live(list, cursor, ntp, e as usize);
        } else {
            assert(fin.graph[x as int] == cur.graph[x as int]);
        }
    }
}

/// Whether `x` may stand in a list of a fresh graph: it is the telomere or a
/// live extremity.
pub open spec fn joinable(graph: Seq<Seq<usize>>, node_to_part: Seq<usize>, x: usize) -> bool {
    x == graph.len() - 1 || live(node_to_part, x)
}

/// Whether the lists of a graph are as a builder leaves them: every entry is
/// the telomere or a live extremity, no list holds an entry twice, except that
/// an extremity may stand twice in its own list, and the lists of the
/// extremities of nodes that are not live are empty.
pub open spec fn fresh_lists(graph: Seq<Seq<usize>>, node_to_part: Seq<usize>) -> bool {
    &&& forall|e: int, k: int|
        0 <= e < graph.len() && 0 <= k < graph[e].len() ==> joinable(
            graph,
            node_to_part,
            #[trigger] graph[e][k],
        )
    &&& forall|e: int, i: int, j: int|
        0 <= e < graph.len() && 0 <= i < j < graph[e].len() && #[trigger] graph[e][i]
            == #[trigger] graph[e][j] ==> graph[e][i] == e
    &&& forall|e: int|
        0 <= e < graph.len() - 1 && !live(node_to_part, e as usize) ==> (#[trigger] graph[e]).len()
            == 0
}

/// Whether a graph is as a builder leaves it: symmetric, with fresh lists.
pub open spec fn fresh(graph: Seq<Seq<usize>>, node_to_part: Seq<usize>) -> bool {
    symmetric(graph) && fresh_lists(graph, node_to_part)
}

/// Recording an edge between extremities of which each is live or the
/// telomere leaves a fresh graph fresh.
pub(crate) proof fn lemma_add_edge_fresh(graph: Seq<Seq<usize>>, node_to_part: Seq<usize>, u: usize, v: usize)
    requires
        fresh(graph, node_to_part),
        u < graph.len(),
        v < graph.len(),
        joinable(graph, node_to_part, u),
        joinable(graph, node_to_part, v),
    ensures
        fresh(add_edge(graph, u, v), node_to_part),
{
    let h = add_edge(graph, u, v);
    lemma_add_edge_shape(graph, u, v);
    lemma_add_edge_symmetric(graph, u, v);
    if !graph[u as int].contains(v) {
        assert(!graph[v as int].contains(u)) by {
            if graph[v as int].contains(u) {
                let k = choose|k: int| 0 <= k < graph[v as int].len() && graph[v as int][k] == u;
                assert(graph[graph[v as int][k] as int].contains(v));
            }
        }
        let lu = graph[u as int].len() as int;
        let lv = graph[v as int].len() as int;
        assert forall|e: int, k: int| 0 <= e < h.len() && 0 <= k < h[e].len() implies joinable(
            h,
            node_to_part,
            #[trigger] h[e][k],
        ) by {
            if k < graph[e].len() {
                assert(h[e][k] == graph[e][k]);
                assert(joinable(graph, node_to_part, graph[e][k]));
            }
        }
        assert forall|e: int| 0 <= e < h.len() - 1 && !live(node_to_part, e as usize) implies (
        #[trigger] h[e]).len() == 0 by {
            assert(e != u && e != v);
            assert(h[e] == graph[e]);
        }
        assert forall|e: int, i: int, j: int|
            0 <= e < h.len() && 0 <= i < j < h[e].len() && #[trigger] h[e][i] == #[trigger] h[e][j] implies h[e][i]
            == e by {
            if j < graph[e].len() {
                assert(h[e][i] == graph[e][i] && h[e][j] == graph[e][j]);
            } else if i < graph[e].len() {
                assert(h[e][i] == graph[e][i]);
                assert(graph[e].contains(h[e][j]));
            }
        }
    }
}

/// Recording edges between extremities of which each is live or the telomere
/// leaves a fresh graph fresh.
pub(crate) proof fn lemma_add_edges_fresh(
    graph: Seq<Seq<usize>>,
    node_to_part: Seq<usize>,
    edges: Seq<(usize, usize)>,
)
    requires
        fresh(graph, node_to_part),
        forall|k: int|
            0 <= k < edges.len() ==> (#[trigger] edges[k]).0 < graph.len() && edges[k].1 < graph.len()
                && joinable(graph, node_to_part, edges[k].0) && joinable(
                graph,
                node_to_part,
                edges[k].1,
            ),
    ensures
        fresh(add_edges(graph, edges), node_to_part),
        add_edges(graph, edges).len() == graph.len(),
    decreases edges.len(),
{
    if edges.len() > 0 {
        let front = edges.drop_last();
        assert forall|k: int| 0 <= k < front.len() implies (#[trigger] front[k]).0 < graph.len()
            && front[k].1 < graph.len() && joinable(graph, node_to_part, front[k].0) && joinable(
            graph,
            node_to_part,
            front[k].1,
        ) by {
            assert(front[k] == edges[k]);
        }
        lemma_add_edges_fresh(graph, node_to_part, front);
        let e = edges.last();
        assert(e == edges[edges.len() - 1]);
        lemma_add_edge_shape(add_edges(graph, front), e.0, e.1);
        lemma_add_edge_fresh(add_edges(graph, front), node_to_part, e.0, e.1);
    }
}

/// The edges of a path join extremities of the graph of which each is live
/// or the telomere.
pub(crate) proof fn lemma_path_edges_live(path: Seq<SignedId>, node_to_part: Seq<usize>, num_nodes: int)
    requires
        forall|k: int| 0 <= k < path.len() ==> (#[trigger] path[k]).id < num_nodes,
        0 <= num_nodes,
        2 * num_nodes + 1 <= usize::MAX,
    ensures
        forall|k: int|
            0 <= k < path_edges(path, node_to_part, (2 * num_nodes) as usize).len() ==> {
                let edge = #[trigger] path_edges(path, node_to_part, (2 * num_nodes) as usize)[k];
                &&& edge.0 < 2 * num_nodes + 1
                &&& edge.1 < 2 * num_nodes + 1
                &&& edge.0 == 2 * num_nodes || live(node_to_part, edge.0)
                &&& edge.1 == 2 * num_nodes || live(node_to_part, edge.1)
            },
{
    let telomere = (2 * num_nodes) as usize;
    let pred = |el: SignedId| is_root(node_to_part, el.id as int);
    let alive_els = live_elements(path, node_to_part);
    assert forall|k: int| 0 <= k < alive_els.len() implies (#[trigger] alive_els[k]).id < num_nodes
        && is_root(node_to_part, alive_els[k].id as int) by {
        assert(alive_els.contains(alive_els[k]));
        path.lemma_filter_contains_rev(pred, alive_els[k]);
        let j = choose|j: int| 0 <= j < path.len() && path[j] == alive_els[k];
        assert(path[j].id < num_nodes);
        path.lemma_filter_pred(pred, k);
    }
    let edges = path_edges(path, node_to_part, telomere);
    assert forall|k: int| 0 <= k < edges.len() implies {
        let edge = #[trigger] edges[k];
        &&& edge.0 < 2 * num_nodes + 1
        &&& edge.1 < 2 * num_nodes + 1
        &&& edge.0 == 2 * num_nodes || live(node_to_part, edge.0)
        &&& edge.1 == 2 * num_nodes || live(node_to_part, edge.1)
    } by {
        if k < alive_els.len() {
            assert(edges[k] == chain_edges(alive_els, telomere)[k]);
            assert(alive_els[k].id < num_nodes);
            if k > 0 {
                assert(alive_els[k - 1].id < num_nodes);
            }
        } else {
            assert(alive_els.last().id < num_nodes);
        }
    }
}

/// The graph that is built from paths is fresh.
pub proof fn lemma_build_graph_fresh(
    paths: Seq<Seq<SignedId>>,
    node_to_part: Seq<usize>,
    num_nodes: int,
)
    requires
        0 <= num_nodes,
        2 * num_nodes + 1 <= usize::MAX,
        paths_in_range(paths, num_nodes),
    ensures
        build_graph(paths, node_to_part, num_nodes).len() == 2 * num_nodes + 1,
        fresh(build_graph(paths, node_to_part, num_nodes), node_to_part),
    decreases paths.len(),
{
    let telomere = (2 * num_nodes) as usize;
    if paths.len() > 0 {
        assert(paths_in_range(paths.drop_last(), num_nodes)) by {
            assert forall|p: int, k: int|
                0 <= p < paths.drop_last().len() && 0 <= k < paths.drop_last()[p].len() implies (
            #[trigger] paths.drop_last()[p][k]).id < num_nodes by {
                assert(paths.drop_last()[p][k] == paths[p][k]);
            }
        }
        lemma_build_graph_fresh(paths.drop_last(), node_to_part, num_nodes);
        assert forall|k: int| 0 <= k < paths.last().len() implies (#[trigger] paths.last()[k]).id
            < num_nodes by {
            assert(paths.last()[k] == paths[paths.len() - 1][k]);
        }
        lemma_path_edges_live(paths.last(), node_to_part, num_nodes);
        assert forall|k: int|
            0 <= k < path_edges(paths.last(), node_to_part, telomere).len() implies {
            let edge = #[trigger] path_edges(paths.last(), node_to_part, telomere)[k];
            let graph = build_graph(paths.drop_last(), node_to_part, num_nodes);
            joinable(graph, node_to_part, edge.0) && joinable(graph, node_to_part, edge.1)
        } by {}
        lemma_add_edges_fresh(
            build_graph(paths.drop_last(), node_to_part, num_nodes),
            node_to_part,
            path_edges(paths.last(), node_to_part, telomere),
        );
    } else {
        assert(fresh(empty_graph(num_nodes), node_to_part));
    }
}

/// At the start of the contraction of a fresh graph every live cursor is
/// sound, every live list is tidy, and adjacency is mutual.
pub proof fn lemma_initial_disciplined(
    graph: Seq<Seq<usize>>,
    node_to_part: Seq<usize>,
    duplicates: Set<usize>,
)
    requires
        fresh(graph, node_to_part),
        graph.len() + 1 == 2 * node_to_part.len(),
    ensures
        disciplined(initial(graph, node_to_part, duplicates)),
        mutual(initial(graph, node_to_part, duplicates)),
{
    let s = initial(graph, node_to_part, duplicates);
    assert forall|e: int| #[trigger] alive(s, e) implies sound_list(
        s.graph[e],
        s.next_adj[e] as int,
        s.node_to_part,
    ) && kept_list(s.graph[e], s.next_adj[e] as int, s.node_to_part, e / 2) by {
        let adj = graph[e];
        assert(s.next_adj[e] == 0);
        if adj.len() >= 1 {
            assert(joinable(graph, node_to_part, adj[0]));
            if adj[0] == graph.len() - 1 {
                assert(of_telomere(node_to_part, adj[0]));
            } else if adj.len() >= 2 {
                assert(joinable(graph, node_to_part, adj[1]));
                if adj[1] == graph.len() - 1 {
                    assert(of_telomere(node_to_part, adj[1]));
                } else if adj[0] == adj[1] {
                    assert(adj[0] == e);
                    assert(adj[0] / 2 == e / 2);
                }
            }
        }
    }
    assert forall|e: int, k: int| #[trigger] linked(s, e, k) implies occurs(
        s.graph[s.graph[e][k] as int],
        e as usize,
    ) by {
        let x = graph[e][k];
        assert(graph[x as int].contains(e as usize));
        let at = choose|at: int| 0 <= at < graph[x as int].len() && graph[x as int][at] == e as usize;
        assert(graph[x as int][at] == e as usize);
    }
}

/// The discipline does not depend on the work list.
pub(crate) proof fn lemma_discipline_ignores_queue(s: Contraction, queue: Seq<usize>)
    ensures
        disciplined(Contraction { queue, ..s }) == disciplined(s),
        mutual(Contraction { queue, ..s }) == mutual(s),
{
    let t = Contraction { queue, ..s };
    assert forall|e: int| alive(t, e) == alive(s, e) by {}
    assert forall|e: int, k: int| linked(t, e, k) == linked(s, e, k) by {}
    if disciplined(s) {
        assert forall|e: int| #[trigger] alive(t, e) implies sound_list(
            t.graph[e],
            t.next_adj[e] as int,
            t.node_to_part,
        ) && kept_list(t.graph[e], t.next_adj[e] as int, t.node_to_part, e / 2) by {
            assert(alive(s, e));
        }
    }
    if disciplined(t) {
        assert forall|e: int| #[trigger] alive(s, e) implies sound_list(
            s.graph[e],
            s.next_adj[e] as int,
            s.node_to_part,
        ) && kept_list(s.graph[e], s.next_adj[e] as int, s.node_to_part, e / 2) by {
            assert(alive(t, e));
        }
    }
    if mutual(s) {
        assert forall|e: int, k: int| #[trigger] linked(t, e, k) implies occurs(
            t.graph[t.graph[e][k] as int],
            e as usize,
        ) by {
            assert(linked(s, e, k));
        }
    }
    if mutual(t) {
        assert forall|e: int, k: int| #[trigger] linked(s, e, k) implies occurs(
            s.graph[s.graph[e][k] as int],
            e as usize,
        ) by {
            assert(linked(t, e, k));
        }
    }
}

/// Exhaustion does not depend on how the merged nodes point at their
/// representatives: it is the same for two forests with the same
/// representatives.
pub proof fn lemma_exhausted_flat(
    graph: Seq<Seq<usize>>,
    before: Seq<usize>,
    after: Seq<usize>,
    duplicates: Set<usize>,
    n: int,
)
    requires
        0 <= n,
        graph.len() == 2 * n + 1,
        graph.len() <= usize::MAX,
        crate::graph::in_range(graph),
        before.len() == n + 1,
        after.len() == n + 1,
        forall|x: int| 0 <= x < n ==> ((#[trigger] after[x]) == x <==> before[x] == x),
        after[n] == before[n],
        exhausted(graph, before, duplicates),
    ensures
        exhausted(graph, after, duplicates),
{
    assert forall|y: usize| y < graph.len() implies live(after, y) == live(before, y) by {
        let node = y as int / 2;
        if node < n {
            assert(after[node] == node <==> before[node] == node);
        }
    }
    assert forall|e: int| 0 <= e < graph.len() implies !#[trigger] contractible(
        graph,
        after,
        duplicates,
        e,
    ) by {
        if contractible(graph, after, duplicates, e) {
            let x = choose|x: usize|
                {
                    &&& #[trigger] occurs(graph[e], x)
                    &&& live(after, x)
                    &&& forall|k: int|
                        0 <= k < graph[e].len() && (live(after, #[trigger] graph[e][k])
                            || graph[e][k] == graph.len() - 1) ==> graph[e][k] == x
                    &&& x != graph.len() - 1
                    &&& x / 2 != e / 2
                    &&& !duplicates.contains(x / 2)
                };
            let at = choose|k: int| 0 <= k < graph[e].len() && #[trigger] graph[e][k] == x;
            assert(x < graph.len());
            assert forall|k: int|
                0 <= k < graph[e].len() && (live(before, #[trigger] graph[e][k]) || graph[e][k]
                    == graph.len() - 1) implies graph[e][k] == x by {
                assert(graph[e][k] < graph.len());
            }
            assert(contractible(graph, before, duplicates, e));
        }
    }
}

/// In a disciplined state the test that the neighbour is another
/// representative says no more than the plain test that it is not already
/// merged into the node of the extremity: a dead neighbour on which a cursor
/// stands was merged into that node.
pub proof fn lemma_plain_test(s: Contraction, duplicates: Set<usize>, e: int)
    requires
        well_formed(s),
        s.graph.len() <= usize::MAX,
        disciplined(s),
        0 <= e < s.graph.len(),
    ensures
        merges(s, duplicates, e as usize) == merges_plainly(s, duplicates, e as usize),
{
    let adj = s.graph[e];
    if s.node_to_part[e / 2] == e / 2 && adj.len() > 0 && s.next_adj[e] == adj.len() - 1 {
        assert(alive(s, e));
        let v_ext = adj[adj.len() - 1];
        assert(v_ext < s.graph.len());
        assert(anchored_list(adj, s.next_adj[e] as int, s.node_to_part, e / 2));
    }
}

/// A fresh graph without a contractible extremity starts at rest.
pub proof fn lemma_exhausted_start(
    graph: Seq<Seq<usize>>,
    node_to_part: Seq<usize>,
    duplicates: Set<usize>,
)
    requires
        graph.len() <= usize::MAX,
        fresh(graph, node_to_part),
        exhausted(graph, node_to_part, duplicates),
    ensures
        at_rest(initial(graph, node_to_part, duplicates), duplicates),
{
    let s = initial(graph, node_to_part, duplicates);
    assert forall|e: int| 0 <= e < s.graph.len() implies !#[trigger] merges(s, duplicates, e as usize) by {
        if merges(s, duplicates, e as usize) {
            let adj = graph[e];
            assert(s.next_adj[e] == 0);
            assert(adj.len() == 1);
            let x = adj[0];
            assert(occurs(adj, x));
            assert(contractible(graph, node_to_part, duplicates, e));
        }
    }
}

} // verus!
