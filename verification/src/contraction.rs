//! The chain contraction of a bidirected graph as a mathematical state
//! machine: the adjacency lists, one cursor per extremity that marks where its
//! unconsumed neighbours begin, the merge forest, and a work list of
//! extremities that were seen with a single live neighbour.
use vstd::prelude::*;
use crate::forest::count_roots;
use crate::graph::{adjacency, in_range, opposite};

verus! {

/// The state of a contraction.
pub struct Contraction {
    pub graph: Seq<Seq<usize>>,
    pub next_adj: Seq<usize>,
    pub node_to_part: Seq<usize>,
    pub queue: Seq<usize>,
}

/// What settling one adjacency list yields: the list, its cursor, and whether
/// the extremity is left with a single live neighbour.
pub struct Settled {
    pub adj: Seq<usize>,
    pub next: usize,
    pub sole: bool,
}

/// Whether the node of extremity `ext` is its own representative.
pub open spec fn live(node_to_part: Seq<usize>, ext: usize) -> bool {
    node_to_part[ext as int / 2] == ext / 2
}

/// The first index from `from` on whose entry is live, or the length of `adj`.
pub open spec fn first_live(adj: Seq<usize>, node_to_part: Seq<usize>, from: int) -> int
    decreases adj.len() - from,
{
    if from >= adj.len() {
        adj.len() as int
    } else if live(node_to_part, adj[from]) {
        from
    } else {
        first_live(adj, node_to_part, from + 1)
    }
}

/// The first index from `from` on whose entry is live and differs from `kept`,
/// or the length of `adj`.
pub open spec fn first_other(adj: Seq<usize>, node_to_part: Seq<usize>, from: int, kept: usize) -> int
    decreases adj.len() - from,
{
    if from >= adj.len() {
        adj.len() as int
    } else if live(node_to_part, adj[from]) && adj[from] != kept {
        from
    } else {
        first_other(adj, node_to_part, from + 1, kept)
    }
}

/// Advances the cursor of an adjacency list past entries whose node is merged
/// or filtered and past repetitions of the first live neighbour. The cursor
/// ends on the last position before a second live neighbour, and that position
/// receives the first live neighbour. Without a live entry from the cursor on,
/// nothing changes.
pub open spec fn settle(adj: Seq<usize>, next: usize, node_to_part: Seq<usize>) -> Settled {
    let i = first_live(adj, node_to_part, next as int);
    if i < adj.len() {
        let j = first_other(adj, node_to_part, i + 1, adj[i]);
        Settled { adj: adj.update(j - 1, adj[i]), next: (j - 1) as usize, sole: j == adj.len() }
    } else {
        Settled { adj, next, sole: false }
    }
}

/// Re-homes one former neighbour `w_ext` of the merged node onto `v_ext`. A
/// live neighbour gets a symmetric edge to `v_ext`, is settled, and joins the
/// work list when it is left with a single live neighbour that is not its own
/// node. The merged node's own far extremity `u2_ext` becomes a self-loop on
/// `v_ext`. Any other dead neighbour is dropped.
pub open spec fn rehome_one(s: Contraction, w_ext: usize, v_ext: usize, u2_ext: usize) -> Contraction {
    let w = w_ext / 2;
    if s.node_to_part[w as int] == w {
        let g1 = s.graph.update(w_ext as int, s.graph[w_ext as int].push(v_ext));
        let g2 = g1.update(v_ext as int, g1[v_ext as int].push(w_ext));
        let st = settle(g2[w_ext as int], s.next_adj[w_ext as int], s.node_to_part);
        Contraction {
            graph: g2.update(w_ext as int, st.adj),
            next_adj: s.next_adj.update(w_ext as int, st.next),
            node_to_part: s.node_to_part,
            queue: if st.sole && w != st.adj[st.next as int] / 2 {
                s.queue.push(w_ext)
            } else {
                s.queue
            },
        }
    } else if w_ext == u2_ext {
        Contraction { graph: s.graph.update(v_ext as int, s.graph[v_ext as int].push(v_ext)), ..s }
    } else {
        s
    }
}

/// Re-homes a sequence of former neighbours, first to last.
pub open spec fn rehome(s: Contraction, moved: Seq<usize>, v_ext: usize, u2_ext: usize) -> Contraction
    decreases moved.len(),
{
    if moved.len() == 0 {
        s
    } else {
        rehome_one(rehome(s, moved.drop_last(), v_ext, u2_ext), moved.last(), v_ext, u2_ext)
    }
}

/// The unconsumed part of an adjacency list: its entries from the cursor on.
pub open spec fn unconsumed(adj: Seq<usize>, next: usize) -> Seq<usize> {
    if next <= adj.len() {
        adj.subrange(next as int, adj.len() as int)
    } else {
        Seq::empty()
    }
}

/// Whether the extremity `u_ext` taken from the work list is merged: its node
/// is a representative, its cursor stands on its last entry `v_ext`, neither
/// is the telomere, neither node is a duplicate, and the node of `v_ext` is
/// another representative.
pub open spec fn merges(s: Contraction, duplicates: Set<usize>, u_ext: usize) -> bool {
    let telomere = s.graph.len() - 1;
    let u = u_ext / 2;
    let adj = s.graph[u_ext as int];
    let v_ext = adj[s.next_adj[u_ext as int] as int];
    let v = v_ext / 2;
    &&& s.node_to_part[u as int] == u
    &&& adj.len() > 0
    &&& s.next_adj[u_ext as int] == adj.len() - 1
    &&& u_ext != telomere
    &&& v_ext != telomere
    &&& !duplicates.contains(u)
    &&& !duplicates.contains(v)
    &&& s.node_to_part[v as int] == v
    &&& v != u
}

/// The state after the node of `u_ext` is merged into the node of its single
/// neighbour `v_ext`: `u` points at `v`, the unconsumed neighbours of the
/// opposite extremity of `u` are re-homed onto `v_ext`, `v_ext` is settled and
/// joins the work list when it is left with a single live neighbour that is
/// not its own node, and both adjacency lists of `u` are emptied.
pub open spec fn merge(s: Contraction, u_ext: usize) -> Contraction {
    let u = u_ext / 2;
    let v_ext = s.graph[u_ext as int][s.next_adj[u_ext as int] as int];
    let v = v_ext / 2;
    let u2_ext = opposite(u_ext as int) as usize;
    let moved = unconsumed(s.graph[u2_ext as int], s.next_adj[u2_ext as int]);
    let s1 = Contraction {
        graph: s.graph.update(u2_ext as int, Seq::empty()),
        node_to_part: s.node_to_part.update(u as int, v),
        ..s
    };
    let s2 = rehome(s1, moved, v_ext, u2_ext);
    let st = settle(s2.graph[v_ext as int], s2.next_adj[v_ext as int], s2.node_to_part);
    Contraction {
        graph: s2.graph.update(v_ext as int, st.adj).update(u_ext as int, Seq::empty()),
        next_adj: s2.next_adj.update(v_ext as int, st.next),
        node_to_part: s2.node_to_part,
        queue: if st.sole && v != st.adj[st.next as int] / 2 {
            s2.queue.push(v_ext)
        } else {
            s2.queue
        },
    }
}

/// One step of the contraction: the last extremity of the work list is taken
/// from it and merged if it still qualifies; a stale entry is dropped.
pub open spec fn step(s: Contraction, duplicates: Set<usize>) -> Contraction {
    let u_ext = s.queue.last();
    let rest = Contraction { queue: s.queue.drop_last(), ..s };
    if merges(rest, duplicates, u_ext) {
        merge(rest, u_ext)
    } else {
        rest
    }
}

/// The sizes of a contraction state fit together: one cursor per adjacency
/// list, two extremities per node and the telomere, whose node is the last
/// entry of the forest; and every extremity in the graph or on the work list
/// is one of the graph.
pub open spec fn well_formed(s: Contraction) -> bool {
    &&& s.next_adj.len() == s.graph.len()
    &&& s.graph.len() + 1 == 2 * s.node_to_part.len()
    &&& in_range(s.graph)
    &&& forall|k: int| 0 <= k < s.queue.len() ==> (#[trigger] s.queue[k]) < s.graph.len()
}

/// The state in which the contraction comes to rest: steps are taken until
/// the work list is empty.
pub open spec fn contracted(s: Contraction, duplicates: Set<usize>) -> Contraction
    decreases count_roots(s.node_to_part, s.node_to_part.len() as int), s.queue.len(),
    when well_formed(s)
{
    if s.queue.len() == 0 {
        s
    } else {
        proof {
            lemma_step_decreases(s, duplicates);
        }
        contracted(step(s, duplicates), duplicates)
    }
}

/// Re-homing changes neither the forest nor the sizes of the state.
pub(crate) proof fn lemma_rehome_keeps_forest(s: Contraction, moved: Seq<usize>, v_ext: usize, u2_ext: usize)
    ensures
        rehome(s, moved, v_ext, u2_ext).node_to_part == s.node_to_part,
    decreases moved.len(),
{
    if moved.len() > 0 {
        lemma_rehome_keeps_forest(s, moved.drop_last(), v_ext, u2_ext);
    }
}

/// Pointing a representative at another node leaves one representative less.
pub(crate) proof fn lemma_count_roots_merge(node_to_part: Seq<usize>, n: int, u: int, v: usize)
    requires
        0 <= u < n <= node_to_part.len(),
        node_to_part[u] == u,
        v != u,
    ensures
        count_roots(node_to_part.update(u, v), n) + 1 == count_roots(node_to_part, n),
    decreases n,
{
    let after = node_to_part.update(u, v);
    if u == n - 1 {
        assert forall|x: int| 0 <= x < n - 1 implies ((#[trigger] after[x]) == x <==> node_to_part[x]
            == x) by {}
        crate::forest::lemma_count_roots_same(after, node_to_part, n - 1);
    } else {
        lemma_count_roots_merge(node_to_part, n - 1, u, v);
    }
}

/// Every step either merges a representative away or shortens the work list.
pub proof fn lemma_step_decreases(s: Contraction, duplicates: Set<usize>)
    requires
        well_formed(s),
        s.queue.len() > 0,
    ensures
        step(s, duplicates).node_to_part.len() == s.node_to_part.len(),
        count_roots(step(s, duplicates).node_to_part, s.node_to_part.len() as int) < count_roots(
            s.node_to_part,
            s.node_to_part.len() as int,
        ) || (step(s, duplicates).node_to_part == s.node_to_part && step(s, duplicates).queue.len()
            < s.queue.len()),
{
    let u_ext = s.queue.last();
    let rest = Contraction { queue: s.queue.drop_last(), ..s };
    if merges(rest, duplicates, u_ext) {
        let u = u_ext / 2;
        let v_ext = rest.graph[u_ext as int][rest.next_adj[u_ext as int] as int];
        let v = v_ext / 2;
        let u2_ext = opposite(u_ext as int) as usize;
        let moved = unconsumed(rest.graph[u2_ext as int], rest.next_adj[u2_ext as int]);
        let s1 = Contraction {
            graph: rest.graph.update(u2_ext as int, Seq::empty()),
            node_to_part: rest.node_to_part.update(u as int, v),
            ..rest
        };
        lemma_rehome_keeps_forest(s1, moved, v_ext, u2_ext);
        assert(u_ext < s.graph.len());
        lemma_count_roots_merge(s.node_to_part, s.node_to_part.len() as int, u as int, v);
    }
}

/// Whether extremity `e` starts on the work list: it has exactly one
/// neighbour, its node is no duplicate, it is not the telomere, and the
/// neighbour is not an extremity of its own node.
pub open spec fn seeded(graph: Seq<Seq<usize>>, duplicates: Set<usize>, e: int) -> bool {
    &&& graph[e].len() == 1
    &&& !duplicates.contains((e / 2) as usize)
    &&& e != graph.len() - 1
    &&& e / 2 != graph[e][0] / 2
}

/// The seeded extremities below `upto`, in increasing order.
pub open spec fn seed_queue(graph: Seq<Seq<usize>>, duplicates: Set<usize>, upto: int) -> Seq<usize>
    decreases upto,
{
    if upto <= 0 {
        Seq::empty()
    } else {
        let before = seed_queue(graph, duplicates, upto - 1);
        if seeded(graph, duplicates, upto - 1) {
            before.push((upto - 1) as usize)
        } else {
            before
        }
    }
}

/// The state in which a contraction starts: every cursor at the beginning of
/// its list, and the seeded extremities on the work list.
pub open spec fn initial(graph: Seq<Seq<usize>>, node_to_part: Seq<usize>, duplicates: Set<usize>) -> Contraction {
    Contraction {
        graph,
        next_adj: Seq::new(graph.len(), |e: int| 0usize),
        node_to_part,
        queue: seed_queue(graph, duplicates, graph.len() as int),
    }
}

/// Settling keeps the length of the list and takes every entry from the
/// list; when it reports a single live neighbour, the cursor stands on the
/// last entry, which is live.
pub(crate) proof fn lemma_settle_shape(adj: Seq<usize>, next: usize, node_to_part: Seq<usize>)
    requires
        adj.len() <= usize::MAX,
    ensures
        settle(adj, next, node_to_part).adj.len() == adj.len(),
        forall|k: int|
            0 <= k < adj.len() ==> exists|m: int|
                0 <= m < adj.len() && #[trigger] settle(adj, next, node_to_part).adj[k] == adj[m],
        settle(adj, next, node_to_part).next == next || settle(adj, next, node_to_part).next
            < adj.len(),
        settle(adj, next, node_to_part).sole ==> {
            &&& adj.len() > 0
            &&& settle(adj, next, node_to_part).next == adj.len() - 1
            &&& live(node_to_part, settle(adj, next, node_to_part).adj[adj.len() - 1])
        },
{
    let i = first_live(adj, node_to_part, next as int);
    lemma_first_live(adj, node_to_part, next as int);
    if i < adj.len() {
        let j = first_other(adj, node_to_part, i + 1, adj[i]);
        lemma_first_other(adj, node_to_part, i + 1, adj[i]);
        let out = settle(adj, next, node_to_part).adj;
        assert forall|k: int| 0 <= k < adj.len() implies exists|m: int|
            0 <= m < adj.len() && #[trigger] out[k] == adj[m] by {
            if k == j - 1 {
                assert(out[k] == adj[i]);
            } else {
                assert(out[k] == adj[k]);
            }
        }
    } else {
        let out = settle(adj, next, node_to_part).adj;
        assert forall|k: int| 0 <= k < adj.len() implies exists|m: int|
            0 <= m < adj.len() && #[trigger] out[k] == adj[m] by {
            assert(out[k] == adj[k]);
        }
    }
}

/// The first live index lies between the start and the length, and its entry
/// is live when it is an index.
pub(crate) proof fn lemma_first_live(adj: Seq<usize>, node_to_part: Seq<usize>, from: int)
    requires
        0 <= from,
    ensures
        from <= first_live(adj, node_to_part, from) || first_live(adj, node_to_part, from)
            == adj.len(),
        first_live(adj, node_to_part, from) <= adj.len(),
        first_live(adj, node_to_part, from) < adj.len() ==> live(
            node_to_part,
            adj[first_live(adj, node_to_part, from)],
        ),
    decreases adj.len() - from,
{
    if from < adj.len() && !live(node_to_part, adj[from]) {
        lemma_first_live(adj, node_to_part, from + 1);
    }
}

/// The first other index lies between the start and the length.
pub(crate) proof fn lemma_first_other(adj: Seq<usize>, node_to_part: Seq<usize>, from: int, kept: usize)
    requires
        0 <= from <= adj.len(),
    ensures
        from <= first_other(adj, node_to_part, from, kept) <= adj.len(),
    decreases adj.len() - from,
{
    if from < adj.len() && !(live(node_to_part, adj[from]) && adj[from] != kept) {
        lemma_first_other(adj, node_to_part, from + 1, kept);
    }
}

/// The contraction state that the executable data stand for.
pub open spec fn state(
    graph: Seq<Vec<usize>>,
    next_adj: Seq<usize>,
    node_to_part: Seq<usize>,
    queue: Seq<usize>,
) -> Contraction {
    Contraction { graph: adjacency(graph), next_adj, node_to_part, queue }
}

/// The state in which the contraction of `graph` under `node_to_part` comes
/// to rest.
pub open spec fn contraction_of(
    graph: Seq<Seq<usize>>,
    node_to_part: Seq<usize>,
    duplicates: Set<usize>,
) -> Contraction {
    contracted(initial(graph, node_to_part, duplicates), duplicates)
}

/// Whether extremity `e` looks ready for a merge: its cursor stands on its
/// last entry, which is a live extremity of another node.
pub open spec fn ripe(s: Contraction, e: int) -> bool {
    let adj = s.graph[e];
    &&& adj.len() > 0
    &&& s.next_adj[e] == adj.len() - 1
    &&& live(s.node_to_part, adj[adj.len() - 1])
    &&& adj[adj.len() - 1] / 2 != e / 2
}

/// Whether the adjacency list and the cursor of extremity `e` are in `after`
/// as in `before`, or `e` is on the work list of `after` in case it is ripe.
pub open spec fn settled_or_same(before: Contraction, after: Contraction, e: int) -> bool {
    ||| after.graph[e] == before.graph[e] && after.next_adj[e] == before.next_adj[e]
    ||| ripe(after, e) ==> after.queue.contains(e as usize)
}

/// Whether `after` begins with `before`.
pub open spec fn extends(before: Seq<usize>, after: Seq<usize>) -> bool {
    before.len() <= after.len() && forall|k: int| 0 <= k < before.len() ==> after[k] == before[k]
}

/// Whether every extremity that qualifies for a merge is on the work list.
pub open spec fn all_queued(s: Contraction, duplicates: Set<usize>) -> bool {
    forall|e: int|
        0 <= e < s.graph.len() && #[trigger] merges(s, duplicates, e as usize) ==> s.queue.contains(
            e as usize,
        )
}

/// Whether no extremity qualifies for a merge.
pub open spec fn at_rest(s: Contraction, duplicates: Set<usize>) -> bool {
    forall|e: int| 0 <= e < s.graph.len() ==> !#[trigger] merges(s, duplicates, e as usize)
}

/// Where no live entry is found, none is there.
pub(crate) proof fn lemma_first_live_none(adj: Seq<usize>, node_to_part: Seq<usize>, from: int, k: int)
    requires
        0 <= from <= k < adj.len(),
        first_live(adj, node_to_part, from) >= adj.len(),
    ensures
        !live(node_to_part, adj[k]),
    decreases adj.len() - from,
{
    if from < k {
        lemma_first_live_none(adj, node_to_part, from + 1, k);
    }
}

/// After settling, a cursor on a last entry that is live means a single live
/// neighbour.
pub(crate) proof fn lemma_settle_ripe(adj: Seq<usize>, next: usize, node_to_part: Seq<usize>)
    requires
        adj.len() <= usize::MAX,
    ensures
        ({
            let st = settle(adj, next, node_to_part);
            st.adj.len() > 0 && st.next == st.adj.len() - 1 && live(
                node_to_part,
                st.adj[st.adj.len() - 1],
            ) ==> st.sole
        }),
{
    let st = settle(adj, next, node_to_part);
    let i = first_live(adj, node_to_part, next as int);
    lemma_first_live(adj, node_to_part, next as int);
    if i < adj.len() {
        lemma_first_other(adj, node_to_part, i + 1, adj[i]);
    } else if adj.len() > 0 && next == adj.len() - 1 {
        lemma_first_live_none(adj, node_to_part, next as int, adj.len() - 1);
    }
}

/// A seeded extremity is on the initial work list.
pub(crate) proof fn lemma_seed_queue_contains(
    graph: Seq<Seq<usize>>,
    duplicates: Set<usize>,
    upto: int,
    e: int,
)
    requires
        0 <= e < upto <= usize::MAX,
        seeded(graph, duplicates, e),
    ensures
        seed_queue(graph, duplicates, upto).contains(e as usize),
    decreases upto,
{
    let q = seed_queue(graph, duplicates, upto);
    if e == upto - 1 {
        assert(q[q.len() - 1] == e as usize);
    } else {
        lemma_seed_queue_contains(graph, duplicates, upto - 1, e);
        let before = seed_queue(graph, duplicates, upto - 1);
        let k = choose|k: int| 0 <= k < before.len() && before[k] == e as usize;
        assert(q[k] == e as usize);
    }
}

/// At the start every extremity that qualifies for a merge is on the work
/// list.
pub(crate) proof fn lemma_initial_queued(
    graph: Seq<Seq<usize>>,
    node_to_part: Seq<usize>,
    duplicates: Set<usize>,
)
    requires
        graph.len() <= usize::MAX,
    ensures
        all_queued(initial(graph, node_to_part, duplicates), duplicates),
{
    let s = initial(graph, node_to_part, duplicates);
    assert forall|e: int|
        0 <= e < s.graph.len() && #[trigger] merges(s, duplicates, e as usize) implies s.queue.contains(
        e as usize,
    ) by {
        assert(seeded(graph, duplicates, e));
        lemma_seed_queue_contains(graph, duplicates, graph.len() as int, e);
    }
}

/// Where every qualifying extremity is on the work list and the work list is
/// empty, the contraction is at rest.
pub proof fn lemma_at_rest(s: Contraction, duplicates: Set<usize>)
    requires
        all_queued(s, duplicates),
        s.queue.len() == 0,
    ensures
        at_rest(s, duplicates),
{
    assert forall|e: int| 0 <= e < s.graph.len() implies !#[trigger] merges(s, duplicates, e as usize) by {
        if merges(s, duplicates, e as usize) {
            assert(s.queue.contains(e as usize));
        }
    }
}

/// A contraction that starts at rest merges nothing: it comes to rest with the
/// graph and the forest with which it started.
pub proof fn lemma_rest_stays(s: Contraction, duplicates: Set<usize>)
    requires
        well_formed(s),
        at_rest(s, duplicates),
    ensures
        contracted(s, duplicates).node_to_part == s.node_to_part,
        contracted(s, duplicates).graph == s.graph,
    decreases s.queue.len(),
{
    if s.queue.len() > 0 {
        let u_ext = s.queue.last();
        let rest = Contraction { queue: s.queue.drop_last(), ..s };
        assert(u_ext == s.queue[s.queue.len() - 1]);
        assert(!merges(rest, duplicates, u_ext)) by {
            assert(merges(rest, duplicates, u_ext) == merges(s, duplicates, u_ext as int as usize));
        }
        assert(step(s, duplicates) == rest);
        assert(well_formed(rest)) by {
            assert forall|k: int| 0 <= k < rest.queue.len() implies (#[trigger] rest.queue[k])
                < rest.graph.len() by {
                assert(rest.queue[k] == s.queue[k]);
            }
        }
        assert(at_rest(rest, duplicates)) by {
            assert forall|e: int| 0 <= e < rest.graph.len() implies !#[trigger] merges(
                rest,
                duplicates,
                e as usize,
            ) by {
                assert(merges(rest, duplicates, e as usize) == merges(s, duplicates, e as usize));
            }
        }
        lemma_rest_stays(rest, duplicates);
    }
}

/// Dropping a stale entry from the work list leaves every qualifying
/// extremity on it.
pub(crate) proof fn lemma_skip_queued(s: Contraction, duplicates: Set<usize>)
    requires
        s.queue.len() > 0,
        all_queued(s, duplicates),
        !merges(Contraction { queue: s.queue.drop_last(), ..s }, duplicates, s.queue.last()),
    ensures
        all_queued(Contraction { queue: s.queue.drop_last(), ..s }, duplicates),
{
    let rest = Contraction { queue: s.queue.drop_last(), ..s };
    assert forall|e: int|
        0 <= e < rest.graph.len() && #[trigger] merges(rest, duplicates, e as usize) implies rest.queue.contains(
        e as usize,
    ) by {
        assert(merges(s, duplicates, e as usize));
        let k = choose|k: int| 0 <= k < s.queue.len() && s.queue[k] == e as usize;
        assert(k < s.queue.len() - 1);
        assert(rest.queue[k] == e as usize);
    }
}

/// Taking a qualifying extremity from the work list leaves every other
/// qualifying extremity on it.
pub(crate) proof fn lemma_skip_queued_while_merging(s: Contraction, duplicates: Set<usize>)
    requires
        s.queue.len() > 0,
        s.graph.len() <= usize::MAX,
        all_queued(s, duplicates),
    ensures
        ({
            let rest = Contraction { queue: s.queue.drop_last(), ..s };
            forall|e: int|
                0 <= e < rest.graph.len() && #[trigger] merges(rest, duplicates, e as usize) && e
                    != s.queue.last() ==> rest.queue.contains(e as usize)
        }),
{
    let rest = Contraction { queue: s.queue.drop_last(), ..s };
    assert forall|e: int|
        0 <= e < rest.graph.len() && #[trigger] merges(rest, duplicates, e as usize) && e
            != s.queue.last() implies rest.queue.contains(e as usize) by {
        assert(merges(s, duplicates, e as usize));
        let k = choose|k: int| 0 <= k < s.queue.len() && s.queue[k] == e as usize;
        assert(rest.queue[k] == e as usize);
    }
}

/// After a merge every qualifying extremity is on the work list, provided
/// that this was so before, that the work list only grew, that the forest
/// changed at the merged node alone, that the lists of the merged node are
/// empty, and that every other extremity is unchanged or settled.
pub(crate) proof fn lemma_merge_queued(
    rest: Contraction,
    after: Contraction,
    duplicates: Set<usize>,
    u_ext: usize,
)
    requires
        well_formed(rest),
        forall|e: int|
            0 <= e < rest.graph.len() && #[trigger] merges(rest, duplicates, e as usize) && e != u_ext
                ==> rest.queue.contains(e as usize),
        merges(rest, duplicates, u_ext),
        rest.graph.len() <= usize::MAX,
        after.graph.len() == rest.graph.len(),
        extends(rest.queue, after.queue),
        after.node_to_part == rest.node_to_part.update(
            u_ext as int / 2,
            (rest.graph[u_ext as int][rest.next_adj[u_ext as int] as int] / 2) as usize,
        ),
        u_ext / 2 < rest.node_to_part.len(),
        forall|e: int|
            0 <= e < rest.graph.len() && e / 2 != u_ext / 2 ==> #[trigger] settled_or_same(
                rest,
                after,
                e,
            ),
    ensures
        all_queued(after, duplicates),
{
    let u = u_ext as int / 2;
    assert forall|e: int|
        0 <= e < after.graph.len() && #[trigger] merges(after, duplicates, e as usize) implies after.queue.contains(
        e as usize,
    ) by {
        assert(after.node_to_part[u] != u);
        assert(e / 2 != u);
        assert(settled_or_same(rest, after, e));
        assert(ripe(after, e));
        if after.graph[e] == rest.graph[e] && after.next_adj[e] == rest.next_adj[e] {
            let v_ext = rest.graph[e][rest.next_adj[e] as int];
            assert(v_ext < rest.graph.len());
            assert(after.node_to_part[v_ext as int / 2] == rest.node_to_part[v_ext as int / 2]);
            assert(after.node_to_part[e / 2] == rest.node_to_part[e / 2]);
            assert(merges(rest, duplicates, e as usize));
            let k = choose|k: int| 0 <= k < rest.queue.len() && rest.queue[k] == e as usize;
            assert(after.queue[k] == e as usize);
        }
    }
}

/// An extremity that was unchanged or settled, and then again, is unchanged or
/// settled over both steps, as long as the forest stayed and the work list
/// only grew in the second.
pub(crate) proof fn lemma_settled_chain(a: Contraction, b: Contraction, c: Contraction, e: int)
    requires
        settled_or_same(a, b, e),
        settled_or_same(b, c, e),
        extends(b.queue, c.queue),
        b.node_to_part == c.node_to_part,
    ensures
        settled_or_same(a, c, e),
{
    if c.graph[e] == b.graph[e] && c.next_adj[e] == b.next_adj[e] {
        if !(b.graph[e] == a.graph[e] && b.next_adj[e] == a.next_adj[e]) {
            if ripe(c, e) {
                assert(ripe(b, e));
                let k = choose|k: int| 0 <= k < b.queue.len() && b.queue[k] == e as usize;
                assert(c.queue[k] == e as usize);
            }
        }
    }
}

/// Whether the extremity `u_ext` taken from the work list is merged where
/// only the plain conditions are tested: its node is a representative, its
/// cursor stands on its last entry `v_ext`, neither is the telomere, neither
/// node is a duplicate, and the node of `v_ext` is not already merged into the
/// node of `u_ext`.
pub open spec fn merges_plainly(s: Contraction, duplicates: Set<usize>, u_ext: usize) -> bool {
    let telomere = s.graph.len() - 1;
    let u = u_ext / 2;
    let adj = s.graph[u_ext as int];
    let v_ext = adj[s.next_adj[u_ext as int] as int];
    let v = v_ext / 2;
    &&& s.node_to_part[u as int] == u
    &&& adj.len() > 0
    &&& s.next_adj[u_ext as int] == adj.len() - 1
    &&& u_ext != telomere
    &&& v_ext != telomere
    &&& !duplicates.contains(u)
    &&& !duplicates.contains(v)
    &&& s.node_to_part[v as int] != u
}

/// One step of the contraction with the plain conditions.
pub open spec fn plain_step(s: Contraction, duplicates: Set<usize>) -> Contraction {
    let u_ext = s.queue.last();
    let rest = Contraction { queue: s.queue.drop_last(), ..s };
    if merges_plainly(rest, duplicates, u_ext) {
        merge(rest, u_ext)
    } else {
        rest
    }
}

/// The state in which the contraction with the plain conditions comes to
/// rest.
pub open spec fn plainly_contracted(s: Contraction, duplicates: Set<usize>) -> Contraction
    decreases count_roots(s.node_to_part, s.node_to_part.len() as int), s.queue.len(),
    when well_formed(s)
{
    if s.queue.len() == 0 {
        s
    } else {
        proof {
            lemma_plain_step_decreases(s, duplicates);
        }
        plainly_contracted(plain_step(s, duplicates), duplicates)
    }
}

/// The state in which the contraction of `graph` with the plain conditions
/// comes to rest.
pub open spec fn plain_contraction_of(
    graph: Seq<Seq<usize>>,
    node_to_part: Seq<usize>,
    duplicates: Set<usize>,
) -> Contraction {
    plainly_contracted(initial(graph, node_to_part, duplicates), duplicates)
}

/// Every plain step either merges a representative away or shortens the work
/// list.
pub proof fn lemma_plain_step_decreases(s: Contraction, duplicates: Set<usize>)
    requires
        well_formed(s),
        s.queue.len() > 0,
    ensures
        plain_step(s, duplicates).node_to_part.len() == s.node_to_part.len(),
        count_roots(plain_step(s, duplicates).node_to_part, s.node_to_part.len() as int)
            < count_roots(s.node_to_part, s.node_to_part.len() as int) || (plain_step(
            s,
            duplicates,
        ).node_to_part == s.node_to_part && plain_step(s, duplicates).queue.len() < s.queue.len()),
{
    let u_ext = s.queue.last();
    let rest = Contraction { queue: s.queue.drop_last(), ..s };
    if merges_plainly(rest, duplicates, u_ext) {
        let u = u_ext / 2;
        let v_ext = rest.graph[u_ext as int][rest.next_adj[u_ext as int] as int];
        let v = v_ext / 2;
        let u2_ext = opposite(u_ext as int) as usize;
        let moved = unconsumed(rest.graph[u2_ext as int], rest.next_adj[u2_ext as int]);
        let s1 = Contraction {
            graph: rest.graph.update(u2_ext as int, Seq::empty()),
            node_to_part: rest.node_to_part.update(u as int, v),
            ..rest
        };
        lemma_rehome_keeps_forest(s1, moved, v_ext, u2_ext);
        assert(u_ext < s.graph.len());
        lemma_count_roots_merge(s.node_to_part, s.node_to_part.len() as int, u as int, v);
    }
}

/// With a work list that is not empty, the contraction with the plain
/// conditions goes on with the state after one step.
pub(crate) proof fn lemma_plainly_contracted_unfold(s: Contraction, duplicates: Set<usize>)
    requires
        well_formed(s),
        well_formed(plain_step(s, duplicates)),
        s.queue.len() > 0,
    ensures
        plainly_contracted(s, duplicates) == plainly_contracted(plain_step(s, duplicates), duplicates),
{
    lemma_plain_step_decreases(s, duplicates);
}

} // verus!
