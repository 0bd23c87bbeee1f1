//! Chain contraction of the bidirected graph and resolution of the merge
//! forest into partitions.
use std::collections::HashSet;
use vstd::prelude::*;
use vstd::string::StringSliceAdditionalSpecFns;
use crate::cli::Cli;
use crate::contraction::{
    all_queued, at_rest, contracted, contraction_of, extends, first_live, first_other, initial,
    lemma_at_rest, lemma_count_roots_merge, lemma_initial_queued, lemma_merge_queued,
    lemma_plainly_contracted_unfold, lemma_rehome_keeps_forest, lemma_rest_stays, lemma_settle_ripe,
    lemma_settle_shape, lemma_settled_chain, lemma_skip_queued, lemma_skip_queued_while_merging,
    live, merge, merges, plain_contraction_of, plain_step, plainly_contracted, rehome, rehome_one,
    ripe, seed_queue, settle, settled_or_same, state, step, unconsumed, well_formed, Contraction,
};
use crate::duplicates::{protected_nodes, removed_nodes};
use crate::forest::{
    compresses, count_roots, flattened, is_flat, is_forest, kept_apart, lemma_compress_forest,
    lemma_count_roots_bound, lemma_count_roots_last, lemma_count_roots_same, lemma_flat_is_forest,
    lemma_flattened_is_flat, lemma_kept_apart, lemma_merge_forest, lemma_merged_legally_flat,
    lemma_merged_legally_step, lemma_representative, merged_legally, reaches_root, representative,
};
use crate::graph::{adjacency, build_graph, in_range, lemma_build_graph_symmetric, opposite};
use crate::io::{
    all_paths, genomes_in_range, graph_format, initial_partition, lemma_all_paths_in_range,
    load_graph, loads, prepare_graph, reads, update_graph, write_output, Genome, GenomeBundle,
    GraphBundle, GraphFormat, LoadError, PartitionBundle, SignedId, Unread, FILTERED,
};
use crate::io::gff::{broken_runs, gff_text, indexed, GffText};
use crate::io::gff_paths::all_located;
use crate::linkage::{
    joined, lemma_merge_traceable, lemma_partitions_joined, lemma_traceable_start, traceable,
};
use crate::refinement::{
    is_short, lemma_pointers_bound, lemma_refined_flat, lemma_refined_kept_apart,
    lemma_short_before_ends, lemma_short_before_step, lemma_short_before_wrap, parents_in_range,
    pointers_to, refined, refining, short_at, short_before,
};
use crate::render::{partitions_text, paths_text, write_partition, write_paths};
use crate::settling::{
    begun, disciplined, during, exhausted, fresh, lemma_build_graph_fresh,
    lemma_discipline_ignores_queue, lemma_exhausted, lemma_exhausted_flat, lemma_exhausted_start,
    lemma_initial_disciplined, lemma_live_after_merge, lemma_merge_finish, lemma_merge_start,
    lemma_plain_test, lemma_rehome_step, moved_of, mutual, target,
};
use crate::text::string_bytes;

verus! {

/// Resolves the merge forest: every live node among the first `num_nodes` is
/// made to point directly at the representative of its group, and the
/// representatives are counted.
pub fn connected_components(node_to_part: Vec<usize>, num_nodes: usize) -> (bundle: PartitionBundle)
    requires
        is_forest(node_to_part@, num_nodes as int),
    ensures
        bundle.node_to_part@ == flattened(node_to_part@, num_nodes as int),
        bundle.num_parts == count_roots(node_to_part@, num_nodes as int),
        bundle.num_parts <= num_nodes,
        bundle.num_parts == num_nodes <==> forall|x: int|
            0 <= x < num_nodes ==> (#[trigger] node_to_part@[x]) == x,
        bundle.num_parts == num_nodes <==> forall|x: int|
            0 <= x < num_nodes ==> (#[trigger] bundle.node_to_part@[x]) == x,
        is_flat(bundle.node_to_part@, num_nodes as int),
        is_flat(node_to_part@, num_nodes as int) ==> bundle.node_to_part@ == node_to_part@,
{
    let ghost before = node_to_part@;
    let ghost n = num_nodes as int;
    let mut node_to_part = node_to_part;
    let mut num_parts: usize = 0;
    let mut i: usize = 0;
    while i < num_nodes
        invariant
            i <= num_nodes,
            n == num_nodes,
            is_forest(before, n),
            compresses(before, node_to_part@, n),
            forall|x: int|
                0 <= x < i && before[x] != FILTERED ==> #[trigger] node_to_part@[x] == representative(
                    before,
                    n,
                    x,
                ),
            num_parts == count_roots(before, i as int),
            num_parts <= i,
        decreases num_nodes - i,
    {
        proof {
            lemma_compress_forest(before, node_to_part@, n);
        }
        if node_to_part[i] != FILTERED {
            if node_to_part[i] == i {
                num_parts += 1;
                proof {
                    assert(reaches_root(before, n, i as int, 0));
                    lemma_representative(before, n, i as int, 0);
                }
            } else {
                let ghost cur = node_to_part@;
                let ghost mut k: nat = choose|k: nat| reaches_root(cur, n, i as int, k);
                let ghost rep = representative(cur, n, i as int);
                proof {
                    lemma_representative(cur, n, i as int, k);
                }
                let mut j = i;
                let mut stack: Vec<usize> = Vec::new();
                while node_to_part[node_to_part[j]] != node_to_part[j]
                    invariant
                        n == num_nodes,
                        i < num_nodes,
                        cur == node_to_part@,
                        is_forest(cur, n),
                        j < num_nodes,
                        reaches_root(cur, n, j as int, k),
                        cur[j as int] < n,
                        representative(cur, n, j as int) == rep,
                        forall|s: int|
                            0 <= s < stack@.len() ==> (#[trigger] stack@[s]) < n && cur[stack@[s] as int]
                                != FILTERED && representative(cur, n, stack@[s] as int) == rep,
                        (j == i && stack@.len() == 0) || (stack@.len() > 0 && stack@[0] == i),
                    decreases k,
                {
                    proof {
                        lemma_representative(cur, n, j as int, k);
                        k = (k - 1) as nat;
                    }
                    stack.push(j);
                    j = node_to_part[j];
                    proof {
                        lemma_representative(cur, n, j as int, k);
                    }
                }
                let root = node_to_part[j];
                proof {
                    lemma_representative(cur, n, j as int, k);
                    assert(reaches_root(cur, n, root as int, 0));
                    lemma_representative(cur, n, root as int, 0);
                    assert(rep == root);
                }
                while stack.len() > 0
                    invariant
                        n == num_nodes,
                        i < num_nodes,
                        is_forest(before, n),
                        compresses(before, node_to_part@, n),
                        before[i as int] != FILTERED,
                        root == representative(before, n, i as int),
                        forall|x: int|
                            0 <= x < i && before[x] != FILTERED ==> #[trigger] node_to_part@[x]
                                == representative(before, n, x),
                        forall|s: int|
                            0 <= s < stack@.len() ==> (#[trigger] stack@[s]) < n && before[stack@[s] as int]
                                != FILTERED && representative(before, n, stack@[s] as int) == root,
                        node_to_part@[i as int] == root || (stack@.len() > 0 && stack@[0] == i),
                    decreases stack@.len(),
                {
                    let z = stack.pop().unwrap();
                    node_to_part[z] = root;
                }
            }
        }
        proof {
            assert(count_roots(before, i + 1) == count_roots(before, i as int) + if before[i as int]
                == i {
                1nat
            } else {
                0nat
            });
        }
        i += 1;
    }
    proof {
        lemma_compress_forest(before, node_to_part@, n);
        assert(node_to_part@ =~= flattened(before, n));
        lemma_flattened_is_flat(before, n);
        lemma_count_roots_bound(before, n);
        lemma_count_roots_same(node_to_part@, before, n);
        lemma_count_roots_bound(node_to_part@, n);
        assert(num_parts == count_roots(node_to_part@, n));
        assert(num_parts == num_nodes <==> forall|x: int|
            0 <= x < num_nodes ==> (#[trigger] node_to_part@[x]) == x);
        if is_flat(before, n) {
            lemma_flat_is_forest(before, n);
        }
    }
    PartitionBundle { node_to_part, num_parts }
}

/// Settles the adjacency list of one extremity: the cursor `next` is advanced
/// past merged and filtered entries and past repetitions of the first live
/// neighbour. Returns whether exactly one live neighbour is left.
pub fn is_adj_size_one(adj: &mut [usize], next: &mut usize, node_to_part: &[usize]) -> (sole: bool)
    requires
        forall|k: int| 0 <= k < old(adj)@.len() ==> (#[trigger] old(adj)@[k]) / 2 < node_to_part@.len(),
    ensures
        final(adj)@ == settle(old(adj)@, *old(next), node_to_part@).adj,
        *final(next) == settle(old(adj)@, *old(next), node_to_part@).next,
        sole == settle(old(adj)@, *old(next), node_to_part@).sole,
{
    let ghost adj0 = adj@;
    let ghost ntp = node_to_part@;
    let mut i: usize = *next;
    while i < adj.len() && node_to_part[adj[i] / 2] != adj[i] / 2
        invariant
            adj@ == adj0,
            ntp == node_to_part@,
            *next == *old(next),
            forall|k: int| 0 <= k < adj0.len() ==> (#[trigger] adj0[k]) / 2 < ntp.len(),
            first_live(adj0, ntp, i as int) == first_live(adj0, ntp, *next as int),
        decreases adj0.len() - i,
    {
        i += 1;
    }
    if i < adj.len() {
        let kept = adj[i];
        let mut j: usize = i + 1;
        while j < adj.len() && (node_to_part[adj[j] / 2] != adj[j] / 2 || adj[j] == kept)
            invariant
                adj@ == adj0,
                ntp == node_to_part@,
                i < j <= adj0.len(),
                kept == adj0[i as int],
                forall|k: int| 0 <= k < adj0.len() ==> (#[trigger] adj0[k]) / 2 < ntp.len(),
                first_other(adj0, ntp, j as int, kept) == first_other(adj0, ntp, i + 1, kept),
            decreases adj0.len() - j,
        {
            j += 1;
        }
        *next = j - 1;
        adj[j - 1] = kept;
        if j == adj.len() {
            return true;
        }
    }
    false
}

/// Re-homes one former neighbour `w_ext` of a merged node onto `v_ext`.
fn rehome_neighbor(
    graph: &mut [Vec<usize>],
    next_adj: &mut [usize],
    node_to_part: &[usize],
    queue: &mut Vec<usize>,
    w_ext: usize,
    v_ext: usize,
    u2_ext: usize,
)
    requires
        well_formed(state(old(graph)@, old(next_adj)@, node_to_part@, old(queue)@)),
        w_ext < old(graph)@.len(),
        v_ext < old(graph)@.len(),
    ensures
        state(final(graph)@, final(next_adj)@, node_to_part@, final(queue)@) == rehome_one(
            state(old(graph)@, old(next_adj)@, node_to_part@, old(queue)@),
            w_ext,
            v_ext,
            u2_ext,
        ),
        well_formed(state(final(graph)@, final(next_adj)@, node_to_part@, final(queue)@)),
        extends(old(queue)@, final(queue)@),
        forall|e: int|
            0 <= e < old(graph)@.len() && e != v_ext ==> #[trigger] settled_or_same(
                state(old(graph)@, old(next_adj)@, node_to_part@, old(queue)@),
                state(final(graph)@, final(next_adj)@, node_to_part@, final(queue)@),
                e,
            ),
{
    let ghost s0 = state(graph@, next_adj@, node_to_part@, queue@);
    let ghost s1 = rehome_one(s0, w_ext, v_ext, u2_ext);
    let w = w_ext / 2;
    if node_to_part[w] == w {
        graph[w_ext].push(v_ext);
        graph[v_ext].push(w_ext);
        let ghost g2 = adjacency(graph@);
        proof {
            let g1 = s0.graph.update(w_ext as int, s0.graph[w_ext as int].push(v_ext));
            assert(g2 =~= g1.update(v_ext as int, g1[v_ext as int].push(w_ext)));
            assert(in_range(g2)) by {
                assert forall|e: int, k: int| 0 <= e < g2.len() && 0 <= k < g2[e].len() implies (
                #[trigger] g2[e][k]) < g2.len() by {
                    if k < s0.graph[e].len() {
                        assert(g2[e][k] == s0.graph[e][k]);
                    }
                }
            }
            assert(graph@[w_ext as int].len() == graph@[w_ext as int]@.len());
            lemma_settle_shape(g2[w_ext as int], next_adj@[w_ext as int], node_to_part@);
        }
        let sole = is_adj_size_one(&mut graph[w_ext], &mut next_adj[w_ext], node_to_part);
        proof {
            let st = settle(g2[w_ext as int], s0.next_adj[w_ext as int], node_to_part@);
            assert(adjacency(graph@) =~= g2.update(w_ext as int, st.adj));
            assert(next_adj@ =~= s0.next_adj.update(w_ext as int, st.next));
            assert(in_range(adjacency(graph@))) by {
                let g3 = adjacency(graph@);
                assert forall|e: int, k: int| 0 <= e < g3.len() && 0 <= k < g3[e].len() implies (
                #[trigger] g3[e][k]) < g3.len() by {
                    if e == w_ext {
                        let m = choose|m: int|
                            0 <= m < g2[w_ext as int].len() && st.adj[k] == g2[w_ext as int][m];
                        assert(g2[w_ext as int][m] < g2.len());
                    } else {
                        assert(g3[e][k] == g2[e][k]);
                    }
                }
            }
        }
        if sole {
            let neighbor = graph[w_ext][next_adj[w_ext]];
            if w != neighbor / 2 {
                queue.push(w_ext);
            }
        }
        proof {
            assert(state(graph@, next_adj@, node_to_part@, queue@).queue =~= s1.queue);
            lemma_settle_ripe(g2[w_ext as int], s0.next_adj[w_ext as int], node_to_part@);
            if s1.queue.len() > s0.queue.len() {
                assert(s1.queue[s1.queue.len() - 1] == w_ext);
            }
        }
    } else if w_ext == u2_ext {
        graph[v_ext].push(v_ext);
        proof {
            let g1 = adjacency(graph@);
            assert(g1 =~= s0.graph.update(v_ext as int, s0.graph[v_ext as int].push(v_ext)));
            assert(in_range(g1)) by {
                assert forall|e: int, k: int| 0 <= e < g1.len() && 0 <= k < g1[e].len() implies (
                #[trigger] g1[e][k]) < g1.len() by {
                    if k < s0.graph[e].len() {
                        assert(g1[e][k] == s0.graph[e][k]);
                    }
                }
            }
        }
    } else {
        proof {
            assert(adjacency(graph@) =~= s0.graph);
        }
    }
}

/// Merges the node of `u_ext` into the node of the neighbour on which the
/// cursor of `u_ext` stands.
fn merge_into_neighbor(
    graph: &mut [Vec<usize>],
    next_adj: &mut [usize],
    node_to_part: &mut Vec<usize>,
    queue: &mut Vec<usize>,
    u_ext: usize,
    Ghost(duplicates): Ghost<Set<usize>>,
)
    requires
        well_formed(state(old(graph)@, old(next_adj)@, old(node_to_part)@, old(queue)@)),
        u_ext + 1 < old(graph)@.len(),
        old(next_adj)@[u_ext as int] < old(graph)@[u_ext as int]@.len(),
    ensures
        state(final(graph)@, final(next_adj)@, final(node_to_part)@, final(queue)@) == merge(
            state(old(graph)@, old(next_adj)@, old(node_to_part)@, old(queue)@),
            u_ext,
        ),
        well_formed(state(final(graph)@, final(next_adj)@, final(node_to_part)@, final(queue)@)),
        final(node_to_part)@ == old(node_to_part)@.update(
            u_ext as int / 2,
            (old(graph)@[u_ext as int]@[old(next_adj)@[u_ext as int] as int] / 2) as usize,
        ),
        extends(old(queue)@, final(queue)@),
        disciplined(state(old(graph)@, old(next_adj)@, old(node_to_part)@, old(queue)@)) && mutual(
            state(old(graph)@, old(next_adj)@, old(node_to_part)@, old(queue)@),
        ) && merges(
            state(old(graph)@, old(next_adj)@, old(node_to_part)@, old(queue)@),
            duplicates,
            u_ext,
        ) ==> disciplined(
            state(final(graph)@, final(next_adj)@, final(node_to_part)@, final(queue)@),
        ) && mutual(state(final(graph)@, final(next_adj)@, final(node_to_part)@, final(queue)@)),
        old(node_to_part)@[old(graph)@[u_ext as int]@[old(next_adj)@[u_ext as int] as int] as int / 2]
            == old(graph)@[u_ext as int]@[old(next_adj)@[u_ext as int] as int] / 2 ==> forall|e: int|
            0 <= e < old(graph)@.len() && e / 2 != u_ext / 2 ==> #[trigger] settled_or_same(
                state(old(graph)@, old(next_adj)@, old(node_to_part)@, old(queue)@),
                state(final(graph)@, final(next_adj)@, final(node_to_part)@, final(queue)@),
                e,
            ),
{
    let ghost s0 = state(graph@, next_adj@, node_to_part@, queue@);
    let size = graph.len();
    let u = u_ext / 2;
    let v_ext = graph[u_ext][next_adj[u_ext]];
    let v = v_ext / 2;
    let u2_ext = if u_ext % 2 == 0 {
        u_ext + 1
    } else {
        u_ext - 1
    };
    assert(u2_ext == opposite(u_ext as int));
    assert(v_ext < graph@.len()) by {
        assert(s0.graph[u_ext as int][next_adj@[u_ext as int] as int] < s0.graph.len());
    }
    node_to_part[u] = v;
    let start = next_adj[u2_ext];
    let mut adj_u2: Vec<usize> = Vec::new();
    std::mem::swap(&mut graph[u2_ext], &mut adj_u2);
    let ghost moved = unconsumed(adj_u2@, start);
    let ghost s1 = Contraction {
        graph: s0.graph.update(u2_ext as int, Seq::empty()),
        node_to_part: s0.node_to_part.update(u as int, v),
        ..s0
    };
    let ghost ordered = disciplined(s0) && mutual(s0) && merges(s0, duplicates, u_ext);
    proof {
        assert(s1 == begun(s0, u_ext));
        assert(moved == moved_of(s0, u_ext));
        assert(v_ext == target(s0, u_ext));
        if ordered {
            lemma_merge_start(s0, duplicates, u_ext);
        }
        assert(adj_u2@ == s0.graph[u2_ext as int]);
        assert(adjacency(graph@) =~= s1.graph);
        assert(in_range(s1.graph)) by {
            assert forall|e: int, k: int| 0 <= e < s1.graph.len() && 0 <= k < s1.graph[e].len() implies (
            #[trigger] s1.graph[e][k]) < s1.graph.len() by {
                assert(s1.graph[e][k] == s0.graph[e][k]);
            }
        }
        assert(moved.take(0) =~= Seq::empty());
    }
    let mut k: usize = start;
    while k < adj_u2.len()
        invariant
            start <= k,
            start <= adj_u2@.len() ==> k <= adj_u2@.len(),
            start > adj_u2@.len() ==> k == start,
            moved == unconsumed(adj_u2@, start),
            forall|m: int| 0 <= m < adj_u2@.len() ==> (#[trigger] adj_u2@[m]) < graph@.len(),
            v_ext < graph@.len(),
            well_formed(state(graph@, next_adj@, node_to_part@, queue@)),
            state(graph@, next_adj@, node_to_part@, queue@) == rehome(
                s1,
                moved.take(k - start),
                v_ext,
                u2_ext,
            ),
            node_to_part@ == s1.node_to_part,
            graph@.len() == s1.graph.len(),
            graph@.len() == size,
            s1 == begun(s0, u_ext),
            well_formed(s0),
            u_ext < s0.graph.len(),
            moved == moved_of(s0, u_ext),
            v_ext == target(s0, u_ext),
            u2_ext == opposite(u_ext as int),
            ordered ==> merges(s0, duplicates, u_ext),
            ordered ==> during(
                s0,
                state(graph@, next_adj@, node_to_part@, queue@),
                u_ext,
                k - start,
            ),
            extends(s1.queue, queue@),
            forall|e: int|
                0 <= e < s1.graph.len() && e != v_ext ==> #[trigger] settled_or_same(
                    s1,
                    state(graph@, next_adj@, node_to_part@, queue@),
                    e,
                ),
        decreases adj_u2@.len() - k,
    {
        proof {
            assert(moved.take(k - start + 1).drop_last() =~= moved.take(k - start));
            assert(moved.take(k - start + 1).last() == adj_u2@[k as int]);
        }
        let ghost mid = state(graph@, next_adj@, node_to_part@, queue@);
        rehome_neighbor(graph, next_adj, node_to_part.as_slice(), queue, adj_u2[k], v_ext, u2_ext);
        proof {
            let now = state(graph@, next_adj@, node_to_part@, queue@);
            assert forall|e: int| 0 <= e < s1.graph.len() && e != v_ext implies #[trigger] settled_or_same(
                s1,
                now,
                e,
            ) by {
                assert(settled_or_same(mid, now, e));
                lemma_settled_chain(s1, mid, now, e);
            }
            if ordered {
                assert forall|x: int| 0 <= x < mid.graph.len() implies (#[trigger] now.graph[x]).len()
                    <= usize::MAX by {
                    assert(graph@[x].len() == graph@[x]@.len());
                }
                assert(moved[k - start] == adj_u2@[k as int]);
                assert(live(mid.node_to_part, v_ext)) by {
                    lemma_live_after_merge(
                        s0.node_to_part,
                        u_ext as int / 2,
                        (v_ext / 2) as usize,
                        v_ext,
                    );
                }
                lemma_rehome_step(s0, mid, u_ext, k - start);
            }
        }
        k += 1;
    }
    let ghost s2 = state(graph@, next_adj@, node_to_part@, queue@);
    proof {
        if start <= adj_u2@.len() {
            assert(k == adj_u2@.len());
            assert(moved.len() == k - start);
        } else {
            assert(moved.len() == 0);
        }
        assert(moved.take(k - start) =~= moved);
        lemma_rehome_keeps_forest(s1, moved, v_ext, u2_ext);
        assert(graph@[v_ext as int].len() == graph@[v_ext as int]@.len());
        lemma_settle_shape(s2.graph[v_ext as int], s2.next_adj[v_ext as int], s2.node_to_part);
    }
    let sole = is_adj_size_one(&mut graph[v_ext], &mut next_adj[v_ext], node_to_part.as_slice());
    if sole {
        let neighbor = graph[v_ext][next_adj[v_ext]];
        if v != neighbor / 2 {
            queue.push(v_ext);
        }
    }
    graph[u_ext].clear();
    proof {
        let st = settle(s2.graph[v_ext as int], s2.next_adj[v_ext as int], s2.node_to_part);
        let g3 = s2.graph.update(v_ext as int, st.adj).update(u_ext as int, Seq::empty());
        assert(adjacency(graph@) =~= g3);
        assert(next_adj@ =~= s2.next_adj.update(v_ext as int, st.next));
        assert(in_range(g3)) by {
            assert forall|e: int, k: int| 0 <= e < g3.len() && 0 <= k < g3[e].len() implies (
            #[trigger] g3[e][k]) < g3.len() by {
                if e == v_ext {
                    let m = choose|m: int|
                        0 <= m < s2.graph[v_ext as int].len() && st.adj[k] == s2.graph[v_ext as int][m];
                    assert(s2.graph[v_ext as int][m] < s2.graph.len());
                } else {
                    assert(g3[e][k] == s2.graph[e][k]);
                }
            }
        }
        assert forall|k: int| 0 <= k < queue@.len() implies (#[trigger] queue@[k]) < g3.len() by {
            if k < s2.queue.len() {
                assert(queue@[k] == s2.queue[k]);
            }
        }
        assert(next_adj@.len() == g3.len());
        assert(g3.len() + 1 == 2 * node_to_part@.len());
        let end = state(graph@, next_adj@, node_to_part@, queue@);
        if ordered {
            assert(k - start == moved.len());
            lemma_merge_finish(s0, s2, end, u_ext);
        }
        if s0.node_to_part[v_ext as int / 2] == v_ext / 2 {
            lemma_settle_ripe(s2.graph[v_ext as int], s2.next_adj[v_ext as int], s2.node_to_part);
            assert forall|e: int| 0 <= e < s0.graph.len() && e / 2 != u_ext / 2 implies #[trigger] settled_or_same(
                s0,
                end,
                e,
            ) by {
                if e == v_ext {
                    if ripe(end, e) {
                        assert(st.sole);
                        assert(end.queue[end.queue.len() - 1] == v_ext);
                    }
                } else {
                    assert(settled_or_same(s1, s2, e));
                    assert(end.graph[e] == s2.graph[e]);
                    assert(s1.graph[e] == s0.graph[e]);
                    if !(s2.graph[e] == s1.graph[e] && s2.next_adj[e] == s1.next_adj[e]) {
                        if ripe(end, e) {
                            assert(ripe(s2, e));
                            let k = choose|k: int| 0 <= k < s2.queue.len() && s2.queue[k] == e as usize;
                            assert(end.queue[k] == e as usize);
                        }
                    }
                }
            }
        }
    }
}

/// Contracts the chains of the bidirected graph and resolves the partitions.
///
/// Starting from the extremities that have a single neighbour, the node of an
/// extremity whose only live neighbour belongs to another representative is
/// merged into that representative, and its far neighbours are re-homed, until
/// no extremity is left on the work list. Duplicates, filtered nodes and the
/// telomere take no part in any merge. The graph is left as the contraction
/// leaves it; the result is the flattened forest and the number of its
/// partitions. Nodes that had one representative before have one after:
/// groups are joined, never split. And the nodes of one partition hang
/// together: a chain leads from each to each in which every node is a
/// neighbour of the next in the graph as it was, or had one representative
/// with it before.
///
/// For a graph as the builder leaves it more holds, whatever the forest holds
/// for the telomere. The test that a neighbour is another representative then
/// says no more than the plain test that it is not already merged into the
/// node, so that the contraction with the plain test comes to the same rest.
/// No chain is left to contract: no live extremity, other than the telomere
/// and those of duplicates, has for its neighbours, the telomere and the live
/// ones, a single extremity of another node that is neither the telomere nor
/// a duplicate. And the number of partitions is the number of representatives
/// at the start exactly when there was no such chain at the start.
pub fn compress_graph(
    graph: &mut [Vec<usize>],
    num_nodes: usize,
    partition_bundle: PartitionBundle,
    duplicates: &HashSet<usize>,
) -> (result: PartitionBundle)
    requires
        old(graph)@.len() == 2 * num_nodes + 1,
        in_range(adjacency(old(graph)@)),
        partition_bundle.node_to_part@.len() == num_nodes + 1,
        is_forest(partition_bundle.node_to_part@, num_nodes as int),
    ensures
        adjacency(final(graph)@) == contraction_of(
            adjacency(old(graph)@),
            partition_bundle.node_to_part@,
            duplicates@,
        ).graph,
        result.node_to_part@ == flattened(
            contraction_of(
                adjacency(old(graph)@),
                partition_bundle.node_to_part@,
                duplicates@,
            ).node_to_part,
            num_nodes as int,
        ),
        result.num_parts == count_roots(result.node_to_part@, num_nodes as int),
        result.num_parts <= num_nodes,
        result.num_parts == num_nodes <==> forall|x: int|
            0 <= x < num_nodes ==> (#[trigger] result.node_to_part@[x]) == x,
        result.node_to_part@.len() == num_nodes + 1,
        result.node_to_part@[num_nodes as int] == partition_bundle.node_to_part@[num_nodes as int],
        is_flat(result.node_to_part@, num_nodes as int),
        merged_legally(
            partition_bundle.node_to_part@,
            result.node_to_part@,
            duplicates@,
            num_nodes as int,
        ),
        is_flat(partition_bundle.node_to_part@, num_nodes as int) && kept_apart(
            partition_bundle.node_to_part@,
            duplicates@,
            num_nodes as int,
        ) ==> kept_apart(result.node_to_part@, duplicates@, num_nodes as int),
        at_rest(
            contraction_of(adjacency(old(graph)@), partition_bundle.node_to_part@, duplicates@),
            duplicates@,
        ),
        fresh(adjacency(old(graph)@), partition_bundle.node_to_part@) ==> exhausted(
            adjacency(final(graph)@),
            result.node_to_part@,
            duplicates@,
        ),
        fresh(adjacency(old(graph)@), partition_bundle.node_to_part@) ==> contraction_of(
            adjacency(old(graph)@),
            partition_bundle.node_to_part@,
            duplicates@,
        ) == plain_contraction_of(
            adjacency(old(graph)@),
            partition_bundle.node_to_part@,
            duplicates@,
        ),
        fresh(adjacency(old(graph)@), partition_bundle.node_to_part@) ==> (result.num_parts
            == count_roots(partition_bundle.node_to_part@, num_nodes as int) <==> exhausted(
            adjacency(old(graph)@),
            partition_bundle.node_to_part@,
            duplicates@,
        )),
        result.num_parts <= count_roots(partition_bundle.node_to_part@, num_nodes as int),
        forall|x: int, y: int|
            0 <= x < num_nodes && 0 <= y < num_nodes && partition_bundle.node_to_part@[x] != FILTERED
                && partition_bundle.node_to_part@[y] != FILTERED && representative(
                partition_bundle.node_to_part@,
                num_nodes as int,
                x,
            ) == representative(partition_bundle.node_to_part@, num_nodes as int, y) ==> (
            #[trigger] result.node_to_part@[x]) == (#[trigger] result.node_to_part@[y]),
        forall|x: int, y: int|
            0 <= x < num_nodes && 0 <= y < num_nodes && result.node_to_part@[x] != FILTERED && (
            #[trigger] result.node_to_part@[x]) == (#[trigger] result.node_to_part@[y]) ==> joined(
                adjacency(old(graph)@),
                partition_bundle.node_to_part@,
                num_nodes as int,
                x,
                y,
            ),
        forall|x: int|
            0 <= x < num_nodes && partition_bundle.node_to_part@[x] != FILTERED ==> (
            #[trigger] result.node_to_part@[x]) == representative(
                partition_bundle.node_to_part@,
                num_nodes as int,
                x,
            ) || (!duplicates@.contains(
                representative(partition_bundle.node_to_part@, num_nodes as int, x) as usize,
            ) && !duplicates@.contains(result.node_to_part@[x])),
{
    broadcast use vstd::std_specs::hash::group_hash_axioms;

    let ghost n = num_nodes as int;
    let ghost g0 = adjacency(graph@);
    let ghost ntp0 = partition_bundle.node_to_part@;
    let ghost dups = duplicates@;
    let mut node_to_part = partition_bundle.node_to_part;
    let size = graph.len();
    let telomer = size - 1;

    let mut next_adj: Vec<usize> = Vec::new();
    let mut e: usize = 0;
    while e < size
        invariant
            e <= size,
            next_adj@.len() == e,
            forall|a: int| 0 <= a < e ==> (#[trigger] next_adj@[a]) == 0,
        decreases size - e,
    {
        next_adj.push(0);
        e += 1;
    }

    let mut queue: Vec<usize> = Vec::new();
    let mut u_ext: usize = 0;
    while u_ext < size
        invariant
            u_ext <= size,
            size == graph@.len(),
            telomer == size - 1,
            g0 == adjacency(graph@),
            dups == duplicates@,
            in_range(g0),
            queue@ == seed_queue(g0, dups, u_ext as int),
            forall|k: int| 0 <= k < queue@.len() ==> (#[trigger] queue@[k]) < size,
        decreases size - u_ext,
    {
        let u = u_ext / 2;
        if graph[u_ext].len() == 1 && !duplicates.contains(&u) && u_ext != telomer {
            assert(g0[u_ext as int][0] < size);
            if u != graph[u_ext][0] / 2 {
                queue.push(u_ext);
            }
        }
        u_ext += 1;
    }

    let ghost start = initial(g0, ntp0, dups);
    let ghost target = contracted(start, dups);
    let ghost ordered = fresh(g0, ntp0);
    let ghost plain_target = plainly_contracted(start, dups);
    let ghost mut merged_any = false;
    proof {
        assert(next_adj@ =~= start.next_adj);
        assert(state(graph@, next_adj@, node_to_part@, queue@) == start);
        lemma_initial_queued(g0, ntp0, dups);
        if ordered {
            lemma_initial_disciplined(g0, ntp0, dups);
        }
        lemma_traceable_start(g0, ntp0, n);
    }
    while queue.len() > 0
        invariant
            n == num_nodes,
            dups == duplicates@,
            telomer == 2 * n,
            graph@.len() == 2 * n + 1,
            node_to_part@.len() == n + 1,
            well_formed(state(graph@, next_adj@, node_to_part@, queue@)),
            all_queued(state(graph@, next_adj@, node_to_part@, queue@), dups),
            ordered ==> disciplined(state(graph@, next_adj@, node_to_part@, queue@)) && mutual(
                state(graph@, next_adj@, node_to_part@, queue@),
            ),
            ordered ==> plainly_contracted(state(graph@, next_adj@, node_to_part@, queue@), dups)
                == plain_target,
            !merged_any ==> adjacency(graph@) == g0 && node_to_part@ == ntp0,
            merged_any ==> count_roots(node_to_part@, n + 1) < count_roots(ntp0, n + 1),
            count_roots(node_to_part@, n + 1) <= count_roots(ntp0, n + 1),
            contracted(state(graph@, next_adj@, node_to_part@, queue@), dups) == target,
            is_forest(ntp0, n),
            is_forest(node_to_part@, n),
            merged_legally(ntp0, node_to_part@, dups, n),
            traceable(g0, ntp0, n, adjacency(graph@), node_to_part@),
            node_to_part@[n] == ntp0[n],
        decreases count_roots(node_to_part@, n + 1), queue@.len(),
    {
        let ghost s = state(graph@, next_adj@, node_to_part@, queue@);
        let u_ext = queue.pop().unwrap();
        let ghost rest = state(graph@, next_adj@, node_to_part@, queue@);
        proof {
            assert(rest == Contraction { queue: s.queue.drop_last(), ..s });
            assert(u_ext == s.queue.last());
            assert(u_ext < graph@.len());
            assert(well_formed(rest));
        }
        let u = u_ext / 2;
        let mut merging = false;
        if node_to_part[u] == u && graph[u_ext].len() > 0 && next_adj[u_ext] == graph[u_ext].len() - 1 {
            let v_ext = graph[u_ext][next_adj[u_ext]];
            let v = v_ext / 2;
            assert(v_ext < graph@.len()) by {
                assert(rest.graph[u_ext as int][next_adj@[u_ext as int] as int] < rest.graph.len());
            }
            if u_ext != telomer && v_ext != telomer && !duplicates.contains(&u)
                && !duplicates.contains(&v) && node_to_part[v] == v && v != u {
                merging = true;
            }
        }
        assert(merging == merges(rest, dups, u_ext));
        proof {
            if ordered {
                lemma_discipline_ignores_queue(s, rest.queue);
                lemma_plain_test(rest, dups, u_ext as int);
                assert(plain_step(s, dups) == step(s, dups));
            }
        }
        if merging {
            proof {
                let v = (graph@[u_ext as int]@[next_adj@[u_ext as int] as int] / 2) as usize;
                lemma_count_roots_merge(node_to_part@, n + 1, u as int, v);
                lemma_merge_forest(node_to_part@, n, u as int, v);
                lemma_merged_legally_step(ntp0, node_to_part@, dups, n, u as int, v);
                lemma_skip_queued_while_merging(s, dups);
                lemma_merge_traceable(g0, ntp0, n, rest, dups, u_ext);
            }
            proof {
                lemma_discipline_ignores_queue(s, rest.queue);
            }
            merge_into_neighbor(
                graph,
                &mut next_adj,
                &mut node_to_part,
                &mut queue,
                u_ext,
                Ghost(dups),
            );
            proof {
                lemma_merge_queued(
                    rest,
                    state(graph@, next_adj@, node_to_part@, queue@),
                    dups,
                    u_ext,
                );
                merged_any = true;
            }
        } else {
            proof {
                lemma_skip_queued(s, dups);
                lemma_discipline_ignores_queue(s, rest.queue);
            }
        }
        proof {
            assert(state(graph@, next_adj@, node_to_part@, queue@) == step(s, dups));
            if ordered {
                lemma_plainly_contracted_unfold(s, dups);
            }
        }
    }
    proof {
        assert(state(graph@, next_adj@, node_to_part@, queue@) == target);
        lemma_at_rest(target, dups);
        lemma_merged_legally_flat(ntp0, node_to_part@, dups, n);
    }
    let result = connected_components(node_to_part, num_nodes);
    proof {
        lemma_flattened_is_flat(target.node_to_part, n);
        lemma_compress_forest(target.node_to_part, result.node_to_part@, n);
        lemma_count_roots_same(result.node_to_part@, target.node_to_part, n);
        if is_flat(ntp0, n) && kept_apart(ntp0, dups, n) {
            lemma_kept_apart(ntp0, result.node_to_part@, dups, n);
        }
        if ordered && exhausted(g0, ntp0, dups) {
            lemma_exhausted_start(g0, ntp0, dups);
            lemma_rest_stays(start, dups);
            assert(target.node_to_part == ntp0);
        }
        if ordered && !merged_any {
            assert(target.graph == g0 && target.node_to_part == ntp0);
        }
        lemma_count_roots_last(target.node_to_part, ntp0, n);
        lemma_partitions_joined(g0, ntp0, n, target.graph, target.node_to_part);
        assert forall|x: int, y: int|
            0 <= x < n && 0 <= y < n && ntp0[x] != FILTERED && ntp0[y] != FILTERED && representative(
                ntp0,
                n,
                x,
            ) == representative(ntp0, n, y) implies (#[trigger] result.node_to_part@[x]) == (
        #[trigger] result.node_to_part@[y]) by {
            assert(representative(target.node_to_part, n, x) == representative(
                target.node_to_part,
                n,
                y,
            ));
        }
        if ordered {
            assert(plain_target == target);
            lemma_exhausted(target, dups);
            lemma_exhausted_flat(target.graph, target.node_to_part, result.node_to_part@, dups, n);
        }
    }
    result
}

/// Filters the singletons of one path that are shorter than `min_size`.
fn filter_path(
    node_to_part: &mut [usize],
    part_counts: &Vec<usize>,
    num_nodes: usize,
    genomes: &Vec<Genome>,
    gi: usize,
    pi: usize,
    min_size: usize,
    Ghost(before): Ghost<Seq<usize>>,
)
    requires
        gi < genomes@.len(),
        pi < genomes@[gi as int].bundle.paths@.len(),
        genomes_in_range(genomes@, num_nodes as int),
        num_nodes <= before.len(),
        part_counts@.len() == num_nodes,
        forall|t: int|
            0 <= t < num_nodes ==> (#[trigger] part_counts@[t]) == pointers_to(
                before,
                num_nodes as int,
                t,
            ),
        refining(
            before,
            num_nodes as int,
            genomes@,
            gi as int,
            pi as int,
            0,
            min_size,
            old(node_to_part)@,
        ),
    ensures
        refining(
            before,
            num_nodes as int,
            genomes@,
            gi as int,
            pi + 1,
            0,
            min_size,
            final(node_to_part)@,
        ),
{
    let bundle = &genomes[gi].bundle;
    let path = &bundle.paths[pi];
    let mut k: usize = 0;
    while k < path.len()
        invariant
            k <= path.len(),
            gi < genomes@.len(),
            pi < genomes@[gi as int].bundle.paths@.len(),
            bundle == genomes@[gi as int].bundle,
            path == bundle.paths@[pi as int],
            genomes_in_range(genomes@, num_nodes as int),
            num_nodes <= before.len(),
            part_counts@.len() == num_nodes,
            forall|t: int|
                0 <= t < num_nodes ==> (#[trigger] part_counts@[t]) == pointers_to(
                    before,
                    num_nodes as int,
                    t,
                ),
            refining(
                before,
                num_nodes as int,
                genomes@,
                gi as int,
                pi as int,
                k as int,
                min_size,
                node_to_part@,
            ),
        decreases path.len() - k,
    {
        let id = path[k].id;
        assert(id < num_nodes) by {
            assert(genomes@[gi as int].bundle.paths@[pi as int]@[k as int].id < num_nodes);
        }
        let mut short = false;
        if min_size > 0 && pi < bundle.path_starts.len() && pi < bundle.path_ends.len() {
            let starts = &bundle.path_starts[pi];
            let ends = &bundle.path_ends[pi];
            if k < starts.len() && k < ends.len() {
                let start = starts[k];
                let end = ends[k];
                short = start > end || end - start < min_size - 1;
            }
        }
        proof {
            assert(short == short_at(genomes@, gi as int, pi as int, k as int, min_size, id as int));
            assert forall|x: int|
                short_before(genomes@, gi as int, pi as int, k + 1, min_size, x) <==> short_before(
                    genomes@,
                    gi as int,
                    pi as int,
                    k as int,
                    min_size,
                    x,
                ) || short_at(genomes@, gi as int, pi as int, k as int, min_size, x) by {
                lemma_short_before_step(genomes@, gi as int, pi as int, k as int, min_size, x);
            }
        }
        if part_counts[id] == 1 && short {
            node_to_part[id] = FILTERED;
        }
        k += 1;
    }
    proof {
        assert forall|x: int|
            short_before(genomes@, gi as int, pi as int, k as int, min_size, x) <==> short_before(
                genomes@,
                gi as int,
                pi + 1,
                0,
                min_size,
                x,
            ) by {
            lemma_short_before_wrap(genomes@, gi as int, pi as int, min_size, x);
        }
    }
}

/// Marks as filtered every node that forms a partition of its own and has an
/// occurrence whose length, from its start to its end coordinate, is below
/// `min_size`. Elements without coordinates are never short.
pub fn filter_min_size(
    node_to_part: &mut [usize],
    num_nodes: usize,
    genomes: &Vec<Genome>,
    min_size: usize,
)
    requires
        parents_in_range(old(node_to_part)@, num_nodes as int),
        genomes_in_range(genomes@, num_nodes as int),
    ensures
        final(node_to_part)@ == refined(old(node_to_part)@, num_nodes as int, genomes@, min_size),
        is_flat(old(node_to_part)@, num_nodes as int) ==> is_flat(
            final(node_to_part)@,
            num_nodes as int,
        ),
        forall|x: int|
            0 <= x < num_nodes && old(node_to_part)@[x] == FILTERED ==> #[trigger] final(node_to_part)@[x]
                == FILTERED,
{
    let ghost before = node_to_part@;
    let ghost n = num_nodes as int;
    let mut part_counts: Vec<usize> = Vec::new();
    let mut t: usize = 0;
    while t < num_nodes
        invariant
            t <= num_nodes,
            part_counts@.len() == t,
            forall|x: int| 0 <= x < t ==> (#[trigger] part_counts@[x]) == 0,
        decreases num_nodes - t,
    {
        part_counts.push(0);
        t += 1;
    }
    let mut i: usize = 0;
    while i < num_nodes
        invariant
            i <= num_nodes,
            n == num_nodes,
            node_to_part@ == before,
            parents_in_range(before, n),
            part_counts@.len() == num_nodes,
            forall|x: int|
                0 <= x < num_nodes ==> (#[trigger] part_counts@[x]) == pointers_to(before, i as int, x),
        decreases num_nodes - i,
    {
        let target = node_to_part[i];
        if target != FILTERED {
            proof {
                lemma_pointers_bound(before, i as int, target as int);
            }
            let count = part_counts[target];
            part_counts[target] = count + 1;
        }
        i += 1;
    }
    proof {
        assert forall|x: int| !short_before(genomes@, 0, 0, 0, min_size, x) by {
            lemma_short_before_ends(genomes@, min_size, x);
        }
    }
    let mut gi: usize = 0;
    while gi < genomes.len()
        invariant
            gi <= genomes.len(),
            n == num_nodes,
            genomes_in_range(genomes@, n),
            num_nodes <= before.len(),
            part_counts@.len() == num_nodes,
            forall|x: int|
                0 <= x < num_nodes ==> (#[trigger] part_counts@[x]) == pointers_to(before, n, x),
            refining(before, n, genomes@, gi as int, 0, 0, min_size, node_to_part@),
        decreases genomes.len() - gi,
    {
        let mut pi: usize = 0;
        while pi < genomes[gi].bundle.paths.len()
            invariant
                gi < genomes.len(),
                pi <= genomes@[gi as int].bundle.paths@.len(),
                n == num_nodes,
                genomes_in_range(genomes@, n),
                num_nodes <= before.len(),
                part_counts@.len() == num_nodes,
                forall|x: int|
                    0 <= x < num_nodes ==> (#[trigger] part_counts@[x]) == pointers_to(before, n, x),
                refining(before, n, genomes@, gi as int, pi as int, 0, min_size, node_to_part@),
            decreases genomes@[gi as int].bundle.paths@.len() - pi,
        {
            filter_path(
                node_to_part,
                &part_counts,
                num_nodes,
                genomes,
                gi,
                pi,
                min_size,
                Ghost(before),
            );
            pi += 1;
        }
        proof {
            assert forall|x: int|
                short_before(genomes@, gi as int, pi as int, 0, min_size, x) <==> short_before(
                    genomes@,
                    gi + 1,
                    0,
                    0,
                    min_size,
                    x,
                ) by {
                lemma_short_before_wrap(genomes@, gi as int, pi as int, min_size, x);
            }
        }
        gi += 1;
    }
    proof {
        assert forall|x: int|
            short_before(genomes@, gi as int, 0, 0, min_size, x) <==> is_short(
                genomes@,
                min_size,
                x,
            ) by {
            lemma_short_before_ends(genomes@, min_size, x);
        }
        assert(node_to_part@ =~= refined(before, n, genomes@, min_size));
        if is_flat(before, n) {
            lemma_refined_flat(before, n, genomes@, min_size);
        }
    }
}

/// The flat forest that one pass of compaction yields: the graph of the
/// paths is built over the representatives of `node_to_part`, contracted, and
/// the merge forest resolved.
pub open spec fn compacted(
    paths: Seq<Seq<SignedId>>,
    node_to_part: Seq<usize>,
    num_nodes: int,
    duplicates: Set<usize>,
) -> Seq<usize> {
    flattened(
        contraction_of(build_graph(paths, node_to_part, num_nodes), node_to_part, duplicates).node_to_part,
        num_nodes,
    )
}

/// The partitions of a pangenome: one pass of compaction from the initial
/// forest and, with a positive `min_size`, the refinement of its result
/// followed by exactly one more pass.
pub open spec fn partitions(
    genomes: Seq<Genome>,
    num_nodes: int,
    remove_duplicates: usize,
    dirty: bool,
    min_size: usize,
) -> Seq<usize> {
    let duplicates = protected_nodes(genomes, remove_duplicates, dirty);
    let start = initial_partition(num_nodes, removed_nodes(genomes, remove_duplicates, dirty));
    let first = compacted(all_paths(genomes), start, num_nodes, duplicates);
    if min_size == 0 {
        first
    } else {
        compacted(
            all_paths(genomes),
            refined(first, num_nodes, genomes, min_size),
            num_nodes,
            duplicates,
        )
    }
}

/// The partitions of a prepared pangenome: one pass over the prepared graph
/// and, with a positive `min_size`, the refinement followed by one more pass.
pub open spec fn refined_partitions(
    genomes: Seq<Genome>,
    start: Seq<usize>,
    num_nodes: int,
    duplicates: Set<usize>,
    min_size: usize,
) -> Seq<usize> {
    let first = compacted(all_paths(genomes), start, num_nodes, duplicates);
    if min_size == 0 {
        first
    } else {
        compacted(
            all_paths(genomes),
            refined(first, num_nodes, genomes, min_size),
            num_nodes,
            duplicates,
        )
    }
}

/// The forest from which the last pass of compaction starts: the forest of
/// the start or, with a positive `min_size`, the refinement of the result of
/// the first pass.
pub open spec fn last_start(
    genomes: Seq<Genome>,
    start: Seq<usize>,
    num_nodes: int,
    duplicates: Set<usize>,
    min_size: usize,
) -> Seq<usize> {
    if min_size == 0 {
        start
    } else {
        refined(compacted(all_paths(genomes), start, num_nodes, duplicates), num_nodes, genomes, min_size)
    }
}

/// The graph in which the last pass of compaction comes to rest.
pub open spec fn graph_at_rest(
    genomes: Seq<Genome>,
    start: Seq<usize>,
    num_nodes: int,
    duplicates: Set<usize>,
    min_size: usize,
) -> Seq<Seq<usize>> {
    let last = last_start(genomes, start, num_nodes, duplicates, min_size);
    contraction_of(build_graph(all_paths(genomes), last, num_nodes), last, duplicates).graph
}

/// Whether the nodes of each partition hang together: a chain leads from each
/// to each in which every node is a neighbour of the next in the graph that
/// is built over `start`, or had one representative with it in `start`.
pub open spec fn partitions_joined(
    genomes: Seq<Genome>,
    start: Seq<usize>,
    num_nodes: int,
    node_to_part: Seq<usize>,
) -> bool {
    forall|x: int, y: int|
        0 <= x < num_nodes && 0 <= y < num_nodes && node_to_part[x] != FILTERED && (
        #[trigger] node_to_part[x]) == (#[trigger] node_to_part[y]) ==> joined(
            build_graph(all_paths(genomes), start, num_nodes),
            start,
            num_nodes,
            x,
            y,
        )
}

/// Runs the passes of compaction over a prepared pangenome.
pub fn compress_loaded(
    graph_bundle: GraphBundle,
    genomes: &Vec<Genome>,
    partition_bundle: PartitionBundle,
    min_size: usize,
) -> (out: PartitionBundle)
    requires
        2 * graph_bundle.num_nodes + 1 <= usize::MAX,
        genomes_in_range(genomes@, graph_bundle.num_nodes as int),
        partition_bundle.node_to_part@.len() == graph_bundle.num_nodes + 1,
        is_flat(partition_bundle.node_to_part@, graph_bundle.num_nodes as int),
        adjacency(graph_bundle.graph@) == build_graph(
            all_paths(genomes@),
            partition_bundle.node_to_part@,
            graph_bundle.num_nodes as int,
        ),
    ensures
        out.node_to_part@ == refined_partitions(
            genomes@,
            partition_bundle.node_to_part@,
            graph_bundle.num_nodes as int,
            graph_bundle.duplicates@,
            min_size,
        ),
        out.node_to_part@.len() == graph_bundle.num_nodes + 1,
        is_flat(out.node_to_part@, graph_bundle.num_nodes as int),
        out.num_parts == count_roots(out.node_to_part@, graph_bundle.num_nodes as int),
        out.num_parts <= graph_bundle.num_nodes,
        out.num_parts == graph_bundle.num_nodes <==> forall|x: int|
            0 <= x < graph_bundle.num_nodes ==> (#[trigger] out.node_to_part@[x]) == x,
        kept_apart(
            partition_bundle.node_to_part@,
            graph_bundle.duplicates@,
            graph_bundle.num_nodes as int,
        ) ==> kept_apart(out.node_to_part@, graph_bundle.duplicates@, graph_bundle.num_nodes as int),
        forall|x: int|
            0 <= x < graph_bundle.num_nodes && partition_bundle.node_to_part@[x] == FILTERED ==> (
            #[trigger] out.node_to_part@[x]) == FILTERED,
        min_size == 0 ==> forall|x: int|
            0 <= x < graph_bundle.num_nodes && (#[trigger] out.node_to_part@[x]) == FILTERED
                ==> partition_bundle.node_to_part@[x] == FILTERED,
        out.node_to_part@[graph_bundle.num_nodes as int] == partition_bundle.node_to_part@[graph_bundle.num_nodes as int],
        min_size == 0 ==> (out.num_parts == count_roots(
            partition_bundle.node_to_part@,
            graph_bundle.num_nodes as int,
        ) <==> exhausted(
            build_graph(
                all_paths(genomes@),
                partition_bundle.node_to_part@,
                graph_bundle.num_nodes as int,
            ),
            partition_bundle.node_to_part@,
            graph_bundle.duplicates@,
        )),
        exhausted(
            graph_at_rest(
                genomes@,
                partition_bundle.node_to_part@,
                graph_bundle.num_nodes as int,
                graph_bundle.duplicates@,
                min_size,
            ),
            out.node_to_part@,
            graph_bundle.duplicates@,
        ),
        partitions_joined(
            genomes@,
            last_start(
                genomes@,
                partition_bundle.node_to_part@,
                graph_bundle.num_nodes as int,
                graph_bundle.duplicates@,
                min_size,
            ),
            graph_bundle.num_nodes as int,
            out.node_to_part@,
        ),
{
    let num_nodes = graph_bundle.num_nodes;
    let ghost start = partition_bundle.node_to_part@;
    let mut graph = graph_bundle.graph;
    let duplicates = graph_bundle.duplicates;
    proof {
        lemma_flat_is_forest(partition_bundle.node_to_part@, num_nodes as int);
        lemma_all_paths_in_range(genomes@, num_nodes as int);
        lemma_build_graph_symmetric(
            all_paths(genomes@),
            partition_bundle.node_to_part@,
            num_nodes as int,
        );
        lemma_build_graph_fresh(all_paths(genomes@), start, num_nodes as int);
    }
    let mut partition_bundle = compress_graph(
        graph.as_mut_slice(),
        num_nodes,
        partition_bundle,
        &duplicates,
    );
    if min_size != 0 {
        let ghost first = partition_bundle.node_to_part@;
        filter_min_size(partition_bundle.node_to_part.as_mut_slice(), num_nodes, genomes, min_size);
        graph = update_graph(genomes, num_nodes, partition_bundle.node_to_part.as_slice());
        proof {
            lemma_flat_is_forest(partition_bundle.node_to_part@, num_nodes as int);
            if kept_apart(start, duplicates@, num_nodes as int) {
                lemma_refined_kept_apart(first, duplicates@, num_nodes as int, genomes@, min_size);
            }
            lemma_build_graph_fresh(
                all_paths(genomes@),
                partition_bundle.node_to_part@,
                num_nodes as int,
            );
        }
        partition_bundle = compress_graph(graph.as_mut_slice(), num_nodes, partition_bundle, &duplicates);
    }
    partition_bundle
}

/// Compacts a pangenome into its partitions.
///
/// The duplicates are classified, the graph is built and contracted, and the
/// partitions are resolved. With a positive `min_size` the unmerged nodes that
/// are shorter are then filtered, the graph is rebuilt without them, and
/// contraction and resolution run once more.
pub fn compress_genomes(
    genome_bundle: GenomeBundle,
    num_nodes: usize,
    remove_duplicates: usize,
    dirty: bool,
    min_size: usize,
) -> (out: (GenomeBundle, PartitionBundle))
    requires
        remove_duplicates != 1,
        2 * num_nodes + 1 <= usize::MAX,
        genomes_in_range(genome_bundle.genomes@, num_nodes as int),
    ensures
        out.0 == genome_bundle,
        out.1.node_to_part@ == partitions(
            genome_bundle.genomes@,
            num_nodes as int,
            remove_duplicates,
            dirty,
            min_size,
        ),
        out.1.node_to_part@.len() == num_nodes + 1,
        is_flat(out.1.node_to_part@, num_nodes as int),
        out.1.num_parts == count_roots(out.1.node_to_part@, num_nodes as int),
        out.1.num_parts <= num_nodes,
        out.1.num_parts == num_nodes <==> forall|x: int|
            0 <= x < num_nodes ==> (#[trigger] out.1.node_to_part@[x]) == x,
        kept_apart(
            out.1.node_to_part@,
            protected_nodes(genome_bundle.genomes@, remove_duplicates, dirty),
            num_nodes as int,
        ),
        forall|x: int|
            0 <= x < num_nodes && removed_nodes(genome_bundle.genomes@, remove_duplicates, dirty).contains(
                x as usize,
            ) ==> (#[trigger] out.1.node_to_part@[x]) == FILTERED,
        dirty && min_size == 0 ==> forall|x: int|
            0 <= x < num_nodes ==> (#[trigger] out.1.node_to_part@[x]) != FILTERED,
        exhausted(
            graph_at_rest(
                genome_bundle.genomes@,
                initial_partition(
                    num_nodes as int,
                    removed_nodes(genome_bundle.genomes@, remove_duplicates, dirty),
                ),
                num_nodes as int,
                protected_nodes(genome_bundle.genomes@, remove_duplicates, dirty),
                min_size,
            ),
            out.1.node_to_part@,
            protected_nodes(genome_bundle.genomes@, remove_duplicates, dirty),
        ),
        partitions_joined(
            genome_bundle.genomes@,
            last_start(
                genome_bundle.genomes@,
                initial_partition(
                    num_nodes as int,
                    removed_nodes(genome_bundle.genomes@, remove_duplicates, dirty),
                ),
                num_nodes as int,
                protected_nodes(genome_bundle.genomes@, remove_duplicates, dirty),
                min_size,
            ),
            num_nodes as int,
            out.1.node_to_part@,
        ),
{
    let (graph_bundle, genome_bundle, partition_bundle) = prepare_graph(
        genome_bundle,
        num_nodes,
        remove_duplicates,
        dirty,
    );
    let partition_bundle = compress_loaded(
        graph_bundle,
        &genome_bundle.genomes,
        partition_bundle,
        min_size,
    );
    (genome_bundle, partition_bundle)
}

/// What a run yields: the genomes as read, the number of nodes, the
/// partitions, the number of nodes kept apart as duplicates, the text of the
/// two listings, the rewritten annotation where the dialect has one, and the
/// lines of the input that were passed over.
pub struct MiceOutput {
    pub genome_bundle: GenomeBundle,
    pub num_nodes: usize,
    pub partition_bundle: PartitionBundle,
    pub paths: Vec<u8>,
    pub partitions: Vec<u8>,
    pub graph: Option<GffText>,
    pub unread: Unread,
}

/// Whether `o` is what a run over `data`, read in the given dialect, yields.
pub open spec fn runs_to(
    format: GraphFormat,
    data: Seq<u8>,
    remove_duplicates: usize,
    min_size: usize,
    group_by: bool,
    dirty: bool,
    o: MiceOutput,
) -> bool {
    let genomes = o.genome_bundle.genomes@;
    let node_to_part = o.partition_bundle.node_to_part@;
    &&& reads(format, data, group_by, Ok((o.genome_bundle, o.num_nodes, o.unread)))
    &&& node_to_part == partitions(genomes, o.num_nodes as int, remove_duplicates, dirty, min_size)
    &&& o.partition_bundle.num_parts == count_roots(node_to_part, o.num_nodes as int)
    &&& o.partition_bundle.num_parts <= o.num_nodes
    &&& kept_apart(
        node_to_part,
        protected_nodes(genomes, remove_duplicates, dirty),
        o.num_nodes as int,
    )
    &&& forall|x: int|
        0 <= x < o.num_nodes && removed_nodes(genomes, remove_duplicates, dirty).contains(x as usize)
            ==> (#[trigger] node_to_part[x]) == FILTERED
    &&& dirty && min_size == 0 ==> forall|x: int|
        0 <= x < o.num_nodes ==> (#[trigger] node_to_part[x]) != FILTERED
    &&& exhausted(
        graph_at_rest(
            genomes,
            initial_partition(
                o.num_nodes as int,
                removed_nodes(genomes, remove_duplicates, dirty),
            ),
            o.num_nodes as int,
            protected_nodes(genomes, remove_duplicates, dirty),
            min_size,
        ),
        node_to_part,
        protected_nodes(genomes, remove_duplicates, dirty),
    )
    &&& partitions_joined(
        genomes,
        last_start(
            genomes,
            initial_partition(
                o.num_nodes as int,
                removed_nodes(genomes, remove_duplicates, dirty),
            ),
            o.num_nodes as int,
            protected_nodes(genomes, remove_duplicates, dirty),
            min_size,
        ),
        o.num_nodes as int,
        node_to_part,
    )
    &&& o.paths@ == paths_text(genomes, genomes.len() as int, node_to_part)
    &&& o.partitions@ == partitions_text(
        node_to_part,
        o.num_nodes as int,
        o.num_nodes as int,
        o.genome_bundle.node_indexer,
    )
    &&& match format {
        GraphFormat::Gfa => o.graph is None,
        GraphFormat::Gff => o.graph matches Some(text) && text.text@ == gff_text(genomes, node_to_part)
            && text.broken@ == broken_runs(genomes, node_to_part, genomes.len() as int),
    }
}

/// Runs the whole compaction on the content `data` of the input that `args`
/// names: loads the pangenome, compacts it, and renders the listings and the
/// rewritten annotation.
pub fn run_mice(args: &Cli, data: &[u8]) -> (out: Result<MiceOutput, LoadError>)
    requires
        args.allowed(),
    ensures
        match graph_format(string_bytes(args.graph_input), None) {
            Err(e) => out matches Err(f) && f == e,
            Ok(format) => match out {
                Err(LoadError::Parse(e)) => reads(format, data@, args.group_by, Err(e)),
                Err(LoadError::TooManyNodes) => exists|read: (GenomeBundle, usize, Unread)|
                    reads(format, data@, args.group_by, Ok(read)) && 2 * read.1 + 1 > usize::MAX,
                Err(_) => false,
                Ok(o) => runs_to(
                    format,
                    data@,
                    args.remove_duplicates,
                    args.min_size,
                    args.group_by,
                    args.dirty,
                    o,
                ),
            },
        },
{
    let input = args.graph_input.as_str();
    let (graph_bundle, genome_bundle, partition_bundle, unread) = match load_graph(
        input,
        data,
        None,
        args.remove_duplicates,
        args.group_by,
        args.dirty,
    ) {
        Ok(loaded) => loaded,
        Err(e) => {
            return Err(e);
        },
    };
    let num_nodes = graph_bundle.num_nodes;
    let partition_bundle = compress_loaded(
        graph_bundle,
        &genome_bundle.genomes,
        partition_bundle,
        args.min_size,
    );
    let ghost genomes = genome_bundle.genomes@;
    let ghost node_to_part = partition_bundle.node_to_part@;
    proof {
        assert forall|g: int, p: int, k: int|
            0 <= g < genomes.len() && 0 <= p < genomes[g].bundle.paths@.len() && 0 <= k
                < genomes[g].bundle.paths@[p]@.len() implies (#[trigger] genomes[g].bundle.paths@[p]@[k]).id
            < node_to_part.len() by {
            assert(genomes[g].bundle.paths@[p]@[k].id < num_nodes);
        }
        if all_located(genomes) {
            assert forall|g: int| 0 <= g < genomes.len() implies crate::io::gff::located(
                #[trigger] genomes[g],
            ) && indexed(genomes[g], node_to_part) by {
                assert forall|p: int, k: int|
                    0 <= p < genomes[g].bundle.paths@.len() && 0 <= k
                        < genomes[g].bundle.paths@[p]@.len() implies (
                #[trigger] genomes[g].bundle.paths@[p]@[k]).id < node_to_part.len() by {
                    assert(genomes[g].bundle.paths@[p]@[k].id < num_nodes);
                }
            }
        }
    }
    let paths = write_paths(&genome_bundle.genomes, partition_bundle.node_to_part.as_slice());
    let partitions = write_partition(
        num_nodes,
        partition_bundle.node_to_part.as_slice(),
        &genome_bundle.node_indexer,
    );
    let graph = match write_output(
        input,
        None,
        &genome_bundle.genomes,
        partition_bundle.node_to_part.as_slice(),
    ) {
        Ok(graph) => graph,
        Err(e) => {
            return Err(e);
        },
    };
    Ok(MiceOutput { genome_bundle, num_nodes, partition_bundle, paths, partitions, graph, unread })
}

/// The number of partitions of the input with content `data`, compacted in one
/// pass with every path a genome of its own and no node set apart.
pub fn run_mice_test(input: &str, data: &[u8], force_ext: Option<&str>) -> (out: Result<
    usize,
    LoadError,
>)
    ensures
        match graph_format(input.spec_bytes(), crate::io::optional_bytes(force_ext)) {
            Err(e) => out matches Err(f) && f == e,
            Ok(format) => match out {
                Err(LoadError::Parse(e)) => reads(format, data@, false, Err(e)),
                Err(LoadError::TooManyNodes) => exists|read: (GenomeBundle, usize, Unread)|
                    reads(format, data@, false, Ok(read)) && 2 * read.1 + 1 > usize::MAX,
                Err(_) => false,
                Ok(num_parts) => exists|read: (GenomeBundle, usize, Unread)|
                    reads(format, data@, false, Ok(read)) && num_parts == count_roots(
                        partitions(read.0.genomes@, read.1 as int, 0, false, 0),
                        read.1 as int,
                    ),
            },
        },
{
    let (graph_bundle, genome_bundle, partition_bundle, unread) = match load_graph(
        input,
        data,
        force_ext,
        0,
        false,
        false,
    ) {
        Ok(loaded) => loaded,
        Err(e) => {
            return Err(e);
        },
    };
    let ghost num_nodes = graph_bundle.num_nodes;
    let partition_bundle = compress_loaded(
        graph_bundle,
        &genome_bundle.genomes,
        partition_bundle,
        0,
    );
    proof {
        assert(reads(
            graph_format(input.spec_bytes(), crate::io::optional_bytes(force_ext))->Ok_0,
            data@,
            false,
            Ok((genome_bundle, num_nodes, unread)),
        ));
    }
    Ok(partition_bundle.num_parts)
}

} // verus!
