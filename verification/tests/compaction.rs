use mice::compression::{
    compress_genomes, compress_graph, connected_components, filter_min_size, is_adj_size_one,
};
use mice::duplicates::get_genome_duplicates;
use mice::io::{
    add_edge_to_graph, genomes_to_graph, prepare_graph, update_graph, Genome, GenomeBundle,
    PartitionBundle, PathBundle, SignedId, FILTERED,
};
use std::collections::HashSet;

fn plus(id: usize) -> SignedId {
    SignedId { id, plus: true }
}

fn minus(id: usize) -> SignedId {
    SignedId { id, plus: false }
}

fn genome(name: &str, paths: Vec<Vec<SignedId>>) -> Genome {
    let path_names = (0..paths.len()).map(|i| format!("{name}.{i}")).collect();
    Genome {
        name: name.to_string(),
        bundle: PathBundle {
            paths,
            path_names,
            path_starts: Vec::new(),
            path_ends: Vec::new(),
            path_sizes: Vec::new(),
        },
    }
}

fn located(name: &str, path: Vec<SignedId>, spans: Vec<(usize, usize)>) -> Genome {
    Genome {
        name: name.to_string(),
        bundle: PathBundle {
            paths: vec![path],
            path_names: vec![format!("{name}.0")],
            path_starts: vec![spans.iter().map(|s| s.0).collect()],
            path_ends: vec![spans.iter().map(|s| s.1).collect()],
            path_sizes: Vec::new(),
        },
    }
}

fn bundle(genomes: Vec<Genome>) -> GenomeBundle {
    let num_paths = genomes.iter().map(|g| g.bundle.paths.len()).sum();
    GenomeBundle { genomes, num_paths, node_indexer: None }
}

#[test]
fn linear_chain_collapses_to_one_partition() {
    let genomes = vec![
        genome("a", vec![vec![plus(0), plus(1), plus(2)]]),
        genome("b", vec![vec![plus(0), plus(1), plus(2)]]),
        genome("c", vec![vec![plus(0), plus(1), plus(2)]]),
    ];
    let (_, parts) = compress_genomes(bundle(genomes), 3, 0, false, 0);
    assert_eq!(parts.num_parts, 1);
    assert_eq!(parts.node_to_part, vec![0, 0, 0, 3]);
}

#[test]
fn reversed_traversal_collapses_too() {
    let genomes = vec![
        genome("a", vec![vec![plus(0), plus(1), plus(2)]]),
        genome("b", vec![vec![minus(2), minus(1), minus(0)]]),
    ];
    let (_, parts) = compress_genomes(bundle(genomes), 3, 0, false, 0);
    assert_eq!(parts.num_parts, 1);
    assert_eq!(parts.node_to_part[0], parts.node_to_part[1]);
    assert_eq!(parts.node_to_part[1], parts.node_to_part[2]);
}

#[test]
fn branching_nodes_do_not_merge() {
    let genomes = vec![
        genome("a", vec![vec![plus(0), plus(1)]]),
        genome("b", vec![vec![plus(0), plus(2)]]),
        genome("c", vec![vec![plus(2), plus(1)]]),
    ];
    let (_, parts) = compress_genomes(bundle(genomes), 3, 0, false, 0);
    assert_eq!(parts.num_parts, 3);
    assert_eq!(parts.node_to_part, vec![0, 1, 2, 3]);
}

#[test]
fn duplicate_stays_singleton_while_neighbours_merge() {
    // nodes: X = 0, A = 1, D = 2, B = 3, Y = 4; D occurs twice in genome "a"
    let genomes = vec![
        genome(
            "a",
            vec![vec![plus(0), plus(1), plus(2), plus(3), plus(4)], vec![plus(2)]],
        ),
        genome("b", vec![vec![plus(0), plus(1), plus(2), plus(3), plus(4)]]),
    ];
    let (_, parts) = compress_genomes(bundle(genomes), 5, 2, false, 0);
    let p = &parts.node_to_part;
    assert_eq!(parts.num_parts, 3);
    assert_eq!(p[2], 2);
    assert_eq!(p[0], p[1]);
    assert_eq!(p[3], p[4]);
    assert_ne!(p[0], p[3]);
    assert_eq!((0..5).filter(|&x| p[x] == 2).count(), 1);
}

#[test]
fn without_protection_the_duplicate_merges() {
    let genomes = vec![
        genome(
            "a",
            vec![vec![plus(0), plus(1), plus(2), plus(3), plus(4)], vec![plus(5), plus(2), plus(6)]],
        ),
        genome("b", vec![vec![plus(0), plus(1), plus(2), plus(3), plus(4)]]),
    ];
    let (_, kept) = compress_genomes(bundle(genomes.clone_genomes()), 7, 2, false, 0);
    assert_eq!(kept.node_to_part[2], 2);
    let (_, dirty) = compress_genomes(bundle(genomes.clone_genomes()), 7, 2, true, 0);
    assert!(dirty.num_parts <= kept.num_parts);
}

trait CloneGenomes {
    fn clone_genomes(&self) -> Vec<Genome>;
}

impl CloneGenomes for Vec<Genome> {
    fn clone_genomes(&self) -> Vec<Genome> {
        self.iter()
            .map(|g| Genome {
                name: g.name.clone(),
                bundle: PathBundle {
                    paths: g.bundle.paths.clone(),
                    path_names: g.bundle.path_names.clone(),
                    path_starts: g.bundle.path_starts.clone(),
                    path_ends: g.bundle.path_ends.clone(),
                    path_sizes: g.bundle.path_sizes.clone(),
                },
            })
            .collect()
    }
}

#[test]
fn threshold_filters_at_three_and_protects_at_two() {
    // node 1 occurs three times in genome "a", node 2 twice
    let genomes = vec![
        genome(
            "a",
            vec![vec![plus(0), plus(1), plus(2), plus(1), plus(3), plus(2), plus(1), plus(4)]],
        ),
        genome("b", vec![vec![plus(0), plus(3), plus(4)]]),
    ];
    let (kept, filtered) = get_genome_duplicates(&genomes, 3);
    assert_eq!(kept, HashSet::from([2]));
    assert_eq!(filtered, HashSet::from([1]));
    let (_, parts) = compress_genomes(bundle(genomes), 5, 3, false, 0);
    assert_eq!(parts.node_to_part[1], FILTERED);
    assert_eq!(parts.node_to_part[2], 2);
    assert_eq!((0..5).filter(|&x| parts.node_to_part[x] == 2).count(), 1);
}

#[test]
fn classifier_modes() {
    let genomes = vec![
        genome("a", vec![vec![plus(0), plus(1)], vec![plus(1), plus(2)]]),
        genome("b", vec![vec![plus(2), plus(2), plus(2), plus(0)]]),
    ];
    let (kept, filtered) = get_genome_duplicates(&genomes, 0);
    assert!(kept.is_empty());
    assert!(filtered.is_empty());
    let (kept, filtered) = get_genome_duplicates(&genomes, 2);
    assert_eq!(kept, HashSet::from([1, 2]));
    assert!(filtered.is_empty());
    let (kept, filtered) = get_genome_duplicates(&genomes, 3);
    assert_eq!(kept, HashSet::from([1]));
    assert_eq!(filtered, HashSet::from([2]));
    let (kept, filtered) = get_genome_duplicates(&genomes, 4);
    assert_eq!(kept, HashSet::from([1, 2]));
    assert!(filtered.is_empty());
}

#[test]
fn occurrences_are_counted_per_genome() {
    // node 0 occurs once in each genome: it recurs nowhere
    let genomes = vec![
        genome("a", vec![vec![plus(0), plus(1)]]),
        genome("b", vec![vec![plus(0), plus(1)]]),
    ];
    let (kept, filtered) = get_genome_duplicates(&genomes, 2);
    assert!(kept.is_empty());
    assert!(filtered.is_empty());
}

#[test]
fn short_singleton_is_filtered_and_neighbours_merge_across_the_gap() {
    // nodes: A = 0, M = 1, B = 2; M is 5 long and recurs in genome "a",
    // so it is protected and keeps A and B apart in the first pass
    let genomes = || {
        vec![Genome {
            name: "a".to_string(),
            bundle: PathBundle {
                paths: vec![vec![plus(0), plus(1), plus(2)], vec![plus(1)]],
                path_names: vec!["a.0".to_string(), "a.1".to_string()],
                path_starts: vec![vec![1, 101, 106], vec![1]],
                path_ends: vec![vec![100, 105, 200], vec![5]],
                path_sizes: Vec::new(),
            },
        }]
    };
    let (_, first) = compress_genomes(bundle(genomes()), 3, 2, false, 0);
    assert_eq!(first.num_parts, 3);
    assert_eq!(first.node_to_part, vec![0, 1, 2, 3]);
    let (_, second) = compress_genomes(bundle(genomes()), 3, 2, false, 10);
    assert_eq!(second.num_parts, 1);
    assert_eq!(second.node_to_part[1], FILTERED);
    assert_eq!(second.node_to_part[0], second.node_to_part[2]);
    let (_, long_enough) = compress_genomes(bundle(genomes()), 3, 2, false, 5);
    assert_eq!(long_enough.node_to_part, vec![0, 1, 2, 3]);
}

#[test]
fn optional_node_is_absorbed_by_its_only_neighbour() {
    // node 1 always follows node 0, node 2 follows node 0 or node 1
    let genomes = vec![
        genome("a", vec![vec![plus(0), plus(1), plus(2)]]),
        genome("b", vec![vec![plus(0), plus(2)]]),
    ];
    let (_, parts) = compress_genomes(bundle(genomes), 3, 0, false, 0);
    assert_eq!(parts.num_parts, 1);
    assert_eq!(parts.node_to_part, vec![0, 0, 0, 3]);
}

#[test]
fn min_size_spares_merged_and_long_nodes() {
    let genomes = vec![
        located("a", vec![plus(0), plus(1), plus(2)], vec![(1, 3), (4, 6), (7, 30)]),
        located("b", vec![plus(0), plus(1)], vec![(1, 3), (4, 6)]),
    ];
    let mut node_to_part = vec![0, 0, 2, 3];
    filter_min_size(&mut node_to_part, 3, &genomes, 10);
    assert_eq!(node_to_part, vec![0, 0, 2, 3]);
    filter_min_size(&mut node_to_part, 3, &genomes, 25);
    assert_eq!(node_to_part, vec![0, 0, FILTERED, 3]);
}

#[test]
fn min_size_boundaries() {
    let genomes = vec![located("a", vec![plus(0), plus(1)], vec![(10, 19), (30, 20)])];
    // node 0 covers exactly ten positions, node 1 ends before it starts
    let mut node_to_part = vec![0, 1, 2];
    filter_min_size(&mut node_to_part, 2, &genomes, 10);
    assert_eq!(node_to_part, vec![0, FILTERED, 2]);
    let mut node_to_part = vec![0, 1, 2];
    filter_min_size(&mut node_to_part, 2, &genomes, 11);
    assert_eq!(node_to_part, vec![FILTERED, FILTERED, 2]);
    let mut node_to_part = vec![0, 1, 2];
    filter_min_size(&mut node_to_part, 2, &genomes, 0);
    assert_eq!(node_to_part, vec![0, 1, 2]);
}

#[test]
fn elements_without_coordinates_are_never_short() {
    let genomes = vec![genome("a", vec![vec![plus(0), plus(1)]])];
    let mut node_to_part = vec![0, 1, 2];
    filter_min_size(&mut node_to_part, 2, &genomes, 1000);
    assert_eq!(node_to_part, vec![0, 1, 2]);
}

#[test]
fn resolution_flattens_and_counts() {
    let forest = vec![0, 0, 1, 2, FILTERED, 5, 5, 7];
    let resolved = connected_components(forest, 7);
    assert_eq!(resolved.node_to_part, vec![0, 0, 0, 0, FILTERED, 5, 5, 7]);
    assert_eq!(resolved.num_parts, 2);
}

#[test]
fn resolution_is_idempotent() {
    let forest = vec![3, 0, 1, 3, 2, FILTERED, 4, 7];
    let once = connected_components(forest, 7);
    let twice = connected_components(once.node_to_part.clone(), 7);
    assert_eq!(once.node_to_part, vec![3, 3, 3, 3, 3, FILTERED, 3, 7]);
    assert_eq!(twice.node_to_part, once.node_to_part);
    assert_eq!(twice.num_parts, once.num_parts);
    assert_eq!(once.num_parts, 1);
}

#[test]
fn partition_count_equals_node_count_only_without_merges() {
    let all_roots = connected_components(vec![0, 1, 2, 3], 3);
    assert_eq!(all_roots.num_parts, 3);
    let merged = connected_components(vec![0, 0, 2, 3], 3);
    assert_eq!(merged.num_parts, 2);
    let filtered = connected_components(vec![0, FILTERED, 2, 3], 3);
    assert_eq!(filtered.num_parts, 2);
}

#[test]
fn built_graph_is_exact_and_symmetric() {
    let genomes = vec![
        genome("a", vec![vec![plus(0), minus(1)]]),
        genome("b", vec![vec![plus(0), minus(1)], vec![plus(1)]]),
    ];
    let node_to_part = vec![0, 1, 2];
    let graph = genomes_to_graph(&genomes, 2, &node_to_part);
    assert_eq!(
        graph,
        vec![vec![4], vec![3], vec![4], vec![1, 4], vec![0, 2, 3]]
    );
    for (u, adj) in graph.iter().enumerate() {
        for &v in adj {
            assert!(graph[v].contains(&u));
        }
    }
}

#[test]
fn graph_skips_nodes_that_are_not_representatives() {
    let genomes = vec![genome("a", vec![vec![plus(0), plus(1), plus(2), plus(3)]])];
    let node_to_part = vec![0, FILTERED, 0, 3, 4];
    let graph = update_graph(&genomes, 4, &node_to_part);
    assert_eq!(graph[1], vec![6]);
    assert_eq!(graph[6], vec![1]);
    assert_eq!(graph[8], vec![0, 7]);
    assert!(graph[2].is_empty() && graph[3].is_empty());
    assert!(graph[4].is_empty() && graph[5].is_empty());
    let none = update_graph(&genomes, 4, &[FILTERED, FILTERED, FILTERED, FILTERED, 4]);
    assert!(none.iter().all(|adj| adj.is_empty()));
}

#[test]
fn inverted_repeat_gives_a_doubled_self_loop() {
    let genomes = vec![genome("a", vec![vec![plus(0), minus(0)]])];
    let graph = genomes_to_graph(&genomes, 1, &[0, 1]);
    assert_eq!(graph, vec![vec![2], vec![1, 1], vec![0]]);
}

#[test]
fn edges_are_recorded_once_and_from_both_ends() {
    let mut graph: Vec<Vec<usize>> = vec![Vec::new(), Vec::new(), Vec::new()];
    let mut edge_set: Vec<HashSet<usize>> = vec![HashSet::new(), HashSet::new(), HashSet::new()];
    add_edge_to_graph(0, 2, &mut graph, &mut edge_set);
    add_edge_to_graph(0, 2, &mut graph, &mut edge_set);
    add_edge_to_graph(2, 0, &mut graph, &mut edge_set);
    add_edge_to_graph(1, 0, &mut graph, &mut edge_set);
    assert_eq!(graph, vec![vec![2, 1], vec![0], vec![0]]);
}

#[test]
fn settling_skips_dead_and_repeated_neighbours() {
    // nodes 0 and 2 are representatives, node 1 is merged
    let node_to_part = vec![0, 0, 2, 3];
    let mut adj = vec![2, 3, 0, 0, 2, 3];
    let mut next = 0;
    assert!(is_adj_size_one(&mut adj, &mut next, &node_to_part));
    assert_eq!(next, 5);
    assert_eq!(adj, vec![2, 3, 0, 0, 2, 0]);

    // both extremities of node 0 are live neighbours
    let mut adj = vec![2, 0, 1];
    let mut next = 0;
    assert!(!is_adj_size_one(&mut adj, &mut next, &node_to_part));
    assert_eq!(next, 1);

    let mut adj = vec![2, 0, 4, 1];
    let mut next = 0;
    assert!(!is_adj_size_one(&mut adj, &mut next, &node_to_part));
    assert_eq!(next, 1);
    assert_eq!(adj, vec![2, 0, 4, 1]);

    let mut adj = vec![2, 3];
    let mut next = 0;
    assert!(!is_adj_size_one(&mut adj, &mut next, &node_to_part));
    assert_eq!(next, 0);
    assert_eq!(adj, vec![2, 3]);
}

#[test]
fn preparation_filters_and_protects() {
    let genomes = vec![genome(
        "a",
        vec![vec![plus(0), plus(1), plus(2), plus(1), plus(2), plus(1)]],
    )];
    let (graph, _, parts) = prepare_graph(bundle(genomes.clone_genomes()), 3, 3, false);
    assert_eq!(parts.node_to_part, vec![0, FILTERED, 2, 3]);
    assert_eq!(parts.num_parts, 0);
    assert_eq!(graph.num_nodes, 3);
    assert_eq!(graph.duplicates, HashSet::from([2]));
    assert!(graph.graph[2].is_empty() && graph.graph[3].is_empty());
    let (graph, _, parts) = prepare_graph(bundle(genomes.clone_genomes()), 3, 3, true);
    assert_eq!(parts.node_to_part, vec![0, 1, 2, 3]);
    assert_eq!(parts.num_parts, 0);
    assert!(graph.duplicates.is_empty());
    assert!(!graph.graph[2].is_empty() && !graph.graph[3].is_empty());
    let (_, parts) = compress_genomes(bundle(genomes), 3, 3, true, 0);
    assert!(parts.node_to_part.iter().all(|&p| p != FILTERED));
}

#[test]
fn contraction_spares_duplicates_and_the_telomere() {
    let genomes = vec![genome("a", vec![vec![plus(0), plus(1), plus(2)]])];
    let node_to_part = vec![0, 1, 2, 3];
    let mut graph = genomes_to_graph(&genomes, 3, &node_to_part);
    let duplicates = HashSet::from([1]);
    let parts = compress_graph(
        &mut graph,
        3,
        PartitionBundle { node_to_part, num_parts: 0 },
        &duplicates,
    );
    assert_eq!(parts.node_to_part, vec![0, 1, 2, 3]);
    assert_eq!(parts.num_parts, 3);
}

/// Whether extremity `e` has, among the telomere and its live neighbours,
/// exactly one neighbour, at another node that is neither the telomere nor a
/// duplicate.
fn has_chain(graph: &[Vec<usize>], node_to_part: &[usize], duplicates: &HashSet<usize>, e: usize) -> bool {
    let telomere = graph.len() - 1;
    let live: HashSet<usize> = graph[e]
        .iter()
        .cloned()
        .filter(|&x| x == telomere || node_to_part[x / 2] == x / 2)
        .collect();
    e != telomere
        && node_to_part[e / 2] == e / 2
        && !duplicates.contains(&(e / 2))
        && live.len() == 1
        && live.iter().all(|&x| x != telomere && x / 2 != e / 2 && !duplicates.contains(&(x / 2)))
}

#[test]
fn contraction_leaves_no_chain() {
    // two genomes share the chain 0 1 2 and part ways behind it; node 4 recurs
    let genomes = vec![
        genome("a", vec![vec![plus(0), plus(1), plus(2), plus(3), plus(4), plus(5), plus(4)]]),
        genome("b", vec![vec![plus(0), plus(1), plus(2), minus(5), plus(3)]]),
    ];
    let node_to_part: Vec<usize> = (0..7).collect();
    let duplicates = HashSet::from([4]);
    let mut graph = genomes_to_graph(&genomes, 6, &node_to_part);
    assert!((0..13).any(|e| has_chain(&graph, &node_to_part, &duplicates, e)));
    let parts = compress_graph(
        &mut graph,
        6,
        PartitionBundle { node_to_part, num_parts: 0 },
        &duplicates,
    );
    assert!(parts.num_parts < 6);
    assert_eq!(parts.node_to_part[4], 4);
    assert!((0..13).all(|e| !has_chain(&graph, &parts.node_to_part, &duplicates, e)));
}

#[test]
fn contraction_leaves_no_chain_whatever_stands_for_the_telomere() {
    let genomes = vec![
        genome("a", vec![vec![plus(0), plus(1), plus(2), plus(3), plus(4), plus(5), plus(4)]]),
        genome("b", vec![vec![plus(1), plus(2), minus(5), plus(3)], vec![plus(2), plus(0)]]),
    ];
    for slot in [6, 0, 3, FILTERED] {
        let mut node_to_part: Vec<usize> = (0..7).collect();
        node_to_part[6] = slot;
        let duplicates = HashSet::from([4]);
        let mut graph = genomes_to_graph(&genomes, 6, &node_to_part);
        for (e, list) in graph.iter().enumerate() {
            for (k, &x) in list.iter().enumerate() {
                assert!(x == 12 || node_to_part[x / 2] == x / 2);
                assert!(graph[x].contains(&e));
                assert!(x == e || !list[..k].contains(&x));
            }
        }
        let parts = compress_graph(
            &mut graph,
            6,
            PartitionBundle { node_to_part, num_parts: 0 },
            &duplicates,
        );
        assert_eq!(parts.node_to_part[6], slot);
        assert_eq!(parts.node_to_part[4], 4);
        assert!((0..13).all(|e| !has_chain(&graph, &parts.node_to_part, &duplicates, e)));
    }
}

#[test]
fn partition_count_stays_exactly_when_no_chain_exists() {
    let branching = vec![
        genome("a", vec![vec![plus(0), plus(1)]]),
        genome("b", vec![vec![plus(0), plus(2)]]),
        genome("c", vec![vec![plus(2), plus(1)]]),
    ];
    let node_to_part: Vec<usize> = (0..4).collect();
    let duplicates = HashSet::new();
    let mut graph = genomes_to_graph(&branching, 3, &node_to_part);
    assert!((0..7).all(|e| !has_chain(&graph, &node_to_part, &duplicates, e)));
    let before = graph.clone();
    let parts = compress_graph(
        &mut graph,
        3,
        PartitionBundle { node_to_part: node_to_part.clone(), num_parts: 0 },
        &duplicates,
    );
    assert_eq!(parts.num_parts, 3);
    assert_eq!(graph, before);

    let chained = vec![genome("a", vec![vec![plus(0), plus(1)]])];
    let mut graph = genomes_to_graph(&chained, 3, &node_to_part);
    assert!((0..7).any(|e| has_chain(&graph, &node_to_part, &duplicates, e)));
    let parts = compress_graph(
        &mut graph,
        3,
        PartitionBundle { node_to_part, num_parts: 0 },
        &duplicates,
    );
    assert_eq!(parts.num_parts, 2);
}

#[test]
fn built_graph_has_live_entries_without_repeats() {
    let genomes = vec![
        genome("a", vec![vec![plus(0), plus(1), plus(2), plus(1), minus(1)], vec![plus(3), plus(0)]]),
        genome("b", vec![vec![plus(1), plus(2), plus(0), plus(1)]]),
    ];
    let node_to_part = vec![0, 1, FILTERED, 0, 4];
    let graph = genomes_to_graph(&genomes, 4, &node_to_part);
    for (e, adj) in graph.iter().enumerate() {
        for (i, &x) in adj.iter().enumerate() {
            assert_eq!(node_to_part[x / 2], x / 2);
            assert!(graph[x].contains(&e));
            for &y in &adj[i + 1..] {
                assert!(x != y || x == e);
            }
        }
    }
    assert_eq!(graph[3], vec![2, 3, 3, 0, 8]);
    assert!((4..8).all(|e| graph[e].is_empty()));
}

#[test]
fn duplicates_and_filtered_nodes_never_point_at_each_other() {
    let genomes = vec![
        genome("a", vec![vec![plus(0), plus(1), plus(2), plus(3), plus(1), plus(4), plus(3), plus(3)]]),
        genome("b", vec![vec![plus(0), plus(1), plus(2), plus(4)]]),
    ];
    let (_, parts) = compress_genomes(bundle(genomes), 5, 3, false, 0);
    let p = &parts.node_to_part;
    // node 1 recurs below the threshold, node 3 reaches it
    assert_eq!(p[1], 1);
    assert_eq!(p[3], FILTERED);
    for x in 0..5 {
        assert!(x == 1 || p[x] != 1);
        assert!(p[x] != 3);
    }
}

/// The groups of nodes that hang together in `graph`: neighbours, telomere
/// aside, and nodes that share a representative in `node_to_part`.
fn groups(graph: &[Vec<usize>], node_to_part: &[usize], n: usize) -> Vec<usize> {
    let mut group: Vec<usize> = (0..n).collect();
    let mut changed = true;
    while changed {
        changed = false;
        let mut tie = |a: usize, b: usize, group: &mut Vec<usize>| {
            let low = group[a].min(group[b]);
            if group[a] != low || group[b] != low {
                group[a] = low;
                group[b] = low;
                changed = true;
            }
        };
        for (e, list) in graph.iter().enumerate() {
            for &x in list {
                if e / 2 < n && x / 2 < n {
                    tie(e / 2, x / 2, &mut group);
                }
            }
        }
        for x in 0..n {
            let mut r = x;
            while node_to_part[r] != FILTERED && node_to_part[r] != r {
                r = node_to_part[r];
            }
            if node_to_part[r] != FILTERED {
                tie(x, r, &mut group);
            }
        }
    }
    group
}

#[test]
fn partitions_hang_together_and_are_never_split() {
    let genomes = vec![
        genome("a", vec![vec![plus(0), plus(1), plus(2)], vec![plus(3), plus(4)], vec![plus(6)]]),
        genome("b", vec![vec![plus(0), plus(1), plus(2)], vec![minus(4), minus(3)]]),
        genome("c", vec![vec![plus(5), plus(6)]]),
    ];
    // node 6 starts in the group of node 5
    let node_to_part = vec![0, 1, 2, 3, 4, 5, 5, 7];
    let mut graph = genomes_to_graph(&genomes, 7, &node_to_part);
    let group = groups(&graph, &node_to_part, 7);
    assert_ne!(group[0], group[3]);
    let parts = compress_graph(
        &mut graph,
        7,
        PartitionBundle { node_to_part, num_parts: 0 },
        &HashSet::new(),
    );
    assert_eq!(parts.num_parts, 3);
    let p = &parts.node_to_part;
    assert!(p[0] == p[1] && p[1] == p[2]);
    assert_eq!(p[3], p[4]);
    assert_eq!(p[5], p[6]);
    for x in 0..7 {
        for y in 0..7 {
            if p[x] == p[y] {
                assert_eq!(group[x], group[y]);
            }
        }
    }
    assert_ne!(p[0], p[3]);
}
