//! The in-memory data of a pangenome and the construction of its bidirected
//! graph.
use std::collections::HashSet;
use vstd::prelude::*;
use vstd::slice::slice_subrange;
use vstd::string::StringSliceAdditionalSpecFns;
use crate::duplicates::{
    filtered_duplicates, get_genome_duplicates, kept_duplicates, protected_nodes, removed_nodes,
};
use crate::forest::is_flat;
use crate::graph::{
    add_edge, add_edges, add_paths, adjacency, build_graph, chain_edges, empty_graph,
    entry_extremity, exit_extremity, lemma_add_edge_shape, lemma_add_edges_push,
    lemma_add_paths_push, lemma_build_graph_symmetric, lemma_chain_push, lemma_live_step,
    live_elements, path_edges, paths_in_range, symmetric,
};
use crate::indexer::NodeIndexer;
use crate::io::gfa::{gfa_reads, Gfa};
use crate::io::gff::{indexed, located, Gff, GffText};
use crate::io::gff_paths::{all_located, gff_reads};
use crate::render::paths_named;
use crate::settling::{fresh, lemma_build_graph_fresh};
use crate::text::{
    eq_ignore_case, find_last, find_last_byte, lemma_find_last_prefix, lowered,
    same_ignoring_case, to_lower,
};

pub mod gfa;
pub mod gff;
pub mod gff_paths;
pub mod gff_rows;

verus! {

/// Marks a slot of `node_to_part` that has not been assigned.
pub const UNINITIALIZED: usize = usize::MAX;

/// Marks a node that is permanently excluded from the output.
pub const FILTERED: usize = usize::MAX - 1;

/// An oriented occurrence of a node inside a path.
#[derive(Clone, Copy, Debug, PartialEq, Eq, Hash, Structural)]
pub struct SignedId {
    pub id: usize,
    pub plus: bool,
}

/// One genome's traversal of the graph.
pub type Path = Vec<SignedId>;

/// The named paths of one genome. `path_starts` and `path_ends` hold, where the
/// input gives coordinates, one offset per element of the path of the same
/// index; `path_sizes` holds the total length of each path where the input
/// declares it.
pub struct PathBundle {
    pub paths: Vec<Path>,
    pub path_names: Vec<String>,
    pub path_starts: Vec<Vec<usize>>,
    pub path_ends: Vec<Vec<usize>>,
    pub path_sizes: Vec<usize>,
}

/// A genome: its name and its paths.
pub struct Genome {
    pub name: String,
    pub bundle: PathBundle,
}

/// The genomes of a pangenome in the order in which the input names them, the
/// number of their paths, and the names of the nodes where the input names
/// them.
pub struct GenomeBundle {
    pub genomes: Vec<Genome>,
    pub num_paths: usize,
    pub node_indexer: Option<NodeIndexer>,
}

/// What went wrong while an input was read.
#[derive(Clone, Copy, Debug, PartialEq, Eq, Structural)]
pub enum ParseError {
    /// The input declares the extent of some paths, but not of the path with
    /// this number, counted from zero in order of first appearance.
    MissingRegion(usize),
    /// The path line with this number, counted from zero among all lines,
    /// lacks a column or holds an empty element.
    MalformedPath(usize),
    /// The name of the path on the line with this number is not valid UTF-8.
    InvalidName(usize),
}

/// The two dialects of input.
#[derive(Clone, Copy, Debug, PartialEq, Eq, Structural)]
pub enum GraphFormat {
    /// The name-bearing dialect: paths over named segments.
    Gfa,
    /// The coordinate-bearing dialect: rows with start and end positions.
    Gff,
}

/// Why an input could not be loaded.
#[derive(Clone, Copy, Debug, PartialEq, Eq, Structural)]
pub enum LoadError {
    /// The extension names neither dialect.
    UnsupportedExtension,
    /// The input has no extension, and none was given.
    NoExtension,
    /// The graph of so many nodes has more extremities than a machine word
    /// can count.
    TooManyNodes,
    /// The input could not be read.
    Parse(ParseError),
}

/// The lines that could not be read and were passed over, by their number
/// among all lines, counted from zero.
pub struct Unread {
    pub rows: Vec<usize>,
    pub headers: Vec<usize>,
}

/// The paths of one genome as plain sequences, with names as bytes.
#[verifier::ext_equal]
pub struct BundleModel {
    pub paths: Seq<Seq<SignedId>>,
    pub path_names: Seq<Seq<u8>>,
    pub path_starts: Seq<Seq<usize>>,
    pub path_ends: Seq<Seq<usize>>,
    pub path_sizes: Seq<usize>,
}

/// A genome as plain sequences.
#[verifier::ext_equal]
pub struct GenomeModel {
    pub name: Seq<u8>,
    pub bundle: BundleModel,
}

/// The bidirected graph of a pangenome, the number of its nodes, and the nodes
/// that must never merge.
pub struct GraphBundle {
    pub graph: Vec<Vec<usize>>,
    pub num_nodes: usize,
    pub duplicates: HashSet<usize>,
}

/// The merge forest and the number of live partitions counted in it.
pub struct PartitionBundle {
    pub node_to_part: Vec<usize>,
    pub num_parts: usize,
}

/// The content of a bundle.
pub open spec fn bundle_model(bundle: PathBundle) -> BundleModel {
    BundleModel {
        paths: bundle_paths(bundle),
        path_names: Seq::new(
            bundle.path_names@.len(),
            |p: int| crate::text::string_bytes(bundle.path_names@[p]),
        ),
        path_starts: Seq::new(bundle.path_starts@.len(), |p: int| bundle.path_starts@[p]@),
        path_ends: Seq::new(bundle.path_ends@.len(), |p: int| bundle.path_ends@[p]@),
        path_sizes: bundle.path_sizes@,
    }
}

/// The content of a genome.
pub open spec fn genome_model(genome: Genome) -> GenomeModel {
    GenomeModel { name: crate::text::string_bytes(genome.name), bundle: bundle_model(genome.bundle) }
}

/// The content of a sequence of genomes.
pub open spec fn genome_models(genomes: Seq<Genome>) -> Seq<GenomeModel> {
    Seq::new(genomes.len(), |g: int| genome_model(genomes[g]))
}

/// The paths of one genome as sequences of oriented nodes.
pub open spec fn bundle_paths(bundle: PathBundle) -> Seq<Seq<SignedId>> {
    Seq::new(bundle.paths@.len(), |p: int| bundle.paths@[p]@)
}

/// The paths of all genomes, genome by genome.
pub open spec fn all_paths(genomes: Seq<Genome>) -> Seq<Seq<SignedId>>
    decreases genomes.len(),
{
    if genomes.len() == 0 {
        Seq::empty()
    } else {
        all_paths(genomes.drop_last()) + bundle_paths(genomes.last().bundle)
    }
}

/// Every element of every path of every genome names a node below
/// `num_nodes`.
pub open spec fn genomes_in_range(genomes: Seq<Genome>, num_nodes: int) -> bool {
    forall|g: int, p: int, k: int|
        0 <= g < genomes.len() && 0 <= p < genomes[g].bundle.paths@.len() && 0 <= k
            < genomes[g].bundle.paths@[p]@.len() ==> (#[trigger] genomes[g].bundle.paths@[p]@[k]).id
            < num_nodes
}

/// `edge_set` answers, for each extremity, exactly the neighbours that the
/// adjacency lists hold.
pub open spec fn edge_index(edge_set: Seq<HashSet<usize>>, graph: Seq<Vec<usize>>) -> bool {
    &&& edge_set.len() == graph.len()
    &&& forall|a: int, b: usize|
        0 <= a < graph.len() ==> (#[trigger] edge_set[a]@.contains(b) <==> graph[a]@.contains(b))
}

/// Genomes whose nodes are below a bound have all their paths below it.
pub proof fn lemma_all_paths_in_range(genomes: Seq<Genome>, num_nodes: int)
    requires
        genomes_in_range(genomes, num_nodes),
    ensures
        paths_in_range(all_paths(genomes), num_nodes),
    decreases genomes.len(),
{
    if genomes.len() > 0 {
        let front = genomes.drop_last();
        assert(genomes_in_range(front, num_nodes)) by {
            assert forall|g: int, p: int, k: int|
                0 <= g < front.len() && 0 <= p < front[g].bundle.paths@.len() && 0 <= k
                    < front[g].bundle.paths@[p]@.len() implies (
            #[trigger] front[g].bundle.paths@[p]@[k]).id < num_nodes by {
                assert(front[g] == genomes[g]);
            }
        }
        lemma_all_paths_in_range(front, num_nodes);
        let a = all_paths(front);
        let b = bundle_paths(genomes.last().bundle);
        assert forall|p: int, k: int| 0 <= p < (a + b).len() && 0 <= k < (a + b)[p].len() implies (
        #[trigger] (a + b)[p][k]).id < num_nodes by {
            if p >= a.len() {
                let g = genomes.len() - 1;
                assert((a + b)[p][k] == genomes[g].bundle.paths@[p - a.len()]@[k]);
            }
        }
    }
}

/// Records the edge between extremities `u` and `v`, unless it is recorded
/// already.
pub fn add_edge_to_graph(
    u: usize,
    v: usize,
    graph: &mut [Vec<usize>],
    edge_set: &mut [HashSet<usize>],
)
    requires
        u < old(graph)@.len(),
        v < old(graph)@.len(),
        edge_index(old(edge_set)@, old(graph)@),
    ensures
        final(graph)@.len() == old(graph)@.len(),
        adjacency(final(graph)@) == add_edge(adjacency(old(graph)@), u, v),
        edge_index(final(edge_set)@, final(graph)@),
        adjacency(final(graph)@)[u as int].contains(v),
        adjacency(final(graph)@)[v as int].contains(u) || adjacency(old(graph)@)[u as int].contains(v),
{
    broadcast use vstd::std_specs::hash::group_hash_axioms;

    let ghost g0 = adjacency(graph@);
    proof {
        lemma_add_edge_shape(g0, u, v);
    }
    if edge_set[u].insert(v) {
        edge_set[v].insert(u);
        graph[u].push(v);
        graph[v].push(u);
        proof {
            assert(!g0[u as int].contains(v));
            assert(adjacency(graph@) =~= add_edge(g0, u, v));
            assert forall|a: int, b: usize| 0 <= a < graph@.len() implies (
            #[trigger] edge_set@[a]@.contains(b) <==> graph@[a]@.contains(b)) by {
                let h = add_edge(g0, u, v);
                assert(graph@[a]@ == h[a]);
                if h[a].contains(b) {
                    let k = choose|k: int| 0 <= k < h[a].len() && h[a][k] == b;
                    if k < g0[a].len() {
                        assert(g0[a][k] == b);
                        assert(g0[a].contains(b));
                    }
                }
                if g0[a].contains(b) {
                    assert(h[a].contains(b));
                }
            }
        }
    } else {
        proof {
            assert(g0[u as int].contains(v));
            assert(adjacency(graph@) =~= g0);
        }
    }
}

/// The extremity through which a path enters `el`.
fn entry_of(el: SignedId) -> (ext: usize)
    requires
        2 * el.id + 1 <= usize::MAX,
    ensures
        ext == entry_extremity(el),
{
    if el.plus {
        el.id * 2
    } else {
        el.id * 2 + 1
    }
}

/// The extremity through which a path leaves `el`.
fn exit_of(el: SignedId) -> (ext: usize)
    requires
        2 * el.id + 1 <= usize::MAX,
    ensures
        ext == exit_extremity(el),
{
    if el.plus {
        el.id * 2 + 1
    } else {
        el.id * 2
    }
}

/// Records the edges of one path: from the telomere into its first live
/// element, between consecutive live elements, and from the last one back to
/// the telomere.
fn add_path_to_graph(
    path: &Path,
    node_to_part: &[usize],
    telomer: usize,
    graph: &mut [Vec<usize>],
    edge_set: &mut [HashSet<usize>],
)
    requires
        old(graph)@.len() == telomer + 1,
        telomer % 2 == 0,
        forall|k: int| 0 <= k < path@.len() ==> 2 * (#[trigger] path@[k]).id < telomer,
        2 * node_to_part@.len() >= telomer,
        edge_index(old(edge_set)@, old(graph)@),
    ensures
        final(graph)@.len() == old(graph)@.len(),
        adjacency(final(graph)@) == add_edges(
            adjacency(old(graph)@),
            path_edges(path@, node_to_part@, telomer),
        ),
        edge_index(final(edge_set)@, final(graph)@),
{
    let ghost g0 = adjacency(graph@);
    let ghost ntp = node_to_part@;
    let mut i: usize = 0;
    while i < path.len() && node_to_part[path[i].id] != path[i].id
        invariant
            i <= path.len(),
            forall|k: int| 0 <= k < path@.len() ==> 2 * (#[trigger] path@[k]).id < telomer,
            2 * node_to_part@.len() >= telomer,
            ntp == node_to_part@,
            live_elements(path@.take(i as int), ntp).len() == 0,
        decreases path@.len() - i,
    {
        proof {
            lemma_live_step(path@, ntp, i as int);
        }
        i += 1;
    }
    if i < path.len() {
        proof {
            lemma_live_step(path@, ntp, i as int);
            lemma_chain_push(live_elements(path@.take(i as int), ntp), path@[i as int], telomer);
            assert(chain_edges(live_elements(path@.take(i as int), ntp), telomer) =~= Seq::empty());
            lemma_add_edges_push(
                g0,
                Seq::empty(),
                (telomer, entry_extremity(path@[i as int]) as usize),
            );
            assert(add_edges(g0, Seq::empty()) == g0);
        }
        let mut v_extremity = entry_of(path[i]);
        add_edge_to_graph(telomer, v_extremity, graph, edge_set);
        let mut u_extremity = exit_of(path[i]);
        while i + 1 < path.len()
            invariant
                i < path.len(),
                graph@.len() == telomer + 1,
                telomer % 2 == 0,
                forall|k: int| 0 <= k < path@.len() ==> 2 * (#[trigger] path@[k]).id < telomer,
                2 * node_to_part@.len() >= telomer,
                ntp == node_to_part@,
                edge_index(edge_set@, graph@),
                live_elements(path@.take(i + 1), ntp).len() > 0,
                u_extremity < telomer,
                u_extremity == exit_extremity(live_elements(path@.take(i + 1), ntp).last()),
                adjacency(graph@) == add_edges(
                    g0,
                    chain_edges(live_elements(path@.take(i + 1), ntp), telomer),
                ),
            decreases path@.len() - i,
        {
            i += 1;
            proof {
                lemma_live_step(path@, ntp, i as int);
            }
            if node_to_part[path[i].id] == path[i].id {
                proof {
                    let live = live_elements(path@.take(i as int), ntp);
                    lemma_chain_push(live, path@[i as int], telomer);
                    lemma_add_edges_push(
                        g0,
                        chain_edges(live, telomer),
                        (u_extremity, entry_extremity(path@[i as int]) as usize),
                    );
                }
                v_extremity = entry_of(path[i]);
                add_edge_to_graph(u_extremity, v_extremity, graph, edge_set);
                u_extremity = exit_of(path[i]);
            }
        }
        proof {
            assert(path@.take(i + 1) =~= path@);
            let live = live_elements(path@, ntp);
            lemma_add_edges_push(g0, chain_edges(live, telomer), (u_extremity, telomer));
        }
        add_edge_to_graph(u_extremity, telomer, graph, edge_set);
    } else {
        proof {
            assert(path@.take(i as int) =~= path@);
        }
    }
}

/// Builds the bidirected graph of the genomes over the nodes that are
/// currently representatives in `node_to_part`. The result has one adjacency
/// list per extremity and one for the telomere, which is the last. Every edge
/// is recorded from both its ends; every recorded neighbour is the telomere
/// or live; no list holds a neighbour twice, but for an extremity in its own
/// list; and the lists of the extremities of nodes that are not live are
/// empty.
pub fn genomes_to_graph(genomes: &Vec<Genome>, num_nodes: usize, node_to_part: &[usize]) -> (graph:
    Vec<Vec<usize>>)
    requires
        2 * num_nodes + 1 <= usize::MAX,
        genomes_in_range(genomes@, num_nodes as int),
        node_to_part@.len() >= num_nodes,
    ensures
        graph@.len() == 2 * num_nodes + 1,
        adjacency(graph@) == build_graph(all_paths(genomes@), node_to_part@, num_nodes as int),
        symmetric(adjacency(graph@)),
        fresh(adjacency(graph@), node_to_part@),
{
    let size = num_nodes * 2 + 1;
    let telomer = size - 1;
    let mut edge_set: Vec<HashSet<usize>> = Vec::new();
    let mut graph: Vec<Vec<usize>> = Vec::new();
    let mut e: usize = 0;
    while e < size
        invariant
            e <= size,
            graph@.len() == e,
            edge_set@.len() == e,
            forall|a: int| 0 <= a < e ==> (#[trigger] graph@[a])@ == Seq::<usize>::empty(),
            forall|a: int| 0 <= a < e ==> (#[trigger] edge_set@[a])@ == Set::<usize>::empty(),
        decreases size - e,
    {
        edge_set.push(HashSet::new());
        graph.push(Vec::new());
        e += 1;
    }
    let ghost ntp = node_to_part@;
    let ghost g0 = empty_graph(num_nodes as int);
    proof {
        assert(adjacency(graph@) =~= g0);
        assert(edge_index(edge_set@, graph@)) by {
            assert forall|a: int, b: usize| 0 <= a < graph@.len() implies (
            #[trigger] edge_set@[a]@.contains(b) <==> graph@[a]@.contains(b)) by {
                assert(graph@[a]@ == Seq::<usize>::empty());
            }
        }
        assert(all_paths(genomes@.take(0)) =~= Seq::empty());
    }
    let mut gi: usize = 0;
    while gi < genomes.len()
        invariant
            gi <= genomes.len(),
            telomer == 2 * num_nodes,
            graph@.len() == telomer + 1,
            genomes_in_range(genomes@, num_nodes as int),
            node_to_part@.len() >= num_nodes,
            ntp == node_to_part@,
            g0 == empty_graph(num_nodes as int),
            edge_index(edge_set@, graph@),
            adjacency(graph@) == add_paths(g0, all_paths(genomes@.take(gi as int)), ntp, telomer),
        decreases genomes.len() - gi,
    {
        let genome = &genomes[gi];
        let ghost before = all_paths(genomes@.take(gi as int));
        let ghost bp = bundle_paths(genome.bundle);
        proof {
            assert(before + bp.take(0) =~= before);
        }
        let mut pi: usize = 0;
        while pi < genome.bundle.paths.len()
            invariant
                pi <= genome.bundle.paths.len(),
                gi < genomes.len(),
                genome == genomes@[gi as int],
                bp == bundle_paths(genome.bundle),
                telomer == 2 * num_nodes,
                graph@.len() == telomer + 1,
                genomes_in_range(genomes@, num_nodes as int),
                node_to_part@.len() >= num_nodes,
                ntp == node_to_part@,
                edge_index(edge_set@, graph@),
                adjacency(graph@) == add_paths(g0, before + bp.take(pi as int), ntp, telomer),
            decreases genome.bundle.paths.len() - pi,
        {
            let path = &genome.bundle.paths[pi];
            proof {
                assert forall|k: int| 0 <= k < path@.len() implies 2 * (#[trigger] path@[k]).id
                    < telomer by {
                    assert(path@[k] == genomes@[gi as int].bundle.paths@[pi as int]@[k]);
                }
                lemma_add_paths_push(g0, before + bp.take(pi as int), path@, ntp, telomer);
                assert((before + bp.take(pi as int)).push(path@) =~= before + bp.take(pi + 1));
            }
            add_path_to_graph(path, node_to_part, telomer, &mut graph, &mut edge_set);
            pi += 1;
        }
        proof {
            assert(bp.take(pi as int) =~= bp);
            assert(genomes@.take(gi + 1).drop_last() =~= genomes@.take(gi as int));
            assert(genomes@.take(gi + 1).last() == genome);
        }
        gi += 1;
    }
    proof {
        assert(genomes@.take(gi as int) =~= genomes@);
        lemma_all_paths_in_range(genomes@, num_nodes as int);
        lemma_build_graph_symmetric(all_paths(genomes@), ntp, num_nodes as int);
        lemma_build_graph_fresh(all_paths(genomes@), ntp, num_nodes as int);
    }
    graph
}

/// Rebuilds the bidirected graph from the genomes under the current
/// `node_to_part`: nodes that are filtered or merged no longer take part.
pub fn update_graph(genomes: &Vec<Genome>, num_nodes: usize, node_to_part: &[usize]) -> (graph: Vec<
    Vec<usize>,
>)
    requires
        2 * num_nodes + 1 <= usize::MAX,
        genomes_in_range(genomes@, num_nodes as int),
        node_to_part@.len() >= num_nodes,
    ensures
        graph@.len() == 2 * num_nodes + 1,
        adjacency(graph@) == build_graph(all_paths(genomes@), node_to_part@, num_nodes as int),
        symmetric(adjacency(graph@)),
        fresh(adjacency(graph@), node_to_part@),
{
    genomes_to_graph(genomes, num_nodes, node_to_part)
}

/// The forest before any merge: every node is its own representative, except
/// the nodes of `filtered`, which are filtered. The last entry stands for the
/// telomere.
pub open spec fn initial_partition(num_nodes: int, filtered: Set<usize>) -> Seq<usize> {
    Seq::new(
        (num_nodes + 1) as nat,
        |x: int|
            if x < num_nodes && filtered.contains(x as usize) {
                FILTERED
            } else {
                x as usize
            },
    )
}

/// Prepares a pangenome for compaction: classifies the duplicates, sets up the
/// initial forest with the removed nodes filtered, and builds the bidirected
/// graph over the remaining nodes. With `dirty` the classification is left
/// out: no node is protected from merging and none is removed.
pub fn prepare_graph(
    genome_bundle: GenomeBundle,
    num_nodes: usize,
    remove_duplicates: usize,
    dirty: bool,
) -> (out: (GraphBundle, GenomeBundle, PartitionBundle))
    requires
        remove_duplicates != 1,
        2 * num_nodes + 1 <= usize::MAX,
        genomes_in_range(genome_bundle.genomes@, num_nodes as int),
    ensures
        out.1 == genome_bundle,
        out.0.num_nodes == num_nodes,
        out.0.duplicates@ == protected_nodes(genome_bundle.genomes@, remove_duplicates, dirty),
        out.2.num_parts == 0,
        out.2.node_to_part@ == initial_partition(
            num_nodes as int,
            removed_nodes(genome_bundle.genomes@, remove_duplicates, dirty),
        ),
        is_flat(out.2.node_to_part@, num_nodes as int),
        out.0.graph@.len() == 2 * num_nodes + 1,
        adjacency(out.0.graph@) == build_graph(
            all_paths(genome_bundle.genomes@),
            out.2.node_to_part@,
            num_nodes as int,
        ),
        symmetric(adjacency(out.0.graph@)),
{
    broadcast use vstd::std_specs::hash::group_hash_axioms;

    let (duplicates, duplicates_to_filter) = if dirty {
        (HashSet::new(), HashSet::new())
    } else {
        get_genome_duplicates(&genome_bundle.genomes, remove_duplicates)
    };
    let mut node_to_part: Vec<usize> = Vec::new();
    let mut x: usize = 0;
    while x < num_nodes
        invariant
            x <= num_nodes,
            2 * num_nodes + 1 <= usize::MAX,
            node_to_part@.len() == x,
            forall|y: int|
                0 <= y < x ==> (#[trigger] node_to_part@[y]) == if duplicates_to_filter@.contains(
                    y as usize,
                ) {
                    FILTERED
                } else {
                    y as usize
                },
        decreases num_nodes - x,
    {
        if duplicates_to_filter.contains(&x) {
            node_to_part.push(FILTERED);
        } else {
            node_to_part.push(x);
        }
        x += 1;
    }
    node_to_part.push(num_nodes);
    proof {
        assert(node_to_part@ =~= initial_partition(num_nodes as int, duplicates_to_filter@));
    }
    let graph = genomes_to_graph(&genome_bundle.genomes, num_nodes, node_to_part.as_slice());
    (
        GraphBundle { graph, num_nodes, duplicates },
        genome_bundle,
        PartitionBundle { node_to_part, num_parts: 0 },
    )
}

/// Genomes whose nodes are below a bound have them below any larger bound.
pub proof fn lemma_in_range_grows(genomes: Seq<Genome>, n: int, m: int)
    requires
        genomes_in_range(genomes, n),
        n <= m,
    ensures
        genomes_in_range(genomes, m),
{
    assert forall|g: int, p: int, k: int|
        0 <= g < genomes.len() && 0 <= p < genomes[g].bundle.paths@.len() && 0 <= k
            < genomes[g].bundle.paths@[p]@.len() implies (#[trigger] genomes[g].bundle.paths@[p]@[k]).id
        < m by {
        assert(genomes[g].bundle.paths@[p]@[k].id < n);
    }
}

/// Genomes stay in range when genome `at` gains, or a new genome `at` brings, a
/// path whose nodes are in range.
pub proof fn lemma_in_range_with_path(
    before: Seq<Genome>,
    after: Seq<Genome>,
    at: int,
    path: Seq<SignedId>,
    n: int,
)
    requires
        genomes_in_range(before, n),
        forall|k: int| 0 <= k < path.len() ==> (#[trigger] path[k]).id < n,
        0 <= at < after.len(),
        before.len() <= after.len() <= before.len() + 1,
        forall|g: int| 0 <= g < before.len() && g != at ==> after[g] == before[g],
        at == before.len() ==> after.len() == before.len() + 1 && bundle_paths(after[at].bundle)
            == seq![path],
        at < before.len() ==> after.len() == before.len() && bundle_paths(after[at].bundle)
            == bundle_paths(before[at].bundle).push(path),
    ensures
        genomes_in_range(after, n),
{
    assert forall|g: int, p: int, k: int|
        0 <= g < after.len() && 0 <= p < after[g].bundle.paths@.len() && 0 <= k
            < after[g].bundle.paths@[p]@.len() implies (#[trigger] after[g].bundle.paths@[p]@[k]).id
        < n by {
        if g != at {
            assert(before[g].bundle.paths@[p]@[k].id < n);
        } else {
            let paths = bundle_paths(after[at].bundle);
            assert(paths.len() == after[g].bundle.paths@.len());
            assert(paths[p] == after[g].bundle.paths@[p]@);
            if at < before.len() {
                let old_paths = bundle_paths(before[at].bundle);
                assert(paths.len() == old_paths.len() + 1);
                if p < old_paths.len() {
                    assert(paths[p] == old_paths[p]);
                    assert(old_paths[p] == before[g].bundle.paths@[p]@);
                    assert(before[g].bundle.paths@[p]@[k].id < n);
                } else {
                    assert(paths[p] == path);
                }
            } else {
                assert(seq![path].len() == 1);
                assert(seq![path][0] == path);
                assert(paths[p] == path);
            }
        }
    }
}

/// The end of the last component of a path: trailing `/` and trailing
/// components `.` do not count.
pub open spec fn name_end(input: Seq<u8>, end: int) -> int
    decreases end,
{
    if end <= 0 {
        0
    } else if input[end - 1] == 47 {
        name_end(input, end - 1)
    } else if input[end - 1] == 46 && end >= 2 && input[end - 2] == 47 {
        name_end(input, end - 1)
    } else {
        end
    }
}

/// The name of the file that a path names: its last component.
pub open spec fn file_name(input: Seq<u8>) -> Seq<u8> {
    let end = name_end(input, input.len() as int);
    input.subrange(find_last(input, 47, 0, end) + 1, end)
}

/// What follows the last `.` of a name; the whole name where it has none.
pub open spec fn last_part(name: Seq<u8>) -> Seq<u8> {
    name.subrange(find_last(name, 46, 0, name.len() as int) + 1, name.len() as int)
}

/// The extension that tells the dialect of a file: what follows the last `.`
/// of its name, or, for a name that ends in `.gz`, what precedes that and
/// follows the `.` before. A name without `.`, or with none but a leading
/// one, has no extension, nor has the name `..`.
pub open spec fn extension(input: Seq<u8>) -> Option<Seq<u8>> {
    let name = file_name(input);
    let dot = find_last(name, 46, 0, name.len() as int);
    if dot <= 0 || name == seq![46u8, 46u8] {
        None
    } else if same_ignoring_case(name.subrange(dot + 1, name.len() as int), "gz".spec_bytes()) {
        Some(last_part(name.subrange(0, dot)))
    } else {
        Some(name.subrange(dot + 1, name.len() as int))
    }
}

/// The extension from which the dialect of an input is told: the given one
/// or, where none is given, that of the input's name.
pub open spec fn told_extension(input: Seq<u8>, force_ext: Option<Seq<u8>>) -> Option<Seq<u8>> {
    match force_ext {
        Some(e) => Some(e),
        None => extension(input),
    }
}

/// The dialect of an input: the one that the given extension names, or,
/// where none is given, the extension of the input. Case does not matter.
pub open spec fn graph_format(input: Seq<u8>, force_ext: Option<Seq<u8>>) -> Result<
    GraphFormat,
    LoadError,
> {
    match told_extension(input, force_ext) {
        None => Err(LoadError::NoExtension),
        Some(e) => if same_ignoring_case(e, "gfa".spec_bytes()) {
            Ok(GraphFormat::Gfa)
        } else if same_ignoring_case(e, "gff".spec_bytes()) {
            Ok(GraphFormat::Gff)
        } else {
            Err(LoadError::UnsupportedExtension)
        },
    }
}

/// The bytes of an optional string slice.
pub open spec fn optional_bytes(s: Option<&str>) -> Option<Seq<u8>> {
    match s {
        Some(e) => Some(e.spec_bytes()),
        None => None,
    }
}

/// The dialect that an extension names.
fn format_of(ext: &[u8]) -> (out: Result<GraphFormat, LoadError>)
    ensures
        out == if same_ignoring_case(ext@, "gfa".spec_bytes()) {
            Ok::<GraphFormat, LoadError>(GraphFormat::Gfa)
        } else if same_ignoring_case(ext@, "gff".spec_bytes()) {
            Ok(GraphFormat::Gff)
        } else {
            Err(LoadError::UnsupportedExtension)
        },
{
    if eq_ignore_case(ext, "gfa".as_bytes()) {
        Ok(GraphFormat::Gfa)
    } else if eq_ignore_case(ext, "gff".as_bytes()) {
        Ok(GraphFormat::Gff)
    } else {
        Err(LoadError::UnsupportedExtension)
    }
}

/// The extension of the name of an input, where it has one.
fn extension_of(bytes: &[u8]) -> (out: Option<&[u8]>)
    ensures
        match extension(bytes@) {
            Some(e) => out matches Some(found) && found@ == e,
            None => out is None,
        },
{
    let mut end: usize = bytes.len();
    while end > 0 && (bytes[end - 1] == 47 || (bytes[end - 1] == 46 && end >= 2 && bytes[end - 2]
        == 47))
        invariant
            end <= bytes@.len(),
            name_end(bytes@, end as int) == name_end(bytes@, bytes@.len() as int),
        decreases end,
    {
        end -= 1;
    }
    let head = slice_subrange(bytes, 0, end);
    let start = match find_last_byte(head, 47, 0) {
        Some(slash) => slash + 1,
        None => 0,
    };
    proof {
        assert(find_last(head@, 47, 0, end as int) == find_last(bytes@, 47, 0, end as int)) by {
            lemma_find_last_prefix(bytes@, 47, end as int, end as int);
        }
    }
    let name = slice_subrange(bytes, start, end);
    proof {
        assert(name@ == file_name(bytes@));
    }
    let dots = name.len() == 2 && name[0] == 46 && name[1] == 46;
    proof {
        if dots {
            assert(name@ =~= seq![46u8, 46u8]);
        } else if name@.len() == 2 {
            assert(seq![46u8, 46u8][0] == 46u8 && seq![46u8, 46u8][1] == 46u8);
        } else {
            assert(seq![46u8, 46u8].len() == 2);
        }
    }
    match find_last_byte(name, 46, 0) {
        None => None,
        Some(dot) => {
            if dot == 0 || dots {
                None
            } else {
                let last = slice_subrange(name, dot + 1, name.len());
                if eq_ignore_case(last, "gz".as_bytes()) {
                    let stem = slice_subrange(name, 0, dot);
                    let from = match find_last_byte(stem, 46, 0) {
                        Some(inner) => inner + 1,
                        None => 0,
                    };
                    Some(slice_subrange(stem, from, stem.len()))
                } else {
                    Some(last)
                }
            }
        },
    }
}

/// The extension from which the dialect of an input is told, in lower case:
/// the given one or, where none is given, that of the input's name. There is
/// none where none is given and the name has none.
pub fn find_extension(input: &str, force_ext: Option<&str>) -> (out: Option<Vec<u8>>)
    ensures
        match told_extension(input.spec_bytes(), optional_bytes(force_ext)) {
            Some(e) => out matches Some(found) && found@ == lowered(e),
            None => out is None,
        },
{
    let told = match force_ext {
        Some(e) => Some(e.as_bytes()),
        None => extension_of(input.as_bytes()),
    };
    match told {
        Some(e) => Some(to_lower(e)),
        None => None,
    }
}

/// Tells the dialect of an input from the given extension or, where none is
/// given, from the name of the input.
pub fn find_graph_type(input: &str, force_ext: Option<&str>) -> (out: Result<GraphFormat, LoadError>)
    ensures
        out == graph_format(input.spec_bytes(), optional_bytes(force_ext)),
{
    let told = match force_ext {
        Some(e) => Some(e.as_bytes()),
        None => extension_of(input.as_bytes()),
    };
    match told {
        Some(e) => format_of(e),
        None => Err(LoadError::NoExtension),
    }
}

/// Whether `out` is what the reader of the dialect yields on `data`.
pub open spec fn reads(
    format: GraphFormat,
    data: Seq<u8>,
    group_by: bool,
    out: Result<(GenomeBundle, usize, Unread), ParseError>,
) -> bool {
    match format {
        GraphFormat::Gfa => gfa_reads(data, group_by, out),
        GraphFormat::Gff => gff_reads(data, group_by, out),
    }
}

/// Whether `out` is what loading `data` in the given dialect yields: the
/// paths as read, the duplicates, the initial forest, and the graph; or the
/// error of the reader; or the report that the nodes are too many.
pub open spec fn loads(
    format: GraphFormat,
    data: Seq<u8>,
    remove_duplicates: usize,
    group_by: bool,
    dirty: bool,
    out: Result<(GraphBundle, GenomeBundle, PartitionBundle, Unread), LoadError>,
) -> bool {
    match out {
        Err(LoadError::Parse(e)) => reads(format, data, group_by, Err(e)),
        Err(LoadError::TooManyNodes) => exists|read: (GenomeBundle, usize, Unread)|
            reads(format, data, group_by, Ok(read)) && 2 * read.1 + 1 > usize::MAX,
        Err(_) => false,
        Ok(l) => {
            &&& reads(format, data, group_by, Ok((l.1, l.0.num_nodes, l.3)))
            &&& 2 * l.0.num_nodes + 1 <= usize::MAX
            &&& genomes_in_range(l.1.genomes@, l.0.num_nodes as int)
            &&& paths_named(l.1.genomes@)
            &&& format == GraphFormat::Gff ==> all_located(l.1.genomes@)
            &&& l.0.duplicates@ == protected_nodes(l.1.genomes@, remove_duplicates, dirty)
            &&& l.2.num_parts == 0
            &&& l.2.node_to_part@ == initial_partition(
                l.0.num_nodes as int,
                removed_nodes(l.1.genomes@, remove_duplicates, dirty),
            )
            &&& is_flat(l.2.node_to_part@, l.0.num_nodes as int)
            &&& l.0.graph@.len() == 2 * l.0.num_nodes + 1
            &&& adjacency(l.0.graph@) == build_graph(
                all_paths(l.1.genomes@),
                l.2.node_to_part@,
                l.0.num_nodes as int,
            )
            &&& symmetric(adjacency(l.0.graph@))
        },
    }
}

/// A reader and writer of one dialect.
pub trait GraphReader {
    /// The dialect.
    spec fn format(&self) -> GraphFormat;

    /// Reads the paths of `data`.
    fn read_paths(&self, data: &[u8], group_by: bool) -> (out: Result<
        (GenomeBundle, usize, Unread),
        ParseError,
    >)
        ensures
            reads(self.format(), data@, group_by, out),
            out matches Ok(read) ==> genomes_in_range(read.0.genomes@, read.1 as int) && paths_named(
                read.0.genomes@,
            ),
            out matches Ok(read) ==> (self.format() == GraphFormat::Gff ==> all_located(
                read.0.genomes@,
            )),
    ;

    /// Rewrites the genomes in the dialect with the partitions collapsed,
    /// where the dialect has such a rewriting.
    fn write_graph(&self, genomes: &Vec<Genome>, node_to_part: &[usize]) -> (out: Option<GffText>)
        requires
            self.format() == GraphFormat::Gff ==> rewritable(genomes@, node_to_part@),
        ensures
            match self.format() {
                GraphFormat::Gfa => out is None,
                GraphFormat::Gff => out matches Some(text) && text.text@ == crate::io::gff::gff_text(
                    genomes@,
                    node_to_part@,
                ) && text.broken@ == crate::io::gff::broken_runs(
                    genomes@,
                    node_to_part@,
                    genomes@.len() as int,
                ),
            },
    ;

    /// Builds the bidirected graph of the genomes.
    fn genomes_to_graph(&self, genomes: &Vec<Genome>, num_nodes: usize, node_to_part: &[usize]) -> (graph:
        Vec<Vec<usize>>)
        requires
            2 * num_nodes + 1 <= usize::MAX,
            genomes_in_range(genomes@, num_nodes as int),
            node_to_part@.len() >= num_nodes,
        ensures
            graph@.len() == 2 * num_nodes + 1,
            adjacency(graph@) == build_graph(all_paths(genomes@), node_to_part@, num_nodes as int),
            symmetric(adjacency(graph@)),
            fresh(adjacency(graph@), node_to_part@),
    {
        genomes_to_graph(genomes, num_nodes, node_to_part)
    }

    /// Classifies the nodes that recur within a genome.
    fn get_genome_duplicates(&self, genomes: &Vec<Genome>, remove_duplicates: usize) -> (sets: (
        HashSet<usize>,
        HashSet<usize>,
    ))
        requires
            remove_duplicates != 1,
        ensures
            sets.0@ == kept_duplicates(genomes@, remove_duplicates),
            sets.1@ == filtered_duplicates(genomes@, remove_duplicates),
            sets.0@.disjoint(sets.1@),
    {
        get_genome_duplicates(genomes, remove_duplicates)
    }

    /// Loads a pangenome from `data`: reads its paths and prepares the graph
    /// and the initial forest.
    fn read_graph(&self, data: &[u8], remove_duplicates: usize, group_by: bool, dirty: bool) -> (out:
        Result<(GraphBundle, GenomeBundle, PartitionBundle, Unread), LoadError>)
        requires
            remove_duplicates != 1,
        ensures
            loads(self.format(), data@, remove_duplicates, group_by, dirty, out),
    {
        let (genome_bundle, num_nodes, unread) = match self.read_paths(data, group_by) {
            Ok(read) => read,
            Err(e) => {
                return Err(LoadError::Parse(e));
            },
        };
        if num_nodes > (usize::MAX - 1) / 2 {
            proof {
                assert(reads(self.format(), data@, group_by, Ok((genome_bundle, num_nodes, unread))));
            }
            return Err(LoadError::TooManyNodes);
        }
        let (graph_bundle, genome_bundle, partition_bundle) = prepare_graph(
            genome_bundle,
            num_nodes,
            remove_duplicates,
            dirty,
        );
        Ok((graph_bundle, genome_bundle, partition_bundle, unread))
    }
}

impl GraphReader for Gfa {
    open spec fn format(&self) -> GraphFormat {
        GraphFormat::Gfa
    }

    fn read_paths(&self, data: &[u8], group_by: bool) -> (out: Result<
        (GenomeBundle, usize, Unread),
        ParseError,
    >) {
        Gfa::parse_gfa_paths(data, group_by)
    }

    fn write_graph(&self, genomes: &Vec<Genome>, node_to_part: &[usize]) -> (out: Option<GffText>) {
        None
    }
}

impl GraphReader for Gff {
    open spec fn format(&self) -> GraphFormat {
        GraphFormat::Gff
    }

    fn read_paths(&self, data: &[u8], group_by: bool) -> (out: Result<
        (GenomeBundle, usize, Unread),
        ParseError,
    >) {
        let out = Gff::parse_gff_paths(data, group_by);
        proof {
            if out is Ok {
                let genomes = out->Ok_0.0.genomes@;
                assert forall|g: int| 0 <= g < genomes.len() implies (
                #[trigger] genomes[g]).bundle.path_names@.len() == genomes[g].bundle.paths@.len() by {
                    assert(located(genomes[g]));
                }
            }
        }
        out
    }

    fn write_graph(&self, genomes: &Vec<Genome>, node_to_part: &[usize]) -> (out: Option<GffText>) {
        Some(Gff::rewrite(genomes, node_to_part))
    }
}

/// Loads a pangenome: tells the dialect of the input, reads its paths, and
/// prepares the graph and the initial forest. `input` is the name of the
/// input and `data` its content.
pub fn load_graph(
    input: &str,
    data: &[u8],
    force_ext: Option<&str>,
    remove_duplicates: usize,
    group_by: bool,
    dirty: bool,
) -> (out: Result<(GraphBundle, GenomeBundle, PartitionBundle, Unread), LoadError>)
    requires
        remove_duplicates != 1,
    ensures
        match graph_format(input.spec_bytes(), optional_bytes(force_ext)) {
            Err(e) => out == Err::<(GraphBundle, GenomeBundle, PartitionBundle, Unread), LoadError>(e),
            Ok(format) => loads(format, data@, remove_duplicates, group_by, dirty, out),
        },
{
    match find_graph_type(input, force_ext) {
        Err(e) => Err(e),
        Ok(GraphFormat::Gfa) => Gfa.read_graph(data, remove_duplicates, group_by, dirty),
        Ok(GraphFormat::Gff) => Gff.read_graph(data, remove_duplicates, group_by, dirty),
    }
}

/// Whether the genomes can be rewritten: each has names and coordinates for
/// all its paths, and all its nodes are nodes of `node_to_part`.
pub open spec fn rewritable(genomes: Seq<Genome>, node_to_part: Seq<usize>) -> bool {
    forall|g: int|
        0 <= g < genomes.len() ==> located(#[trigger] genomes[g]) && indexed(genomes[g], node_to_part)
}

/// Rewrites the input in its own dialect with the partitions collapsed. Only
/// the coordinate-bearing dialect has such a rewriting.
pub fn write_output(
    input: &str,
    force_ext: Option<&str>,
    genomes: &Vec<Genome>,
    node_to_part: &[usize],
) -> (out: Result<Option<GffText>, LoadError>)
    requires
        graph_format(input.spec_bytes(), optional_bytes(force_ext)) == Ok::<GraphFormat, LoadError>(
            GraphFormat::Gff,
        ) ==> rewritable(genomes@, node_to_part@),
    ensures
        match graph_format(input.spec_bytes(), optional_bytes(force_ext)) {
            Err(e) => out == Err::<Option<GffText>, LoadError>(e),
            Ok(GraphFormat::Gfa) => out matches Ok(None),
            Ok(GraphFormat::Gff) => out matches Ok(Some(text)) && text.text@ == crate::io::gff::gff_text(
                genomes@,
                node_to_part@,
            ) && text.broken@ == crate::io::gff::broken_runs(
                genomes@,
                node_to_part@,
                genomes@.len() as int,
            ),
        },
{
    match find_graph_type(input, force_ext) {
        Err(e) => Err(e),
        Ok(GraphFormat::Gfa) => Ok(Gfa.write_graph(genomes, node_to_part)),
        Ok(GraphFormat::Gff) => Ok(Gff.write_graph(genomes, node_to_part)),
    }
}

} // verus!
