use mice::cli::{ArgError, Cli};
use mice::compression::{run_mice, run_mice_test};
use mice::indexer::{hash_name, NodeIndexer};
use mice::io::gfa::Gfa;
use mice::io::gff::{BrokenRun, Gff};
use mice::io::gff_rows::GffRow;
use mice::io::{
    find_extension, find_graph_type, load_graph, write_output, Genome, GraphFormat, GraphReader, LoadError,
    ParseError, PathBundle, SignedId, FILTERED,
};
use mice::render::{write_partition, write_paths};
use mice::sorting::sort_positions;
use mice::text::{eq_ignore_case, find_byte, parse_number, push_decimal, to_lower, trim};

fn text(bytes: &[u8]) -> String {
    String::from_utf8(bytes.to_vec()).unwrap()
}

fn plus(id: usize) -> SignedId {
    SignedId { id, plus: true }
}

fn minus(id: usize) -> SignedId {
    SignedId { id, plus: false }
}

const GFA: &str = "H\tVN:Z:1.0\n\
S\ts1\tACGT\n\
S\ts2\tAC\n\
S\ts3\tGG\n\
P\tsampleA#chr1\ts1+,s2+,s3-\t*\n\
L\ts1\t+\ts2\t+\t0M\n\
P\tsampleA#chr2\ts3+\t*\n\
P\tsampleB#chr1\ts1+,s2+\t*\n";

#[test]
fn gfa_paths_are_grouped_by_sample() {
    let (bundle, num_nodes, unread) = Gfa::parse_gfa_paths(GFA.as_bytes(), true).unwrap();
    assert_eq!(num_nodes, 3);
    assert_eq!(bundle.num_paths, 3);
    assert!(unread.rows.is_empty() && unread.headers.is_empty());
    assert_eq!(bundle.genomes.len(), 2);
    assert_eq!(bundle.genomes[0].name, "sampleA");
    assert_eq!(bundle.genomes[1].name, "sampleB");
    assert_eq!(
        bundle.genomes[0].bundle.paths,
        vec![vec![plus(0), plus(1), minus(2)], vec![plus(2)]]
    );
    assert_eq!(
        bundle.genomes[0].bundle.path_names,
        vec!["sampleA#chr1".to_string(), "sampleA#chr2".to_string()]
    );
    assert_eq!(bundle.genomes[1].bundle.paths, vec![vec![plus(0), plus(1)]]);
    assert!(bundle.genomes[0].bundle.path_starts.is_empty());
    let indexer = bundle.node_indexer.unwrap();
    assert_eq!(indexer.next, 3);
    assert_eq!(
        indexer.names,
        vec![b"s1".to_vec(), b"s2".to_vec(), b"s3".to_vec()]
    );
}

#[test]
fn gfa_paths_are_genomes_of_their_own_without_grouping() {
    let (bundle, _, _) = Gfa::parse_gfa_paths(GFA.as_bytes(), false).unwrap();
    assert_eq!(bundle.genomes.len(), 3);
    assert_eq!(bundle.genomes[0].name, "sampleA#chr1");
    assert_eq!(bundle.genomes[1].name, "sampleA#chr2");
    assert_eq!(bundle.genomes[2].name, "sampleB#chr1");
}

#[test]
fn gfa_input_without_paths_is_empty() {
    let (bundle, num_nodes, _) = Gfa::parse_gfa_paths(b"S\ts1\tA\n", true).unwrap();
    assert_eq!(num_nodes, 0);
    assert_eq!(bundle.num_paths, 0);
    assert!(bundle.genomes.is_empty());
    let (bundle, num_nodes, _) = Gfa::parse_gfa_paths(b"", true).unwrap();
    assert_eq!((bundle.genomes.len(), num_nodes), (0, 0));
}

#[test]
fn gfa_last_line_needs_no_line_feed() {
    let (bundle, num_nodes, _) = Gfa::parse_gfa_paths(b"P\tx\ta+,b-\t*", true).unwrap();
    assert_eq!(num_nodes, 2);
    assert_eq!(bundle.genomes[0].bundle.paths, vec![vec![plus(0), minus(1)]]);
}

#[test]
fn gfa_malformed_path_lines_are_errors() {
    let missing_tab = Gfa::parse_gfa_paths(b"S\ta\tA\nP\tx\ta+,b-\n", true);
    assert_eq!(missing_tab.err(), Some(ParseError::MalformedPath(1)));
    let no_columns = Gfa::parse_gfa_paths(b"P\n", true);
    assert_eq!(no_columns.err(), Some(ParseError::MalformedPath(0)));
    let empty_element = Gfa::parse_gfa_paths(b"P\tx\ta+,,b-\t*\n", true);
    assert_eq!(empty_element.err(), Some(ParseError::MalformedPath(0)));
    let empty_list = Gfa::parse_gfa_paths(b"P\tx\t\t*\n", true);
    assert_eq!(empty_list.err(), Some(ParseError::MalformedPath(0)));
    let bad_name = Gfa::parse_gfa_paths(b"P\t\xff\xfe\ta+\t*\n", true);
    assert_eq!(bad_name.err(), Some(ParseError::InvalidName(0)));
}

#[test]
fn gfa_genome_name_is_the_part_before_the_hash() {
    assert_eq!(Gfa::path_name_to_genome_string("a#1#chr".to_string()), "a");
    assert_eq!(Gfa::path_name_to_genome_string("plain".to_string()), "plain");
    assert_eq!(Gfa::path_name_to_genome_string("#x".to_string()), "");
    assert_eq!(Gfa::path_name_to_genome_string("gén#ome".to_string()), "gén");
}

#[test]
fn gfa_nodes_are_numbered_by_first_appearance() {
    let mut indexer = NodeIndexer::new();
    assert_eq!(Gfa::parse_path_node(b"n7+", &mut indexer), plus(0));
    assert_eq!(Gfa::parse_path_node(b"n3-", &mut indexer), minus(1));
    assert_eq!(Gfa::parse_path_node(b"n7-", &mut indexer), minus(0));
    assert_eq!(Gfa::parse_path_node(b"n7?", &mut indexer), minus(0));
    assert_eq!(Gfa::parse_path_node(b"+", &mut indexer), plus(2));
    assert_eq!(indexer.next, 3);
    let line = b"P\tp\tn3+,n9+\t*\n";
    let (name, path) = Gfa::parse_path_seq_to_signed_id_vec(line, &mut indexer, 0).unwrap();
    assert_eq!(name, "p");
    assert_eq!(path, vec![plus(1), plus(3)]);
}

#[test]
fn indexer_gives_dense_ids_and_remembers() {
    let mut indexer = NodeIndexer::new();
    let names: Vec<String> = (0..500).map(|i| format!("node{}", (i * 7) % 250)).collect();
    let mut seen: Vec<String> = Vec::new();
    for name in &names {
        let expected = match seen.iter().position(|s| s == name) {
            Some(i) => i,
            None => {
                seen.push(name.clone());
                seen.len() - 1
            }
        };
        assert_eq!(indexer.lookup(name.as_bytes()).is_some(), expected + 1 < seen.len() || indexer.next == seen.len());
        assert_eq!(indexer.id_for(name.as_bytes()), expected);
        assert_eq!(indexer.lookup(name.as_bytes()), Some(expected));
    }
    assert_eq!(indexer.next, 250);
    assert_eq!(indexer.lookup(b"absent"), None);
    assert_eq!(hash_name(b""), 0);
    assert_eq!(hash_name(b"a"), 97);
    assert_eq!(hash_name(b"ab"), 97 * 131 + 98);
}

const GFF: &str = "##gff-version 3\n\
##sequence-region G1.chr1 1 500\n\
##sequence-region G2.chr1 1 400\n\
G1.chr1\tSibeliaZ\tSO:0000856\t100\t199\t.\t+\t.\tID=1;genome=G1\n\
G1.chr1\tSibeliaZ\tSO:0000856\t10\t90\t.\t-\t.\tID=2;genome=G1\n\
G2.chr1\tSibeliaZ\tSO:0000856\t5\t50\t.\t+\t.\tid= 3 ;Genome=G2\n\
broken row\n\
G1.chr1\tSibeliaZ\tSO:0000856\t300\t350\t.\t+\t.\tID=3;genome=G1\n";

#[test]
fn gff_rows_become_sorted_paths() {
    let (bundle, num_nodes, unread) = Gff::parse_gff_paths(GFF.as_bytes(), true).unwrap();
    assert_eq!(num_nodes, 3);
    assert_eq!(bundle.num_paths, 2);
    assert!(bundle.node_indexer.is_none());
    assert_eq!(unread.rows, vec![6]);
    assert!(unread.headers.is_empty());
    assert_eq!(bundle.genomes.len(), 2);
    let g1 = &bundle.genomes[0];
    assert_eq!(g1.name, "G1");
    assert_eq!(g1.bundle.path_names, vec!["G1.chr1".to_string()]);
    assert_eq!(g1.bundle.paths, vec![vec![minus(1), plus(0), plus(2)]]);
    assert_eq!(g1.bundle.path_starts, vec![vec![10, 100, 300]]);
    assert_eq!(g1.bundle.path_ends, vec![vec![90, 199, 350]]);
    assert_eq!(g1.bundle.path_sizes, vec![500]);
    let g2 = &bundle.genomes[1];
    assert_eq!(g2.name, "G2");
    assert_eq!(g2.bundle.paths, vec![vec![plus(2)]]);
    assert_eq!(g2.bundle.path_sizes, vec![400]);
}

#[test]
fn gff_paths_are_genomes_of_their_own_without_grouping() {
    let (bundle, _, _) = Gff::parse_gff_paths(GFF.as_bytes(), false).unwrap();
    assert_eq!(bundle.genomes.len(), 2);
    assert_eq!(bundle.genomes[0].name, "G1.chr1");
    assert_eq!(bundle.genomes[1].name, "G2.chr1");
}

#[test]
fn gff_without_headers_has_no_sizes() {
    let data = "c1\ts\tf\t3\t4\t.\t+\t.\tID=5;genome=g\nc2\ts\tf\t1\t2\t.\t+\t.\tID=1;genome=g\n";
    let (bundle, num_nodes, _) = Gff::parse_gff_paths(data.as_bytes(), true).unwrap();
    assert_eq!(num_nodes, 5);
    assert_eq!(bundle.genomes.len(), 1);
    assert_eq!(bundle.genomes[0].bundle.paths, vec![vec![plus(4)], vec![plus(0)]]);
    assert!(bundle.genomes[0].bundle.path_sizes.is_empty());
    let (empty, num_nodes, _) = Gff::parse_gff_paths(b"", true).unwrap();
    assert_eq!((empty.genomes.len(), num_nodes), (0, 1));
}

#[test]
fn gff_path_without_declared_extent_is_an_error() {
    let data = "##sequence-region c1 1 9\n\
c1\ts\tf\t3\t4\t.\t+\t.\tID=1;genome=g\n\
c2\ts\tf\t1\t2\t.\t+\t.\tID=2;genome=g\n";
    let out = Gff::parse_gff_paths(data.as_bytes(), true);
    assert_eq!(out.err(), Some(ParseError::MissingRegion(1)));
}

#[test]
fn gff_later_extent_replaces_earlier() {
    let data = "##sequence-region c1 1 9\n##sequence-region c1 1 12\n##bad header\n\
c1\ts\tf\t3\t4\t.\t+\t.\tID=1;genome=g\n";
    let (bundle, _, unread) = Gff::parse_gff_paths(data.as_bytes(), true).unwrap();
    assert_eq!(bundle.genomes[0].bundle.path_sizes, vec![12]);
    assert_eq!(unread.headers, vec![2]);
}

#[test]
fn gff_rows_with_equal_starts_keep_their_order() {
    let data = "c\ts\tf\t7\t8\t.\t+\t.\tID=1;genome=g\n\
c\ts\tf\t2\t3\t.\t+\t.\tID=2;genome=g\n\
c\ts\tf\t7\t9\t.\t+\t.\tID=3;genome=g\n\
c\ts\tf\t2\t4\t.\t+\t.\tID=4;genome=g\n";
    let (bundle, _, _) = Gff::parse_gff_paths(data.as_bytes(), true).unwrap();
    assert_eq!(
        bundle.genomes[0].bundle.paths,
        vec![vec![plus(1), plus(3), plus(0), plus(2)]]
    );
    assert_eq!(bundle.genomes[0].bundle.path_ends, vec![vec![3, 4, 8, 9]]);
}

#[test]
fn gff_row_fields() {
    let row = Gff::extract_gff_info_from_row(b"chr\tsrc\tfeat\t12\t+34\t.\t-\t.\tfoo=bar; ID= 7 ;genome=G 1\n");
    let (seqname, genome, row) = row.unwrap();
    assert_eq!(seqname, "chr");
    assert_eq!(genome, "G 1");
    assert_eq!(row, GffRow { start: 12, end: 34, strand: false, id: 6 });
    let later_wins = Gff::extract_gff_info_from_row(b"c\ts\tf\t1\t2\t.\t+\t.\tID=4;genome=a;id=9;GENOME=b\n");
    let (_, genome, row) = later_wins.unwrap();
    assert_eq!((genome.as_str(), row.id, row.strand), ("b", 8, true));
    let bad_id_is_passed_over = Gff::extract_gff_info_from_row(b"c\ts\tf\t1\t2\t.\t+\t.\tID=4;ID=x;genome=a");
    assert_eq!(bad_id_is_passed_over.unwrap().2.id, 3);
    // white space beyond ASCII is trimmed too
    let wide = Gff::extract_gff_info_from_row("c\ts\tf\t1\t2\t.\t+\t.\t\u{2003}ID=\u{a0}12\u{3000};genome=g\u{85}".as_bytes());
    let (_, genome, row) = wide.unwrap();
    assert_eq!((genome.as_str(), row.id), ("g", 11));
    // a key is not trimmed on its own: `ID ` is no node number
    assert!(Gff::extract_gff_info_from_row(b"c\ts\tf\t1\t2\t.\t+\t.\tID =4;genome=a").is_none());
}

#[test]
fn gff_unreadable_rows() {
    assert!(Gff::extract_gff_info_from_row(b"c\ts\tf\t1\t2\t.\t+\t.\n").is_none());
    assert!(Gff::extract_gff_info_from_row(b"c\ts\tf\tx\t2\t.\t+\t.\tID=1;genome=g\n").is_none());
    assert!(Gff::extract_gff_info_from_row(b"c\ts\tf\t1\t \t.\t+\t.\tID=1;genome=g\n").is_none());
    assert!(Gff::extract_gff_info_from_row(b"c\ts\tf\t1\t2\t.\t+\t.\tgenome=g\n").is_none());
    assert!(Gff::extract_gff_info_from_row(b"c\ts\tf\t1\t2\t.\t+\t.\tID=1\n").is_none());
    assert!(Gff::extract_gff_info_from_row(b"c\ts\tf\t1\t2\t.\t+\t.\tID=0;genome=g\n").is_none());
    assert!(Gff::extract_gff_info_from_row(b"\xff\ts\tf\t1\t2\t.\t+\t.\tID=1;genome=g\n").is_none());
    assert!(Gff::extract_gff_info_from_row(b"c\ts\tf\t1\t2\t.\t+\t.\tID=1;genome=g;x=\xff\n").is_none());
    assert!(Gff::extract_gff_info_from_row(b"c\ts\tf\t1\t99999999999999999999999\t.\t+\t.\tID=1;genome=g\n").is_none());
    assert!(Gff::extract_gff_info_from_row(b"\n").is_none());
}

#[test]
fn gff_header_fields() {
    assert_eq!(
        Gff::parse_gff_header(b"##sequence-region chr7 1 1500 \n"),
        Some(("chr7".to_string(), 1, 1500))
    );
    assert_eq!(Gff::parse_gff_header(b"##sequence-region chr7 1\n"), None);
    assert_eq!(Gff::parse_gff_header(b"##sequence-region chr7 one 15\n"), None);
    assert_eq!(Gff::parse_gff_header(b"##sequence-region chr7 1 15 16\n"), None);
    assert_eq!(Gff::parse_gff_header(b"#comment\n"), None);
}

fn located(name: &str, path: Vec<SignedId>, spans: Vec<(usize, usize)>, size: usize) -> Genome {
    Genome {
        name: name.to_string(),
        bundle: PathBundle {
            paths: vec![path],
            path_names: vec![format!("{name}.chr")],
            path_starts: vec![spans.iter().map(|s| s.0).collect()],
            path_ends: vec![spans.iter().map(|s| s.1).collect()],
            path_sizes: vec![size],
        },
    }
}

#[test]
fn rewriting_collapses_runs_and_annotates_gaps() {
    // nodes 0 and 1 form partition 1 (representative 0), node 2 is filtered,
    // node 3 is a partition of its own
    let node_to_part = vec![0, 0, FILTERED, 3, 4];
    let genomes = vec![located(
        "g",
        vec![minus(0), plus(2), plus(1), plus(3), plus(2)],
        vec![(10, 20), (25, 30), (41, 50), (51, 60), (70, 80)],
        100,
    )];
    let out = Gff::rewrite(&genomes, &node_to_part);
    assert!(out.broken.is_empty());
    assert_eq!(
        text(&out.text),
        "##gff-version 3\n\
##sequence-region g.chr 1 100\n\
g.chr\tmice\tSO:0000856\t10\t50\t.\t-\t.\tID=1;genome=g\n\
g.chr\tmice\tfiltered\t25\t30\t.\t-\t.\tgenome=g\n\
g.chr\tmice\tNs\t21\t24\t.\t-\t.\tgenome=g\n\
g.chr\tmice\tNs\t31\t40\t.\t-\t.\tgenome=g\n\
g.chr\tmice\tSO:0000856\t51\t60\t.\t+\t.\tID=4;genome=g\n"
    );
}

#[test]
fn rewriting_clips_filtered_ranges_to_the_gap() {
    let node_to_part = vec![0, FILTERED, 0, 3];
    let genomes = vec![located(
        "g",
        vec![plus(0), plus(1), plus(1), plus(2)],
        vec![(1, 10), (8, 12), (13, 22), (20, 30)],
        30,
    )];
    let out = Gff::rewrite(&genomes, &node_to_part);
    assert_eq!(
        text(&out.text),
        "##gff-version 3\n\
##sequence-region g.chr 1 30\n\
g.chr\tmice\tSO:0000856\t1\t30\t.\t+\t.\tID=1;genome=g\n\
g.chr\tmice\tfiltered\t11\t19\t.\t+\t.\tgenome=g\n"
    );
    // neighbours that touch leave no room for the filtered range
    let touching = vec![located(
        "g",
        vec![plus(0), plus(1), plus(2)],
        vec![(1, 10), (5, 15), (11, 30)],
        30,
    )];
    let out = Gff::rewrite(&touching, &node_to_part);
    assert_eq!(
        text(&out.text),
        "##gff-version 3\n\
##sequence-region g.chr 1 30\n\
g.chr\tmice\tSO:0000856\t1\t30\t.\t+\t.\tID=1;genome=g\n"
    );
}

#[test]
fn rewriting_cuts_runs_with_several_representatives() {
    // node 0 recurs in the run; nodes 1 and 2 are merged into it
    let node_to_part = vec![0, 0, 0, 3];
    let genomes = vec![located(
        "g",
        vec![plus(1), plus(0), plus(2), minus(0), plus(1)],
        vec![(1, 5), (6, 10), (11, 15), (16, 20), (21, 25)],
        25,
    )];
    let out = Gff::rewrite(&genomes, &node_to_part);
    assert!(out.broken.is_empty());
    assert_eq!(
        text(&out.text),
        "##gff-version 3\n\
##sequence-region g.chr 1 25\n\
g.chr\tmice\tSO:0000856\t1\t15\t.\t+\t.\tID=1;genome=g\n\
g.chr\tmice\tSO:0000856\t16\t25\t.\t-\t.\tID=1;genome=g\n"
    );
}

#[test]
fn rewriting_abandons_a_genome_at_a_run_without_representative() {
    // node 1 points at node 0, which does not occur in genome "a"
    let node_to_part = vec![0, 0, 2, 3];
    let genomes = vec![
        located("a", vec![plus(2), plus(1), plus(2)], vec![(1, 5), (6, 10), (11, 15)], 15),
        located("b", vec![plus(0), plus(1)], vec![(1, 5), (6, 10)], 10),
    ];
    let out = Gff::rewrite(&genomes, &node_to_part);
    assert_eq!(out.broken, vec![BrokenRun { genome: 0, path: 0, first: 1, last: 1 }]);
    assert_eq!(
        text(&out.text),
        "##gff-version 3\n\
##sequence-region a.chr 1 15\n\
##sequence-region b.chr 1 10\n\
a.chr\tmice\tSO:0000856\t1\t5\t.\t+\t.\tID=3;genome=a\n\
b.chr\tmice\tSO:0000856\t1\t10\t.\t+\t.\tID=1;genome=b\n"
    );
}

#[test]
fn rewriting_skips_filtered_ends() {
    let node_to_part = vec![FILTERED, 1, FILTERED, 3];
    let genomes = vec![located(
        "g",
        vec![plus(0), plus(1), plus(2)],
        vec![(1, 5), (6, 10), (11, 15)],
        15,
    )];
    let out = Gff::rewrite(&genomes, &node_to_part);
    assert_eq!(
        text(&out.text),
        "##gff-version 3\n\
##sequence-region g.chr 1 15\n\
g.chr\tmice\tSO:0000856\t6\t10\t.\t+\t.\tID=2;genome=g\n"
    );
    let all_filtered = Gff::rewrite(&genomes, &[FILTERED, FILTERED, FILTERED, 3]);
    assert_eq!(
        text(&all_filtered.text),
        "##gff-version 3\n##sequence-region g.chr 1 15\n"
    );
}

#[test]
fn path_listing_keeps_representatives_only() {
    let genomes = vec![
        located("a", vec![plus(0), minus(1), plus(2), plus(3)], vec![(1, 2); 4], 9),
        located("b", vec![plus(1)], vec![(1, 2)], 9),
    ];
    let node_to_part = vec![0, 0, FILTERED, 3, 4];
    assert_eq!(
        text(&write_paths(&genomes, &node_to_part)),
        ">a#a.chr\n1+,4+\n>b#b.chr\n\n"
    );
    assert_eq!(text(&write_paths(&Vec::new(), &node_to_part)), "");
}

#[test]
fn partition_listing_names_members() {
    let node_to_part = vec![2, FILTERED, 2, 3, 2, 5];
    assert_eq!(
        text(&write_partition(5, &node_to_part, &None)),
        "3: 1 3 5\n4: 4\n"
    );
    let mut indexer = NodeIndexer::new();
    for name in ["alpha", "beta", "gamma", "delta", "eps"] {
        indexer.id_for(name.as_bytes());
    }
    assert_eq!(
        text(&write_partition(5, &node_to_part, &Some(indexer))),
        "gamma: alpha gamma eps\ndelta: delta\n"
    );
    assert_eq!(text(&write_partition(0, &[0], &None)), "");
}

#[test]
fn dialect_is_told_from_the_extension() {
    assert_eq!(find_graph_type("dir/graph.gfa", None), Ok(GraphFormat::Gfa));
    assert_eq!(find_graph_type("graph.GFF", None), Ok(GraphFormat::Gff));
    assert_eq!(find_graph_type("dir.v2/graph.gfa.gz", None), Ok(GraphFormat::Gfa));
    assert_eq!(find_graph_type("graph.gff.GZ", None), Ok(GraphFormat::Gff));
    assert_eq!(find_graph_type("graph.txt", None), Err(LoadError::UnsupportedExtension));
    assert_eq!(find_graph_type("graph.gz", None), Err(LoadError::UnsupportedExtension));
    assert_eq!(find_graph_type("graph.", None), Err(LoadError::UnsupportedExtension));
    assert_eq!(find_graph_type("graph", None), Err(LoadError::NoExtension));
    assert_eq!(find_graph_type("dir.gfa/graph", None), Err(LoadError::NoExtension));
    assert_eq!(find_graph_type(".gfa", None), Err(LoadError::NoExtension));
    assert_eq!(find_graph_type("", None), Err(LoadError::NoExtension));
    assert_eq!(find_graph_type("dir/graph.gfa/", None), Ok(GraphFormat::Gfa));
    assert_eq!(find_graph_type("dir/graph.gff/./", None), Ok(GraphFormat::Gff));
    assert_eq!(find_graph_type("dir/..", None), Err(LoadError::NoExtension));
    assert_eq!(find_graph_type("dir/...", None), Err(LoadError::UnsupportedExtension));
    assert_eq!(find_graph_type("/", None), Err(LoadError::NoExtension));
    assert_eq!(find_graph_type("graph.txt", Some("GfA")), Ok(GraphFormat::Gfa));
    assert_eq!(find_graph_type("graph.gfa", Some("gff")), Ok(GraphFormat::Gff));
    assert_eq!(find_graph_type("graph.gfa", Some("gz")), Err(LoadError::UnsupportedExtension));
}

#[test]
fn loading_prepares_graph_and_forest() {
    let (graph, genomes, parts, unread) =
        load_graph("x.gfa", GFA.as_bytes(), None, 2, true, false).unwrap();
    assert_eq!(graph.num_nodes, 3);
    assert_eq!(graph.graph.len(), 7);
    assert_eq!(genomes.genomes.len(), 2);
    assert_eq!(parts.node_to_part, vec![0, 1, 2, 3]);
    assert_eq!(graph.duplicates.len(), 1);
    assert!(graph.duplicates.contains(&2));
    assert!(unread.rows.is_empty());
    let err = load_graph("x.gfa", b"P\tx\n", None, 0, true, false).err();
    assert_eq!(err, Some(LoadError::Parse(ParseError::MalformedPath(0))));
    let err = load_graph("x", GFA.as_bytes(), None, 0, true, false).err();
    assert_eq!(err, Some(LoadError::NoExtension));
    let err = load_graph("x.bed", GFA.as_bytes(), None, 0, true, false).err();
    assert_eq!(err, Some(LoadError::UnsupportedExtension));
    let huge = "c\ts\tf\t1\t2\t.\t+\t.\tID=18446744073709551615;genome=g\n";
    let err = load_graph("x.gff", huge.as_bytes(), None, 0, true, false).err();
    assert_eq!(err, Some(LoadError::TooManyNodes));
}

#[test]
fn output_is_rewritten_for_the_coordinate_dialect_only() {
    let genomes = vec![located("g", vec![plus(0)], vec![(1, 5)], 5)];
    let node_to_part = vec![0, 1];
    assert!(matches!(write_output("x.gfa", None, &genomes, &node_to_part), Ok(None)));
    let out = write_output("x.gfa", Some("gff"), &genomes, &node_to_part).unwrap().unwrap();
    assert_eq!(
        text(&out.text),
        "##gff-version 3\n##sequence-region g.chr 1 5\ng.chr\tmice\tSO:0000856\t1\t5\t.\t+\t.\tID=1;genome=g\n"
    );
    assert!(matches!(
        write_output("x.txt", None, &genomes, &node_to_part),
        Err(LoadError::UnsupportedExtension)
    ));
}

fn args(input: &str, remove_duplicates: usize, min_size: usize) -> Cli {
    Cli {
        graph_input: input.to_string(),
        out_dir: "mice_output".to_string(),
        remove_duplicates,
        min_size,
        group_by: true,
        dirty: false,
    }
}

#[test]
fn whole_run_on_a_small_graph() {
    let gfa = "P\ta#1\tx+,y+,z+\t*\nP\tb#1\tx+,y+,z+\t*\nP\tc#1\tx+,y+,z+\t*\n";
    let out = run_mice(&args("in.gfa", 0, 0), gfa.as_bytes()).unwrap();
    assert_eq!(out.num_nodes, 3);
    assert_eq!(out.partition_bundle.num_parts, 1);
    assert_eq!(out.genome_bundle.genomes.len(), 3);
    assert_eq!(out.genome_bundle.num_paths, 3);
    assert_eq!(text(&out.paths), ">a#a#1\n1+\n>b#b#1\n1+\n>c#c#1\n1+\n");
    assert_eq!(text(&out.partitions), "x: x y z\n");
    assert!(out.graph.is_none());
    assert_eq!(run_mice_test("in.gfa", gfa.as_bytes(), None), Ok(1));
    assert_eq!(run_mice_test("in.dat", gfa.as_bytes(), Some("gfa")), Ok(1));
    assert_eq!(run_mice_test("in.dat", gfa.as_bytes(), None), Err(LoadError::UnsupportedExtension));
}

#[test]
fn whole_run_with_refinement_on_an_annotation() {
    let gff = "##gff-version 3\n\
##sequence-region G1.c 1 200\n\
G1.c\tS\tSO:0000856\t1\t100\t.\t+\t.\tID=1;genome=G1\n\
G1.c\tS\tSO:0000856\t101\t105\t.\t+\t.\tID=2;genome=G1\n\
G1.c\tS\tSO:0000856\t106\t200\t.\t+\t.\tID=3;genome=G1\n\
G1.c\tS\tSO:0000856\t150\t154\t.\t+\t.\tID=2;genome=G1\n";
    let first = run_mice(&args("in.gff", 2, 0), gff.as_bytes()).unwrap();
    assert_eq!(first.num_nodes, 3);
    assert_eq!(first.partition_bundle.num_parts, 3);
    let out = run_mice(&args("in.gff", 2, 10), gff.as_bytes()).unwrap();
    assert_eq!(out.partition_bundle.node_to_part[1], FILTERED);
    assert_eq!(out.partition_bundle.num_parts, 1);
    let root = out.partition_bundle.node_to_part[0];
    assert_eq!(out.partition_bundle.node_to_part[2], root);
    let graph = out.graph.unwrap();
    assert!(graph.broken.is_empty());
    let id = root + 1;
    assert_eq!(
        text(&graph.text),
        format!(
            "##gff-version 3\n\
##sequence-region G1.c 1 200\n\
G1.c\tmice\tSO:0000856\t1\t200\t.\t+\t.\tID={id};genome=G1\n\
G1.c\tmice\tfiltered\t101\t105\t.\t+\t.\tgenome=G1\n"
        )
    );
    assert_eq!(text(&out.paths), format!(">G1#G1.c\n{}\n", if root == 0 { "1+" } else { "3+" }));
}

#[test]
fn arguments_are_numbers_and_the_threshold_is_not_one() {
    assert_eq!(Cli::parse_remove_duplicates("0"), Ok(0));
    assert_eq!(Cli::parse_remove_duplicates("3"), Ok(3));
    assert_eq!(Cli::parse_remove_duplicates("+2"), Ok(2));
    assert_eq!(Cli::parse_remove_duplicates("1"), Err(ArgError::OneNotAllowed));
    assert_eq!(Cli::parse_remove_duplicates("01"), Err(ArgError::OneNotAllowed));
    assert_eq!(Cli::parse_remove_duplicates("-2"), Err(ArgError::NotANumber));
    assert_eq!(Cli::parse_remove_duplicates(""), Err(ArgError::NotANumber));
    assert_eq!(Cli::parse_min_size("1"), Ok(1));
    assert_eq!(Cli::parse_min_size("ten"), Err(ArgError::NotANumber));
}

#[test]
fn numbers_are_read_and_written_in_decimal() {
    assert_eq!(parse_number(b"0"), Some(0));
    assert_eq!(parse_number(b"007"), Some(7));
    assert_eq!(parse_number(b"+15"), Some(15));
    assert_eq!(parse_number(b"18446744073709551615"), Some(usize::MAX));
    assert_eq!(parse_number(b"18446744073709551616"), None);
    assert_eq!(parse_number(b""), None);
    assert_eq!(parse_number(b"+"), None);
    assert_eq!(parse_number(b"++1"), None);
    assert_eq!(parse_number(b"1 "), None);
    assert_eq!(parse_number(b"1_000"), None);
    for n in [0usize, 9, 10, 99, 100, 12345, usize::MAX] {
        let mut out = b"n=".to_vec();
        push_decimal(&mut out, n);
        assert_eq!(text(&out), format!("n={n}"));
    }
}

#[test]
fn bytes_are_trimmed_found_and_compared() {
    assert_eq!(trim(b"  a b \t\r\n"), (2, 5));
    assert_eq!(trim("\u{a0}\u{2009}x\u{205f}\u{1680}".as_bytes()), (5, 6));
    assert_eq!(trim(b"\xc2x\xa0"), (0, 3));
    assert_eq!(trim("\u{2028}\u{2029}\u{202f}".as_bytes()), (9, 9));
    assert_eq!(trim("\u{200b}".as_bytes()), (0, 3));
    assert_eq!(trim(b"\x0b\x0c"), (2, 2));
    assert_eq!(trim(b""), (0, 0));
    assert_eq!(trim(b"x"), (0, 1));
    assert_eq!(find_byte(b"a=b=c", b'=', 0), 1);
    assert_eq!(find_byte(b"a=b=c", b'=', 2), 3);
    assert_eq!(find_byte(b"a=b=c", b'=', 4), 5);
    assert!(eq_ignore_case(b"GeNoMe", b"genome"));
    assert!(!eq_ignore_case(b"genom", b"genome"));
    assert!(!eq_ignore_case(b"[", b"{"));
    assert!(!eq_ignore_case(b"@", b"`"));
}

#[test]
fn positions_are_sorted_stably() {
    let keys = vec![5, 1, 5, 0, 1, 9, 0];
    assert_eq!(sort_positions(&keys, 0, 7), vec![3, 6, 1, 4, 0, 2, 5]);
    assert_eq!(sort_positions(&keys, 2, 5), vec![3, 4, 2]);
    assert_eq!(sort_positions(&keys, 4, 4), Vec::<usize>::new());
}

#[test]
fn readers_of_both_dialects_share_one_interface() {
    let (bundle, num_nodes, _) = Gfa.read_paths(GFA.as_bytes(), true).unwrap();
    assert_eq!((bundle.genomes.len(), num_nodes), (2, 3));
    let (bundle, num_nodes, unread) = Gff.read_paths(GFF.as_bytes(), true).unwrap();
    assert_eq!((bundle.genomes.len(), num_nodes, unread.rows), (2, 3, vec![6]));
    let genomes = vec![located("g", vec![plus(0)], vec![(1, 5)], 5)];
    assert!(Gfa.write_graph(&genomes, &[0, 1]).is_none());
    let rewritten = Gff.write_graph(&genomes, &[0, 1]).unwrap();
    assert_eq!(rewritten.text, Gff::rewrite(&genomes, &[0, 1]).text);
    let graph = Gfa.genomes_to_graph(&genomes, 1, &[0, 1]);
    assert_eq!(graph, vec![vec![2], vec![2], vec![0, 1]]);
    let (kept, filtered) = Gff.get_genome_duplicates(&genomes, 2);
    assert!(kept.is_empty() && filtered.is_empty());
    let (graph, _, parts, _) = Gff.read_graph(GFF.as_bytes(), 0, true, false).unwrap();
    assert_eq!(graph.num_nodes, 3);
    assert_eq!(parts.node_to_part, vec![0, 1, 2, 3]);
    let err = Gfa.read_graph(b"P\tx\n", 0, true, false).err();
    assert_eq!(err, Some(LoadError::Parse(ParseError::MalformedPath(0))));
}

#[test]
fn dirty_loading_neither_protects_nor_removes() {
    let data = b"P\tg#1\ta+,b+,c+,b+,c+,b+\t*\n";
    let (graph, _, parts, _) = Gfa.read_graph(data, 3, true, false).unwrap();
    assert_eq!(parts.node_to_part, vec![0, FILTERED, 2, 3]);
    assert_eq!(graph.duplicates.len(), 1);
    assert!(graph.duplicates.contains(&2));
    let (graph, _, parts, _) = Gfa.read_graph(data, 3, true, true).unwrap();
    assert_eq!(parts.node_to_part, vec![0, 1, 2, 3]);
    assert!(graph.duplicates.is_empty());
    assert_eq!(graph.graph.len(), 7);
    assert!(graph.graph[2].contains(&1) && graph.graph[3].contains(&4));
    let (graph, _, parts, _) = load_graph("x.gfa", data, None, 2, true, true).unwrap();
    assert_eq!(parts.node_to_part, vec![0, 1, 2, 3]);
    assert!(graph.duplicates.is_empty());
}

#[test]
fn extension_is_given_in_lower_case() {
    assert_eq!(find_extension("dir/graph.GFA", None), Some(b"gfa".to_vec()));
    assert_eq!(find_extension("dir.v2/graph.Txt.gz", None), Some(b"txt".to_vec()));
    assert_eq!(find_extension("graph.gz", None), Some(b"graph".to_vec()));
    assert_eq!(find_extension("graph.", None), Some(Vec::new()));
    assert_eq!(find_extension("dir/graph.vcf/./", None), Some(b"vcf".to_vec()));
    assert_eq!(find_extension("graph", None), None);
    assert_eq!(find_extension(".gfa", None), None);
    assert_eq!(find_extension("dir/..", None), None);
    assert_eq!(find_extension("graph.gfa", Some("BED")), Some(b"bed".to_vec()));
    assert_eq!(find_extension("graph", Some("")), Some(Vec::new()));
    assert_eq!(to_lower(b"aZ-@[`{\xc3\x89"), b"az-@[`{\xc3\x89".to_vec());
}
