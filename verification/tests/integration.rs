use mice::compression::run_mice_test;

/// Runs the compaction on each graph and compares the number of partitions
/// with the expected one; all differences are reported together.
fn compare_gfas(cases: &[(&str, &str, usize)]) {
    let mut failures: Vec<String> = Vec::new();
    for (stem, gfa, expected) in cases {
        let input = format!("{stem}.gfa");
        let num_parts = run_mice_test(&input, gfa.as_bytes(), Some("gfa")).unwrap();
        let got = vec![num_parts.to_string()];
        let expected = vec![expected.to_string()];
        if got != expected {
            failures.push(format!(
                "[DIFF] {}: line 1: got {:?}  !=  expected {:?}",
                stem, got[0], expected[0]
            ));
        }
    }
    if !failures.is_empty() {
        panic!("\n{}\n", failures.join("\n"));
    }
}

#[test]
fn compare_all_gfas_random() {
    compare_gfas(&[
        // one path: every node is absorbed by its only neighbour
        ("chain", "P\tp\ta+,b+,c+,d+\t*\n", 1),
        // the same chain walked in both directions
        (
            "both_directions",
            "P\tp\ta+,b+,c+\t*\nP\tq\tc-,b-,a-\t*\n",
            1,
        ),
        // three nodes that follow each other in every order
        (
            "triangle",
            "P\tp\ta+,b+\t*\nP\tq\ta+,c+\t*\nP\tr\tc+,b+\t*\n",
            3,
        ),
        // two chains that never meet
        ("apart", "P\tp\ta+,b+\t*\nP\tq\tc+,d+\t*\n", 2),
        // a bubble: b and c lie between a and d on different paths
        (
            "bubble",
            "P\tp\ta+,b+,d+\t*\nP\tq\ta+,c+,d+\t*\n",
            1,
        ),
        // paths of one node
        ("single", "P\tp\ta+\t*\nP\tq\tb-\t*\n", 2),
        // no path at all
        ("empty", "S\ta\tACGT\n", 0),
    ]);
}

#[test]
fn compare_all_gfas_real() {
    compare_gfas(&[
        (
            "samples",
            "H\tVN:Z:1.0\n\
S\t1\tACGT\n\
S\t2\tAC\n\
S\t3\tGG\n\
S\t4\tT\n\
L\t1\t+\t2\t+\t0M\n\
P\tsampleA#1#chr1\t1+,2+,3+,4+\t*\n\
P\tsampleB#1#chr1\t1+,2+,4+\t*\n\
P\tsampleC#1#chr1\t4-,3-,2-,1-\t*\n",
            1,
        ),
        (
            "inversion",
            "P\tsampleA#1#chr1\t1+,2+,3+\t*\n\
P\tsampleB#1#chr1\t1+,2-,3+\t*\n",
            3,
        ),
    ]);
}
