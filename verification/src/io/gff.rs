//! The coordinate-bearing dialect: reading its rows and headers, and rewriting
//! it with the elements of each partition collapsed into one feature.
use vstd::prelude::*;
use vstd::string::StringSliceAdditionalSpecFns;
use crate::io::{Genome, SignedId, FILTERED};
use crate::text::{decimal, push_bytes, push_decimal, push_string, string_bytes};

verus! {

/// One path with its coordinates and the names under which it is written.
pub struct Track {
    pub path: Seq<SignedId>,
    pub starts: Seq<usize>,
    pub ends: Seq<usize>,
    pub name: Seq<u8>,
    pub genome: Seq<u8>,
}

/// Path `p` of a genome as a track.
pub open spec fn track(genome: Genome, p: int) -> Track {
    Track {
        path: genome.bundle.paths@[p]@,
        starts: genome.bundle.path_starts@[p]@,
        ends: genome.bundle.path_ends@[p]@,
        name: string_bytes(genome.bundle.path_names@[p]),
        genome: string_bytes(genome.name),
    }
}

/// Every path of the genome has a name and one start and one end coordinate
/// for each of its elements.
pub open spec fn located(genome: Genome) -> bool {
    &&& genome.bundle.path_names@.len() == genome.bundle.paths@.len()
    &&& genome.bundle.path_starts@.len() == genome.bundle.paths@.len()
    &&& genome.bundle.path_ends@.len() == genome.bundle.paths@.len()
    &&& forall|p: int|
        0 <= p < genome.bundle.paths@.len() ==> (#[trigger] genome.bundle.path_starts@[p])@.len()
            == genome.bundle.paths@[p]@.len()
    &&& forall|p: int|
        0 <= p < genome.bundle.paths@.len() ==> (#[trigger] genome.bundle.path_ends@[p])@.len()
            == genome.bundle.paths@[p]@.len()
}

/// Every element of the genome names a node of `node_to_part`.
pub open spec fn indexed(genome: Genome, node_to_part: Seq<usize>) -> bool {
    forall|p: int, k: int|
        0 <= p < genome.bundle.paths@.len() && 0 <= k < genome.bundle.paths@[p]@.len() ==> (
        #[trigger] genome.bundle.paths@[p]@[k]).id < node_to_part.len()
}

/// Whether the node of element `l` is filtered.
pub open spec fn filtered_at(path: Seq<SignedId>, node_to_part: Seq<usize>, l: int) -> bool {
    node_to_part[path[l].id as int] == FILTERED
}

/// Whether the node of element `l` is a representative.
pub open spec fn core_at(path: Seq<SignedId>, node_to_part: Seq<usize>, l: int) -> bool {
    node_to_part[path[l].id as int] == path[l].id
}

/// The first element from `i` on that is not filtered, or the length of the
/// path.
pub open spec fn next_kept(path: Seq<SignedId>, node_to_part: Seq<usize>, i: int) -> int
    decreases path.len() - i,
{
    if i >= path.len() {
        path.len() as int
    } else if !filtered_at(path, node_to_part, i) {
        i
    } else {
        next_kept(path, node_to_part, i + 1)
    }
}

/// The last element of the stretch that holds element `j`: it goes on as long
/// as the next element belongs to partition `part` or is filtered.
pub open spec fn stretch_end(path: Seq<SignedId>, node_to_part: Seq<usize>, part: usize, j: int) -> int
    decreases path.len() - j,
{
    if j + 1 < path.len() && (node_to_part[path[j + 1].id as int] == part || filtered_at(
        path,
        node_to_part,
        j + 1,
    )) {
        stretch_end(path, node_to_part, part, j + 1)
    } else {
        j
    }
}

/// The last element up to `j` that is not filtered; the first element if all
/// are.
pub open spec fn last_kept(path: Seq<SignedId>, node_to_part: Seq<usize>, j: int) -> int
    decreases j,
{
    if j > 0 && filtered_at(path, node_to_part, j) {
        last_kept(path, node_to_part, j - 1)
    } else {
        j
    }
}

/// The number of representatives among the elements `i` to `j`.
pub open spec fn core_count(path: Seq<SignedId>, node_to_part: Seq<usize>, i: int, j: int) -> nat
    decreases j - i + 1,
{
    if j < i {
        0
    } else {
        core_count(path, node_to_part, i, j - 1) + if core_at(path, node_to_part, j) {
            1nat
        } else {
            0nat
        }
    }
}

/// The last representative among the elements `i` to `j`, or `i - 1`.
pub open spec fn last_core(path: Seq<SignedId>, node_to_part: Seq<usize>, i: int, j: int) -> int
    decreases j - i + 1,
{
    if j < i {
        i - 1
    } else if core_at(path, node_to_part, j) {
        j
    } else {
        last_core(path, node_to_part, i, j - 1)
    }
}

/// The first element from `l` on, and not beyond `j`, that is not filtered; or
/// `j + 1`.
pub open spec fn filtered_stop(path: Seq<SignedId>, node_to_part: Seq<usize>, l: int, j: int) -> int
    decreases j - l + 1,
{
    if l > j {
        j + 1
    } else if !filtered_at(path, node_to_part, l) {
        l
    } else {
        filtered_stop(path, node_to_part, l + 1, j)
    }
}

/// The first representative from `l` on, and not beyond `j`; or `j + 1`.
pub open spec fn next_core(path: Seq<SignedId>, node_to_part: Seq<usize>, l: int, j: int) -> int
    decreases j - l + 1,
{
    if l > j {
        j + 1
    } else if core_at(path, node_to_part, l) {
        l
    } else {
        next_core(path, node_to_part, l + 1, j)
    }
}

/// The last element of the segment of representative `e`: it goes on, not
/// beyond `j`, as long as the next element is no representative.
pub open spec fn segment_end(path: Seq<SignedId>, node_to_part: Seq<usize>, e: int, j: int) -> int
    decreases j - e,
{
    if e < j && !core_at(path, node_to_part, e + 1) {
        segment_end(path, node_to_part, e + 1, j)
    } else {
        e
    }
}

/// The sign of an orientation.
pub open spec fn strand(plus: bool) -> u8 {
    if plus {
        43
    } else {
        45
    }
}

/// The columns that all feature lines share: path, source, kind, start, end,
/// score, strand and frame.
pub open spec fn feature_head(t: Track, kind: Seq<u8>, start: int, end: int, plus: bool) -> Seq<u8> {
    t.name + "\tmice\t".spec_bytes() + kind + seq![9u8] + decimal(start as nat) + seq![9u8] + decimal(
        end as nat,
    ) + "\t.\t".spec_bytes() + seq![strand(plus)] + "\t.\t".spec_bytes()
}

/// The line of a collapsed feature of partition `part`, numbered from one.
pub open spec fn core_line(t: Track, start: int, end: int, plus: bool, part: int) -> Seq<u8> {
    feature_head(t, "SO:0000856".spec_bytes(), start, end, plus) + "ID=".spec_bytes() + decimal(
        (part + 1) as nat,
    ) + ";genome=".spec_bytes() + t.genome + seq![10u8]
}

/// The line of an annotated range inside a collapsed feature.
pub open spec fn gap_line(t: Track, kind: Seq<u8>, start: int, end: int, plus: bool) -> Seq<u8> {
    feature_head(t, kind, start, end, plus) + "genome=".spec_bytes() + t.genome + seq![10u8]
}

/// The larger of two numbers.
pub open spec fn larger(a: int, b: int) -> int {
    if a >= b {
        a
    } else {
        b
    }
}

/// The smaller of two numbers.
pub open spec fn smaller(a: int, b: int) -> int {
    if a <= b {
        a
    } else {
        b
    }
}

/// The line of the filtered elements `l` to `m - 1`, which lie between the
/// kept elements `l - 1` and `m`: the part of their range that lies strictly
/// between the two neighbours, if the neighbours leave room.
pub open spec fn filtered_line(t: Track, l: int, m: int, plus: bool) -> Seq<u8> {
    if t.starts[m] > t.ends[l - 1] + 1 {
        gap_line(
            t,
            "filtered".spec_bytes(),
            larger(t.starts[l] as int, t.ends[l - 1] + 1),
            smaller(t.ends[m - 1] as int, t.starts[m] - 1),
            plus,
        )
    } else {
        Seq::empty()
    }
}

/// The lines of the maximal groups of filtered elements among `l` to `j`.
pub open spec fn filtered_lines(t: Track, node_to_part: Seq<usize>, l: int, j: int, plus: bool) -> Seq<u8>
    decreases j - l + 1,
{
    if l > j {
        Seq::empty()
    } else if filtered_at(t.path, node_to_part, l) {
        let m = filtered_stop(t.path, node_to_part, l + 1, j);
        if l < m <= j {
            filtered_line(t, l, m, plus) + filtered_lines(t, node_to_part, m + 1, j, plus)
        } else {
            Seq::empty()
        }
    } else {
        filtered_lines(t, node_to_part, l + 1, j, plus)
    }
}

/// The line of the uncovered positions between elements `l` and `l + 1`, if
/// there are any.
pub open spec fn ns_line(t: Track, l: int, plus: bool) -> Seq<u8> {
    if t.starts[l + 1] > t.ends[l] + 1 {
        gap_line(t, "Ns".spec_bytes(), t.ends[l] + 1, t.starts[l + 1] - 1, plus)
    } else {
        Seq::empty()
    }
}

/// The lines of the uncovered positions between consecutive elements from `l`
/// to `j`.
pub open spec fn ns_lines(t: Track, l: int, j: int, plus: bool) -> Seq<u8>
    decreases j - l,
{
    if l >= j {
        Seq::empty()
    } else {
        ns_line(t, l, plus) + ns_lines(t, l + 1, j, plus)
    }
}

/// The lines of a run `i` to `j` with exactly one representative, element
/// `c`: one feature from the start of `i` to the end of `j`, then the
/// filtered ranges, then the uncovered ranges.
pub open spec fn single_core_lines(t: Track, node_to_part: Seq<usize>, i: int, j: int, c: int) -> Seq<u8> {
    core_line(t, t.starts[i] as int, t.ends[j] as int, t.path[c].plus, t.path[c].id as int)
        + filtered_lines(t, node_to_part, i + 1, j, t.path[c].plus) + ns_lines(
        t,
        i,
        j,
        t.path[c].plus,
    )
}

/// The lines of the rest of a run with several representatives, from element
/// `l` to `j`: one feature for each representative, from the element after
/// the previous feature to the last element before the next representative.
pub open spec fn segment_lines(t: Track, node_to_part: Seq<usize>, l: int, j: int) -> Seq<u8>
    decreases j - l + 1,
{
    if l > j {
        Seq::empty()
    } else {
        let c = next_core(t.path, node_to_part, l, j);
        if c > j || c < l {
            Seq::empty()
        } else {
            let e = segment_end(t.path, node_to_part, c, j);
            if e < c || e > j {
                Seq::empty()
            } else {
                core_line(t, t.starts[l] as int, t.ends[e] as int, t.path[c].plus, t.path[c].id as int)
                    + segment_lines(t, node_to_part, e + 1, j)
            }
        }
    }
}

/// Among elements with a representative, the last representative is one of
/// them.
pub proof fn lemma_last_core(path: Seq<SignedId>, node_to_part: Seq<usize>, i: int, j: int)
    requires
        core_count(path, node_to_part, i, j) > 0,
    ensures
        i <= last_core(path, node_to_part, i, j) <= j,
        core_at(path, node_to_part, last_core(path, node_to_part, i, j)),
    decreases j - i + 1,
{
    if j >= i && !core_at(path, node_to_part, j) {
        lemma_last_core(path, node_to_part, i, j - 1);
    }
}

/// Appends the bytes of a string slice.
pub fn push_str(out: &mut Vec<u8>, s: &str)
    ensures
        final(out)@ == old(out)@ + s.spec_bytes(),
{
    push_bytes(out, s.as_bytes());
}

/// Appends the columns that all feature lines share.
fn push_feature_head(
    out: &mut Vec<u8>,
    genome: &Genome,
    p: usize,
    kind: &str,
    start: usize,
    end: usize,
    plus: bool,
)
    requires
        p < genome.bundle.path_names@.len(),
    ensures
        final(out)@ == old(out)@ + feature_head(
            track(*genome, p as int),
            kind.spec_bytes(),
            start as int,
            end as int,
            plus,
        ),
{
    push_string(out, &genome.bundle.path_names[p]);
    push_str(out, "\tmice\t");
    push_str(out, kind);
    out.push(9);
    push_decimal(out, start);
    out.push(9);
    push_decimal(out, end);
    push_str(out, "\t.\t");
    out.push(if plus { 43 } else { 45 });
    push_str(out, "\t.\t");
    proof {
        assert(out@ =~= old(out)@ + feature_head(
            track(*genome, p as int),
            kind.spec_bytes(),
            start as int,
            end as int,
            plus,
        ));
    }
}

/// Appends the line of a collapsed feature.
fn push_core_line(
    out: &mut Vec<u8>,
    genome: &Genome,
    p: usize,
    start: usize,
    end: usize,
    plus: bool,
    part: usize,
)
    requires
        p < genome.bundle.path_names@.len(),
        part < usize::MAX,
    ensures
        final(out)@ == old(out)@ + core_line(
            track(*genome, p as int),
            start as int,
            end as int,
            plus,
            part as int,
        ),
{
    push_feature_head(out, genome, p, "SO:0000856", start, end, plus);
    push_str(out, "ID=");
    push_decimal(out, part + 1);
    push_str(out, ";genome=");
    push_string(out, &genome.name);
    out.push(10);
    proof {
        assert(out@ =~= old(out)@ + core_line(
            track(*genome, p as int),
            start as int,
            end as int,
            plus,
            part as int,
        ));
    }
}

/// Appends the line of an annotated range.
fn push_gap_line(
    out: &mut Vec<u8>,
    genome: &Genome,
    p: usize,
    kind: &str,
    start: usize,
    end: usize,
    plus: bool,
)
    requires
        p < genome.bundle.path_names@.len(),
    ensures
        final(out)@ == old(out)@ + gap_line(
            track(*genome, p as int),
            kind.spec_bytes(),
            start as int,
            end as int,
            plus,
        ),
{
    push_feature_head(out, genome, p, kind, start, end, plus);
    push_str(out, "genome=");
    push_string(out, &genome.name);
    out.push(10);
    proof {
        assert(out@ =~= old(out)@ + gap_line(
            track(*genome, p as int),
            kind.spec_bytes(),
            start as int,
            end as int,
            plus,
        ));
    }
}

/// Appends the lines of a run with exactly one representative.
fn render_single(
    out: &mut Vec<u8>,
    genome: &Genome,
    p: usize,
    node_to_part: &[usize],
    i: usize,
    j: usize,
    c: usize,
)
    requires
        located(*genome),
        indexed(*genome, node_to_part@),
        p < genome.bundle.paths@.len(),
        i <= c <= j < genome.bundle.paths@[p as int]@.len(),
        !filtered_at(genome.bundle.paths@[p as int]@, node_to_part@, j as int),
        core_at(genome.bundle.paths@[p as int]@, node_to_part@, c as int),
    ensures
        final(out)@ == old(out)@ + single_core_lines(
            track(*genome, p as int),
            node_to_part@,
            i as int,
            j as int,
            c as int,
        ),
{
    let ghost t = track(*genome, p as int);
    let ghost ntp = node_to_part@;
    let path = &genome.bundle.paths[p];
    let starts = &genome.bundle.path_starts[p];
    let ends = &genome.bundle.path_ends[p];
    let plus = path[c].plus;
    let part = path[c].id;
    let len = path.len();
    let nodes = node_to_part.len();
    assert(part < nodes) by {
        assert(genome.bundle.paths@[p as int]@[c as int].id < node_to_part@.len());
    }
    push_core_line(out, genome, p, starts[i], ends[j], plus, part);
    let ghost base = out@;
    let mut l: usize = i + 1;
    proof {
        assert(out@ + filtered_lines(t, ntp, l as int, j as int, plus) =~= base + filtered_lines(
            t,
            ntp,
            i + 1,
            j as int,
            plus,
        ));
    }
    while l <= j
        invariant
            i < l <= j + 1,
            j < len,
            located(*genome),
            indexed(*genome, ntp),
            ntp == node_to_part@,
            p < genome.bundle.paths@.len(),
            j < genome.bundle.paths@[p as int]@.len(),
            path == genome.bundle.paths@[p as int],
            starts == genome.bundle.path_starts@[p as int],
            ends == genome.bundle.path_ends@[p as int],
            t == track(*genome, p as int),
            !filtered_at(t.path, ntp, j as int),
            out@ + filtered_lines(t, ntp, l as int, j as int, plus) == base + filtered_lines(
                t,
                ntp,
                i + 1,
                j as int,
                plus,
            ),
        decreases j + 1 - l,
    {
        if node_to_part[path[l].id] == FILTERED {
            let mut m: usize = l + 1;
            while m <= j && node_to_part[path[m].id] == FILTERED
                invariant
                    l < m <= j + 1,
                    j < len,
                    filtered_at(t.path, ntp, m - 1),
                    indexed(*genome, ntp),
                    ntp == node_to_part@,
                    p < genome.bundle.paths@.len(),
                    j < genome.bundle.paths@[p as int]@.len(),
                    path == genome.bundle.paths@[p as int],
                    t.path == path@,
                    !filtered_at(t.path, ntp, j as int),
                    filtered_stop(t.path, ntp, m as int, j as int) == filtered_stop(
                        t.path,
                        ntp,
                        l + 1,
                        j as int,
                    ),
                decreases j + 1 - m,
            {
                m += 1;
            }
            assert(m <= j);
            let left_start_filtered = starts[l];
            let right_end_filtered = ends[m - 1];
            let left_end_part = ends[l - 1];
            let right_start_part = starts[m];
            let ghost before = out@;
            if right_start_part > left_end_part && right_start_part - left_end_part > 1 {
                let start = if left_start_filtered >= left_end_part + 1 {
                    left_start_filtered
                } else {
                    left_end_part + 1
                };
                let end = if right_end_filtered <= right_start_part - 1 {
                    right_end_filtered
                } else {
                    right_start_part - 1
                };
                push_gap_line(out, genome, p, "filtered", start, end, plus);
            }
            proof {
                assert(out@ == before + filtered_line(t, l as int, m as int, plus));
                assert(out@ + filtered_lines(t, ntp, m + 1, j as int, plus) =~= before + filtered_lines(
                    t,
                    ntp,
                    l as int,
                    j as int,
                    plus,
                ));
            }
            l = m;
        }
        l += 1;
    }
    let ghost middle = out@;
    proof {
        assert(middle =~= base + filtered_lines(t, ntp, i + 1, j as int, plus));
    }
    let mut l: usize = i;
    while l < j
        invariant
            i <= l <= j,
            located(*genome),
            p < genome.bundle.paths@.len(),
            j < genome.bundle.paths@[p as int]@.len(),
            starts == genome.bundle.path_starts@[p as int],
            ends == genome.bundle.path_ends@[p as int],
            t == track(*genome, p as int),
            out@ + ns_lines(t, l as int, j as int, plus) == middle + ns_lines(
                t,
                i as int,
                j as int,
                plus,
            ),
        decreases j - l,
    {
        let left_end = ends[l];
        let right_start = starts[l + 1];
        let ghost before = out@;
        if right_start > left_end && right_start - left_end > 1 {
            push_gap_line(out, genome, p, "Ns", left_end + 1, right_start - 1, plus);
        }
        proof {
            assert(out@ == before + ns_line(t, l as int, plus));
            assert(out@ + ns_lines(t, l + 1, j as int, plus) =~= before + ns_lines(
                t,
                l as int,
                j as int,
                plus,
            ));
        }
        l += 1;
    }
    proof {
        assert(out@ =~= old(out)@ + single_core_lines(t, ntp, i as int, j as int, c as int));
    }
}

/// Text together with the first run, if any, that could not be rendered
/// because it holds no representative.
pub struct Rendered {
    pub text: Seq<u8>,
    pub broken: Option<(usize, usize)>,
}

/// The lines of the rest of a path, from element `i` on. Filtered elements
/// before a run are skipped. A run starts at a kept element, takes in all
/// following elements of the same partition and the filtered ones among them,
/// and ends at its last kept element. A run with one representative becomes
/// one feature with its annotated ranges; one with several is cut into one
/// feature for each; one with none ends the rendering.
pub open spec fn path_lines(t: Track, node_to_part: Seq<usize>, i: int) -> Rendered
    decreases t.path.len() - i,
{
    let first = next_kept(t.path, node_to_part, i);
    if first >= t.path.len() || first < i {
        Rendered { text: Seq::empty(), broken: None }
    } else {
        let end = stretch_end(t.path, node_to_part, node_to_part[t.path[first].id as int], first);
        let last = last_kept(t.path, node_to_part, end);
        let cores = core_count(t.path, node_to_part, first, last);
        if end < first || end >= t.path.len() {
            Rendered { text: Seq::empty(), broken: None }
        } else if cores == 0 {
            Rendered { text: Seq::empty(), broken: Some((first as usize, last as usize)) }
        } else {
            let rest = path_lines(t, node_to_part, end + 1);
            let lines = if cores == 1 {
                single_core_lines(
                    t,
                    node_to_part,
                    first,
                    last,
                    last_core(t.path, node_to_part, first, last),
                )
            } else {
                segment_lines(t, node_to_part, first, last)
            };
            Rendered { text: lines + rest.text, broken: rest.broken }
        }
    }
}

/// Appends the lines of a run with several representatives.
fn render_segments(
    out: &mut Vec<u8>,
    genome: &Genome,
    p: usize,
    node_to_part: &[usize],
    i: usize,
    j: usize,
)
    requires
        located(*genome),
        indexed(*genome, node_to_part@),
        p < genome.bundle.paths@.len(),
        i <= j < genome.bundle.paths@[p as int]@.len(),
    ensures
        final(out)@ == old(out)@ + segment_lines(
            track(*genome, p as int),
            node_to_part@,
            i as int,
            j as int,
        ),
{
    let ghost t = track(*genome, p as int);
    let ghost ntp = node_to_part@;
    let ghost base = out@;
    let path = &genome.bundle.paths[p];
    let starts = &genome.bundle.path_starts[p];
    let ends = &genome.bundle.path_ends[p];
    let len = path.len();
    let nodes = node_to_part.len();
    let mut l: usize = i;
    proof {
        assert forall|k: int| 0 <= k < path@.len() implies (#[trigger] path@[k]).id < nodes by {
            assert(genome.bundle.paths@[p as int]@[k].id < node_to_part@.len());
        }
    }
    while l <= j
        invariant
            i <= l <= j + 1,
            j < len,
            len == path@.len(),
            nodes == node_to_part@.len(),
            located(*genome),
            ntp == node_to_part@,
            p < genome.bundle.paths@.len(),
            path == genome.bundle.paths@[p as int],
            starts == genome.bundle.path_starts@[p as int],
            ends == genome.bundle.path_ends@[p as int],
            t == track(*genome, p as int),
            forall|k: int| 0 <= k < path@.len() ==> (#[trigger] path@[k]).id < nodes,
            out@ + segment_lines(t, ntp, l as int, j as int) == base + segment_lines(
                t,
                ntp,
                i as int,
                j as int,
            ),
        decreases j + 1 - l,
    {
        let start = starts[l];
        let mut c: usize = l;
        while c <= j && node_to_part[path[c].id] != path[c].id
            invariant
                l <= c <= j + 1,
                j < len,
                len == path@.len(),
                nodes == node_to_part@.len(),
                ntp == node_to_part@,
                t.path == path@,
                forall|k: int| 0 <= k < path@.len() ==> (#[trigger] path@[k]).id < nodes,
                next_core(t.path, ntp, c as int, j as int) == next_core(
                    t.path,
                    ntp,
                    l as int,
                    j as int,
                ),
            decreases j + 1 - c,
        {
            c += 1;
        }
        if c <= j {
            let part = path[c].id;
            let plus = path[c].plus;
            let mut e: usize = c;
            while e < j && node_to_part[path[e + 1].id] != path[e + 1].id
                invariant
                    c <= e <= j,
                    j < len,
                    len == path@.len(),
                    nodes == node_to_part@.len(),
                    ntp == node_to_part@,
                    t.path == path@,
                    forall|k: int| 0 <= k < path@.len() ==> (#[trigger] path@[k]).id < nodes,
                    segment_end(t.path, ntp, e as int, j as int) == segment_end(
                        t.path,
                        ntp,
                        c as int,
                        j as int,
                    ),
                decreases j - e,
            {
                e += 1;
            }
            let ghost before = out@;
            push_core_line(out, genome, p, start, ends[e], plus, part);
            proof {
                assert(out@ + segment_lines(t, ntp, e + 1, j as int) =~= before + segment_lines(
                    t,
                    ntp,
                    l as int,
                    j as int,
                ));
            }
            l = e + 1;
        } else {
            proof {
                assert(segment_lines(t, ntp, l as int, j as int) =~= Seq::empty());
                assert(segment_lines(t, ntp, c as int, j as int) =~= Seq::empty());
            }
            l = c;
        }
    }
    proof {
        assert(out@ =~= out@ + segment_lines(t, ntp, l as int, j as int));
    }
}

/// Appends the lines of one path. Returns the bounds of the run at which the
/// rendering stopped, if it did.
fn render_path(out: &mut Vec<u8>, genome: &Genome, p: usize, node_to_part: &[usize]) -> (broken: Option<
    (usize, usize),
>)
    requires
        located(*genome),
        indexed(*genome, node_to_part@),
        p < genome.bundle.paths@.len(),
    ensures
        final(out)@ == old(out)@ + path_lines(track(*genome, p as int), node_to_part@, 0).text,
        broken == path_lines(track(*genome, p as int), node_to_part@, 0).broken,
{
    let ghost t = track(*genome, p as int);
    let ghost ntp = node_to_part@;
    let ghost base = out@;
    let path = &genome.bundle.paths[p];
    let len = path.len();
    let nodes = node_to_part.len();
    let mut broken: Option<(usize, usize)> = None;
    let mut i: usize = 0;
    proof {
        assert forall|k: int| 0 <= k < path@.len() implies (#[trigger] path@[k]).id < nodes by {
            assert(genome.bundle.paths@[p as int]@[k].id < node_to_part@.len());
        }
    }
    while i < len && broken.is_none()
        invariant
            i <= len,
            len == path@.len(),
            nodes == node_to_part@.len(),
            located(*genome),
            indexed(*genome, ntp),
            ntp == node_to_part@,
            p < genome.bundle.paths@.len(),
            path == genome.bundle.paths@[p as int],
            t == track(*genome, p as int),
            forall|k: int| 0 <= k < path@.len() ==> (#[trigger] path@[k]).id < nodes,
            broken is None ==> out@ + path_lines(t, ntp, i as int).text == base + path_lines(
                t,
                ntp,
                0,
            ).text,
            broken is None ==> path_lines(t, ntp, i as int).broken == path_lines(t, ntp, 0).broken,
            broken is Some ==> out@ == base + path_lines(t, ntp, 0).text,
            broken is Some ==> broken == path_lines(t, ntp, 0).broken,
        decreases len - i + if broken is None { 1int } else { 0int },
    {
        let mut first: usize = i;
        while first < len && node_to_part[path[first].id] == FILTERED
            invariant
                i <= first <= len,
                len == path@.len(),
                nodes == node_to_part@.len(),
                ntp == node_to_part@,
                t.path == path@,
                forall|k: int| 0 <= k < path@.len() ==> (#[trigger] path@[k]).id < nodes,
                next_kept(t.path, ntp, first as int) == next_kept(t.path, ntp, i as int),
            decreases len - first,
        {
            first += 1;
        }
        if first == len {
            proof {
                assert(path_lines(t, ntp, i as int).text =~= Seq::empty());
                assert(out@ =~= base + path_lines(t, ntp, 0).text);
            }
            i = len;
            proof {
                assert(path_lines(t, ntp, len as int).text =~= Seq::empty());
            }
        } else {
            let part = node_to_part[path[first].id];
            let mut j: usize = first;
            while j + 1 < len && (node_to_part[path[j + 1].id] == part || node_to_part[path[j + 1].id]
                == FILTERED)
                invariant
                    first <= j < len,
                    len == path@.len(),
                    nodes == node_to_part@.len(),
                    ntp == node_to_part@,
                    t.path == path@,
                    forall|k: int| 0 <= k < path@.len() ==> (#[trigger] path@[k]).id < nodes,
                    stretch_end(t.path, ntp, part, j as int) == stretch_end(
                        t.path,
                        ntp,
                        part,
                        first as int,
                    ),
                decreases len - j,
            {
                j += 1;
            }
            let end = j;
            while node_to_part[path[j].id] == FILTERED
                invariant
                    first <= j <= end < len,
                    len == path@.len(),
                    nodes == node_to_part@.len(),
                    ntp == node_to_part@,
                    t.path == path@,
                    !filtered_at(t.path, ntp, first as int),
                    forall|k: int| 0 <= k < path@.len() ==> (#[trigger] path@[k]).id < nodes,
                    last_kept(t.path, ntp, j as int) == last_kept(t.path, ntp, end as int),
                decreases j,
            {
                j -= 1;
            }
            let mut count_core: usize = 0;
            let mut last_el_core: usize = first;
            let mut l: usize = first;
            while l <= j
                invariant
                    first <= l <= j + 1,
                    j < len,
                    len == path@.len(),
                    nodes == node_to_part@.len(),
                    ntp == node_to_part@,
                    t.path == path@,
                    forall|k: int| 0 <= k < path@.len() ==> (#[trigger] path@[k]).id < nodes,
                    count_core == core_count(t.path, ntp, first as int, l - 1),
                    count_core <= l - first,
                    count_core > 0 ==> last_el_core == last_core(t.path, ntp, first as int, l - 1),
                decreases j + 1 - l,
            {
                if node_to_part[path[l].id] == path[l].id {
                    count_core += 1;
                    last_el_core = l;
                }
                l += 1;
            }
            let ghost before = out@;
            if count_core == 1 {
                proof {
                    lemma_last_core(t.path, ntp, first as int, j as int);
                }
                render_single(out, genome, p, node_to_part, first, j, last_el_core);
            } else if count_core > 1 {
                render_segments(out, genome, p, node_to_part, first, j);
            } else {
                broken = Some((first, j));
            }
            proof {
                let rest = path_lines(t, ntp, end + 1);
                if count_core > 0 {
                    assert(path_lines(t, ntp, i as int).text == (out@.subrange(
                        before.len() as int,
                        out@.len() as int,
                    )) + rest.text) by {
                        assert(out@.subrange(before.len() as int, out@.len() as int) =~= if count_core
                            == 1 {
                            single_core_lines(
                                t,
                                ntp,
                                first as int,
                                j as int,
                                last_core(t.path, ntp, first as int, j as int),
                            )
                        } else {
                            segment_lines(t, ntp, first as int, j as int)
                        });
                    }
                    assert(out@ + rest.text =~= before + path_lines(t, ntp, i as int).text);
                } else {
                    assert(path_lines(t, ntp, i as int).text =~= Seq::empty());
                    assert(out@ =~= base + path_lines(t, ntp, 0).text);
                }
            }
            i = end + 1;
        }
    }
    proof {
        if broken is None {
            assert(path_lines(t, ntp, i as int).text =~= Seq::empty());
            assert(out@ =~= base + path_lines(t, ntp, 0).text);
        }
    }
    broken
}

/// A run of elements that holds no representative of its partition, so that
/// no feature can stand for it: elements `first` to `last` of path `path` of
/// genome `genome`.
#[derive(Clone, Copy, Debug, PartialEq, Eq, Structural)]
pub struct BrokenRun {
    pub genome: usize,
    pub path: usize,
    pub first: usize,
    pub last: usize,
}

/// The rewritten annotation, and the runs at which the rendering of a genome
/// was abandoned.
pub struct GffText {
    pub text: Vec<u8>,
    pub broken: Vec<BrokenRun>,
}

/// The text of a genome from its path `p` on, and the run at which it stops.
pub struct RenderedGenome {
    pub text: Seq<u8>,
    pub broken: Option<(usize, usize, usize)>,
}

/// The header line that declares the extent of a path.
pub open spec fn region_line(name: String, size: usize) -> Seq<u8> {
    "##sequence-region ".spec_bytes() + string_bytes(name) + " 1 ".spec_bytes() + decimal(size as nat)
        + seq![10u8]
}

/// The header lines of the first `upto` paths of a genome that have a size.
pub open spec fn region_lines(genome: Genome, upto: int) -> Seq<u8>
    decreases upto,
{
    if upto <= 0 {
        Seq::empty()
    } else {
        region_lines(genome, upto - 1) + region_line(
            genome.bundle.path_names@[upto - 1],
            genome.bundle.path_sizes@[upto - 1],
        )
    }
}

/// The number of paths of a genome that have both a name and a size.
pub open spec fn sized_paths(genome: Genome) -> int {
    smaller(genome.bundle.path_sizes@.len() as int, genome.bundle.path_names@.len() as int)
}

/// The header lines of the first `upto` genomes.
pub open spec fn header_lines(genomes: Seq<Genome>, upto: int) -> Seq<u8>
    decreases upto,
{
    if upto <= 0 {
        Seq::empty()
    } else {
        header_lines(genomes, upto - 1) + region_lines(genomes[upto - 1], sized_paths(genomes[upto - 1]))
    }
}

/// The feature lines of a genome from its path `p` on. The rendering of the
/// genome stops at the first run without a representative.
pub open spec fn genome_lines(genome: Genome, node_to_part: Seq<usize>, p: int) -> RenderedGenome
    decreases genome.bundle.paths@.len() - p,
{
    if p < 0 || p >= genome.bundle.paths@.len() {
        RenderedGenome { text: Seq::empty(), broken: None }
    } else {
        let here = path_lines(track(genome, p), node_to_part, 0);
        match here.broken {
            Some(run) => RenderedGenome { text: here.text, broken: Some((p as usize, run.0, run.1)) },
            None => {
                let rest = genome_lines(genome, node_to_part, p + 1);
                RenderedGenome { text: here.text + rest.text, broken: rest.broken }
            },
        }
    }
}

/// The feature lines of the first `upto` genomes.
pub open spec fn feature_lines(genomes: Seq<Genome>, node_to_part: Seq<usize>, upto: int) -> Seq<u8>
    decreases upto,
{
    if upto <= 0 {
        Seq::empty()
    } else {
        feature_lines(genomes, node_to_part, upto - 1) + genome_lines(
            genomes[upto - 1],
            node_to_part,
            0,
        ).text
    }
}

/// The runs at which the rendering of one of the first `upto` genomes stopped.
pub open spec fn broken_runs(genomes: Seq<Genome>, node_to_part: Seq<usize>, upto: int) -> Seq<
    BrokenRun,
>
    decreases upto,
{
    if upto <= 0 {
        Seq::empty()
    } else {
        let before = broken_runs(genomes, node_to_part, upto - 1);
        match genome_lines(genomes[upto - 1], node_to_part, 0).broken {
            Some(run) => before.push(
                BrokenRun { genome: (upto - 1) as usize, path: run.0, first: run.1, last: run.2 },
            ),
            None => before,
        }
    }
}

/// The rewritten annotation: the version line, the extents of the paths, and
/// the features of all genomes.
pub open spec fn gff_text(genomes: Seq<Genome>, node_to_part: Seq<usize>) -> Seq<u8> {
    "##gff-version 3\n".spec_bytes() + header_lines(genomes, genomes.len() as int) + feature_lines(
        genomes,
        node_to_part,
        genomes.len() as int,
    )
}

/// The reader and writer of the coordinate-bearing dialect.
pub struct Gff;

impl Gff {
    /// Rewrites the annotation with the elements of each partition collapsed.
    ///
    /// After the header, every run of consecutive elements of one partition
    /// becomes a single feature that spans their combined range and carries
    /// the number of the partition, counted from one, and the strand of its
    /// representative. Filtered elements inside a run, and positions that no
    /// element of the run covers, follow as ranges of their own. A run
    /// without a representative is reported, and the rest of its genome is
    /// left out.
    pub fn rewrite(genomes: &Vec<Genome>, node_to_part: &[usize]) -> (out: GffText)
        requires
            forall|g: int|
                0 <= g < genomes@.len() ==> located(#[trigger] genomes@[g]) && indexed(
                    genomes@[g],
                    node_to_part@,
                ),
        ensures
            out.text@ == gff_text(genomes@, node_to_part@),
            out.broken@ == broken_runs(genomes@, node_to_part@, genomes@.len() as int),
    {
        let mut text: Vec<u8> = Vec::new();
        let mut broken: Vec<BrokenRun> = Vec::new();
        push_str(&mut text, "##gff-version 3\n");
        let ghost version = text@;
        let mut g: usize = 0;
        proof {
            assert(text@ =~= version + header_lines(genomes@, 0));
        }
        while g < genomes.len()
            invariant
                g <= genomes.len(),
                text@ == version + header_lines(genomes@, g as int),
            decreases genomes.len() - g,
        {
            let genome = &genomes[g];
            let ghost start = text@;
            let sized = if genome.bundle.path_sizes.len() <= genome.bundle.path_names.len() {
                genome.bundle.path_sizes.len()
            } else {
                genome.bundle.path_names.len()
            };
            let mut p: usize = 0;
            proof {
                assert(text@ =~= start + region_lines(*genome, 0));
            }
            while p < sized
                invariant
                    p <= sized,
                    sized == sized_paths(*genome),
                    text@ == start + region_lines(*genome, p as int),
                decreases sized - p,
            {
                let ghost before = text@;
                push_str(&mut text, "##sequence-region ");
                push_string(&mut text, &genome.bundle.path_names[p]);
                push_str(&mut text, " 1 ");
                push_decimal(&mut text, genome.bundle.path_sizes[p]);
                text.push(10);
                proof {
                    assert(text@ =~= before + region_line(
                        genome.bundle.path_names@[p as int],
                        genome.bundle.path_sizes@[p as int],
                    ));
                    assert(text@ =~= start + region_lines(*genome, p + 1));
                }
                p += 1;
            }
            proof {
                assert(text@ =~= version + header_lines(genomes@, g + 1));
            }
            g += 1;
        }
        let ghost head = text@;
        let mut g: usize = 0;
        proof {
            assert(text@ =~= head + feature_lines(genomes@, node_to_part@, 0));
        }
        while g < genomes.len()
            invariant
                g <= genomes.len(),
                forall|g: int|
                    0 <= g < genomes@.len() ==> located(#[trigger] genomes@[g]) && indexed(
                        genomes@[g],
                        node_to_part@,
                    ),
                text@ == head + feature_lines(genomes@, node_to_part@, g as int),
                broken@ == broken_runs(genomes@, node_to_part@, g as int),
            decreases genomes.len() - g,
        {
            let genome = &genomes[g];
            let ghost start = text@;
            let ghost whole = genome_lines(*genome, node_to_part@, 0);
            let mut stopped = false;
            let mut p: usize = 0;
            proof {
                assert(located(genomes@[g as int]));
            }
            while p < genome.bundle.paths.len() && !stopped
                invariant
                    p <= genome.bundle.paths.len(),
                    g < genomes@.len(),
                    genome == genomes@[g as int],
                    located(*genome),
                    indexed(*genome, node_to_part@),
                    whole == genome_lines(*genome, node_to_part@, 0),
                    !stopped ==> text@ + genome_lines(*genome, node_to_part@, p as int).text == start
                        + whole.text,
                    !stopped ==> genome_lines(*genome, node_to_part@, p as int).broken == whole.broken,
                    !stopped ==> broken@ == broken_runs(genomes@, node_to_part@, g as int),
                    stopped ==> text@ == start + whole.text,
                    stopped ==> broken@ == broken_runs(genomes@, node_to_part@, g + 1),
                decreases genome.bundle.paths.len() - p + if stopped { 0int } else { 1int },
            {
                let ghost before = text@;
                match render_path(&mut text, genome, p, node_to_part) {
                    Some(run) => {
                        broken.push(BrokenRun { genome: g, path: p, first: run.0, last: run.1 });
                        stopped = true;
                        proof {
                            assert(text@ =~= start + whole.text);
                        }
                    },
                    None => {
                        proof {
                            assert(text@ + genome_lines(*genome, node_to_part@, p + 1).text =~= before
                                + genome_lines(*genome, node_to_part@, p as int).text);
                        }
                        p += 1;
                    },
                }
            }
            proof {
                if !stopped {
                    assert(text@ =~= start + whole.text);
                }
                assert(text@ =~= head + feature_lines(genomes@, node_to_part@, g + 1));
            }
            g += 1;
        }
        proof {
            assert(text@ =~= gff_text(genomes@, node_to_part@));
        }
        GffText { text, broken }
    }
}

} // verus!
