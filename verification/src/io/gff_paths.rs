//! Reading a whole annotation of the coordinate-bearing dialect: its rows are
//! gathered into paths, the paths are put in coordinate order and grouped into
//! genomes.
use vstd::prelude::*;
use vstd::slice::slice_subrange;
use vstd::string::StringSliceAdditionalSpecFns;
use crate::indexer::{filed, lemma_slot, slot, NodeIndexer};
use crate::io::{
    genome_models, genomes_in_range, lemma_in_range_with_path, BundleModel, Genome, GenomeBundle,
    GenomeModel, ParseError, Path, PathBundle, SignedId, Unread,
};
use crate::io::gff::Gff;
use crate::io::gff::located;
use crate::io::gff_rows::{parsed_header, parsed_row, GffRow, RowModel};
use crate::sorting::{positions_below, sort_positions, sorted_positions};
use crate::text::{find_byte, line_end, string_bytes};

verus! {

/// The rows of one path in the order of the input.
#[verifier::ext_equal]
pub struct BoundedModel {
    pub name: Seq<u8>,
    pub genome: Option<Seq<u8>>,
    pub path: Seq<SignedId>,
    pub starts: Seq<usize>,
    pub ends: Seq<usize>,
}

/// What the lines read so far have yielded: the paths in order of first
/// appearance, the declared extents in order of first appearance, the largest
/// node number, and the lines that could not be read.
#[verifier::ext_equal]
pub struct Scanned {
    pub paths: Seq<BoundedModel>,
    pub regions: Seq<(Seq<u8>, usize)>,
    pub max_id: usize,
    pub unread_rows: Seq<usize>,
    pub unread_headers: Seq<usize>,
}

/// The names of the paths.
pub open spec fn path_names(paths: Seq<BoundedModel>) -> Seq<Seq<u8>> {
    Seq::new(paths.len(), |i: int| paths[i].name)
}

/// The names of the declared extents.
pub open spec fn region_names(regions: Seq<(Seq<u8>, usize)>) -> Seq<Seq<u8>> {
    Seq::new(regions.len(), |i: int| regions[i].0)
}

/// The paths after one more row: the row joins the path of its name, or
/// starts a new path, which remembers the genome of this first row when paths
/// are grouped by genome.
pub open spec fn add_row(paths: Seq<BoundedModel>, m: RowModel, group_by: bool) -> Seq<BoundedModel> {
    let k = slot(path_names(paths), m.seqname);
    let el = SignedId { id: m.row.id, plus: m.row.strand };
    if k == paths.len() {
        paths.push(
            BoundedModel {
                name: m.seqname,
                genome: if group_by {
                    Some(m.genome)
                } else {
                    None
                },
                path: seq![el],
                starts: seq![m.row.start],
                ends: seq![m.row.end],
            },
        )
    } else {
        paths.update(
            k,
            BoundedModel {
                path: paths[k].path.push(el),
                starts: paths[k].starts.push(m.row.start),
                ends: paths[k].ends.push(m.row.end),
                ..paths[k]
            },
        )
    }
}

/// The declared extents after one more header line: a later declaration for
/// the same path replaces the earlier one.
pub open spec fn add_region(regions: Seq<(Seq<u8>, usize)>, name: Seq<u8>, end: usize) -> Seq<
    (Seq<u8>, usize),
> {
    let k = slot(region_names(regions), name);
    if k == regions.len() {
        regions.push((name, end))
    } else {
        regions.update(k, (name, end))
    }
}

/// Whether `line` begins with `prefix`.
pub open spec fn has_prefix(line: Seq<u8>, prefix: Seq<u8>) -> bool {
    prefix.len() <= line.len() && line.subrange(0, prefix.len() as int) == prefix
}

/// The larger of two numbers.
pub open spec fn larger_id(a: usize, b: usize) -> usize {
    if a >= b {
        a
    } else {
        b
    }
}

/// What is known after one more line. A line that does not begin with `#` is
/// a row; a line that does, except the version line, declares an extent. A
/// line that cannot be read is noted and passed over.
pub open spec fn scan_line(s: Scanned, line: Seq<u8>, line_no: usize, group_by: bool) -> Scanned {
    if line[0] != 35 {
        match parsed_row(line) {
            Some(m) => Scanned {
                paths: add_row(s.paths, m, group_by),
                max_id: larger_id(m.row.id, s.max_id),
                ..s
            },
            None => Scanned { unread_rows: s.unread_rows.push(line_no), ..s },
        }
    } else if !has_prefix(line, "##gff-version".spec_bytes()) {
        match parsed_header(line) {
            Some(h) => Scanned { regions: add_region(s.regions, h.0, h.2), ..s },
            None => Scanned { unread_headers: s.unread_headers.push(line_no), ..s },
        }
    } else {
        s
    }
}

/// What is known after the lines of `data` from position `pos` on, of which
/// the first has number `line_no`.
pub open spec fn scan_from(data: Seq<u8>, pos: int, line_no: usize, s: Scanned, group_by: bool) -> Scanned
    decreases data.len() - pos,
{
    if pos < 0 || pos >= data.len() {
        s
    } else {
        let end = line_end(data, pos);
        if end <= pos || end > data.len() {
            s
        } else {
            scan_from(
                data,
                end,
                (line_no + 1) as usize,
                scan_line(s, data.subrange(pos, end), line_no, group_by),
                group_by,
            )
        }
    }
}

/// What a whole annotation yields.
pub open spec fn scanned(data: Seq<u8>, group_by: bool) -> Scanned {
    scan_from(
        data,
        0,
        0,
        Scanned {
            paths: Seq::empty(),
            regions: Seq::empty(),
            max_id: 0,
            unread_rows: Seq::empty(),
            unread_headers: Seq::empty(),
        },
        group_by,
    )
}

/// A sequence rearranged: element `k` of the result is element `order[k]`.
pub open spec fn rearranged<T>(s: Seq<T>, order: Seq<usize>) -> Seq<T> {
    Seq::new(order.len(), |k: int| s[order[k] as int])
}

/// The rows of a path in the order of their start coordinates; rows with the
/// same start stay in the order of the input.
pub open spec fn arranged(b: BoundedModel) -> BoundedModel {
    let order = sorted_positions(b.starts, 0, b.starts.len() as int);
    BoundedModel {
        path: rearranged(b.path, order),
        starts: rearranged(b.starts, order),
        ends: rearranged(b.ends, order),
        ..b
    }
}

/// The names of the genomes.
pub open spec fn genome_names(genomes: Seq<GenomeModel>) -> Seq<Seq<u8>> {
    Seq::new(genomes.len(), |i: int| genomes[i].name)
}

/// A bundle with one more path, and with its size where one is given.
pub open spec fn with_path(bundle: BundleModel, b: BoundedModel, size: Option<usize>) -> BundleModel {
    BundleModel {
        paths: bundle.paths.push(b.path),
        path_names: bundle.path_names.push(b.name),
        path_starts: bundle.path_starts.push(b.starts),
        path_ends: bundle.path_ends.push(b.ends),
        path_sizes: match size {
            Some(n) => bundle.path_sizes.push(n),
            None => bundle.path_sizes,
        },
    }
}

/// The genome to which a path belongs: the genome of its first row, or, where
/// paths are not grouped, a genome of its own name.
pub open spec fn genome_of(b: BoundedModel) -> Seq<u8> {
    match b.genome {
        Some(g) => g,
        None => b.name,
    }
}

/// The genomes after one more path: the path joins its genome, or starts it.
pub open spec fn add_path(genomes: Seq<GenomeModel>, b: BoundedModel, size: Option<usize>) -> Seq<
    GenomeModel,
> {
    let k = slot(genome_names(genomes), genome_of(b));
    let empty = BundleModel {
        paths: Seq::empty(),
        path_names: Seq::empty(),
        path_starts: Seq::empty(),
        path_ends: Seq::empty(),
        path_sizes: Seq::empty(),
    };
    if k == genomes.len() {
        genomes.push(GenomeModel { name: genome_of(b), bundle: with_path(empty, b, size) })
    } else {
        genomes.update(k, GenomeModel { bundle: with_path(genomes[k].bundle, b, size), ..genomes[k] })
    }
}

/// The size of a path: where the input declares any extents, the end of the
/// extent declared for the path.
pub open spec fn path_size(regions: Seq<(Seq<u8>, usize)>, name: Seq<u8>) -> Option<usize> {
    let k = slot(region_names(regions), name);
    if k < regions.len() {
        Some(regions[k].1)
    } else {
        None
    }
}

/// Whether the size of path `p` is missing although extents are declared.
pub open spec fn unsized_path(s: Scanned, p: int) -> bool {
    s.regions.len() > 0 && path_size(s.regions, s.paths[p].name) is None
}

/// Whether path `p` is the first whose size is missing.
pub open spec fn first_unsized(s: Scanned, p: int) -> bool {
    &&& 0 <= p < s.paths.len()
    &&& unsized_path(s, p)
    &&& forall|q: int| 0 <= q < p ==> !unsized_path(s, q)
}

/// The genomes of the first `upto` paths, each path in coordinate order.
pub open spec fn grouped(s: Scanned, upto: int) -> Seq<GenomeModel>
    decreases upto,
{
    if upto <= 0 {
        Seq::empty()
    } else {
        add_path(
            grouped(s, upto - 1),
            arranged(s.paths[upto - 1]),
            path_size(s.regions, s.paths[upto - 1].name),
        )
    }
}

/// Whether `out` is what reading `data` yields: where every path has its
/// size or no extents are declared, the genomes, the number of paths, the
/// number of nodes and the lines passed over; else the first path without a
/// size.
pub open spec fn gff_reads(
    data: Seq<u8>,
    group_by: bool,
    out: Result<(GenomeBundle, usize, Unread), ParseError>,
) -> bool {
    let s = scanned(data, group_by);
    &&& out matches Ok(read) ==> {
        &&& forall|p: int| 0 <= p < s.paths.len() ==> !unsized_path(s, p)
        &&& genome_models(read.0.genomes@) == grouped(s, s.paths.len() as int)
        &&& read.0.num_paths == s.paths.len()
        &&& read.0.node_indexer is None
        &&& read.1 == s.max_id + 1
        &&& read.2.rows@ == s.unread_rows
        &&& read.2.headers@ == s.unread_headers
    }
    &&& out matches Err(e) ==> e is MissingRegion && first_unsized(s, e->MissingRegion_0 as int)
}

/// The rows of one path as they are gathered.
pub struct BoundedPath {
    pub name: String,
    pub genome_name: Option<String>,
    pub path: Path,
    pub path_starts: Vec<usize>,
    pub path_ends: Vec<usize>,
}

/// The content of a gathered path.
pub open spec fn bounded_model(b: BoundedPath) -> BoundedModel {
    BoundedModel {
        name: string_bytes(b.name),
        genome: match b.genome_name {
            Some(g) => Some(string_bytes(g)),
            None => None,
        },
        path: b.path@,
        starts: b.path_starts@,
        ends: b.path_ends@,
    }
}

/// The content of the gathered paths.
pub open spec fn bounded_models(bounded: Seq<BoundedPath>) -> Seq<BoundedModel> {
    Seq::new(bounded.len(), |i: int| bounded_model(bounded[i]))
}

/// Every path has one start and one end for each of its elements.
pub open spec fn aligned(paths: Seq<BoundedModel>) -> bool {
    forall|i: int|
        0 <= i < paths.len() ==> (#[trigger] paths[i]).starts.len() == paths[i].path.len()
            && paths[i].ends.len() == paths[i].path.len()
}

/// Every node number in the paths is at most `bound`.
pub open spec fn ids_within(paths: Seq<BoundedModel>, bound: int) -> bool {
    forall|i: int, k: int|
        0 <= i < paths.len() && 0 <= k < paths[i].path.len() ==> (#[trigger] paths[i].path[k]).id
            <= bound
}

/// Every genome has a name and coordinates for each of its paths.
pub open spec fn all_located(genomes: Seq<Genome>) -> bool {
    forall|g: int| 0 <= g < genomes.len() ==> located(#[trigger] genomes[g])
}

/// The declared extents that an indexer and a vector of ends hold together.
pub open spec fn regions_model(index: NodeIndexer, ends: Seq<usize>) -> Seq<(Seq<u8>, usize)> {
    Seq::new(ends.len(), |i: int| (index.names@[i]@, ends[i]))
}

/// Adds a row to the path of its name.
fn gather_row(
    bounded: &mut Vec<BoundedPath>,
    index: &mut NodeIndexer,
    path_name: String,
    genome_name: String,
    row: GffRow,
    group_by: bool,
)
    requires
        filed(*old(index), path_names(bounded_models(old(bounded)@))),
        aligned(bounded_models(old(bounded)@)),
    ensures
        filed(*final(index), path_names(bounded_models(final(bounded)@))),
        aligned(bounded_models(final(bounded)@)),
        forall|bound: int|
            ids_within(bounded_models(old(bounded)@), bound) && row.id <= bound ==> #[trigger] ids_within(
                bounded_models(final(bounded)@),
                bound,
            ),
        bounded_models(final(bounded)@) == add_row(
            bounded_models(old(bounded)@),
            RowModel { seqname: string_bytes(path_name), genome: string_bytes(genome_name), row },
            group_by,
        ),
{
    let ghost before = bounded_models(bounded@);
    let ghost names = path_names(before);
    let ghost m = RowModel {
        seqname: string_bytes(path_name),
        genome: string_bytes(genome_name),
        row,
    };
    let el = SignedId { id: row.id, plus: row.strand };
    let idx = index.id_for(path_name.as_str().as_bytes());
    proof {
        lemma_slot(*old(index), names, m.seqname, idx as int);
    }
    if idx == bounded.len() {
        let mut path: Path = Vec::new();
        path.push(el);
        let mut path_starts: Vec<usize> = Vec::new();
        path_starts.push(row.start);
        let mut path_ends: Vec<usize> = Vec::new();
        path_ends.push(row.end);
        let genome_name = if group_by {
            Some(genome_name)
        } else {
            None
        };
        bounded.push(BoundedPath { name: path_name, genome_name, path, path_starts, path_ends });
        proof {
            assert(bounded_models(bounded@)[idx as int] =~~= add_row(before, m, group_by)[idx as int]);
            assert(bounded_models(bounded@) =~~= add_row(before, m, group_by));
        }
    } else {
        bounded[idx].path.push(el);
        bounded[idx].path_starts.push(row.start);
        bounded[idx].path_ends.push(row.end);
        proof {
            assert(bounded_models(bounded@)[idx as int] =~~= add_row(before, m, group_by)[idx as int]);
            assert(bounded_models(bounded@) =~~= add_row(before, m, group_by));
        }
    }
    proof {
        let after = bounded_models(bounded@);
        assert forall|bound: int| ids_within(before, bound) && row.id <= bound implies #[trigger] ids_within(
            after,
            bound,
        ) by {
            assert forall|i: int, k: int|
                0 <= i < after.len() && 0 <= k < after[i].path.len() implies (
            #[trigger] after[i].path[k]).id <= bound by {
                if i < before.len() && k < before[i].path.len() {
                    assert(after[i].path[k] == before[i].path[k]);
                } else {
                    assert(after[i].path[k] == el);
                }
            }
        }
    }
}

/// Records the declared extent of a path.
fn gather_region(index: &mut NodeIndexer, ends: &mut Vec<usize>, name: &String, end: usize)
    requires
        old(index).wf(),
        old(index).names@.len() == old(ends)@.len(),
    ensures
        final(index).wf(),
        final(index).names@.len() == final(ends)@.len(),
        regions_model(*final(index), final(ends)@) == add_region(
            regions_model(*old(index), old(ends)@),
            string_bytes(*name),
            end,
        ),
{
    let ghost before = regions_model(*index, ends@);
    let ghost names = region_names(before);
    proof {
        assert(filed(*index, names));
    }
    let idx = index.id_for(name.as_str().as_bytes());
    proof {
        lemma_slot(*old(index), names, string_bytes(*name), idx as int);
    }
    if idx == ends.len() {
        ends.push(end);
    } else {
        ends[idx] = end;
    }
    proof {
        assert(regions_model(*index, ends@) =~~= add_region(before, string_bytes(*name), end));
    }
}

/// Whether `line` begins with `prefix`.
pub fn starts_with(line: &[u8], prefix: &[u8]) -> (yes: bool)
    ensures
        yes == has_prefix(line@, prefix@),
{
    if prefix.len() > line.len() {
        return false;
    }
    let mut i: usize = 0;
    while i < prefix.len()
        invariant
            i <= prefix.len() <= line.len(),
            forall|k: int| 0 <= k < i ==> line@[k] == prefix@[k],
        decreases prefix.len() - i,
    {
        if line[i] != prefix[i] {
            proof {
                assert(line@.subrange(0, prefix@.len() as int)[i as int] != prefix@[i as int]);
            }
            return false;
        }
        i += 1;
    }
    proof {
        assert(line@.subrange(0, prefix@.len() as int) =~= prefix@);
    }
    true
}

/// The elements of `s` in the given order.
fn rearrange_elements(s: &Vec<SignedId>, order: &Vec<usize>) -> (out: Vec<SignedId>)
    requires
        positions_below(order@, s@.len() as int),
    ensures
        out@ == rearranged(s@, order@),
{
    let mut out: Vec<SignedId> = Vec::new();
    let mut k: usize = 0;
    while k < order.len()
        invariant
            k <= order.len(),
            positions_below(order@, s@.len() as int),
            out@.len() == k,
            forall|j: int| 0 <= j < k ==> out@[j] == s@[order@[j] as int],
        decreases order.len() - k,
    {
        out.push(s[order[k]]);
        k += 1;
    }
    assert(out@ =~= rearranged(s@, order@));
    out
}

/// The numbers of `s` in the given order.
fn rearrange_numbers(s: &Vec<usize>, order: &Vec<usize>) -> (out: Vec<usize>)
    requires
        positions_below(order@, s@.len() as int),
    ensures
        out@ == rearranged(s@, order@),
{
    let mut out: Vec<usize> = Vec::new();
    let mut k: usize = 0;
    while k < order.len()
        invariant
            k <= order.len(),
            positions_below(order@, s@.len() as int),
            out@.len() == k,
            forall|j: int| 0 <= j < k ==> out@[j] == s@[order@[j] as int],
        decreases order.len() - k,
    {
        out.push(s[order[k]]);
        k += 1;
    }
    assert(out@ =~= rearranged(s@, order@));
    out
}

/// Adds a path, its rows in coordinate order, to its genome.
fn group_path(
    genomes: &mut Vec<Genome>,
    index: &mut NodeIndexer,
    b: &BoundedPath,
    size: Option<usize>,
)
    requires
        filed(*old(index), genome_names(genome_models(old(genomes)@))),
        b.path_starts@.len() == b.path@.len(),
        b.path_ends@.len() == b.path@.len(),
    ensures
        filed(*final(index), genome_names(genome_models(final(genomes)@))),
        forall|n: int|
            genomes_in_range(old(genomes)@, n) && (forall|k: int|
                0 <= k < b.path@.len() ==> (#[trigger] b.path@[k]).id < n) ==> #[trigger] genomes_in_range(
                final(genomes)@,
                n,
            ),
        all_located(old(genomes)@) ==> all_located(final(genomes)@),
        genome_models(final(genomes)@) == add_path(
            genome_models(old(genomes)@),
            arranged(bounded_model(*b)),
            size,
        ),
{
    let ghost before = genome_models(genomes@);
    let ghost names = genome_names(before);
    let ghost model = arranged(bounded_model(*b));
    let order = sort_positions(&b.path_starts, 0, b.path_starts.len());
    let path_new = rearrange_elements(&b.path, &order);
    let path_starts_new = rearrange_numbers(&b.path_starts, &order);
    let path_ends_new = rearrange_numbers(&b.path_ends, &order);
    let key = match &b.genome_name {
        Some(g) => g.clone(),
        None => b.name.clone(),
    };
    proof {
        assert(string_bytes(key) == genome_of(model));
    }
    let idx = index.id_for(key.as_str().as_bytes());
    proof {
        lemma_slot(*old(index), names, string_bytes(key), idx as int);
    }
    if idx == genomes.len() {
        let mut paths: Vec<Path> = Vec::new();
        paths.push(path_new);
        let mut path_names: Vec<String> = Vec::new();
        path_names.push(b.name.clone());
        let mut path_starts: Vec<Vec<usize>> = Vec::new();
        path_starts.push(path_starts_new);
        let mut path_ends: Vec<Vec<usize>> = Vec::new();
        path_ends.push(path_ends_new);
        let mut path_sizes: Vec<usize> = Vec::new();
        match size {
            Some(n) => {
                path_sizes.push(n);
            },
            None => {},
        }
        genomes.push(
            Genome {
                name: key,
                bundle: PathBundle { paths, path_names, path_starts, path_ends, path_sizes },
            },
        );
        proof {
            assert(genome_models(genomes@)[idx as int] =~~= add_path(before, model, size)[idx as int]);
            assert(genome_models(genomes@) =~~= add_path(before, model, size));
        }
    } else {
        match size {
            Some(n) => {
                genomes[idx].bundle.path_sizes.push(n);
            },
            None => {},
        }
        genomes[idx].bundle.paths.push(path_new);
        genomes[idx].bundle.path_names.push(b.name.clone());
        genomes[idx].bundle.path_starts.push(path_starts_new);
        genomes[idx].bundle.path_ends.push(path_ends_new);
        proof {
            assert(genome_models(genomes@)[idx as int] =~~= add_path(before, model, size)[idx as int]);
            assert(genome_models(genomes@) =~~= add_path(before, model, size));
        }
    }
    proof {
        let walked = model.path;
        assert forall|n: int|
            genomes_in_range(old(genomes)@, n) && (forall|k: int|
                0 <= k < b.path@.len() ==> (#[trigger] b.path@[k]).id < n) implies #[trigger] genomes_in_range(
            genomes@,
            n,
        ) by {
            assert forall|k: int| 0 <= k < walked.len() implies (#[trigger] walked[k]).id < n by {
                assert(walked[k] == b.path@[order@[k] as int]);
            }
            lemma_in_range_with_path(old(genomes)@, genomes@, idx as int, walked, n);
        }
        if all_located(old(genomes)@) {
            assert forall|g: int| 0 <= g < genomes@.len() implies located(#[trigger] genomes@[g]) by {
                if g != idx {
                    assert(located(old(genomes)@[g]));
                } else if idx < old(genomes)@.len() {
                    assert(located(old(genomes)@[g]));
                    let was = old(genomes)@[g].bundle;
                    let now = genomes@[g].bundle;
                    assert forall|p: int| 0 <= p < now.paths@.len() implies (
                    #[trigger] now.path_starts@[p])@.len() == now.paths@[p]@.len() by {
                        if p < was.paths@.len() {
                            assert(now.path_starts@[p] == was.path_starts@[p]);
                        }
                    }
                    assert forall|p: int| 0 <= p < now.paths@.len() implies (
                    #[trigger] now.path_ends@[p])@.len() == now.paths@[p]@.len() by {
                        if p < was.paths@.len() {
                            assert(now.path_ends@[p] == was.path_ends@[p]);
                        }
                    }
                }
            }
        }
    }
}

impl Gff {
    /// Reads an annotation.
    ///
    /// Every readable row adds an element to the path that its first column
    /// names; the paths keep the order in which the input first names them.
    /// Each path is then put in the order of its start coordinates and joins
    /// the genome of its first row, or, where `group_by` is off, a genome of
    /// its own name. Where the input declares extents, every path takes its
    /// size from them, and a path without declared extent is an error. The
    /// number of nodes is one more than the largest node number. Lines that
    /// cannot be read are passed over and returned by their numbers.
    pub fn parse_gff_paths(data: &[u8], group_by: bool) -> (out: Result<
        (GenomeBundle, usize, Unread),
        ParseError,
    >)
        ensures
            gff_reads(data@, group_by, out),
            out matches Ok(read) ==> genomes_in_range(read.0.genomes@, read.1 as int) && all_located(
                read.0.genomes@,
            ),
    {
        let ghost whole = scanned(data@, group_by);
        let mut bounded: Vec<BoundedPath> = Vec::new();
        let mut path_index = NodeIndexer::new();
        let mut region_index = NodeIndexer::new();
        let mut region_ends: Vec<usize> = Vec::new();
        let mut max_id: usize = 0;
        let mut unread_rows: Vec<usize> = Vec::new();
        let mut unread_headers: Vec<usize> = Vec::new();
        let mut pos: usize = 0;
        let mut line_no: usize = 0;
        let ghost mut s = Scanned {
            paths: Seq::empty(),
            regions: Seq::empty(),
            max_id: 0,
            unread_rows: Seq::empty(),
            unread_headers: Seq::empty(),
        };
        proof {
            assert(bounded_models(bounded@) =~~= s.paths);
            assert(regions_model(region_index, region_ends@) =~~= s.regions);
        }
        while pos < data.len()
            invariant
                pos <= data.len(),
                line_no <= pos,
                whole == scanned(data@, group_by),
                scan_from(data@, pos as int, line_no, s, group_by) == whole,
                s.paths == bounded_models(bounded@),
                s.regions == regions_model(region_index, region_ends@),
                s.max_id == max_id,
                max_id < usize::MAX,
                s.unread_rows == unread_rows@,
                s.unread_headers == unread_headers@,
                filed(path_index, path_names(bounded_models(bounded@))),
                aligned(bounded_models(bounded@)),
                ids_within(bounded_models(bounded@), max_id as int),
                region_index.wf(),
                region_index.names@.len() == region_ends@.len(),
            decreases data.len() - pos,
        {
            let at = find_byte(data, 10, pos);
            let end = if at < data.len() {
                at + 1
            } else {
                data.len()
            };
            let line = slice_subrange(data, pos, end);
            let ghost next = scan_line(s, line@, line_no, group_by);
            if line[0] != 35 {
                match Gff::extract_gff_info_from_row(line) {
                    Some((path_name, genome_name, row)) => {
                        proof {
                            broadcast use vstd::utf8::decode_utf8_encode_utf8;

                            let m = parsed_row(line@)->0;
                            assert(string_bytes(path_name) == m.seqname);
                            assert(string_bytes(genome_name) == m.genome);
                            assert(m == RowModel {
                                seqname: string_bytes(path_name),
                                genome: string_bytes(genome_name),
                                row,
                            });
                        }
                        if row.id > max_id {
                            proof {
                                let paths = bounded_models(bounded@);
                                assert forall|i: int, k: int|
                                    0 <= i < paths.len() && 0 <= k < paths[i].path.len() implies (
                                #[trigger] paths[i].path[k]).id <= row.id by {
                                    assert(paths[i].path[k].id <= max_id);
                                }
                            }
                            max_id = row.id;
                        }
                        gather_row(
                            &mut bounded,
                            &mut path_index,
                            path_name,
                            genome_name,
                            row,
                            group_by,
                        );
                    },
                    None => {
                        unread_rows.push(line_no);
                    },
                }
            } else if !starts_with(line, "##gff-version".as_bytes()) {
                match Gff::parse_gff_header(line) {
                    Some((name, _start, size)) => {
                        proof {
                            broadcast use vstd::utf8::decode_utf8_encode_utf8;

                            let h = parsed_header(line@)->0;
                            assert(string_bytes(name) == h.0);
                        }
                        gather_region(&mut region_index, &mut region_ends, &name, size);
                    },
                    None => {
                        unread_headers.push(line_no);
                    },
                }
            }
            proof {
                s = next;
            }
            pos = end;
            line_no += 1;
        }
        let num_paths = bounded.len();
        let mut genomes: Vec<Genome> = Vec::new();
        let mut genome_index = NodeIndexer::new();
        let mut p: usize = 0;
        proof {
            assert(s == whole);
            assert(genome_models(genomes@) =~~= grouped(s, 0));
        }
        while p < bounded.len()
            invariant
                p <= bounded.len(),
                s == scanned(data@, group_by),
                s.paths == bounded_models(bounded@),
                s.regions == regions_model(region_index, region_ends@),
                aligned(bounded_models(bounded@)),
                region_index.wf(),
                region_index.names@.len() == region_ends@.len(),
                filed(genome_index, genome_names(genome_models(genomes@))),
                genome_models(genomes@) == grouped(s, p as int),
                forall|q: int| 0 <= q < p ==> !unsized_path(s, q),
                max_id < usize::MAX,
                ids_within(bounded_models(bounded@), max_id as int),
                genomes_in_range(genomes@, max_id + 1),
                all_located(genomes@),
            decreases bounded.len() - p,
        {
            let b = &bounded[p];
            proof {
                assert(bounded_models(bounded@)[p as int] == bounded_model(*b));
                assert(filed(region_index, region_names(s.regions)));
            }
            let found = region_index.lookup(b.name.as_str().as_bytes());
            proof {
                lemma_slot(
                    region_index,
                    region_names(s.regions),
                    string_bytes(b.name),
                    match found {
                        Some(k) => k as int,
                        None => -1,
                    },
                );
            }
            let size = match found {
                Some(k) => Some(region_ends[k]),
                None => None,
            };
            if region_ends.len() > 0 && size.is_none() {
                proof {
                    assert(s.regions.len() == region_ends@.len());
                    assert(s.paths[p as int].name == string_bytes(b.name));
                    assert(path_size(s.regions, s.paths[p as int].name) is None);
                    assert(unsized_path(s, p as int));
                }
                return Err(ParseError::MissingRegion(p));
            }
            proof {
                assert(s.paths[p as int].name == string_bytes(b.name));
                assert(size == path_size(s.regions, s.paths[p as int].name));
                assert(!unsized_path(s, p as int));
            }
            proof {
                assert forall|k: int| 0 <= k < b.path@.len() implies (#[trigger] b.path@[k]).id < max_id
                    + 1 by {
                    assert(bounded_models(bounded@)[p as int].path[k].id <= max_id);
                }
                assert(bounded_models(bounded@)[p as int].starts.len() == b.path@.len());
            }
            group_path(&mut genomes, &mut genome_index, b, size);
            p += 1;
        }
        Ok(
            (
                GenomeBundle { genomes, num_paths, node_indexer: None },
                max_id + 1,
                Unread { rows: unread_rows, headers: unread_headers },
            ),
        )
    }
}

} // verus!
