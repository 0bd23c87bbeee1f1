//! The name-bearing dialect: reading its path lines.
use vstd::prelude::*;
use vstd::slice::slice_subrange;
use vstd::utf8::{is_continuation_byte, valid_utf8};
use crate::indexer::{filed, known, lemma_slot, slot, NodeIndexer};
use crate::io::{
    genome_models, genomes_in_range, lemma_in_range_grows, lemma_in_range_with_path, BundleModel,
    Genome, GenomeBundle, GenomeModel, ParseError, Path, PathBundle, SignedId, Unread,
};
use crate::render::paths_named;
use crate::text::{
    field, field_start, field_starts, find, find_byte, find_last, find_last_byte, has_field,
    lemma_fields, lemma_find_last, line_end, string_bytes, string_from_utf8,
};

verus! {

/// The name of the genome of a path: the part of the path name before its
/// first `#`, or all of it where it has none.
pub open spec fn genome_part(path_name: Seq<u8>) -> Seq<u8> {
    path_name.subrange(0, find(path_name, 35, 0))
}

/// The nodes seen so far with their names, the path walked so far, and
/// whether an empty element was met.
#[verifier::ext_equal]
pub struct Walk {
    pub names: Seq<Seq<u8>>,
    pub path: Seq<SignedId>,
    pub broken: bool,
}

/// The walk after one more element: its last byte is the orientation, `+` for
/// forward, and the bytes before it name the node, which gets the next free
/// id where the name is new. An empty element breaks the walk.
pub open spec fn add_node(w: Walk, piece: Seq<u8>) -> Walk {
    if piece.len() == 0 {
        Walk { broken: true, ..w }
    } else {
        let name = piece.drop_last();
        let k = slot(w.names, name);
        Walk {
            names: if k == w.names.len() {
                w.names.push(name)
            } else {
                w.names
            },
            path: w.path.push(SignedId { id: k as usize, plus: piece.last() == 43 }),
            broken: w.broken,
        }
    }
}

/// The walk after the elements of `segs` from position `from` on, which commas
/// separate. The walk ends at the first empty element.
pub open spec fn walk_from(segs: Seq<u8>, from: int, w: Walk) -> Walk
    decreases segs.len() - from,
{
    if from < 0 || from > segs.len() {
        w
    } else {
        let end = find(segs, 44, from);
        let next = add_node(w, segs.subrange(from, end));
        if next.broken || end >= segs.len() || end < from {
            next
        } else {
            walk_from(segs, end + 1, next)
        }
    }
}

/// The element list of a path line: from the third column up to the last
/// tab of the line.
pub open spec fn element_list(line: Seq<u8>) -> Seq<u8> {
    line.subrange(
        field_start(line, 9, 2),
        find_last(line, 9, field_start(line, 9, 2), line.len() as int),
    )
}

/// Whether a path line has all its columns: a name, an element list, and a
/// tab behind the list.
pub open spec fn has_columns(line: Seq<u8>) -> bool {
    has_field(line, 9, 2) && find_last(line, 9, field_start(line, 9, 2), line.len() as int)
        >= field_start(line, 9, 2)
}

/// The names that an indexer holds.
pub open spec fn indexed_names(index: NodeIndexer) -> Seq<Seq<u8>> {
    Seq::new(index.names@.len(), |i: int| index.names@[i]@)
}

/// What a path line yields when the nodes `names` are known: the name of the
/// path and the walk along its elements. A line without all its columns or
/// with an empty element is malformed, and the name must be valid UTF-8.
pub open spec fn parsed_path(line: Seq<u8>, names: Seq<Seq<u8>>, line_no: usize) -> Result<
    (Seq<u8>, Walk),
    ParseError,
> {
    let walk = walk_from(element_list(line), 0, Walk { names, path: Seq::empty(), broken: false });
    if !has_columns(line) {
        Err(ParseError::MalformedPath(line_no))
    } else if !valid_utf8(field(line, 9, 1)) {
        Err(ParseError::InvalidName(line_no))
    } else if walk.broken {
        Err(ParseError::MalformedPath(line_no))
    } else {
        Ok((field(line, 9, 1), walk))
    }
}

/// What the path lines read so far have yielded: the genomes in order of
/// first appearance, the names of the nodes by id, and the number of paths.
#[verifier::ext_equal]
pub struct GfaScan {
    pub genomes: Seq<GenomeModel>,
    pub names: Seq<Seq<u8>>,
    pub num_paths: usize,
}

/// The names of the genomes.
pub open spec fn genome_names(genomes: Seq<GenomeModel>) -> Seq<Seq<u8>> {
    Seq::new(genomes.len(), |i: int| genomes[i].name)
}

/// A bundle with one more named path.
pub open spec fn with_walk(bundle: BundleModel, name: Seq<u8>, path: Seq<SignedId>) -> BundleModel {
    BundleModel {
        paths: bundle.paths.push(path),
        path_names: bundle.path_names.push(name),
        ..bundle
    }
}

/// The genomes after one more path: the path joins the genome of name
/// `genome`, or starts it.
pub open spec fn add_walk(
    genomes: Seq<GenomeModel>,
    genome: Seq<u8>,
    name: Seq<u8>,
    path: Seq<SignedId>,
) -> Seq<GenomeModel> {
    let k = slot(genome_names(genomes), genome);
    let empty = BundleModel {
        paths: Seq::empty(),
        path_names: Seq::empty(),
        path_starts: Seq::empty(),
        path_ends: Seq::empty(),
        path_sizes: Seq::empty(),
    };
    if k == genomes.len() {
        genomes.push(GenomeModel { name: genome, bundle: with_walk(empty, name, path) })
    } else {
        genomes.update(
            k,
            GenomeModel { bundle: with_walk(genomes[k].bundle, name, path), ..genomes[k] },
        )
    }
}

/// What is known after the lines of `data` from position `pos` on, of which
/// the first has number `line_no`. Only the lines that begin with `P` count.
/// The first path line that cannot be read ends the reading with its error.
pub open spec fn gfa_from(data: Seq<u8>, pos: int, line_no: usize, s: GfaScan, group_by: bool) -> Result<
    GfaScan,
    ParseError,
>
    decreases data.len() - pos,
{
    if pos < 0 || pos >= data.len() {
        Ok(s)
    } else {
        let end = line_end(data, pos);
        let line = data.subrange(pos, end);
        if end <= pos || end > data.len() {
            Ok(s)
        } else if line[0] != 80 {
            gfa_from(data, end, (line_no + 1) as usize, s, group_by)
        } else {
            match parsed_path(line, s.names, line_no) {
                Err(e) => Err(e),
                Ok(read) => gfa_from(
                    data,
                    end,
                    (line_no + 1) as usize,
                    GfaScan {
                        genomes: add_walk(
                            s.genomes,
                            if group_by {
                                genome_part(read.0)
                            } else {
                                read.0
                            },
                            read.0,
                            read.1.path,
                        ),
                        names: read.1.names,
                        num_paths: (s.num_paths + 1) as usize,
                    },
                    group_by,
                ),
            }
        }
    }
}

/// What a whole input yields.
pub open spec fn gfa_scanned(data: Seq<u8>, group_by: bool) -> Result<GfaScan, ParseError> {
    gfa_from(
        data,
        0,
        0,
        GfaScan { genomes: Seq::empty(), names: Seq::empty(), num_paths: 0 },
        group_by,
    )
}

/// Whether `out` is what reading `data` yields: the genomes, the number of
/// paths, the indexer with the names of the nodes, and the number of nodes;
/// or the error of the first path line that cannot be read.
pub open spec fn gfa_reads(
    data: Seq<u8>,
    group_by: bool,
    out: Result<(GenomeBundle, usize, Unread), ParseError>,
) -> bool {
    match gfa_scanned(data, group_by) {
        Ok(s) => out matches Ok(read) && {
            &&& genome_models(read.0.genomes@) == s.genomes
            &&& read.0.num_paths == s.num_paths
            &&& read.0.node_indexer matches Some(index) && index.wf() && indexed_names(index)
                == s.names
            &&& read.1 == s.names.len()
            &&& read.2.rows@.len() == 0
            &&& read.2.headers@.len() == 0
        },
        Err(e) => out matches Err(f) && f == e,
    }
}

/// The reader of the name-bearing dialect.
pub struct Gfa;

impl Gfa {
    /// The name of the genome of a path: the part of the path name before its
    /// first `#`, or all of it where it has none.
    pub fn path_name_to_genome_string(path_name: String) -> (genome: String)
        ensures
            string_bytes(genome) == genome_part(string_bytes(path_name)),
    {
        let bytes = path_name.as_str().as_bytes();
        let idx = find_byte(bytes, 35, 0);
        if idx < bytes.len() {
            proof {
                broadcast use vstd::utf8::encode_utf8_valid_utf8;
                broadcast use vstd::utf8::decode_utf8_encode_utf8;

                let all = string_bytes(path_name);
                assert(valid_utf8(all));
                assert(!is_continuation_byte(35u8));
                vstd::utf8::is_char_boundary_iff_not_is_continuation_byte(all, idx as int);
                vstd::utf8::valid_utf8_split(all, idx as int);
            }
            match string_from_utf8(slice_subrange(bytes, 0, idx)) {
                Some(genome) => {
                    proof {
                        broadcast use vstd::utf8::decode_utf8_encode_utf8;

                    }
                    genome
                },
                None => path_name,
            }
        } else {
            proof {
                assert(string_bytes(path_name).subrange(0, idx as int) =~= string_bytes(path_name));
            }
            path_name
        }
    }

    /// Reads one element of a path: the node named by all but its last byte,
    /// in the orientation that the last byte gives.
    pub fn parse_path_node(node: &[u8], node_indexer: &mut NodeIndexer) -> (el: SignedId)
        requires
            node@.len() > 0,
            old(node_indexer).wf(),
        ensures
            final(node_indexer).wf(),
            el.plus == (node@.last() == 43),
            el.id < final(node_indexer).names@.len(),
            old(node_indexer).names@.len() <= final(node_indexer).names@.len(),
            final(node_indexer).names@[el.id as int]@ == node@.drop_last(),
            known(old(node_indexer).names@, node@.drop_last()) ==> final(node_indexer).names@ == old(
                node_indexer,
            ).names@,
            !known(old(node_indexer).names@, node@.drop_last()) ==> el.id == old(node_indexer).names@.len()
                && final(node_indexer).names@ == old(node_indexer).names@.push(
                final(node_indexer).names@[el.id as int],
            ),
    {
        let orient = node[node.len() - 1];
        let name = slice_subrange(node, 0, node.len() - 1);
        assert(name@ =~= node@.drop_last());
        let id = node_indexer.id_for(name);
        SignedId { id, plus: orient == 43 }
    }
}

impl Gfa {
    /// Reads a path line: the name of the path and its elements. New nodes
    /// are entered into `node_indexer` as they are met.
    pub fn parse_path_seq_to_signed_id_vec(
        data: &[u8],
        node_indexer: &mut NodeIndexer,
        line_no: usize,
    ) -> (out: Result<(String, Path), ParseError>)
        requires
            old(node_indexer).wf(),
        ensures
            final(node_indexer).wf(),
            match parsed_path(data@, indexed_names(*old(node_indexer)), line_no) {
                Ok(model) => out matches Ok(read) && string_bytes(read.0) == model.0 && read.1@
                    == model.1.path && indexed_names(*final(node_indexer)) == model.1.names,
                Err(e) => out == Err::<(String, Path), ParseError>(e),
            },
            old(node_indexer).names@.len() <= final(node_indexer).names@.len(),
            out matches Ok(read) ==> forall|k: int|
                0 <= k < read.1@.len() ==> (#[trigger] read.1@[k]).id < final(node_indexer).names@.len(),
    {
        let ghost names0 = indexed_names(*node_indexer);
        let starts = match field_starts(data, 9, 3) {
            Some(starts) => starts,
            None => {
                return Err(ParseError::MalformedPath(line_no));
            },
        };
        proof {
            lemma_fields(data@, 9, 2);
            assert(field_start(data@, 9, 1) <= find(data@, 9, field_start(data@, 9, 1)) < data@.len());
            assert(field_start(data@, 9, 2) <= data@.len());
            lemma_find_last(data@, 9, field_start(data@, 9, 2), data@.len() as int);
        }
        let end = match find_last_byte(data, 9, starts[2]) {
            Some(end) => end,
            None => {
                return Err(ParseError::MalformedPath(line_no));
            },
        };
        let name_bytes = slice_subrange(data, starts[1], find_byte(data, 9, starts[1]));
        let path_name = match string_from_utf8(name_bytes) {
            Some(s) => s,
            None => {
                return Err(ParseError::InvalidName(line_no));
            },
        };
        proof {
            broadcast use vstd::utf8::decode_utf8_encode_utf8;

            assert(string_bytes(path_name) == field(data@, 9, 1));
        }
        let segs = slice_subrange(data, starts[2], end);
        let ghost whole = walk_from(segs@, 0, Walk { names: names0, path: Seq::empty(), broken: false });
        let ghost mut w = Walk { names: names0, path: Seq::empty(), broken: false };
        let mut path: Path = Vec::new();
        let mut from: usize = 0;
        let mut done = false;
        proof {
            assert(indexed_names(*node_indexer) =~= w.names);
        }
        while !done
            invariant
                from <= segs@.len(),
                node_indexer.wf(),
                segs@ == element_list(data@),
                has_columns(data@),
                valid_utf8(field(data@, 9, 1)),
                names0 == indexed_names(*old(node_indexer)),
                whole == walk_from(
                    segs@,
                    0,
                    Walk { names: names0, path: Seq::empty(), broken: false },
                ),
                w.names == indexed_names(*node_indexer),
                w.path == path@,
                !w.broken,
                old(node_indexer).names@.len() <= node_indexer.names@.len(),
                forall|k: int| 0 <= k < path@.len() ==> (#[trigger] path@[k]).id < node_indexer.names@.len(),
                !done ==> walk_from(segs@, from as int, w) == whole,
                done ==> w == whole,
            decreases segs@.len() - from + if done { 0int } else { 1int },
        {
            let stop = find_byte(segs, 44, from);
            let piece = slice_subrange(segs, from, stop);
            if piece.len() == 0 {
                proof {
                    assert(add_node(w, piece@).broken);
                    assert(whole.broken);
                }
                return Err(ParseError::MalformedPath(line_no));
            }
            let ghost before = *node_indexer;
            let el = Gfa::parse_path_node(piece, node_indexer);
            proof {
                assert(filed(before, w.names));
                lemma_slot(before, w.names, piece@.drop_last(), el.id as int);
                let next = add_node(w, piece@);
                assert(indexed_names(*node_indexer) =~= next.names) by {
                    if known(before.names@, piece@.drop_last()) {
                        assert(indexed_names(*node_indexer) =~= w.names);
                    } else {
                        assert(indexed_names(*node_indexer) =~= w.names.push(piece@.drop_last()));
                    }
                }
                assert(el.id == slot(w.names, piece@.drop_last()));
                w = next;
            }
            path.push(el);
            if stop >= segs.len() {
                done = true;
            } else {
                from = stop + 1;
            }
        }
        Ok((path_name, path))
    }
}

/// Adds a path to the genome of the given name.
fn group_walk(
    genomes: &mut Vec<Genome>,
    index: &mut NodeIndexer,
    genome_name: String,
    path_name: String,
    path: Path,
)
    requires
        filed(*old(index), genome_names(genome_models(old(genomes)@))),
    ensures
        filed(*final(index), genome_names(genome_models(final(genomes)@))),
        forall|n: int|
            genomes_in_range(old(genomes)@, n) && (forall|k: int|
                0 <= k < path@.len() ==> (#[trigger] path@[k]).id < n) ==> #[trigger] genomes_in_range(
                final(genomes)@,
                n,
            ),
        paths_named(old(genomes)@) ==> paths_named(final(genomes)@),
        genome_models(final(genomes)@) == add_walk(
            genome_models(old(genomes)@),
            string_bytes(genome_name),
            string_bytes(path_name),
            path@,
        ),
{
    let ghost before = genome_models(genomes@);
    let ghost names = genome_names(before);
    let ghost after = add_walk(before, string_bytes(genome_name), string_bytes(path_name), path@);
    let ghost walked = path@;
    let idx = index.id_for(genome_name.as_str().as_bytes());
    proof {
        lemma_slot(*old(index), names, string_bytes(genome_name), idx as int);
    }
    if idx == genomes.len() {
        let mut paths: Vec<Path> = Vec::new();
        paths.push(path);
        let mut path_names: Vec<String> = Vec::new();
        path_names.push(path_name);
        genomes.push(
            Genome {
                name: genome_name,
                bundle: PathBundle {
                    paths,
                    path_names,
                    path_starts: Vec::new(),
                    path_ends: Vec::new(),
                    path_sizes: Vec::new(),
                },
            },
        );
        proof {
            assert(genome_models(genomes@)[idx as int] =~~= after[idx as int]);
            assert(genome_models(genomes@) =~~= after);
        }
    } else {
        genomes[idx].bundle.paths.push(path);
        genomes[idx].bundle.path_names.push(path_name);
        proof {
            assert(genome_models(genomes@)[idx as int] =~~= after[idx as int]);
            assert(genome_models(genomes@) =~~= after);
        }
    }
    proof {
        assert forall|n: int|
            genomes_in_range(old(genomes)@, n) && (forall|k: int|
                0 <= k < walked.len() ==> (#[trigger] walked[k]).id < n) implies #[trigger] genomes_in_range(
            genomes@,
            n,
        ) by {
            lemma_in_range_with_path(old(genomes)@, genomes@, idx as int, walked, n);
        }
        if paths_named(old(genomes)@) {
            assert forall|g: int| 0 <= g < genomes@.len() implies (
            #[trigger] genomes@[g]).bundle.path_names@.len() == genomes@[g].bundle.paths@.len() by {
                if g < old(genomes)@.len() {
                    assert(old(genomes)@[g].bundle.path_names@.len() == old(
                        genomes,
                    )@[g].bundle.paths@.len());
                }
            }
        }
    }
}

impl Gfa {
    /// Reads the paths of an input.
    ///
    /// Every line that begins with `P` gives one path. Its elements name the
    /// nodes, which are numbered in order of first appearance. The path joins
    /// the genome named by the part of its name before the first `#`, or,
    /// where `group_by` is off, a genome of its own name; the genomes keep the
    /// order in which the input first names them. The first path line that
    /// cannot be read ends the reading with an error.
    pub fn parse_gfa_paths(data: &[u8], group_by: bool) -> (out: Result<
        (GenomeBundle, usize, Unread),
        ParseError,
    >)
        ensures
            gfa_reads(data@, group_by, out),
            out matches Ok(read) ==> genomes_in_range(read.0.genomes@, read.1 as int) && paths_named(
                read.0.genomes@,
            ),
    {
        let ghost whole = gfa_scanned(data@, group_by);
        let mut genomes: Vec<Genome> = Vec::new();
        let mut genome_index = NodeIndexer::new();
        let mut node_indexer = NodeIndexer::new();
        let mut num_paths: usize = 0;
        let mut pos: usize = 0;
        let mut line_no: usize = 0;
        let ghost mut s = GfaScan { genomes: Seq::empty(), names: Seq::empty(), num_paths: 0 };
        proof {
            assert(genome_models(genomes@) =~~= s.genomes);
            assert(indexed_names(node_indexer) =~= s.names);
        }
        while pos < data.len()
            invariant
                pos <= data.len(),
                line_no <= pos,
                num_paths <= line_no,
                whole == gfa_scanned(data@, group_by),
                gfa_from(data@, pos as int, line_no, s, group_by) == whole,
                s.genomes == genome_models(genomes@),
                s.names == indexed_names(node_indexer),
                s.num_paths == num_paths,
                node_indexer.wf(),
                filed(genome_index, genome_names(genome_models(genomes@))),
                genomes_in_range(genomes@, node_indexer.names@.len() as int),
                paths_named(genomes@),
            decreases data.len() - pos,
        {
            let at = find_byte(data, 10, pos);
            let end = if at < data.len() {
                at + 1
            } else {
                data.len()
            };
            let line = slice_subrange(data, pos, end);
            if line[0] == 80 {
                match Gfa::parse_path_seq_to_signed_id_vec(line, &mut node_indexer, line_no) {
                    Err(e) => {
                        return Err(e);
                    },
                    Ok((path_name, path)) => {
                        let ghost model = parsed_path(line@, s.names, line_no)->Ok_0;
                        proof {
                            lemma_in_range_grows(
                                genomes@,
                                s.names.len() as int,
                                node_indexer.names@.len() as int,
                            );
                        }
                        let genome_name = if group_by {
                            Gfa::path_name_to_genome_string(path_name.clone())
                        } else {
                            path_name.clone()
                        };
                        proof {
                            s = GfaScan {
                                genomes: add_walk(
                                    s.genomes,
                                    string_bytes(genome_name),
                                    model.0,
                                    model.1.path,
                                ),
                                names: model.1.names,
                                num_paths: (num_paths + 1) as usize,
                            };
                        }
                        group_walk(&mut genomes, &mut genome_index, genome_name, path_name, path);
                        num_paths += 1;
                    },
                }
            }
            pos = end;
            line_no += 1;
        }
        let num_nodes = node_indexer.next;
        Ok(
            (
                GenomeBundle { genomes, num_paths, node_indexer: Some(node_indexer) },
                num_nodes,
                Unread { rows: Vec::new(), headers: Vec::new() },
            ),
        )
    }
}

} // verus!
