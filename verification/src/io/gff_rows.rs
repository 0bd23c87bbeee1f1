//! The rows and header lines of the coordinate-bearing dialect.
use vstd::prelude::*;
use vstd::slice::slice_subrange;
use vstd::string::StringSliceAdditionalSpecFns;
use vstd::utf8::{decode_utf8, valid_utf8};
use crate::io::gff::Gff;
use crate::text::{
    eq_ignore_case, field, field_start, field_starts, find, find_byte, has_field, lemma_fields,
    parse_number, parsed_number, rest_from_field, same_ignoring_case, string_from_utf8, trim,
    trimmed,
};

verus! {

/// The coordinates, strand and node of one row.
#[derive(Clone, Copy, Debug, PartialEq, Eq, Structural)]
pub struct GffRow {
    pub start: usize,
    pub end: usize,
    pub strand: bool,
    pub id: usize,
}

/// What the attributes of a row have yielded so far: the number of the node
/// and the name of the genome.
pub struct Attributes {
    pub id: Option<usize>,
    pub genome: Option<Seq<u8>>,
}

/// What a readable row yields: the name of its path, the name of its genome,
/// and its coordinates.
pub struct RowModel {
    pub seqname: Seq<u8>,
    pub genome: Seq<u8>,
    pub row: GffRow,
}

/// The attributes after one more `key=value` piece. The piece is trimmed; a
/// key `id`, in any case, sets the node number if its trimmed value is a
/// number; a key `genome` sets the genome to its value; anything else is
/// passed over.
pub open spec fn attribute(piece: Seq<u8>, found: Attributes) -> Attributes {
    let kv = trimmed(piece);
    let eq = find(kv, 61, 0);
    if eq >= kv.len() {
        found
    } else {
        let key = kv.subrange(0, eq);
        let val = kv.subrange(eq + 1, kv.len() as int);
        if same_ignoring_case(key, "id".spec_bytes()) {
            match parsed_number(trimmed(val)) {
                Some(n) => Attributes { id: Some(n), ..found },
                None => found,
            }
        } else if same_ignoring_case(key, "genome".spec_bytes()) {
            Attributes { genome: Some(val), ..found }
        } else {
            found
        }
    }
}

/// The attributes after the pieces of `field` from position `from` on, which
/// semicolons separate.
pub open spec fn attributes(field: Seq<u8>, from: int, found: Attributes) -> Attributes
    decreases field.len() - from,
{
    if from < 0 || from > field.len() {
        found
    } else {
        let end = find(field, 59, from);
        let next = attribute(field.subrange(from, end), found);
        if end >= field.len() || end < from {
            next
        } else {
            attributes(field, end + 1, next)
        }
    }
}

/// What a row yields. A readable row has nine tab-separated columns, of which
/// the first is the path, the fourth and fifth are the start and the end, the
/// seventh is the strand, and the ninth holds the attributes, among them the
/// node number, counted from one, and the genome. Names must be valid UTF-8.
pub open spec fn parsed_row(line: Seq<u8>) -> Option<RowModel> {
    if !has_field(line, 9, 8) {
        None
    } else {
        let seqname = field(line, 9, 0);
        let start = parsed_number(field(line, 9, 3));
        let end = parsed_number(field(line, 9, 4));
        let attrs = rest_from_field(line, 9, 8);
        let found = attributes(attrs, 0, Attributes { id: None, genome: None });
        if valid_utf8(seqname) && start is Some && end is Some && valid_utf8(attrs) && found.id is Some
            && found.id != Some(0usize) && found.genome is Some && valid_utf8(found.genome->0) {
            Some(
                RowModel {
                    seqname,
                    genome: found.genome->0,
                    row: GffRow {
                        start: start->0,
                        end: end->0,
                        strand: field(line, 9, 6) == seq![43u8],
                        id: (found.id->0 - 1) as usize,
                    },
                },
            )
        } else {
            None
        }
    }
}

/// What a header line yields: the name of a path and its declared range. The
/// line has four blank-separated parts, of which the second is the name, the
/// third the start, and the rest, trimmed, the end.
pub open spec fn parsed_header(line: Seq<u8>) -> Option<(Seq<u8>, usize, usize)> {
    if !has_field(line, 32, 3) {
        None
    } else {
        let seqname = field(line, 32, 1);
        let start = parsed_number(field(line, 32, 2));
        let end = parsed_number(trimmed(rest_from_field(line, 32, 3)));
        if valid_utf8(field(line, 32, 0)) && valid_utf8(seqname) && start is Some && end is Some
            && valid_utf8(rest_from_field(line, 32, 3)) {
            Some((seqname, start->0, end->0))
        } else {
            None
        }
    }
}

/// Reads the attributes of a row. Returns the node number and the bounds of
/// the genome name within `attrs`.
fn read_attributes(attrs: &[u8]) -> (found: (Option<usize>, Option<(usize, usize)>))
    ensures
        found.0 == attributes(attrs@, 0, Attributes { id: None, genome: None }).id,
        match found.1 {
            Some(bounds) => bounds.0 <= bounds.1 <= attrs@.len() && attributes(
                attrs@,
                0,
                Attributes { id: None, genome: None },
            ).genome == Some(attrs@.subrange(bounds.0 as int, bounds.1 as int)),
            None => attributes(attrs@, 0, Attributes { id: None, genome: None }).genome is None,
        },
{
    let ghost whole = attributes(attrs@, 0, Attributes { id: None, genome: None });
    let mut id: Option<usize> = None;
    let mut genome: Option<(usize, usize)> = None;
    let ghost mut so_far = Attributes { id: None, genome: None };
    let mut from: usize = 0;
    let mut done = false;
    while !done
        invariant
            from <= attrs@.len(),
            id == so_far.id,
            match genome {
                Some(bounds) => bounds.0 <= bounds.1 <= attrs@.len() && so_far.genome == Some(
                    attrs@.subrange(bounds.0 as int, bounds.1 as int),
                ),
                None => so_far.genome is None,
            },
            !done ==> attributes(attrs@, from as int, so_far) == whole,
            done ==> so_far == whole,
        decreases attrs@.len() - from + if done { 0int } else { 1int },
    {
        let end = find_byte(attrs, 59, from);
        let piece = slice_subrange(attrs, from, end);
        let (ts, te) = trim(piece);
        let kv = slice_subrange(piece, ts, te);
        let eq = find_byte(kv, 61, 0);
        let ghost before = so_far;
        if eq < kv.len() {
            let key = slice_subrange(kv, 0, eq);
            let val = slice_subrange(kv, eq + 1, kv.len());
            if eq_ignore_case(key, "id".as_bytes()) {
                let (vs, ve) = trim(val);
                match parse_number(slice_subrange(val, vs, ve)) {
                    Some(n) => {
                        id = Some(n);
                        proof {
                            so_far = Attributes { id: Some(n), ..so_far };
                        }
                    },
                    None => {},
                }
            } else if eq_ignore_case(key, "genome".as_bytes()) {
                genome = Some((from + ts + eq + 1, from + te));
                proof {
                    so_far = Attributes { genome: Some(val@), ..so_far };
                    assert(val@ =~= attrs@.subrange(from + ts + eq + 1, from + te));
                }
            }
        }
        proof {
            assert(so_far == attribute(attrs@.subrange(from as int, end as int), before));
        }
        if end >= attrs.len() {
            done = true;
        } else {
            from = end + 1;
        }
    }
    (id, genome)
}

impl Gff {
    /// Reads one row. Returns the name of its path, the name of its genome and
    /// its coordinates, or nothing where the row cannot be read.
    pub fn extract_gff_info_from_row(line: &[u8]) -> (out: Option<(String, String, GffRow)>)
        ensures
            match parsed_row(line@) {
                Some(model) => out matches Some(read) && read.0@ == decode_utf8(model.seqname)
                    && read.1@ == decode_utf8(model.genome) && read.2 == model.row,
                None => out is None,
            },
    {
        let starts = match field_starts(line, 9, 9) {
            Some(starts) => starts,
            None => {
                return None;
            },
        };
        proof {
            lemma_fields(line@, 9, 8);
            assert(field_start(line@, 9, 0) <= find(line@, 9, field_start(line@, 9, 0)) < line@.len());
            assert(field_start(line@, 9, 3) <= find(line@, 9, field_start(line@, 9, 3)) < line@.len());
            assert(field_start(line@, 9, 4) <= find(line@, 9, field_start(line@, 9, 4)) < line@.len());
            assert(field_start(line@, 9, 6) <= find(line@, 9, field_start(line@, 9, 6)) < line@.len());
            assert(field_start(line@, 9, 8) <= line@.len());
        }
        let seqname_bytes = slice_subrange(line, starts[0], find_byte(line, 9, starts[0]));
        let start_bytes = slice_subrange(line, starts[3], find_byte(line, 9, starts[3]));
        let end_bytes = slice_subrange(line, starts[4], find_byte(line, 9, starts[4]));
        let strand_bytes = slice_subrange(line, starts[6], find_byte(line, 9, starts[6]));
        let attrs = slice_subrange(line, starts[8], line.len());
        let seqname = match string_from_utf8(seqname_bytes) {
            Some(s) => s,
            None => {
                return None;
            },
        };
        let start = match parse_number(start_bytes) {
            Some(n) => n,
            None => {
                return None;
            },
        };
        let end = match parse_number(end_bytes) {
            Some(n) => n,
            None => {
                return None;
            },
        };
        let strand = strand_bytes.len() == 1 && strand_bytes[0] == 43;
        proof {
            assert(strand == (strand_bytes@ == seq![43u8])) by {
                if strand {
                    assert(strand_bytes@ =~= seq![43u8]);
                } else if strand_bytes@.len() == 1 {
                    assert(seq![43u8][0] == 43u8);
                } else {
                    assert(seq![43u8].len() == 1);
                }
            }
        }
        if string_from_utf8(attrs).is_none() {
            return None;
        }
        let (id, genome) = read_attributes(attrs);
        let id = match id {
            Some(n) => n,
            None => {
                return None;
            },
        };
        if id == 0 {
            return None;
        }
        let bounds = match genome {
            Some(bounds) => bounds,
            None => {
                return None;
            },
        };
        let genome_name = match string_from_utf8(slice_subrange(attrs, bounds.0, bounds.1)) {
            Some(s) => s,
            None => {
                return None;
            },
        };
        Some((seqname, genome_name, GffRow { start, end, strand, id: id - 1 }))
    }

    /// Reads one header line. Returns the name of a path and its declared
    /// start and end, or nothing where the line cannot be read.
    pub fn parse_gff_header(line: &[u8]) -> (out: Option<(String, usize, usize)>)
        ensures
            match parsed_header(line@) {
                Some(model) => out matches Some(read) && read.0@ == decode_utf8(model.0) && read.1
                    == model.1 && read.2 == model.2,
                None => out is None,
            },
    {
        let starts = match field_starts(line, 32, 4) {
            Some(starts) => starts,
            None => {
                return None;
            },
        };
        proof {
            lemma_fields(line@, 32, 3);
            assert(field_start(line@, 32, 0) <= find(line@, 32, field_start(line@, 32, 0)) < line@.len());
            assert(field_start(line@, 32, 1) <= find(line@, 32, field_start(line@, 32, 1)) < line@.len());
            assert(field_start(line@, 32, 2) <= find(line@, 32, field_start(line@, 32, 2)) < line@.len());
            assert(field_start(line@, 32, 3) <= line@.len());
        }
        let first = slice_subrange(line, starts[0], find_byte(line, 32, starts[0]));
        let seqname_bytes = slice_subrange(line, starts[1], find_byte(line, 32, starts[1]));
        let start_bytes = slice_subrange(line, starts[2], find_byte(line, 32, starts[2]));
        let rest = slice_subrange(line, starts[3], line.len());
        if string_from_utf8(first).is_none() {
            return None;
        }
        let seqname = match string_from_utf8(seqname_bytes) {
            Some(s) => s,
            None => {
                return None;
            },
        };
        let start = match parse_number(start_bytes) {
            Some(n) => n,
            None => {
                return None;
            },
        };
        if string_from_utf8(rest).is_none() {
            return None;
        }
        let (ts, te) = trim(rest);
        let end = match parse_number(slice_subrange(rest, ts, te)) {
            Some(n) => n,
            None => {
                return None;
            },
        };
        Some((seqname, start, end))
    }
}

} // verus!
