//! The configuration of a run.
use vstd::prelude::*;
use vstd::string::StringSliceAdditionalSpecFns;
use crate::text::{parse_number, parsed_number};

verus! {

/// The configuration of a run.
#[derive(Debug)]
pub struct Cli {
    /// The name of the input graph file.
    pub graph_input: String,
    /// The directory that receives the output.
    pub out_dir: String,
    /// The duplicate threshold: zero sets no node apart, two keeps recurring
    /// nodes unmerged, three or more removes a node that occurs so often within
    /// a genome. One is not allowed.
    pub remove_duplicates: usize,
    /// The minimum length of an element that stayed unmerged; zero keeps all.
    pub min_size: usize,
    /// Whether paths are grouped into genomes by their names.
    pub group_by: bool,
    /// Whether the classification of recurring nodes is left out: none is kept
    /// unmerged and none is removed.
    pub dirty: bool,
}

/// Why an argument was refused.
#[derive(Clone, Copy, Debug, PartialEq, Eq, Structural)]
pub enum ArgError {
    /// The argument is not a number.
    NotANumber,
    /// The duplicate threshold is one.
    OneNotAllowed,
}

impl Cli {
    /// Whether the configuration is allowed: the duplicate threshold is not
    /// one.
    pub open spec fn allowed(&self) -> bool {
        self.remove_duplicates != 1
    }

    /// Reads the duplicate threshold: a number other than one.
    pub fn parse_remove_duplicates(arg: &str) -> (out: Result<usize, ArgError>)
        ensures
            out == match parsed_number(arg.spec_bytes()) {
                None => Err::<usize, ArgError>(ArgError::NotANumber),
                Some(v) => if v == 1 {
                    Err(ArgError::OneNotAllowed)
                } else {
                    Ok(v)
                },
            },
    {
        match parse_number(arg.as_bytes()) {
            None => Err(ArgError::NotANumber),
            Some(v) => if v == 1 {
                Err(ArgError::OneNotAllowed)
            } else {
                Ok(v)
            },
        }
    }

    /// Reads the minimum element length: a number.
    pub fn parse_min_size(arg: &str) -> (out: Result<usize, ArgError>)
        ensures
            out == match parsed_number(arg.spec_bytes()) {
                None => Err::<usize, ArgError>(ArgError::NotANumber),
                Some(v) => Ok(v),
            },
    {
        match parse_number(arg.as_bytes()) {
            None => Err(ArgError::NotANumber),
            Some(v) => Ok(v),
        }
    }
}

} // verus!
