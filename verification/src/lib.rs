//! Compaction of pangenome graphs into core partitions.
//!
//! A pangenome is a set of genomes, each a collection of paths over oriented
//! nodes. The library builds a bidirected graph over node extremities,
//! contracts every chain of extremities that have a single live neighbour, and
//! resolves the resulting merge forest into partitions.
pub mod cli;
pub mod compression;
pub mod contraction;
pub mod duplicates;
pub mod forest;
pub mod graph;
pub mod indexer;
pub mod io;
pub mod linkage;
pub mod refinement;
pub mod render;
pub mod settling;
pub mod sorting;
pub mod text;

