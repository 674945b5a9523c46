//! The typed records of the line-oriented genome-assembly interchange
//! format that the graph core consumes: segments carry an identifier
//! and a sequence, links join two oriented segment identifiers. The
//! core receives these records from an external parser collaborator
//! and never performs file input itself.

use vstd::prelude::*;

verus! {

/// The orientation tag of a segment reference; each segment identifier
/// doubles into two oriented vertex identities.
#[derive(Debug, Hash, PartialEq, Eq, Structural, Clone, Copy)]
pub enum Orientation {
    Forward,
    Reverse,
}

/// One record of the interchange format.
#[derive(Debug)]
pub enum Entry {
    Header { version: String },
    Segment { id: String, sequence: String },
    Link { from: String, from_orient: Orientation, to: String, to_orient: Orientation },
    Path { name: String, segments: Vec<(String, Orientation)> },
    Walk {
        sample: String,
        haplotype_index: usize,
        seq_id: String,
        seq_start: usize,
        seq_end: usize,
        segments: Vec<(String, Orientation)>,
    },
}

} // verus!
