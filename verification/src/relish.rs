//! What a snapshot file holds a part of.
//!
//! A relish is a relation, or another file of the data directory that is stored
//! in the same way.
use vstd::prelude::*;

verus! {

/// One fork of a relation.
#[derive(Debug, Clone, Copy, PartialEq, Eq, PartialOrd, Ord, Hash, Structural)]
pub struct RelTag {
    pub spcnode: u32,
    pub dbnode: u32,
    pub relnode: u32,
    pub forknum: u8,
}

/// The kinds of SLRU files.
#[derive(Debug, Clone, Copy, PartialEq, Eq, PartialOrd, Ord, Hash, Structural)]
pub enum SlruKind {
    Clog,
    MultiXactMembers,
    MultiXactOffsets,
}

/// A relation or another file that is stored like one.
#[derive(Debug, Clone, Copy, PartialEq, Eq, PartialOrd, Ord, Hash, Structural)]
pub enum RelishTag {
    Relation(RelTag),
    Slru { slru: SlruKind, segno: u32 },
    FileNodeMap { spcnode: u32, dbnode: u32 },
    TwoPhase { xid: u32 },
    Checkpoint,
    ControlFile,
}

/// One segment of a relish.
#[derive(Debug, Clone, Copy, PartialEq, Eq, PartialOrd, Ord, Hash, Structural)]
pub struct SegmentTag {
    pub rel: RelishTag,
    pub segno: u32,
}

} // verus!
