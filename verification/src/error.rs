//! What can go wrong with a layer.
use crate::lsn::Lsn;
use crate::relish::SegmentTag;
use vstd::prelude::*;

verus! {

/// Why a layer cannot answer.
#[derive(Debug, Clone, Copy, PartialEq, Eq, Structural)]
pub enum LayerError {
    /// A page version holds neither an image nor a log record.
    NoImageOrRecord,
    /// No size is known at the position or before it.
    NoSize { seg: SegmentTag, lsn: Lsn },
    /// The file is no book.
    NotABook,
    /// The file has no readable chapter of this number.
    NoChapter(u64),
    /// The chapter of this number cannot be decoded.
    BadChapter(u64),
}

} // verus!
