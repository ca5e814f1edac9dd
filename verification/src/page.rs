//! Versions of pages.
use crate::lsn::Lsn;
use crate::ordered_map::MapKey;
use vstd::prelude::*;

verus! {

/// A record of the write-ahead log that changes a page.
#[derive(Debug, PartialEq, Eq)]
pub struct WALRecord {
    /// The end of the record in the log.
    pub lsn: Lsn,
    /// Whether the record sets the page up anew, whatever it held before.
    pub will_init: bool,
    /// The record itself.
    pub rec: Vec<u8>,
    /// Where the main data of the record begins in `rec`.
    pub main_data_offset: u32,
}

/// What a log record holds.
#[verifier::ext_equal]
pub struct WALRecordView {
    pub lsn: Lsn,
    pub will_init: bool,
    pub rec: Seq<u8>,
    pub main_data_offset: u32,
}

impl View for WALRecord {
    type V = WALRecordView;

    open spec fn view(&self) -> WALRecordView {
        WALRecordView {
            lsn: self.lsn,
            will_init: self.will_init,
            rec: self.rec@,
            main_data_offset: self.main_data_offset,
        }
    }
}

impl Clone for WALRecord {
    fn clone(&self) -> (copy: Self)
        ensures
            copy@ == self@,
    {
        let rec: Vec<u8> = self.rec.clone();
        assert(rec@ =~= self.rec@);
        WALRecord {
            lsn: self.lsn,
            will_init: self.will_init,
            rec,
            main_data_offset: self.main_data_offset,
        }
    }
}

/// One version of a page: an image of the whole page, or a log record that makes
/// it from the version before.
#[derive(Debug, PartialEq, Eq)]
pub struct PageVersion {
    pub page_image: Option<Vec<u8>>,
    pub record: Option<WALRecord>,
}

/// What a page version holds.
#[verifier::ext_equal]
pub struct PageVersionView {
    pub page_image: Option<Seq<u8>>,
    pub record: Option<WALRecordView>,
}

impl View for PageVersion {
    type V = PageVersionView;

    open spec fn view(&self) -> PageVersionView {
        PageVersionView {
            page_image: match self.page_image {
                Some(image) => Some(image@),
                None => None,
            },
            record: match self.record {
                Some(record) => Some(record@),
                None => None,
            },
        }
    }
}

/// A block of a segment at a log position.
#[derive(Debug, Clone, Copy, PartialEq, Eq, PartialOrd, Ord, Hash, Structural)]
pub struct PageKey {
    pub blknum: u32,
    pub lsn: Lsn,
}

impl MapKey for PageKey {
    /// Keys are ordered by block number, and those of a block by position.
    open spec fn rank(self) -> int {
        self.blknum * 0x1_0000_0000_0000_0000 + self.lsn.0
    }

    proof fn rank_tells_apart(a: Self, b: Self) {
    }

    fn precedes(self, other: Self) -> (before: bool) {
        self.blknum < other.blknum || (self.blknum == other.blknum && self.lsn.0 < other.lsn.0)
    }
}

impl MapKey for Lsn {
    open spec fn rank(self) -> int {
        self.0 as int
    }

    proof fn rank_tells_apart(a: Self, b: Self) {
    }

    fn precedes(self, other: Self) -> (before: bool) {
        self.0 < other.0
    }
}

/// What is needed to make a page: a base image, where one was found, and the
/// records to apply, the newest first.
#[derive(Debug, PartialEq, Eq)]
pub struct PageReconstructData {
    pub records: Vec<WALRecord>,
    pub page_img: Option<Vec<u8>>,
}

impl PageReconstructData {
    /// The records collected so far, the newest first.
    pub open spec fn records_view(self) -> Seq<WALRecordView> {
        Seq::new(self.records@.len(), |i: int| self.records@[i]@)
    }

    /// The base image, where one was found.
    pub open spec fn image_view(self) -> Option<Seq<u8>> {
        match self.page_img {
            Some(image) => Some(image@),
            None => None,
        }
    }
}

/// Versions are ordered by block, and those of one block by position.
pub proof fn law_page_keys_sort(a: PageKey, b: PageKey)
    ensures
        a.rank() < b.rank() <==> a.blknum < b.blknum || (a.blknum == b.blknum && a.lsn.0 < b.lsn.0),
{
}

/// Sizes are ordered by position.
pub proof fn law_positions_sort(a: Lsn, b: Lsn)
    ensures
        a.rank() < b.rank() <==> a.0 < b.0,
{
}

/// What is said of log records and page versions is said of each of their parts.
pub proof fn law_parts_of_versions(record: WALRecord, version: PageVersion)
    ensures
        record@.lsn == record.lsn,
        record@.will_init == record.will_init,
        record@.rec == record.rec@,
        record@.main_data_offset == record.main_data_offset,
        version@.page_image is Some <==> version.page_image is Some,
        version.page_image matches Some(image) ==> version@.page_image == Some(image@),
        version@.record is Some <==> version.record is Some,
        version.record matches Some(record) ==> version@.record == Some(record@),
{
}

/// What is said of the data for a page is said of each of its records, and of its
/// image.
pub proof fn law_parts_of_page_data(data: PageReconstructData)
    ensures
        data.records_view().len() == data.records@.len(),
        forall|i: int|
            0 <= i < data.records@.len() ==> #[trigger] data.records_view()[i] == data.records@[i]@,
        data.image_view() is Some <==> data.page_img is Some,
        data.page_img matches Some(image) ==> data.image_view() == Some(image@),
{
}

} // verus!
