//! Snapshot files and the layers that stand for them.
//!
//! One snapshot file holds all page versions and the sizes of one segment of a
//! relish in a range of log positions. It has everything that is needed to make
//! any page of the segment at a position of the range.
//!
//! A layer stands for a file. While it is loaded, the contents of the file are in
//! memory. A request to a layer that is not loaded is answered with the path of
//! the file, which the caller reads and hands to `finish_load`.
use crate::book::{book_file, chapter_of, is_book, open_file, read_chapter, write_book};
use crate::codec::{
    bytes_page_list, bytes_size_list, decode_pages, decode_sizes, decoded_pages, decoded_sizes,
    encode_pages, encode_sizes, listed_pages, listed_sizes, pages_view, plain_pages,
    plain_sizes,
};
use crate::conf::{
    law_added_part, law_timeline_directory, path_join, push_path, timeline_path_text,
    PageServerConf,
};
use crate::dump::{
    page_line, page_lines, push_image_note, push_record_note, size_line, size_lines,
};
use crate::error::LayerError;
use crate::file_name::{
    law_file_name_read_back, law_file_names_differ, parsed_file_name, SnapshotFileName,
};
use crate::ids::{id_text, lemma_id_text, ZTenantId, ZTimelineId};
use crate::lookup::{
    builds_on_older, law_last_size_counts, law_size_known, lemma_count_deltas, lemma_size_found,
    lemma_versions_window, lookup, lookup_answer, lookup_image, lookup_records, newest_records,
    size_at, versions_of,
};
use crate::lsn::Lsn;
use crate::ordered_map::{
    lemma_collected_valid, lemma_count_below, lemma_counted, ordered, MapKey,
    OrderedMap,
};
use crate::page::{PageKey, PageReconstructData, PageVersion, PageVersionView};
use crate::relish::SegmentTag;
use crate::text::push_decimal;
use crate::wire::{page_list_bytes, size_list_bytes};
use bookfile::Book;
use std::io::Cursor;
use vstd::prelude::*;

verus! {

/// The number that marks a snapshot file.
pub const SNAPSHOT_FILE_MAGIC: u32 = 0x5A616E01;

/// The chapter of the page versions.
pub const PAGE_VERSIONS_CHAPTER: u64 = 1;

/// The chapter of the segment sizes.
pub const REL_SIZES_CHAPTER: u64 = 2;

/// The answer of a layer whose contents may not be in memory.
pub enum Access<T> {
    /// The file of this path has to be loaded first.
    NeedsLoad(String),
    /// The answer.
    Done(T),
}

/// A file to be written.
#[derive(Debug)]
pub struct SnapshotFile {
    pub path: String,
    pub contents: Vec<u8>,
}

/// The contents of a snapshot file: page versions in the order of block and
/// position, and segment sizes in the order of position.
#[verifier::ext_equal]
pub struct SnapshotContents {
    pub page_versions: Seq<(PageKey, PageVersionView)>,
    pub relsizes: Seq<(Lsn, u32)>,
}

impl SnapshotContents {
    /// No page versions and no sizes.
    pub open spec fn empty() -> Self {
        SnapshotContents { page_versions: Seq::empty(), relsizes: Seq::empty() }
    }

    /// Whether the entries stand in the order of their keys.
    pub open spec fn valid(self) -> bool {
        ordered(self.page_versions) && ordered(self.relsizes)
    }
}

/// The contents that a snapshot file holds, or what is wrong with it.
pub open spec fn loaded_contents(file: Seq<u8>) -> Result<SnapshotContents, LayerError> {
    if !is_book(file) {
        Err(LayerError::NotABook)
    } else {
        match chapter_of(file, PAGE_VERSIONS_CHAPTER) {
            None => Err(LayerError::NoChapter(PAGE_VERSIONS_CHAPTER)),
            Some(page_bytes) => match decoded_pages(page_bytes) {
                None => Err(LayerError::BadChapter(PAGE_VERSIONS_CHAPTER)),
                Some(page_versions) => match chapter_of(file, REL_SIZES_CHAPTER) {
                    None => Err(LayerError::NoChapter(REL_SIZES_CHAPTER)),
                    Some(size_bytes) => match decoded_sizes(size_bytes) {
                        None => Err(LayerError::BadChapter(REL_SIZES_CHAPTER)),
                        Some(relsizes) => Ok(SnapshotContents { page_versions, relsizes }),
                    },
                },
            },
        }
    }
}

/// The file of given contents.
pub open spec fn snapshot_file_bytes(contents: SnapshotContents) -> Seq<u8> {
    book_file(
        SNAPSHOT_FILE_MAGIC,
        seq![
            (PAGE_VERSIONS_CHAPTER, page_list_bytes(plain_pages(contents.page_versions))),
            (REL_SIZES_CHAPTER, size_list_bytes(plain_sizes(contents.relsizes))),
        ],
    )
}

/// The path of a file of a timeline.
pub open spec fn snapshot_path_text(
    workdir: Seq<char>,
    timelineid: ZTimelineId,
    tenantid: ZTenantId,
    name: SnapshotFileName,
) -> Seq<char> {
    path_join(timeline_path_text(workdir, timelineid, tenantid), name.text())
}

/// The texts of names.
pub open spec fn name_views(names: Seq<String>) -> Seq<Seq<char>> {
    Seq::new(names.len(), |i: int| names[i]@)
}

/// The snapshot files among the names in a directory, in the same order.
pub open spec fn listed_names(names: Seq<Seq<char>>) -> Seq<SnapshotFileName>
    decreases names.len(),
{
    if names.len() == 0 {
        Seq::empty()
    } else {
        match parsed_file_name(names.last()) {
            Some(name) => listed_names(names.drop_last()).push(name),
            None => listed_names(names.drop_last()),
        }
    }
}

/// The contents of a snapshot file in memory.
pub struct SnapshotLayerInner {
    loaded: bool,
    page_versions: OrderedMap<PageKey, PageVersion>,
    relsizes: OrderedMap<Lsn, u32>,
}

impl SnapshotLayerInner {
    #[verifier::type_invariant]
    spec fn in_order(self) -> bool {
        self.contents().valid()
    }

    /// Whether the contents are in memory.
    pub closed spec fn is_loaded(self) -> bool {
        self.loaded
    }

    /// What is in memory.
    pub closed spec fn contents(self) -> SnapshotContents {
        SnapshotContents {
            page_versions: pages_view(self.page_versions@),
            relsizes: self.relsizes@,
        }
    }

    /// Nothing in memory.
    fn unloaded() -> (inner: Self)
        ensures
            !inner.is_loaded(),
            inner.contents() == SnapshotContents::empty(),
    {
        let inner = SnapshotLayerInner {
            loaded: false,
            page_versions: OrderedMap::new(),
            relsizes: OrderedMap::new(),
        };
        assert(pages_view(inner.page_versions@) =~= Seq::empty());
        inner
    }
}

impl SnapshotLayerInner {
    /// Goes through the versions of a block from the newest at `lsn` or before it,
    /// adds what is found to `reconstruct_data`, and returns the position before
    /// which an older version is needed.
    fn reconstruct(&self, blknum: u32, lsn: Lsn, reconstruct_data: &mut PageReconstructData) -> (r:
        Result<Option<Lsn>, LayerError>)
        ensures
            ({
                let found = lookup(versions_of(self.contents().page_versions, blknum, lsn), lsn);
                &&& r == lookup_answer(found)
                &&& final(reconstruct_data).records_view() == old(reconstruct_data).records_view()
                    + lookup_records(found)
                &&& final(reconstruct_data).image_view() == lookup_image(
                    found,
                    old(reconstruct_data).image_view(),
                )
            }),
    {
        let low: usize = self.page_versions.count_up_to(PageKey { blknum, lsn: Lsn(0) }, false);
        let high: usize = self.page_versions.count_up_to(PageKey { blknum, lsn }, true);
        let ghost pages = pages_view(self.page_versions@);
        let ghost versions = versions_of(pages, blknum, lsn);
        let ghost before = reconstruct_data.records_view();
        let ghost image_before = reconstruct_data.image_view();
        proof {
            let first = PageKey { blknum, lsn: Lsn(0) }.rank();
            let last = PageKey { blknum, lsn }.rank();
            lemma_counted(self.page_versions@, first);
            lemma_counted(self.page_versions@, last + 1);
            lemma_count_below(pages, first, low as int);
            lemma_count_below(pages, last + 1, high as int);
            lemma_versions_window(pages, blknum, lsn, low as int, high as int);
        }
        let mut need_base_image_lsn: Lsn = lsn;
        let mut i: usize = high;
        while i > low
            invariant
                low <= i <= high <= self.page_versions@.len(),
                pages == pages_view(self.page_versions@),
                pages == self.contents().page_versions,
                versions == versions_of(pages, blknum, lsn),
                versions == pages.subrange(low as int, high as int),
                forall|j: int|
                    i - low <= j < versions.len() ==> builds_on_older((#[trigger] versions[j]).1),
                before == old(reconstruct_data).records_view(),
                image_before == old(reconstruct_data).image_view(),
                reconstruct_data.records_view() == before + newest_records(
                    versions,
                    (high - i) as nat,
                ),
                reconstruct_data.image_view() == image_before,
                need_base_image_lsn == if i == high {
                    lsn
                } else {
                    versions[i - low].0.lsn
                },
            decreases i,
        {
            let ghost done = (high - i) as nat;
            i = i - 1;
            let entry: &PageVersion = self.page_versions.value_at(i);
            let ghost at = i - low;
            assert(versions[at] == (self.page_versions@[i as int].0, entry@));
            assert(at == versions.len() - 1 - done);
            if let Some(image) = &entry.page_image {
                proof {
                    lemma_count_deltas(versions, done);
                }
                let copy: Vec<u8> = image.clone();
                assert(copy@ =~= image@);
                reconstruct_data.page_img = Some(copy);
                return Ok(None);
            }
            if let Some(record) = &entry.record {
                let ghost collected = reconstruct_data.records_view();
                reconstruct_data.records.push(record.clone());
                assert(reconstruct_data.records_view() =~= collected.push(record@));
                assert(newest_records(versions, done + 1) =~= newest_records(versions, done).push(
                    record@,
                ));
                assert(collected.push(record@) =~= before + newest_records(versions, done + 1));
                if record.will_init {
                    proof {
                        lemma_count_deltas(versions, done);
                    }
                    return Ok(None);
                }
                need_base_image_lsn = self.page_versions.key_at(i).lsn;
            } else {
                proof {
                    lemma_count_deltas(versions, done);
                }
                return Err(LayerError::NoImageOrRecord);
            }
        }
        proof {
            lemma_count_deltas(versions, (high - low) as nat);
        }
        Ok(Some(need_base_image_lsn))
    }
}

/// The dump of the contents of a snapshot file.
pub open spec fn dump_text(contents: SnapshotContents) -> Seq<char> {
    "--- relsizes ---\n"@ + size_lines(contents.relsizes) + "--- page versions ---\n"@
        + page_lines(contents.page_versions)
}

impl SnapshotLayerInner {
    /// The contents as text, for debugging.
    pub fn dump(&self) -> (text: String)
        ensures
            text@ == dump_text(self.contents()),
    {
        let mut out: String = String::new();
        out.append("--- relsizes ---\n");
        let ghost head = out@;
        let n: usize = self.relsizes.len();
        let mut i: usize = 0;
        while i < n
            invariant
                i <= n == self.relsizes@.len(),
                out@ == head + size_lines(self.relsizes@.take(i as int)),
            decreases n - i,
        {
            let ghost before = out@;
            let ghost entry = self.relsizes@[i as int];
            out.append("  ");
            self.relsizes.key_at(i).push_text(&mut out);
            out.append(": ");
            push_decimal(&mut out, *self.relsizes.value_at(i) as u64);
            out.append(" blocks\n");
            proof {
                let next = self.relsizes@.take(i + 1);
                assert(next.drop_last() =~= self.relsizes@.take(i as int));
                assert(next.last() == entry);
                assert(out@ =~= before + size_line(entry));
                assert(out@ =~= head + size_lines(next));
            }
            i = i + 1;
        }
        assert(self.relsizes@.take(n as int) =~= self.relsizes@);
        out.append("--- page versions ---\n");
        let ghost head = out@;
        let ghost pages = self.contents().page_versions;
        let n: usize = self.page_versions.len();
        let mut i: usize = 0;
        while i < n
            invariant
                i <= n == self.page_versions@.len(),
                pages == pages_view(self.page_versions@),
                out@ == head + page_lines(pages.take(i as int)),
            decreases n - i,
        {
            let ghost before = out@;
            let ghost entry = pages[i as int];
            let key: PageKey = self.page_versions.key_at(i);
            let version: &PageVersion = self.page_versions.value_at(i);
            out.append("  blk ");
            push_decimal(&mut out, key.blknum as u64);
            out.append(" at ");
            key.lsn.push_text(&mut out);
            out.append(":");
            push_image_note(&mut out, &version.page_image);
            push_record_note(&mut out, &version.record);
            out.append("\n");
            proof {
                let next = pages.take(i + 1);
                assert(next.drop_last() =~= pages.take(i as int));
                assert(next.last() == entry);
                assert(out@ =~= before + page_line(entry));
                assert(out@ =~= head + page_lines(next));
            }
            i = i + 1;
        }
        assert(pages.take(n as int) =~= pages);
        out
    }
}

/// A snapshot file: what it covers, and its contents where they are in memory.
pub struct SnapshotLayer {
    pub conf: &'static PageServerConf,
    pub tenantid: ZTenantId,
    pub timelineid: ZTimelineId,
    pub seg: SegmentTag,
    /// The layer has all changes from here on.
    pub start_lsn: Lsn,
    /// The layer has no changes from here on.
    pub end_lsn: Lsn,
    /// Whether the segment was dropped at the end.
    pub dropped: bool,
    /// The contents, where they are in memory.
    pub inner: SnapshotLayerInner,
}

impl SnapshotLayer {
    /// Whether the contents are in memory.
    pub open spec fn is_loaded(self) -> bool {
        self.inner.is_loaded()
    }

    /// What is in memory.
    pub open spec fn contents(self) -> SnapshotContents {
        self.inner.contents()
    }

    /// The name of the file.
    pub open spec fn file_name(self) -> SnapshotFileName {
        SnapshotFileName {
            seg: self.seg,
            start_lsn: self.start_lsn,
            end_lsn: self.end_lsn,
            dropped: self.dropped,
        }
    }

    /// The path of the file.
    pub open spec fn path_text(self) -> Seq<char> {
        snapshot_path_text(self.conf.workdir@, self.timelineid, self.tenantid, self.file_name())
    }

    /// Whether two layers stand for the same file.
    pub open spec fn same_file(self, other: Self) -> bool {
        &&& self.conf == other.conf
        &&& self.timelineid == other.timelineid
        &&& self.tenantid == other.tenantid
        &&& self.file_name() == other.file_name()
    }

    /// The timeline of the layer.
    pub fn get_timeline_id(&self) -> (id: ZTimelineId)
        ensures
            id == self.timelineid,
    {
        self.timelineid
    }

    /// The segment of the layer.
    pub fn get_seg_tag(&self) -> (seg: SegmentTag)
        ensures
            seg == self.seg,
    {
        self.seg
    }

    /// Whether the segment was dropped at the end of the layer.
    pub fn is_dropped(&self) -> (dropped: bool)
        ensures
            dropped == self.dropped,
    {
        self.dropped
    }

    /// The first position that the layer covers.
    pub fn get_start_lsn(&self) -> (lsn: Lsn)
        ensures
            lsn == self.start_lsn,
    {
        self.start_lsn
    }

    /// The first position that the layer no longer covers.
    pub fn get_end_lsn(&self) -> (lsn: Lsn)
        ensures
            lsn == self.end_lsn,
    {
        self.end_lsn
    }

    /// Looks up the versions of a page at `lsn` and before it. The records that are
    /// found, from the newest on, are added to `reconstruct_data`, and so is the
    /// image at which the search ends. Where the search goes through all versions,
    /// the answer is the position before which an older version is needed.
    pub fn get_page_reconstruct_data(
        &self,
        blknum: u32,
        lsn: Lsn,
        reconstruct_data: &mut PageReconstructData,
    ) -> (r: Access<Result<Option<Lsn>, LayerError>>)
        ensures
            self.contents().valid(),
            match r {
                Access::NeedsLoad(path) => {
                    &&& !self.is_loaded()
                    &&& path@ == self.path_text()
                    &&& *final(reconstruct_data) == *old(reconstruct_data)
                },
                Access::Done(answer) => {
                    let found = lookup(
                        versions_of(self.contents().page_versions, blknum, lsn),
                        lsn,
                    );
                    &&& self.is_loaded()
                    &&& answer == lookup_answer(found)
                    &&& final(reconstruct_data).records_view() == old(
                        reconstruct_data,
                    ).records_view() + lookup_records(found)
                    &&& final(reconstruct_data).image_view() == lookup_image(
                        found,
                        old(reconstruct_data).image_view(),
                    )
                },
            },
    {
        match self.load() {
            Access::NeedsLoad(path) => Access::NeedsLoad(path),
            Access::Done(inner) => Access::Done(inner.reconstruct(blknum, lsn, reconstruct_data)),
        }
    }

    /// The size of the segment at `lsn`.
    pub fn get_seg_size(&self, lsn: Lsn) -> (r: Access<Result<u32, LayerError>>)
        ensures
            self.contents().valid(),
            match r {
                Access::NeedsLoad(path) => !self.is_loaded() && path@ == self.path_text(),
                Access::Done(answer) => self.is_loaded() && answer == match size_at(
                    self.contents().relsizes,
                    lsn,
                ) {
                    Some(size) => Ok::<u32, LayerError>(size),
                    None => Err(LayerError::NoSize { seg: self.seg, lsn }),
                },
            },
    {
        match self.load() {
            Access::NeedsLoad(path) => Access::NeedsLoad(path),
            Access::Done(inner) => {
                let n: usize = inner.relsizes.count_up_to(lsn, true);
                proof {
                    lemma_size_found(inner.relsizes@, lsn, n as int);
                }
                if n == 0 {
                    Access::Done(Err(LayerError::NoSize { seg: self.seg, lsn }))
                } else {
                    Access::Done(Ok(*inner.relsizes.value_at(n - 1)))
                }
            },
        }
    }

    /// Whether the segment exists at `lsn`.
    pub fn get_seg_exists(&self, lsn: Lsn) -> (r: Result<bool, LayerError>)
        ensures
            r == Ok::<bool, LayerError>(!(self.dropped && self.end_lsn.0 <= lsn.0)),
    {
        if self.dropped && lsn.0 >= self.end_lsn.0 {
            return Ok(false);
        }
        Ok(true)
    }

    /// The path of the file.
    pub fn path(&self) -> (path: String)
        ensures
            path@ == self.path_text(),
    {
        Self::path_for(
            self.conf,
            self.timelineid,
            self.tenantid,
            &SnapshotFileName {
                seg: self.seg,
                start_lsn: self.start_lsn,
                end_lsn: self.end_lsn,
                dropped: self.dropped,
            },
        )
    }

    /// The path of a file of this name.
    pub fn path_for(
        conf: &'static PageServerConf,
        timelineid: ZTimelineId,
        tenantid: ZTenantId,
        fname: &SnapshotFileName,
    ) -> (path: String)
        ensures
            path@ == snapshot_path_text(conf.workdir@, timelineid, tenantid, *fname),
    {
        let mut path: String = conf.timeline_path(&timelineid, &tenantid);
        let fname: String = fname.to_string();
        push_path(&mut path, fname.as_str());
        path
    }

    /// Makes a layer that holds these page versions and sizes in memory, and the
    /// file for it. Loading the file gives the contents of the layer back.
    pub fn create(
        conf: &'static PageServerConf,
        timelineid: ZTimelineId,
        tenantid: ZTenantId,
        seg: SegmentTag,
        start_lsn: Lsn,
        end_lsn: Lsn,
        dropped: bool,
        page_versions: OrderedMap<PageKey, PageVersion>,
        relsizes: OrderedMap<Lsn, u32>,
    ) -> (r: (SnapshotLayer, SnapshotFile))
        ensures
            r.0.conf == conf,
            r.0.timelineid == timelineid,
            r.0.tenantid == tenantid,
            r.0.file_name() == (SnapshotFileName { seg, start_lsn, end_lsn, dropped }),
            r.0.is_loaded(),
            r.0.contents() == (SnapshotContents {
                page_versions: pages_view(page_versions@),
                relsizes: relsizes@,
            }),
            r.0.contents().valid(),
            r.1.path@ == r.0.path_text(),
            r.1.contents@ == snapshot_file_bytes(r.0.contents()),
            loaded_contents(r.1.contents@) == Ok::<SnapshotContents, LayerError>(r.0.contents()),
    {
        let page_bytes: Vec<u8> = encode_pages(&page_versions);
        let size_bytes: Vec<u8> = encode_sizes(&relsizes);
        let contents: Vec<u8> = write_book(
            SNAPSHOT_FILE_MAGIC,
            PAGE_VERSIONS_CHAPTER,
            &page_bytes,
            REL_SIZES_CHAPTER,
            &size_bytes,
        );
        let layer = SnapshotLayer {
            conf,
            tenantid,
            timelineid,
            seg,
            start_lsn,
            end_lsn,
            dropped,
            inner: SnapshotLayerInner { loaded: true, page_versions, relsizes },
        };
        let path: String = layer.path();
        (layer, SnapshotFile { path, contents })
    }

    /// The contents in memory, or the path of the file that has to be loaded.
    pub fn load(&self) -> (r: Access<&SnapshotLayerInner>)
        ensures
            self.contents().valid(),
            match r {
                Access::NeedsLoad(path) => !self.is_loaded() && path@ == self.path_text(),
                Access::Done(inner) => self.is_loaded() && inner.is_loaded() && inner.contents()
                    == self.contents(),
            },
    {
        proof {
            use_type_invariant(&self.inner);
        }
        if self.inner.loaded {
            return Access::Done(&self.inner);
        }
        Access::NeedsLoad(self.path())
    }

    /// Takes over the contents of the file into memory. Where the file cannot be
    /// read, the layer stays as it was.
    pub fn finish_load(&mut self, file: Vec<u8>) -> (r: Result<(), LayerError>)
        ensures
            final(self).same_file(*old(self)),
            match loaded_contents(file@) {
                Ok(contents) => r is Ok && final(self).is_loaded() && final(self).contents()
                    == contents,
                Err(e) => r == Err::<(), LayerError>(e) && *final(self) == *old(self),
            },
    {
        match Self::load_inner_from_path(file) {
            Ok(inner) => {
                self.inner = inner;
                Ok(())
            },
            Err(e) => Err(e),
        }
    }

    /// Reads the contents of a snapshot file.
    pub fn load_inner_from_path(file: Vec<u8>) -> (r: Result<SnapshotLayerInner, LayerError>)
        ensures
            match r {
                Ok(inner) => inner.is_loaded() && loaded_contents(file@) == Ok::<
                    SnapshotContents,
                    LayerError,
                >(inner.contents()),
                Err(e) => loaded_contents(file@) == Err::<SnapshotContents, LayerError>(e),
            },
    {
        let mut book: Book<Cursor<Vec<u8>>> = match open_file(file) {
            Some(book) => book,
            None => {
                return Err(LayerError::NotABook);
            },
        };
        let chapter: Vec<u8> = match read_chapter(&mut book, PAGE_VERSIONS_CHAPTER) {
            Some(chapter) => chapter,
            None => {
                return Err(LayerError::NoChapter(PAGE_VERSIONS_CHAPTER));
            },
        };
        let page_versions: OrderedMap<PageKey, PageVersion> = match decode_pages(&chapter) {
            Some(page_versions) => page_versions,
            None => {
                return Err(LayerError::BadChapter(PAGE_VERSIONS_CHAPTER));
            },
        };
        let chapter: Vec<u8> = match read_chapter(&mut book, REL_SIZES_CHAPTER) {
            Some(chapter) => chapter,
            None => {
                return Err(LayerError::NoChapter(REL_SIZES_CHAPTER));
            },
        };
        let relsizes: OrderedMap<Lsn, u32> = match decode_sizes(&chapter) {
            Some(relsizes) => relsizes,
            None => {
                return Err(LayerError::BadChapter(REL_SIZES_CHAPTER));
            },
        };
        proof {
            law_loaded_contents_are_ordered(file@);
        }
        Ok(SnapshotLayerInner { loaded: true, page_versions, relsizes })
    }

    /// Makes a layer for each snapshot file among the names in the directory of a
    /// timeline. The files are not loaded.
    pub fn list_snapshot_files(
        conf: &'static PageServerConf,
        timelineid: ZTimelineId,
        tenantid: ZTenantId,
        names: &Vec<String>,
    ) -> (layers: Vec<SnapshotLayer>)
        ensures
            layers@.len() == listed_names(name_views(names@)).len(),
            forall|i: int|
                0 <= i < layers@.len() ==> {
                    &&& (#[trigger] layers@[i]).conf == conf
                    &&& layers@[i].timelineid == timelineid
                    &&& layers@[i].tenantid == tenantid
                    &&& layers@[i].file_name() == listed_names(name_views(names@))[i]
                    &&& !layers@[i].is_loaded()
                    &&& layers@[i].contents() == SnapshotContents::empty()
                },
    {
        let mut layers: Vec<SnapshotLayer> = Vec::new();
        let ghost views = name_views(names@);
        let n: usize = names.len();
        let mut i: usize = 0;
        while i < n
            invariant
                i <= n == names@.len(),
                views == name_views(names@),
                layers@.len() == listed_names(views.take(i as int)).len(),
                forall|j: int|
                    0 <= j < layers@.len() ==> {
                        &&& (#[trigger] layers@[j]).conf == conf
                        &&& layers@[j].timelineid == timelineid
                        &&& layers@[j].tenantid == tenantid
                        &&& layers@[j].file_name() == listed_names(views.take(i as int))[j]
                        &&& !layers@[j].is_loaded()
                        &&& layers@[j].contents() == SnapshotContents::empty()
                    },
            decreases n - i,
        {
            proof {
                let next = views.take(i + 1);
                assert(next.drop_last() =~= views.take(i as int));
                assert(next.last() == names@[i as int]@);
            }
            if let Some(name) = SnapshotFileName::from_str(names[i].as_str()) {
                layers.push(
                    SnapshotLayer {
                        conf,
                        tenantid,
                        timelineid,
                        seg: name.seg,
                        start_lsn: name.start_lsn,
                        end_lsn: name.end_lsn,
                        dropped: name.dropped,
                        inner: SnapshotLayerInner::unloaded(),
                    },
                );
            }
            i = i + 1;
        }
        assert(views.take(n as int) =~= views);
        layers
    }

    /// The path of the file that has to be removed to delete the layer.
    pub fn delete(&self) -> (path: String)
        ensures
            path@ == self.path_text(),
    {
        self.path()
    }

    /// Gives up most of the memory that the layer uses. The file has to be loaded
    /// before the layer is used again.
    pub fn unload(&mut self) -> (r: Result<(), LayerError>)
        ensures
            r is Ok,
            final(self).same_file(*old(self)),
            !final(self).is_loaded(),
            final(self).contents() == SnapshotContents::empty(),
    {
        self.inner = SnapshotLayerInner::unloaded();
        Ok(())
    }
}

/// The dump of a snapshot file.
pub fn dump_snapfile_from_path(file: Vec<u8>) -> (r: Result<String, LayerError>)
    ensures
        match loaded_contents(file@) {
            Ok(contents) => r is Ok && r->Ok_0@ == dump_text(contents),
            Err(e) => r == Err::<String, LayerError>(e),
        },
{
    match SnapshotLayer::load_inner_from_path(file) {
        Ok(inner) => Ok(inner.dump()),
        Err(e) => Err(e),
    }
}

/// Every list of snapshot files is found again by their names, in the same order.
#[verifier::spinoff_prover]
#[verifier::rlimit(60)]
pub proof fn law_snapshot_files_are_listed(files: Seq<SnapshotFileName>)
    ensures
        listed_names(Seq::new(files.len(), |i: int| files[i].text())) == files,
    decreases files.len(),
{
    let names = Seq::new(files.len(), |i: int| files[i].text());
    if files.len() > 0 {
        let before = files.drop_last();
        law_snapshot_files_are_listed(before);
        law_file_name_read_back(files.last());
        assert(names.drop_last() =~= Seq::new(before.len(), |i: int| before[i].text()));
        assert(before.push(files.last()) =~= files);
    } else {
        assert(listed_names(names) =~= files);
    }
}

/// The parts of a path from the directory of all tenants on.
proof fn lemma_path_parts(
    workdir: Seq<char>,
    timelineid: ZTimelineId,
    tenantid: ZTenantId,
    name: SnapshotFileName,
)
    ensures
        ({
            let tenants = path_join(workdir, "tenants"@);
            let path = snapshot_path_text(workdir, timelineid, tenantid, name);
            let from = tenants.len() as int;
            &&& path.len() >= from + 77
            &&& path.subrange(from + 1, from + 33) == id_text(tenantid.0)
            &&& path.subrange(from + 44, from + 76) == id_text(timelineid.0)
            &&& path.skip(from + 77) == name.text()
        }),
{
    reveal_strlit("tenants");
    reveal_strlit("timelines");
    lemma_id_text(tenantid.0);
    lemma_id_text(timelineid.0);
    let tenants = path_join(workdir, "tenants"@);
    assert(tenants.last() == 's');
    let tenant = path_join(tenants, id_text(tenantid.0));
    assert(tenant.last() == id_text(tenantid.0).last());
    let timelines = path_join(tenant, "timelines"@);
    assert(timelines.last() == 's');
    let timeline = path_join(timelines, id_text(timelineid.0));
    assert(timeline.last() == id_text(timelineid.0).last());
    let path = snapshot_path_text(workdir, timelineid, tenantid, name);
    let from = tenants.len() as int;
    assert(path == timeline.push('/') + name.text());
    assert(path.subrange(from + 1, from + 33) =~= id_text(tenantid.0));
    assert(path.subrange(from + 44, from + 76) =~= id_text(timelineid.0));
    assert(path.skip(from + 77) =~= name.text());
}

/// Under one directory, files of different tenants, timelines, segments, ranges or
/// marks have different paths.
pub proof fn law_paths_differ(
    workdir: Seq<char>,
    timeline_a: ZTimelineId,
    tenant_a: ZTenantId,
    a: SnapshotFileName,
    timeline_b: ZTimelineId,
    tenant_b: ZTenantId,
    b: SnapshotFileName,
)
    requires
        timeline_a != timeline_b || tenant_a != tenant_b || a != b,
    ensures
        snapshot_path_text(workdir, timeline_a, tenant_a, a) != snapshot_path_text(
            workdir,
            timeline_b,
            tenant_b,
            b,
        ),
{
    lemma_path_parts(workdir, timeline_a, tenant_a, a);
    lemma_path_parts(workdir, timeline_b, tenant_b, b);
    lemma_id_text(timeline_a.0);
    lemma_id_text(timeline_b.0);
    lemma_id_text(tenant_a.0);
    lemma_id_text(tenant_b.0);
    if a != b {
        law_file_names_differ(a, b);
    }
}

/// What is loaded from a file stands in the order of its keys.
pub proof fn law_loaded_contents_are_ordered(file: Seq<u8>)
    ensures
        loaded_contents(file) matches Ok(contents) ==> contents.valid(),
{
    if let Ok(contents) = loaded_contents(file) {
        let page_bytes = chapter_of(file, PAGE_VERSIONS_CHAPTER)->0;
        let size_bytes = chapter_of(file, REL_SIZES_CHAPTER)->0;
        lemma_collected_valid(listed_pages(bytes_page_list(page_bytes)->0));
        lemma_collected_valid(listed_sizes(bytes_size_list(size_bytes)->0));
    }
}

/// A file stands in the directory of its timeline, under its name.
pub proof fn law_file_path(
    workdir: Seq<char>,
    timelineid: ZTimelineId,
    tenantid: ZTenantId,
    name: SnapshotFileName,
)
    ensures
        snapshot_path_text(workdir, timelineid, tenantid, name) == path_join(
            workdir,
            "tenants/"@,
        ) + id_text(tenantid.0) + "/timelines/"@ + id_text(timelineid.0) + seq!['/'] + name.text(),
{
    law_timeline_directory(workdir, timelineid, tenantid);
    lemma_id_text(timelineid.0);
    let directory = timeline_path_text(workdir, timelineid, tenantid);
    assert(directory.last() == id_text(timelineid.0).last());
    law_added_part(directory, name.text());
}

/// The name and the path of a layer are those of its segment, its range, its mark, its
/// timeline and its tenant. Two layers stand for the same file if and only if all of
/// these, and where files are kept, are the same.
pub proof fn law_identity_of_a_layer(layer: SnapshotLayer, other: SnapshotLayer)
    ensures
        layer.file_name().seg == layer.seg,
        layer.file_name().start_lsn == layer.start_lsn,
        layer.file_name().end_lsn == layer.end_lsn,
        layer.file_name().dropped == layer.dropped,
        layer.path_text() == snapshot_path_text(
            layer.conf.workdir@,
            layer.timelineid,
            layer.tenantid,
            layer.file_name(),
        ),
        layer.same_file(other) <==> {
            &&& layer.conf == other.conf
            &&& layer.timelineid == other.timelineid
            &&& layer.tenantid == other.tenantid
            &&& layer.seg == other.seg
            &&& layer.start_lsn == other.start_lsn
            &&& layer.end_lsn == other.end_lsn
            &&& layer.dropped == other.dropped
        },
{
}

/// What is listed of two directories is listed of both together, in the same order.
#[verifier::spinoff_prover]
#[verifier::rlimit(60)]
proof fn lemma_listed_together(a: Seq<Seq<char>>, b: Seq<Seq<char>>)
    ensures
        listed_names(a + b) == listed_names(a) + listed_names(b),
    decreases b.len(),
{
    if b.len() == 0 {
        assert(a + b =~= a);
        assert(listed_names(a) + listed_names(b) =~= listed_names(a));
    } else {
        lemma_listed_together(a, b.drop_last());
        assert((a + b).drop_last() =~= a + b.drop_last());
        assert((a + b).last() == b.last());
        assert(listed_names(a + b) =~= listed_names(a) + listed_names(b));
    }
}

/// A file that is no snapshot file does not matter, wherever it stands among the
/// names; a snapshot file is listed in its place, whatever stands around it; and no
/// names list nothing.
#[verifier::spinoff_prover]
#[verifier::rlimit(60)]
pub proof fn law_each_name_is_listed_for_itself(
    a: Seq<Seq<char>>,
    name: Seq<char>,
    b: Seq<Seq<char>>,
)
    ensures
        listed_names(Seq::empty()) == Seq::<SnapshotFileName>::empty(),
        match parsed_file_name(name) {
            None => listed_names(a + seq![name] + b) == listed_names(a + b),
            Some(file) => listed_names(a + seq![name] + b) == listed_names(a) + seq![file]
                + listed_names(b),
        },
{
    let one = seq![name];
    lemma_listed_together(a, b);
    lemma_listed_together(a, one);
    lemma_listed_together(a + one, b);
    assert(listed_names(Seq::empty()) == Seq::<SnapshotFileName>::empty());
    assert(one.drop_last() =~= Seq::empty());
    assert(one.last() == name);
    assert(listed_names(one) == match parsed_file_name(name) {
        Some(file) => Seq::<SnapshotFileName>::empty().push(file),
        None => Seq::empty(),
    });
    match parsed_file_name(name) {
        None => {
            assert(listed_names(one) =~= Seq::empty());
            assert(listed_names(a) + listed_names(one) =~= listed_names(a));
        },
        Some(file) => {
            assert(listed_names(one) =~= seq![file]);
        },
    }
}

/// Every file in a directory that is read as a snapshot file is among the listed ones,
/// and every listed one is such a file.
#[verifier::spinoff_prover]
#[verifier::rlimit(60)]
pub proof fn law_listed_files_are_those_of_the_directory(
    names: Seq<Seq<char>>,
    file: SnapshotFileName,
)
    ensures
        listed_names(names).contains(file) <==> exists|i: int|
            0 <= i < names.len() && parsed_file_name(#[trigger] names[i]) == Some(file),
        listed_names(names).len() <= names.len(),
    decreases names.len(),
{
    if names.len() > 0 {
        let before = names.drop_last();
        let last: int = names.len() - 1;
        law_listed_files_are_those_of_the_directory(before, file);
        let listed = listed_names(names);
        if listed.contains(file) {
            let k = choose|k: int| 0 <= k < listed.len() && listed[k] == file;
            if k < listed_names(before).len() {
                assert(listed_names(before)[k] == file);
                let i = choose|i: int|
                    0 <= i < before.len() && parsed_file_name(#[trigger] before[i]) == Some(file);
                assert(names[i] == before[i]);
            } else {
                assert(parsed_file_name(names[last]) == Some(file));
            }
        }
        if exists|i: int|
            0 <= i < names.len() && parsed_file_name(#[trigger] names[i]) == Some(file) {
            let i = choose|i: int|
                0 <= i < names.len() && parsed_file_name(#[trigger] names[i]) == Some(file);
            if i < last {
                assert(before[i] == names[i]);
                let k = choose|k: int|
                    0 <= k < listed_names(before).len() && listed_names(before)[k] == file;
                assert(listed[k] == file);
            } else {
                assert(listed[listed.len() - 1] == file);
            }
        }
    }
}

/// The texts of names are those of the strings, one for one.
pub proof fn law_names_as_texts(names: Seq<String>, i: int)
    requires
        0 <= i < names.len(),
    ensures
        name_views(names).len() == names.len(),
        name_views(names)[i] == names[i]@,
{
}

/// The parts of a dump: the sizes and then the page versions, each under its title.
pub proof fn law_parts_of_a_dump(contents: SnapshotContents)
    ensures
        dump_text(contents) == "--- relsizes ---\n"@ + size_lines(contents.relsizes)
            + "--- page versions ---\n"@ + page_lines(contents.page_versions),
{
}

/// The file of some contents has the mark of a snapshot file, the page versions in its
/// first chapter and the sizes in its second.
pub proof fn law_parts_of_a_file(contents: SnapshotContents)
    ensures
        snapshot_file_bytes(contents) == book_file(
            0x5A616E01,
            seq![
                (1u64, page_list_bytes(plain_pages(contents.page_versions))),
                (2u64, size_list_bytes(plain_sizes(contents.relsizes))),
            ],
        ),
{
}

/// A file is loaded if and only if it is a book whose first two chapters can be decoded,
/// and its contents are what they are decoded to. What is wrong with any other file is
/// the first of these: it is no book, the chapter of the page versions is not there or
/// cannot be decoded, the chapter of the sizes is not there or cannot be decoded.
pub proof fn law_what_is_loaded(file: Seq<u8>)
    ensures
        !is_book(file) ==> loaded_contents(file) == Err::<SnapshotContents, LayerError>(
            LayerError::NotABook,
        ),
        is_book(file) && chapter_of(file, 1) is None ==> loaded_contents(file) == Err::<
            SnapshotContents,
            LayerError,
        >(LayerError::NoChapter(1)),
        is_book(file) ==> (chapter_of(file, 1) matches Some(pages) ==> {
            &&& decoded_pages(pages) is None ==> loaded_contents(file) == Err::<
                SnapshotContents,
                LayerError,
            >(LayerError::BadChapter(1))
            &&& decoded_pages(pages) is Some && chapter_of(file, 2) is None ==> loaded_contents(
                file,
            ) == Err::<SnapshotContents, LayerError>(LayerError::NoChapter(2))
            &&& decoded_pages(pages) is Some ==> (chapter_of(file, 2) matches Some(sizes) ==> {
                &&& decoded_sizes(sizes) is None ==> loaded_contents(file) == Err::<
                    SnapshotContents,
                    LayerError,
                >(LayerError::BadChapter(2))
                &&& decoded_sizes(sizes) is Some ==> loaded_contents(file) is Ok && {
                    let contents = loaded_contents(file)->Ok_0;
                    &&& decoded_pages(pages) == Some(contents.page_versions)
                    &&& decoded_sizes(sizes) == Some(contents.relsizes)
                }
            })
        }),
{
}

/// Nothing in memory is no page versions and no sizes.
pub proof fn law_nothing_in_memory()
    ensures
        SnapshotContents::empty().page_versions.len() == 0,
        SnapshotContents::empty().relsizes.len() == 0,
{
}

/// Contents are valid if and only if both parts stand in the order of their keys.
pub proof fn law_valid_contents(contents: SnapshotContents)
    ensures
        contents.valid() <==> ordered(contents.page_versions) && ordered(contents.relsizes),
{
}

/// What is said of the contents in memory is said of the two maps that are kept, and of
/// the mark that they were loaded.
proof fn law_what_a_layer_keeps(layer: SnapshotLayer)
    ensures
        layer.contents().page_versions == pages_view(layer.inner.page_versions@),
        layer.contents().relsizes == layer.inner.relsizes@,
        layer.is_loaded() == layer.inner.loaded,
        layer.inner.is_loaded() == layer.inner.loaded,
        layer.inner.contents() == layer.contents(),
{
}

/// A segment exists at a position unless it was dropped there or before.
pub proof fn law_existence_of_a_segment(
    layer: SnapshotLayer,
    lsn: Lsn,
    exists_there: Result<bool, LayerError>,
)
    requires
        call_ensures(SnapshotLayer::get_seg_exists, (&layer, lsn), exists_there),
    ensures
        exists_there is Ok,
        !layer.dropped ==> exists_there->Ok_0,
        lsn.0 < layer.end_lsn.0 ==> exists_there->Ok_0,
        layer.dropped && layer.end_lsn.0 <= lsn.0 ==> !exists_there->Ok_0,
{
}

/// A layer that is loaded knows the size at every position from its first size on, as
/// that of the last entry there or before, and says before it which segment has no size
/// at which position. One that is not loaded asks for its file.
pub proof fn law_size_that_is_answered(
    layer: SnapshotLayer,
    lsn: Lsn,
    r: Access<Result<u32, LayerError>>,
    at: int,
)
    requires
        call_ensures(SnapshotLayer::get_seg_size, (&layer, lsn), r),
    ensures
        r is Done <==> layer.is_loaded(),
        r matches Access::NeedsLoad(path) ==> path@ == layer.path_text(),
        r matches Access::Done(size) ==> {
            let relsizes = layer.contents().relsizes;
            &&& (forall|i: int| 0 <= i < relsizes.len() ==> (#[trigger] relsizes[i]).0.0 > lsn.0)
                ==> size == Err::<u32, LayerError>(LayerError::NoSize { seg: layer.seg, lsn })
            &&& 0 <= at < relsizes.len() && relsizes[at].0.0 <= lsn.0 && (forall|i: int|
                0 <= i < relsizes.len() && (#[trigger] relsizes[i]).0.0 <= lsn.0
                    ==> relsizes[i].0.0 <= relsizes[at].0.0) ==> size == Ok::<u32, LayerError>(
                relsizes[at].1,
            )
        },
{
    let relsizes = layer.contents().relsizes;
    law_size_known(relsizes, lsn);
    if 0 <= at < relsizes.len() && relsizes[at].0.0 <= lsn.0 && (forall|i: int|
        0 <= i < relsizes.len() && (#[trigger] relsizes[i]).0.0 <= lsn.0 ==> relsizes[i].0.0
            <= relsizes[at].0.0) {
        law_last_size_counts(relsizes, lsn, at);
    }
}

/// What a layer says of itself is what it was made for.
pub proof fn law_what_a_layer_says_of_itself(
    layer: SnapshotLayer,
    timelineid: ZTimelineId,
    seg: SegmentTag,
    dropped: bool,
    start_lsn: Lsn,
    end_lsn: Lsn,
)
    requires
        call_ensures(SnapshotLayer::get_timeline_id, (&layer,), timelineid),
        call_ensures(SnapshotLayer::get_seg_tag, (&layer,), seg),
        call_ensures(SnapshotLayer::is_dropped, (&layer,), dropped),
        call_ensures(SnapshotLayer::get_start_lsn, (&layer,), start_lsn),
        call_ensures(SnapshotLayer::get_end_lsn, (&layer,), end_lsn),
    ensures
        layer.timelineid == timelineid,
        layer.file_name() == (SnapshotFileName { seg, start_lsn, end_lsn, dropped }),
{
}

/// The file that is removed to delete a layer is the one that is loaded for it.
pub proof fn law_deleted_file_is_the_loaded_one(
    layer: SnapshotLayer,
    deleted: String,
    loaded: Access<&SnapshotLayerInner>,
)
    requires
        call_ensures(SnapshotLayer::delete, (&layer,), deleted),
        call_ensures(SnapshotLayer::load, (&layer,), loaded),
    ensures
        deleted@ == snapshot_path_text(
            layer.conf.workdir@,
            layer.timelineid,
            layer.tenantid,
            layer.file_name(),
        ),
        loaded matches Access::NeedsLoad(path) ==> path@ == deleted@,
        loaded is NeedsLoad <==> !layer.is_loaded(),
{
}

} // verus!
