use bookfile::{Book, BookWriter};
use snapshot_store::book::write_book;
use snapshot_store::conf::PageServerConf;
use snapshot_store::error::LayerError;
use snapshot_store::file_name::SnapshotFileName;
use snapshot_store::ids::{ZTenantId, ZTimelineId};
use snapshot_store::lsn::Lsn;
use snapshot_store::ordered_map::OrderedMap;
use snapshot_store::page::{PageKey, PageReconstructData, PageVersion, WALRecord};
use snapshot_store::relish::{RelTag, RelishTag, SegmentTag};
use snapshot_store::snapshot_layer::{
    dump_snapfile_from_path, Access, SnapshotFile, SnapshotLayer, PAGE_VERSIONS_CHAPTER,
    REL_SIZES_CHAPTER, SNAPSHOT_FILE_MAGIC,
};
use std::io::{Cursor, Write};

const TENANT: ZTenantId = ZTenantId(0x941ddc8604413b88b3d208bddf90396c);
const TIMELINE: ZTimelineId = ZTimelineId(0x4af489b06af8eed9e27a841775616962);

fn conf(workdir: &str) -> &'static PageServerConf {
    Box::leak(Box::new(PageServerConf { workdir: workdir.to_string() }))
}

fn seg() -> SegmentTag {
    SegmentTag {
        rel: RelishTag::Relation(RelTag { spcnode: 1663, dbnode: 13990, relnode: 2609, forknum: 0 }),
        segno: 10,
    }
}

fn image(bytes: &[u8]) -> PageVersion {
    PageVersion { page_image: Some(bytes.to_vec()), record: None }
}

fn wal(lsn: u64, will_init: bool, rec: &[u8]) -> WALRecord {
    WALRecord { lsn: Lsn(lsn), will_init, rec: rec.to_vec(), main_data_offset: 4 }
}

fn delta(lsn: u64, rec: &[u8]) -> PageVersion {
    PageVersion { page_image: None, record: Some(wal(lsn, false, rec)) }
}

fn key(blknum: u32, lsn: u64) -> PageKey {
    PageKey { blknum, lsn: Lsn(lsn) }
}

fn no_data() -> PageReconstructData {
    PageReconstructData { records: Vec::new(), page_img: None }
}

fn sample_pages() -> OrderedMap<PageKey, PageVersion> {
    let mut pages = OrderedMap::new();
    // out of order on purpose
    pages.insert(key(1, 0x130), delta(0x130, b"third"));
    pages.insert(key(0, 0x100), image(b"zero"));
    pages.insert(key(1, 0x110), delta(0x110, b"first"));
    pages.insert(key(1, 0x100), image(b"one"));
    pages.insert(key(1, 0x120), delta(0x120, b"second"));
    pages.insert(
        key(2, 0x140),
        PageVersion { page_image: None, record: Some(wal(0x140, true, b"init")) },
    );
    pages.insert(key(2, 0x150), delta(0x150, b"after"));
    pages.insert(key(3, 0x160), delta(0x160, b"lone"));
    pages.insert(key(3, 0x170), delta(0x170, b"lone2"));
    pages.insert(key(4, 0x180), PageVersion { page_image: None, record: None });
    pages.insert(key(4, 0x190), delta(0x190, b"broken"));
    pages.insert(
        key(5, 0x1A0),
        PageVersion { page_image: Some(b"both".to_vec()), record: Some(wal(0x1A0, false, b"r")) },
    );
    pages
}

fn sample_sizes() -> OrderedMap<Lsn, u32> {
    let mut sizes = OrderedMap::new();
    sizes.insert(Lsn(0x150), 9);
    sizes.insert(Lsn(0x110), 2);
    sizes.insert(Lsn(0x130), 7);
    sizes
}

fn sample(dropped: bool) -> (SnapshotLayer, SnapshotFile) {
    SnapshotLayer::create(
        conf(".zenith"),
        TIMELINE,
        TENANT,
        seg(),
        Lsn(0x100),
        Lsn(0x200),
        dropped,
        sample_pages(),
        sample_sizes(),
    )
}

fn page(layer: &SnapshotLayer, blknum: u32, lsn: u64) -> (Result<Option<Lsn>, LayerError>, PageReconstructData) {
    let mut data = no_data();
    match layer.get_page_reconstruct_data(blknum, Lsn(lsn), &mut data) {
        Access::Done(answer) => (answer, data),
        Access::NeedsLoad(path) => panic!("not loaded: {}", path),
    }
}

fn size(layer: &SnapshotLayer, lsn: u64) -> Result<u32, LayerError> {
    match layer.get_seg_size(Lsn(lsn)) {
        Access::Done(answer) => answer,
        Access::NeedsLoad(path) => panic!("not loaded: {}", path),
    }
}

fn load_error(file: Vec<u8>) -> LayerError {
    match SnapshotLayer::load_inner_from_path(file) {
        Ok(_) => panic!("loaded"),
        Err(e) => e,
    }
}

#[test]
fn path_of_a_layer() {
    let layer = SnapshotLayer::create(
        conf(".zenith"),
        TIMELINE,
        TENANT,
        seg(),
        Lsn(0x169C348),
        Lsn(0x1702000),
        false,
        OrderedMap::new(),
        OrderedMap::new(),
    );
    let expected = ".zenith/tenants/941ddc8604413b88b3d208bddf90396c/timelines/4af489b06af8eed9e27a841775616962/rel_1663_13990_2609_0_10_000000000169C348_0000000001702000";
    assert_eq!(layer.0.path(), expected);
    assert_eq!(layer.0.delete(), expected);
    assert_eq!(layer.1.path, expected);
}

#[test]
fn path_under_other_directories() {
    let name = SnapshotFileName {
        seg: SegmentTag { rel: RelishTag::ControlFile, segno: 0 },
        start_lsn: Lsn(1),
        end_lsn: Lsn(2),
        dropped: false,
    };
    let end = "tenants/00000000000000000000000000000001/timelines/0000000000000000000000000000000f/pg_control_0_0000000000000001_0000000000000002";
    let path = |workdir: &str| {
        SnapshotLayer::path_for(conf(workdir), ZTimelineId(15), ZTenantId(1), &name)
    };
    assert_eq!(path(""), end);
    assert_eq!(path("/"), format!("/{}", end));
    assert_eq!(path("/data/"), format!("/data/{}", end));
    assert_eq!(path("/data"), format!("/data/{}", end));
}

#[test]
fn different_files_have_different_paths() {
    let name = SnapshotFileName {
        seg: seg(),
        start_lsn: Lsn(1),
        end_lsn: Lsn(2),
        dropped: false,
    };
    let other = SnapshotFileName { dropped: true, ..name };
    let c = conf("d");
    let paths = [
        SnapshotLayer::path_for(c, ZTimelineId(1), ZTenantId(1), &name),
        SnapshotLayer::path_for(c, ZTimelineId(2), ZTenantId(1), &name),
        SnapshotLayer::path_for(c, ZTimelineId(1), ZTenantId(2), &name),
        SnapshotLayer::path_for(c, ZTimelineId(1), ZTenantId(1), &other),
    ];
    for i in 0..paths.len() {
        for j in 0..i {
            assert_ne!(paths[i], paths[j]);
        }
    }
}

#[test]
fn what_a_layer_says_of_itself() {
    let layer = sample(true).0;
    assert_eq!(layer.get_timeline_id(), TIMELINE);
    assert_eq!(layer.get_seg_tag(), seg());
    assert!(layer.is_dropped());
    assert_eq!(layer.get_start_lsn(), Lsn(0x100));
    assert_eq!(layer.get_end_lsn(), Lsn(0x200));
    assert!(!sample(false).0.is_dropped());
}

#[test]
fn segment_exists_until_dropped() {
    let dropped = sample(true).0;
    assert_eq!(dropped.get_seg_exists(Lsn(0x1FF)), Ok(true));
    assert_eq!(dropped.get_seg_exists(Lsn(0x200)), Ok(false));
    assert_eq!(dropped.get_seg_exists(Lsn(u64::MAX)), Ok(false));
    let kept = sample(false).0;
    assert_eq!(kept.get_seg_exists(Lsn(0x200)), Ok(true));
    assert_eq!(kept.get_seg_exists(Lsn(0)), Ok(true));
}

#[test]
fn page_from_image_and_records() {
    let layer = sample(false).0;
    let (answer, data) = page(&layer, 1, 0x125);
    assert_eq!(answer, Ok(None));
    assert_eq!(data.page_img, Some(b"one".to_vec()));
    assert_eq!(data.records, vec![wal(0x120, false, b"second"), wal(0x110, false, b"first")]);

    let (answer, data) = page(&layer, 1, u64::MAX);
    assert_eq!(answer, Ok(None));
    assert_eq!(data.records.len(), 3);
    assert_eq!(data.records[0], wal(0x130, false, b"third"));
}

#[test]
fn page_at_the_position_of_its_image() {
    let layer = sample(false).0;
    let (answer, data) = page(&layer, 1, 0x100);
    assert_eq!(answer, Ok(None));
    assert_eq!(data.page_img, Some(b"one".to_vec()));
    assert_eq!(data.records, vec![]);
}

#[test]
fn page_before_its_first_version() {
    let layer = sample(false).0;
    let (answer, data) = page(&layer, 1, 0xFF);
    assert_eq!(answer, Ok(Some(Lsn(0xFF))));
    assert_eq!(data, no_data());
    assert_eq!(page(&layer, 77, 0x150), (Ok(Some(Lsn(0x150))), no_data()));
}

#[test]
fn page_that_is_set_up_anew() {
    let layer = sample(false).0;
    let (answer, data) = page(&layer, 2, 0x155);
    assert_eq!(answer, Ok(None));
    assert_eq!(data.page_img, None);
    assert_eq!(data.records, vec![wal(0x150, false, b"after"), wal(0x140, true, b"init")]);
}

#[test]
fn page_that_needs_an_older_layer() {
    let layer = sample(false).0;
    let (answer, data) = page(&layer, 3, 0x200);
    assert_eq!(answer, Ok(Some(Lsn(0x160))));
    assert_eq!(data.page_img, None);
    assert_eq!(data.records, vec![wal(0x170, false, b"lone2"), wal(0x160, false, b"lone")]);
}

#[test]
fn page_version_without_contents() {
    let layer = sample(false).0;
    let (answer, data) = page(&layer, 4, 0x200);
    assert_eq!(answer, Err(LayerError::NoImageOrRecord));
    assert_eq!(data.records, vec![wal(0x190, false, b"broken")]);
    assert_eq!(page(&layer, 4, 0x180), (Err(LayerError::NoImageOrRecord), no_data()));
}

#[test]
fn image_comes_before_record() {
    let layer = sample(false).0;
    let (answer, data) = page(&layer, 5, 0x1A0);
    assert_eq!(answer, Ok(None));
    assert_eq!(data.page_img, Some(b"both".to_vec()));
    assert_eq!(data.records, vec![]);
}

#[test]
fn lookup_adds_to_what_was_found_before() {
    let layer = sample(false).0;
    let mut data = PageReconstructData {
        records: vec![wal(0x300, false, b"newer")],
        page_img: Some(b"kept".to_vec()),
    };
    let answer = layer.get_page_reconstruct_data(3, Lsn(0x165), &mut data);
    assert!(matches!(answer, Access::Done(Ok(Some(Lsn(0x160))))));
    assert_eq!(data.records, vec![wal(0x300, false, b"newer"), wal(0x160, false, b"lone")]);
    assert_eq!(data.page_img, Some(b"kept".to_vec()));
}

#[test]
fn other_versions_do_not_matter() {
    let mut pages = sample_pages();
    let before = sample(false).0;
    pages.insert(key(1, 0x126), image(b"later"));
    pages.insert(key(0, 0x120), delta(0x120, b"other block"));
    let after = SnapshotLayer::create(
        conf(".zenith"), TIMELINE, TENANT, seg(), Lsn(0x100), Lsn(0x200), false, pages, sample_sizes(),
    ).0;
    assert_eq!(page(&before, 1, 0x125), page(&after, 1, 0x125));
    assert_eq!(page(&after, 1, 0x126).1.page_img, Some(b"later".to_vec()));
}

#[test]
fn newest_version_comes_first() {
    let mut pages = sample_pages();
    pages.insert(key(1, 0x140), delta(0x140, b"fourth"));
    pages.insert(key(9, 0x140), delta(0x140, b"only"));
    let layer = SnapshotLayer::create(
        conf(".zenith"), TIMELINE, TENANT, seg(), Lsn(0x100), Lsn(0x200), false, pages, sample_sizes(),
    ).0;
    let (answer, data) = page(&layer, 1, 0x140);
    assert_eq!(answer, Ok(None));
    assert_eq!(data.records.len(), 4);
    assert_eq!(data.records[0], wal(0x140, false, b"fourth"));
    let (answer, data) = page(&layer, 9, 0x150);
    assert_eq!(answer, Ok(Some(Lsn(0x140))));
    assert_eq!(data.records, vec![wal(0x140, false, b"only")]);
}

#[test]
fn full_snapshot_never_needs_an_older_layer() {
    let layer = sample(false).0;
    for lsn in 0x100..0x210 {
        assert_eq!(page(&layer, 0, lsn).0, Ok(None));
        assert_eq!(page(&layer, 1, lsn).0, Ok(None));
    }
}

// a page on which a record appends its bytes, or, where it sets the page up anew,
// leaves its bytes alone
fn replay(data: &PageReconstructData, base: &[u8]) -> Vec<u8> {
    let mut page = data.page_img.clone().unwrap_or(base.to_vec());
    for record in data.records.iter().rev() {
        if record.will_init {
            page.clear();
        }
        page.extend(&record.rec);
    }
    page
}

#[test]
fn found_records_make_the_page() {
    let layer = sample(false).0;
    assert_eq!(replay(&page(&layer, 1, 0x125).1, b"?"), b"onefirstsecond");
    assert_eq!(replay(&page(&layer, 2, 0x1FF).1, b"?"), b"initafter");
    assert_eq!(replay(&page(&layer, 3, 0x1FF).1, b"base"), b"baselonelone2");
    assert_eq!(replay(&page(&layer, 5, 0x1FF).1, b"?"), b"both");
}

#[test]
fn older_version_is_needed_from_no_later_position() {
    let layer = sample(false).0;
    for blknum in 0..8 {
        for lsn in 0xF0..0x200 {
            if let (Ok(Some(older)), _) = page(&layer, blknum, lsn) {
                assert!(older <= Lsn(lsn));
            }
        }
    }
}

#[test]
fn replaced_version_is_gone() {
    let mut pages = sample_pages();
    pages.insert(key(1, 0x100), image(b"instead"));
    assert_eq!(pages.len(), sample_pages().len());
    let layer = SnapshotLayer::create(
        conf(".zenith"), TIMELINE, TENANT, seg(), Lsn(0x100), Lsn(0x200), false, pages, sample_sizes(),
    ).0;
    assert_eq!(page(&layer, 1, 0x100).1.page_img, Some(b"instead".to_vec()));
}

#[test]
fn size_at_positions() {
    let layer = sample(false).0;
    assert_eq!(size(&layer, 0x110), Ok(2));
    assert_eq!(size(&layer, 0x12F), Ok(2));
    assert_eq!(size(&layer, 0x130), Ok(7));
    assert_eq!(size(&layer, 0x150), Ok(9));
    assert_eq!(size(&layer, u64::MAX), Ok(9));
    assert_eq!(size(&layer, 0x10F), Err(LayerError::NoSize { seg: seg(), lsn: Lsn(0x10F) }));
}

#[test]
fn recorded_size_is_read_and_later_ones_do_not_matter() {
    let mut sizes = sample_sizes();
    sizes.insert(Lsn(0x140), 8);
    let layer = SnapshotLayer::create(
        conf(".zenith"), TIMELINE, TENANT, seg(), Lsn(0x100), Lsn(0x200), false, sample_pages(), sizes,
    ).0;
    assert_eq!(size(&layer, 0x140), Ok(8));
    assert_eq!(size(&layer, 0x14F), Ok(8));
    assert_eq!(size(&layer, 0x13F), Ok(7));
    assert_eq!(size(&layer, 0x150), Ok(9));
}

#[test]
fn file_is_loaded_back() {
    let (mut layer, file) = sample(true);
    let wanted: Vec<_> = (0..7).map(|blknum| page(&layer, blknum, 0x1FF)).collect();
    assert_eq!(layer.unload(), Ok(()));
    assert!(matches!(layer.load(), Access::NeedsLoad(path) if path == file.path));
    assert_eq!(layer.finish_load(file.contents), Ok(()));
    let found: Vec<_> = (0..7).map(|blknum| page(&layer, blknum, 0x1FF)).collect();
    assert_eq!(found, wanted);
    assert_eq!(size(&layer, 0x140), Ok(7));
    assert!(layer.is_dropped());
}

#[test]
fn unloaded_layer_asks_for_its_file() {
    let (mut layer, file) = sample(false);
    assert_eq!(layer.unload(), Ok(()));
    let mut data = PageReconstructData { records: vec![wal(1, false, b"x")], page_img: None };
    match layer.get_page_reconstruct_data(1, Lsn(0x125), &mut data) {
        Access::NeedsLoad(path) => assert_eq!(path, file.path),
        Access::Done(_) => panic!("answered"),
    }
    assert_eq!(data.records, vec![wal(1, false, b"x")]);
    match layer.get_seg_size(Lsn(0x125)) {
        Access::NeedsLoad(path) => assert_eq!(path, file.path),
        Access::Done(_) => panic!("answered"),
    }
    assert_eq!(layer.get_seg_exists(Lsn(0x125)), Ok(true));
}

#[test]
fn bad_file_leaves_the_layer_as_it_was() {
    let (mut layer, _) = sample(false);
    assert_eq!(layer.finish_load(vec![1, 2, 3]), Err(LayerError::NotABook));
    assert_eq!(size(&layer, 0x140), Ok(7));
    assert_eq!(layer.unload(), Ok(()));
    assert_eq!(layer.finish_load(vec![]), Err(LayerError::NotABook));
    assert!(matches!(layer.load(), Access::NeedsLoad(_)));
}

#[test]
fn chapters_of_the_file() {
    let mut pages = OrderedMap::new();
    pages.insert(key(1, 0x20), PageVersion { page_image: None, record: Some(wal(0x21, true, b"ab")) });
    pages.insert(key(1, 0x10), image(&[7, 8, 9]));
    let mut sizes = OrderedMap::new();
    sizes.insert(Lsn(0x10), 5);
    let file = SnapshotLayer::create(
        conf(""), TIMELINE, TENANT, seg(), Lsn(0x10), Lsn(0x30), false, pages, sizes,
    ).1;
    let mut book = Book::new(Cursor::new(file.contents)).unwrap();
    assert_eq!(book.magic(), SNAPSHOT_FILE_MAGIC);
    assert_eq!(SNAPSHOT_FILE_MAGIC, 0x5A616E01);
    assert_eq!(
        book.exclusive_read_chapter(REL_SIZES_CHAPTER).unwrap()[..],
        [0, 0, 0, 0, 0, 0, 0, 1, 0, 0, 0, 0, 0, 0, 0, 0x10, 0, 0, 0, 5]
    );
    let mut expected = vec![0, 0, 0, 0, 0, 0, 0, 2];
    expected.extend([0, 0, 0, 1, 0, 0, 0, 0, 0, 0, 0, 0x10]);
    expected.extend([1, 0, 0, 0, 0, 0, 0, 0, 3, 7, 8, 9, 0]);
    expected.extend([0, 0, 0, 1, 0, 0, 0, 0, 0, 0, 0, 0x20]);
    expected.extend([0, 1, 0, 0, 0, 0, 0, 0, 0, 0x21, 1]);
    expected.extend([0, 0, 0, 0, 0, 0, 0, 2, b'a', b'b', 0, 0, 0, 4]);
    assert_eq!(book.exclusive_read_chapter(PAGE_VERSIONS_CHAPTER).unwrap()[..], expected[..]);
}

#[test]
fn book_written_elsewhere_is_read() {
    // sizes stand first, in a falling order, and one position occurs twice
    let book = BookWriter::new(Vec::new(), 0xABCD).unwrap();
    let mut chapter = book.new_chapter(2u64);
    let mut bytes = vec![0, 0, 0, 0, 0, 0, 0, 3];
    bytes.extend([0, 0, 0, 0, 0, 0, 0, 9, 0, 0, 0, 1]);
    bytes.extend([0, 0, 0, 0, 0, 0, 0, 4, 0, 0, 0, 2]);
    bytes.extend([0, 0, 0, 0, 0, 0, 0, 9, 0, 0, 0, 3]);
    chapter.write_all(&bytes).unwrap();
    let book = chapter.close().unwrap();
    let mut chapter = book.new_chapter(1u64);
    chapter.write_all(&[0; 8]).unwrap();
    let file: Vec<u8> = chapter.close().unwrap().close().unwrap();
    assert_eq!(
        dump_snapfile_from_path(file).unwrap(),
        "--- relsizes ---\n  0/4: 2 blocks\n  0/9: 3 blocks\n--- page versions ---\n"
    );
}

#[test]
fn files_that_are_no_books() {
    assert_eq!(load_error(vec![]), LayerError::NotABook);
    assert_eq!(load_error(vec![0; 7]), LayerError::NotABook);
    assert_eq!(load_error(vec![0; 5000]), LayerError::NotABook);
    assert_eq!(load_error(vec![0xFF; 5000]), LayerError::NotABook);
    let mut file = sample(false).1.contents;
    file.truncate(file.len() - 1);
    assert_eq!(load_error(file), LayerError::NotABook);
}

#[test]
fn missing_chapters() {
    let pages = vec![0u8; 8];
    let other = write_book(SNAPSHOT_FILE_MAGIC, 3, &pages, 4, &pages);
    assert_eq!(load_error(other), LayerError::NoChapter(1));
    let sizes_only = write_book(SNAPSHOT_FILE_MAGIC, REL_SIZES_CHAPTER, &pages, 4, &pages);
    assert_eq!(load_error(sizes_only), LayerError::NoChapter(1));
    let pages_only = write_book(SNAPSHOT_FILE_MAGIC, PAGE_VERSIONS_CHAPTER, &pages, 4, &pages);
    assert_eq!(load_error(pages_only), LayerError::NoChapter(2));
}

#[test]
fn chapters_that_cannot_be_decoded() {
    let none = vec![0u8; 8];
    let short = vec![0u8, 0, 0, 0, 0, 0, 0, 1];
    let long = vec![0u8; 9];
    for bad in [&short, &long, &vec![]] {
        let file = write_book(SNAPSHOT_FILE_MAGIC, PAGE_VERSIONS_CHAPTER, bad, REL_SIZES_CHAPTER, &none);
        assert_eq!(load_error(file), LayerError::BadChapter(1));
        let file = write_book(SNAPSHOT_FILE_MAGIC, PAGE_VERSIONS_CHAPTER, &none, REL_SIZES_CHAPTER, bad);
        assert_eq!(load_error(file), LayerError::BadChapter(2));
        let file = write_book(SNAPSHOT_FILE_MAGIC, PAGE_VERSIONS_CHAPTER, bad, 5, &none);
        assert_eq!(load_error(file), LayerError::BadChapter(1));
    }
}

#[test]
fn dump_of_a_file() {
    let mut pages = OrderedMap::new();
    pages.insert(key(0, 0x169C348), image(&[0; 8192]));
    pages.insert(key(0, 0x169C350), delta(0x169C350, b"12345"));
    pages.insert(key(7, 0x1_0000_00AB), PageVersion {
        page_image: Some(vec![]),
        record: Some(wal(0x1_0000_00AB, true, b"")),
    });
    pages.insert(key(8, 0), PageVersion { page_image: None, record: None });
    let mut sizes = OrderedMap::new();
    sizes.insert(Lsn(0x169C348), 1);
    sizes.insert(Lsn(u64::MAX), 1280);
    let file = SnapshotLayer::create(
        conf(""), TIMELINE, TENANT, seg(), Lsn(0x169C348), Lsn(u64::MAX), false, pages, sizes,
    ).1;
    let expected = "--- relsizes ---
  0/169C348: 1 blocks
  FFFFFFFF/FFFFFFFF: 1280 blocks
--- page versions ---
  blk 0 at 0/169C348:  img 8192 bytes
  blk 0 at 0/169C350:  rec 5 bytes, will_init false
  blk 7 at 1/AB:  img 0 bytes  rec 0 bytes, will_init true
  blk 8 at 0/0:
";
    assert_eq!(dump_snapfile_from_path(file.contents).unwrap(), expected);
    assert_eq!(dump_snapfile_from_path(vec![1]), Err(LayerError::NotABook));
}

#[test]
fn snapshot_files_are_listed() {
    let names: Vec<String> = [
        "rel_1663_13990_2609_0_10_0000000000000100_0000000000000200",
        "wal",
        "rel_1663_13990_2609_0_10_0000000000000200_0000000000000300_DROPPED",
        "rel_1663_13990_2609_0_10_0000000000000200",
    ].iter().map(|name| name.to_string()).collect();
    let mut layers = SnapshotLayer::list_snapshot_files(conf(".zenith"), TIMELINE, TENANT, &names);
    assert_eq!(layers.len(), 2);
    assert_eq!(layers[0].start_lsn, Lsn(0x100));
    assert_eq!(layers[0].end_lsn, Lsn(0x200));
    assert!(!layers[0].is_dropped());
    assert!(layers[1].is_dropped());
    assert_eq!(layers[1].seg, seg());
    assert_eq!(layers[1].tenantid, TENANT);
    assert_eq!(layers[1].get_timeline_id(), TIMELINE);
    assert!(layers[1].path().ends_with(&names[2]));

    // the file of a layer fits the layer that is listed for it
    let (layer, file) = sample(false);
    assert_eq!(layers[0].path(), layer.path());
    assert!(matches!(layers[0].load(), Access::NeedsLoad(path) if path == file.path));
    assert_eq!(layers[0].finish_load(file.contents), Ok(()));
    assert_eq!(page(&layers[0], 1, 0x125), page(&layer, 1, 0x125));
}

#[test]
fn empty_layer() {
    let (layer, file) = SnapshotLayer::create(
        conf(""), TIMELINE, TENANT, seg(), Lsn(0), Lsn(0), false, OrderedMap::new(), OrderedMap::new(),
    );
    assert_eq!(page(&layer, 0, 0), (Ok(Some(Lsn(0))), no_data()));
    assert_eq!(size(&layer, 0), Err(LayerError::NoSize { seg: seg(), lsn: Lsn(0) }));
    assert_eq!(
        dump_snapfile_from_path(file.contents).unwrap(),
        "--- relsizes ---\n--- page versions ---\n"
    );
}
