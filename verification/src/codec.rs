//! The two parts of a snapshot file as bytes.
//!
//! Page versions and segment sizes are stored as lists of entries in the order of
//! their keys.
use crate::lsn::Lsn;
use crate::ordered_map::{
    collected, count_below, inserted, lemma_collected_ordered, lemma_count_below, lemma_counted,
    ordered, MapKey, OrderedMap,
};
use crate::page::{PageKey, PageVersion, PageVersionView, WALRecord, WALRecordView};
use crate::wire::{
    encodes_pages, encodes_sizes, image_bytes, int_bytes, law_page_bytes_differ,
    law_size_bytes_differ, page_bytes, page_fits, page_list_bytes, record_bytes, size_list_bytes,
    PlainPageView, PlainRecordView,
};
use bincode::Options;
use vstd::prelude::*;

verus! {

/// A log record as a tuple.
pub type PlainRecord = (u64, bool, Vec<u8>, u32);

/// A page version with its key as a tuple.
pub type PlainPage = ((u32, u64), (Option<Vec<u8>>, Option<PlainRecord>));

/// The kinds of errors that the encoder and the decoder report.
#[verifier::external_type_specification]
#[verifier::external_body]
pub struct ExErrorKind(bincode::ErrorKind);

/// The contents of a log record.
pub open spec fn plain_record_view(record: PlainRecord) -> PlainRecordView {
    (record.0, record.1, record.2@, record.3)
}

/// The contents of a page version.
pub open spec fn plain_page_view(page: PlainPage) -> PlainPageView {
    (
        page.0,
        (
            match page.1.0 {
                Some(image) => Some(image@),
                None => None,
            },
            match page.1.1 {
                Some(record) => Some(plain_record_view(record)),
                None => None,
            },
        ),
    )
}

/// The contents of a list of page versions.
pub open spec fn plain_list_view(list: Seq<PlainPage>) -> Seq<PlainPageView> {
    Seq::new(list.len(), |i: int| plain_page_view(list[i]))
}

/// Encodes a list of page versions with `bincode`: `Options::serialize` of
/// `DefaultOptions` with big-endian integers of fixed width. Writing to memory
/// without a size limit does not fail for these types. Tuples are their parts one
/// after the other; lengths, options and truth values are written as `wire` says.
#[verifier::external_body]
fn serialize_page_list(list: &Vec<PlainPage>) -> (r: Result<Vec<u8>, bincode::Error>)
    ensures
        r is Ok,
        r->Ok_0@ == page_list_bytes(plain_list_view(list@)),
{
    bincode::DefaultOptions::new().with_big_endian().with_fixint_encoding().serialize(list)
}

/// Decodes a list of page versions with `bincode`: `Options::deserialize` with the
/// options that `serialize_page_list` uses. It gives back the list of which these
/// are the bytes. It fails where there is none: bytes that are left over are an
/// error, and so are bytes that are missing, and tags other than zero and one.
#[verifier::external_body]
fn deserialize_page_list(bytes: &Vec<u8>) -> (r: Result<Vec<PlainPage>, bincode::Error>)
    ensures
        match r {
            Ok(list) => encodes_pages(bytes@, plain_list_view(list@)),
            Err(_) => forall|list: Seq<PlainPageView>| !encodes_pages(bytes@, list),
        },
{
    bincode::DefaultOptions::new().with_big_endian().with_fixint_encoding().deserialize(bytes)
}

/// Encodes a list of segment sizes with `bincode`: `Options::serialize` with the
/// options that `serialize_page_list` uses, and with the same claims.
#[verifier::external_body]
fn serialize_size_list(list: &Vec<(u64, u32)>) -> (r: Result<Vec<u8>, bincode::Error>)
    ensures
        r is Ok,
        r->Ok_0@ == size_list_bytes(list@),
{
    bincode::DefaultOptions::new().with_big_endian().with_fixint_encoding().serialize(list)
}

/// Decodes a list of segment sizes with `bincode`: `Options::deserialize` with the
/// options that `serialize_page_list` uses. It gives back the list of which these
/// are the bytes, and fails where there is none.
#[verifier::external_body]
fn deserialize_size_list(bytes: &Vec<u8>) -> (r: Result<Vec<(u64, u32)>, bincode::Error>)
    ensures
        match r {
            Ok(list) => encodes_sizes(bytes@, list@),
            Err(_) => forall|list: Seq<(u64, u32)>| !encodes_sizes(bytes@, list),
        },
{
    bincode::DefaultOptions::new().with_big_endian().with_fixint_encoding().deserialize(bytes)
}

/// The entries of a map of page versions, each with what it holds.
pub open spec fn pages_view(entries: Seq<(PageKey, PageVersion)>) -> Seq<
    (PageKey, PageVersionView),
> {
    Seq::new(entries.len(), |i: int| (entries[i].0, entries[i].1@))
}

/// An entry of a map of page versions as a tuple.
pub open spec fn plain_of_page(entry: (PageKey, PageVersionView)) -> PlainPageView {
    (
        (entry.0.blknum, entry.0.lsn.0),
        (
            entry.1.page_image,
            match entry.1.record {
                Some(record) => Some(
                    (record.lsn.0, record.will_init, record.rec, record.main_data_offset),
                ),
                None => None,
            },
        ),
    )
}

/// The entry of a map of page versions that a tuple stands for.
pub open spec fn page_of_plain(plain: PlainPageView) -> (PageKey, PageVersionView) {
    (
        PageKey { blknum: plain.0.0, lsn: Lsn(plain.0.1) },
        PageVersionView {
            page_image: plain.1.0,
            record: match plain.1.1 {
                Some(record) => Some(
                    WALRecordView {
                        lsn: Lsn(record.0),
                        will_init: record.1,
                        rec: record.2,
                        main_data_offset: record.3,
                    },
                ),
                None => None,
            },
        },
    )
}

/// The entries as tuples.
pub open spec fn plain_pages(entries: Seq<(PageKey, PageVersionView)>) -> Seq<PlainPageView> {
    Seq::new(entries.len(), |i: int| plain_of_page(entries[i]))
}

/// The entries that tuples stand for.
pub open spec fn listed_pages(list: Seq<PlainPageView>) -> Seq<(PageKey, PageVersionView)> {
    Seq::new(list.len(), |i: int| page_of_plain(list[i]))
}

/// Segment sizes as tuples.
pub open spec fn plain_sizes(entries: Seq<(Lsn, u32)>) -> Seq<(u64, u32)> {
    Seq::new(entries.len(), |i: int| (entries[i].0.0, entries[i].1))
}

/// The segment sizes that tuples stand for.
pub open spec fn listed_sizes(list: Seq<(u64, u32)>) -> Seq<(Lsn, u32)> {
    Seq::new(list.len(), |i: int| (Lsn(list[i].0), list[i].1))
}

/// The list of page versions of which these are the bytes.
pub open spec fn bytes_page_list(bytes: Seq<u8>) -> Option<Seq<PlainPageView>> {
    if exists|list: Seq<PlainPageView>| encodes_pages(bytes, list) {
        Some(choose|list: Seq<PlainPageView>| encodes_pages(bytes, list))
    } else {
        None
    }
}

/// The list of segment sizes of which these are the bytes.
pub open spec fn bytes_size_list(bytes: Seq<u8>) -> Option<Seq<(u64, u32)>> {
    if exists|list: Seq<(u64, u32)>| encodes_sizes(bytes, list) {
        Some(choose|list: Seq<(u64, u32)>| encodes_sizes(bytes, list))
    } else {
        None
    }
}

/// The page versions that encoded bytes stand for. An entry takes the place of an
/// earlier one with the same key.
pub open spec fn decoded_pages(bytes: Seq<u8>) -> Option<Seq<(PageKey, PageVersionView)>> {
    match bytes_page_list(bytes) {
        Some(list) => Some(collected(listed_pages(list))),
        None => None,
    }
}

/// The segment sizes that encoded bytes stand for. An entry takes the place of an
/// earlier one with the same key.
pub open spec fn decoded_sizes(bytes: Seq<u8>) -> Option<Seq<(Lsn, u32)>> {
    match bytes_size_list(bytes) {
        Some(list) => Some(collected(listed_sizes(list))),
        None => None,
    }
}

/// The list of page versions of which these are the bytes is the only one.
proof fn lemma_page_list_found(bytes: Seq<u8>, list: Seq<PlainPageView>)
    requires
        encodes_pages(bytes, list),
    ensures
        bytes_page_list(bytes) == Some(list),
{
    law_page_bytes_differ(bytes, list, bytes_page_list(bytes)->0);
}

/// The list of segment sizes of which these are the bytes is the only one.
proof fn lemma_size_list_found(bytes: Seq<u8>, list: Seq<(u64, u32)>)
    requires
        encodes_sizes(bytes, list),
    ensures
        bytes_size_list(bytes) == Some(list),
{
    law_size_bytes_differ(bytes, list, bytes_size_list(bytes)->0);
}

/// Page versions are what is read back from their bytes.
pub proof fn law_pages_are_read_back(entries: Seq<(PageKey, PageVersionView)>)
    requires
        ordered(entries),
        entries.len() <= u64::MAX,
        forall|i: int| 0 <= i < entries.len() ==> page_fits(plain_of_page(#[trigger] entries[i])),
    ensures
        decoded_pages(page_list_bytes(plain_pages(entries))) == Some(entries),
{
    let list = plain_pages(entries);
    assert forall|i: int| 0 <= i < list.len() implies page_fits(#[trigger] list[i]) by {
        assert(list[i] == plain_of_page(entries[i]));
    }
    lemma_page_list_found(page_list_bytes(list), list);
    assert(listed_pages(list) =~= entries);
    lemma_collected_ordered(entries);
}

/// Segment sizes are what is read back from their bytes.
pub proof fn law_sizes_are_read_back(entries: Seq<(Lsn, u32)>)
    requires
        ordered(entries),
        entries.len() <= u64::MAX,
    ensures
        decoded_sizes(size_list_bytes(plain_sizes(entries))) == Some(entries),
{
    let list = plain_sizes(entries);
    lemma_size_list_found(size_list_bytes(list), list);
    assert(listed_sizes(list) =~= entries);
    lemma_collected_ordered(entries);
}

/// An entry goes to the same place whether values or their contents are looked at.
proof fn lemma_inserted_view(
    entries: Seq<(PageKey, PageVersion)>,
    key: PageKey,
    value: PageVersion,
)
    ensures
        pages_view(inserted(entries, key, value)) == inserted(pages_view(entries), key, value@),
{
    let rank = key.rank();
    let at = count_below(entries, rank) as int;
    lemma_counted(entries, rank);
    lemma_count_below(pages_view(entries), rank, at);
    assert(pages_view(inserted(entries, key, value)) =~= inserted(
        pages_view(entries),
        key,
        value@,
    ));
}

fn clone_bytes(bytes: &Vec<u8>) -> (copy: Vec<u8>)
    ensures
        copy@ == bytes@,
{
    let copy: Vec<u8> = bytes.clone();
    assert(copy@ =~= bytes@);
    copy
}

fn to_plain(key: PageKey, version: &PageVersion) -> (plain: PlainPage)
    ensures
        plain_page_view(plain) == plain_of_page((key, version@)),
        page_fits(plain_of_page((key, version@))),
{
    let image: Option<Vec<u8>> = match &version.page_image {
        Some(image) => Some(clone_bytes(image)),
        None => None,
    };
    let record: Option<PlainRecord> = match &version.record {
        Some(record) => Some(
            (record.lsn.0, record.will_init, clone_bytes(&record.rec), record.main_data_offset),
        ),
        None => None,
    };
    proof {
        if let Some(image) = &version.page_image {
            assert(image.len() == image@.len());
        }
        if let Some(record) = &version.record {
            assert(record.rec.len() == record.rec@.len());
        }
    }
    ((key.blknum, key.lsn.0), (image, record))
}

fn from_plain(plain: PlainPage) -> (entry: (PageKey, PageVersion))
    ensures
        (entry.0, entry.1@) == page_of_plain(plain_page_view(plain)),
{
    let ((blknum, lsn), (page_image, record)) = plain;
    let record: Option<WALRecord> = match record {
        Some((lsn, will_init, rec, main_data_offset)) => Some(
            WALRecord { lsn: Lsn(lsn), will_init, rec, main_data_offset },
        ),
        None => None,
    };
    (PageKey { blknum, lsn: Lsn(lsn) }, PageVersion { page_image, record })
}

/// Encodes page versions.
pub fn encode_pages(pages: &OrderedMap<PageKey, PageVersion>) -> (bytes: Vec<u8>)
    ensures
        bytes@ == page_list_bytes(plain_pages(pages_view(pages@))),
        decoded_pages(bytes@) == Some(pages_view(pages@)),
        ordered(pages_view(pages@)),
{
    let n: usize = pages.len();
    let mut list: Vec<PlainPage> = Vec::new();
    let mut i: usize = 0;
    while i < n
        invariant
            n == pages@.len(),
            i <= n,
            plain_list_view(list@) == plain_pages(pages_view(pages@)).take(i as int),
            forall|j: int|
                0 <= j < i ==> page_fits(plain_of_page(#[trigger] pages_view(pages@)[j])),
        decreases n - i,
    {
        let plain: PlainPage = to_plain(pages.key_at(i), pages.value_at(i));
        let ghost before = list@;
        list.push(plain);
        assert(plain_list_view(list@) =~= plain_list_view(before).push(plain_page_view(plain)));
        assert(plain_list_view(list@) =~= plain_pages(pages_view(pages@)).take(i + 1));
        i += 1;
    }
    let ghost entries = pages_view(pages@);
    assert(plain_list_view(list@) =~= plain_pages(entries));
    proof {
        assert forall|i: int, j: int| 0 <= i < j < entries.len() implies (
        #[trigger] entries[i]).0.rank() < (#[trigger] entries[j]).0.rank() by {
            assert(pages@[i].0.rank() < pages@[j].0.rank());
        }
        law_pages_are_read_back(entries);
    }
    serialize_page_list(&list).unwrap()
}

/// Decodes page versions; `None` where the bytes are no encoding of them.
pub fn decode_pages(bytes: &Vec<u8>) -> (pages: Option<OrderedMap<PageKey, PageVersion>>)
    ensures
        match pages {
            Some(pages) => decoded_pages(bytes@) == Some(pages_view(pages@)),
            None => decoded_pages(bytes@) is None,
        },
{
    let list: Vec<PlainPage> = match deserialize_page_list(bytes) {
        Ok(list) => list,
        Err(_) => {
            return None;
        },
    };
    proof {
        lemma_page_list_found(bytes@, plain_list_view(list@));
    }
    let ghost whole = list@;
    let ghost listed = listed_pages(plain_list_view(whole));
    let mut pages: OrderedMap<PageKey, PageVersion> = OrderedMap::new();
    assert(pages_view(pages@) =~= collected(listed.take(0)));
    for plain in iter: list
        invariant
            iter.seq() == whole,
            listed == listed_pages(plain_list_view(whole)),
            pages_view(pages@) == collected(listed.take(iter.index() as int)),
    {
        let (key, version) = from_plain(plain);
        proof {
            let i = iter.index() as int;
            let longer = listed.take(i + 1);
            assert(longer.drop_last() =~= listed.take(i));
            assert(longer.last() == (key, version@));
            lemma_inserted_view(pages@, key, version);
        }
        pages.insert(key, version);
    }
    assert(listed.take(whole.len() as int) =~= listed);
    Some(pages)
}

/// Encodes segment sizes.
pub fn encode_sizes(sizes: &OrderedMap<Lsn, u32>) -> (bytes: Vec<u8>)
    ensures
        bytes@ == size_list_bytes(plain_sizes(sizes@)),
        decoded_sizes(bytes@) == Some(sizes@),
        ordered(sizes@),
{
    let n: usize = sizes.len();
    let mut list: Vec<(u64, u32)> = Vec::new();
    let mut i: usize = 0;
    while i < n
        invariant
            n == sizes@.len(),
            i <= n,
            list@ == plain_sizes(sizes@).take(i as int),
        decreases n - i,
    {
        list.push((sizes.key_at(i).0, *sizes.value_at(i)));
        assert(list@ =~= plain_sizes(sizes@).take(i + 1));
        i += 1;
    }
    assert(list@ =~= plain_sizes(sizes@));
    proof {
        law_sizes_are_read_back(sizes@);
    }
    serialize_size_list(&list).unwrap()
}

/// Decodes segment sizes; `None` where the bytes are no encoding of them.
pub fn decode_sizes(bytes: &Vec<u8>) -> (sizes: Option<OrderedMap<Lsn, u32>>)
    ensures
        match sizes {
            Some(sizes) => decoded_sizes(bytes@) == Some(sizes@),
            None => decoded_sizes(bytes@) is None,
        },
{
    let list: Vec<(u64, u32)> = match deserialize_size_list(bytes) {
        Ok(list) => list,
        Err(_) => {
            return None;
        },
    };
    proof {
        lemma_size_list_found(bytes@, list@);
    }
    let ghost listed = listed_sizes(list@);
    let mut sizes: OrderedMap<Lsn, u32> = OrderedMap::new();
    let mut i: usize = 0;
    assert(sizes@ =~= collected(listed.take(0)));
    while i < list.len()
        invariant
            i <= list.len(),
            listed == listed_sizes(list@),
            sizes@ == collected(listed.take(i as int)),
        decreases list.len() - i,
    {
        proof {
            let longer = listed.take(i + 1);
            assert(longer.drop_last() =~= listed.take(i as int));
            assert(longer.last() == (Lsn(list@[i as int].0), list@[i as int].1));
        }
        sizes.insert(Lsn(list[i].0), list[i].1);
        i += 1;
    }
    assert(listed.take(i as int) =~= listed);
    Some(sizes)
}

/// What is stored of a page version is its block and position, its image and its
/// record, each part of the record as it is: an image or a record that is there has a
/// one in front, and one that is not there is a zero; bytes have their number in
/// front; and the mark of a record that sets the page up anew is a one.
pub proof fn law_stored_page_version(key: PageKey, version: PageVersionView)
    ensures
        page_bytes(plain_of_page((key, version))) == int_bytes(key.blknum as nat, 4) + int_bytes(
            key.lsn.0 as nat,
            8,
        ) + match version.page_image {
            Some(image) => seq![1u8] + int_bytes(image.len(), 8) + image,
            None => seq![0u8],
        } + match version.record {
            Some(record) => seq![1u8] + int_bytes(record.lsn.0 as nat, 8) + seq![
                if record.will_init { 1u8 } else { 0u8 },
            ] + int_bytes(record.rec.len(), 8) + record.rec + int_bytes(
                record.main_data_offset as nat,
                4,
            ),
            None => seq![0u8],
        },
{
    let image = match version.page_image {
        Some(image) => seq![1u8] + int_bytes(image.len(), 8) + image,
        None => seq![0u8],
    };
    let record = match version.record {
        Some(record) => seq![1u8] + int_bytes(record.lsn.0 as nat, 8) + seq![
            if record.will_init { 1u8 } else { 0u8 },
        ] + int_bytes(record.rec.len(), 8) + record.rec + int_bytes(
            record.main_data_offset as nat,
            4,
        ),
        None => seq![0u8],
    };
    let plain = plain_of_page((key, version));
    assert(image_bytes(plain.1.0) =~= image);
    assert(record_bytes(plain.1.1) =~= record);
}

/// A tuple and the page version that it stands for are one another's, and have the
/// same parts.
pub proof fn law_tuples_and_page_versions(entry: (PageKey, PageVersionView), plain: PlainPageView)
    ensures
        page_of_plain(plain_of_page(entry)) == entry,
        plain_of_page(page_of_plain(plain)) == plain,
        plain_of_page(entry).0.0 == entry.0.blknum,
        plain_of_page(entry).0.1 == entry.0.lsn.0,
        plain_of_page(entry).1.0 == entry.1.page_image,
        plain_of_page(entry).1.1 is Some <==> entry.1.record is Some,
        entry.1.record matches Some(record) ==> plain_of_page(entry).1.1 == Some(
            (record.lsn.0, record.will_init, record.rec, record.main_data_offset),
        ),
{
}

/// Lists of entries and lists of tuples are the same, one for one.
pub proof fn law_lists_as_tuples(
    pages: Seq<(PageKey, PageVersionView)>,
    sizes: Seq<(Lsn, u32)>,
    map: Seq<(PageKey, PageVersion)>,
)
    ensures
        plain_pages(pages).len() == pages.len(),
        forall|i: int|
            0 <= i < pages.len() ==> #[trigger] plain_pages(pages)[i] == plain_of_page(pages[i]),
        listed_pages(plain_pages(pages)) == pages,
        plain_sizes(sizes).len() == sizes.len(),
        forall|i: int|
            0 <= i < sizes.len() ==> #[trigger] plain_sizes(sizes)[i] == (sizes[i].0.0, sizes[i].1),
        listed_sizes(plain_sizes(sizes)) == sizes,
        pages_view(map).len() == map.len(),
        forall|i: int|
            0 <= i < map.len() ==> #[trigger] pages_view(map)[i] == (map[i].0, map[i].1@),
{
    assert(listed_pages(plain_pages(pages)) =~= pages);
    assert(listed_sizes(plain_sizes(sizes)) =~= sizes);
}

/// Bytes are decoded to what was added entry by entry, in whatever order the entries
/// stand, whatever keys they repeat.
pub proof fn law_stored_entries_are_read(
    pages: Seq<(PageKey, PageVersionView)>,
    sizes: Seq<(Lsn, u32)>,
)
    requires
        pages.len() <= u64::MAX,
        sizes.len() <= u64::MAX,
        forall|i: int|
            #![trigger pages[i]]
            0 <= i < pages.len() ==> {
                &&& pages[i].1.page_image matches Some(image) ==> image.len() <= u64::MAX
                &&& pages[i].1.record matches Some(record) ==> record.rec.len() <= u64::MAX
            },
    ensures
        decoded_pages(page_list_bytes(plain_pages(pages))) == Some(collected(pages)),
        decoded_sizes(size_list_bytes(plain_sizes(sizes))) == Some(collected(sizes)),
{
    let list = plain_pages(pages);
    assert forall|i: int| 0 <= i < list.len() implies page_fits(#[trigger] list[i]) by {
        assert(list[i] == plain_of_page(pages[i]));
    }
    lemma_page_list_found(page_list_bytes(list), list);
    assert(listed_pages(list) =~= pages);
    let list = plain_sizes(sizes);
    lemma_size_list_found(size_list_bytes(list), list);
    assert(listed_sizes(list) =~= sizes);
}

/// Bytes that are decoded are those of a list of entries.
pub proof fn law_read_bytes_were_stored(bytes: Seq<u8>)
    ensures
        decoded_pages(bytes) matches Some(pages) ==> exists|list: Seq<(PageKey, PageVersionView)>|
            bytes == #[trigger] page_list_bytes(plain_pages(list)) && pages == collected(list),
        decoded_sizes(bytes) matches Some(sizes) ==> exists|list: Seq<(Lsn, u32)>|
            bytes == #[trigger] size_list_bytes(plain_sizes(list)) && sizes == collected(list),
{
    if let Some(list) = bytes_page_list(bytes) {
        assert(encodes_pages(bytes, list));
        assert(plain_pages(listed_pages(list)) =~= list);
    }
    if let Some(list) = bytes_size_list(bytes) {
        assert(encodes_sizes(bytes, list));
        assert(plain_sizes(listed_sizes(list)) =~= list);
    }
}

/// What is said of tuples in memory is said of each of their parts.
pub proof fn law_parts_of_tuples(list: Seq<PlainPage>, i: int)
    requires
        0 <= i < list.len(),
    ensures
        plain_list_view(list).len() == list.len(),
        plain_list_view(list)[i].0 == list[i].0,
        plain_list_view(list)[i].1.0 is Some <==> list[i].1.0 is Some,
        list[i].1.0 matches Some(image) ==> plain_list_view(list)[i].1.0 == Some(image@),
        plain_list_view(list)[i].1.1 is Some <==> list[i].1.1 is Some,
        list[i].1.1 matches Some((lsn, will_init, rec, main_data_offset)) ==> plain_list_view(
            list,
        )[i].1.1 == Some((lsn, will_init, rec@, main_data_offset)),
{
}

} // verus!
