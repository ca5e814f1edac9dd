//! What is found in the contents of a snapshot file: the versions from which a page
//! is made, and the size of the segment.
use crate::error::LayerError;
use crate::lsn::Lsn;
use crate::ordered_map::{
    count_below, inserted, lemma_count_below, lemma_counted, lemma_inserted_ordered, ordered,
    MapKey,
};
use crate::page::{PageKey, PageVersionView, WALRecordView};
use vstd::prelude::*;

verus! {

/// The size of a segment at a position: that of the last entry at the position or
/// before it.
pub open spec fn size_at(relsizes: Seq<(Lsn, u32)>, lsn: Lsn) -> Option<u32>
    decreases relsizes.len(),
{
    if relsizes.len() == 0 {
        None
    } else if relsizes.last().0.0 <= lsn.0 {
        Some(relsizes.last().1)
    } else {
        size_at(relsizes.drop_last(), lsn)
    }
}

/// The versions of a block at a position or before it, the oldest first.
pub open spec fn versions_of(
    page_versions: Seq<(PageKey, PageVersionView)>,
    blknum: u32,
    lsn: Lsn,
) -> Seq<(PageKey, PageVersionView)> {
    page_versions.filter(
        |entry: (PageKey, PageVersionView)| entry.0.blknum == blknum && entry.0.lsn.0 <= lsn.0,
    )
}

/// Whether a version is a log record that needs the version before it.
pub open spec fn builds_on_older(version: PageVersionView) -> bool {
    version.page_image is None && version.record is Some && !version.record->0.will_init
}

/// How many of the newest versions need the version before them.
pub open spec fn count_deltas(versions: Seq<(PageKey, PageVersionView)>) -> nat
    decreases versions.len(),
{
    if versions.len() > 0 && builds_on_older(versions.last().1) {
        1 + count_deltas(versions.drop_last())
    } else {
        0
    }
}

/// The log records of the newest `n` versions, the newest first.
pub open spec fn newest_records(versions: Seq<(PageKey, PageVersionView)>, n: nat) -> Seq<
    WALRecordView,
> {
    Seq::new(n, |i: int| versions[versions.len() - 1 - i].1.record->0)
}

/// What is found when the versions of a page are gone through from the newest to
/// the oldest.
pub enum Lookup {
    /// An image of the page, and the records to apply to it.
    Image { image: Seq<u8>, records: Seq<WALRecordView> },
    /// Records the oldest of which sets the page up anew.
    Initialized { records: Seq<WALRecordView> },
    /// Records that need the page as it was before `lsn`.
    NeedsOlder { lsn: Lsn, records: Seq<WALRecordView> },
    /// Records, and then a version that holds nothing.
    Broken { records: Seq<WALRecordView> },
}

/// The outcome of a search that starts at `lsn`, among the versions up to there.
pub open spec fn lookup(versions: Seq<(PageKey, PageVersionView)>, lsn: Lsn) -> Lookup {
    let n = count_deltas(versions);
    let records = newest_records(versions, n);
    if n == versions.len() {
        Lookup::NeedsOlder { lsn: if n == 0 { lsn } else { versions[0].0.lsn }, records }
    } else {
        let stop = versions[versions.len() - 1 - n].1;
        if stop.page_image is Some {
            Lookup::Image { image: stop.page_image->0, records }
        } else if stop.record is Some {
            Lookup::Initialized { records: newest_records(versions, n + 1) }
        } else {
            Lookup::Broken { records }
        }
    }
}

/// What a lookup answers: the position before which an older version is needed,
/// or `None` where the page can be made.
pub open spec fn lookup_answer(found: Lookup) -> Result<Option<Lsn>, LayerError> {
    match found {
        Lookup::Image { .. } => Ok(None),
        Lookup::Initialized { .. } => Ok(None),
        Lookup::NeedsOlder { lsn, .. } => Ok(Some(lsn)),
        Lookup::Broken { .. } => Err(LayerError::NoImageOrRecord),
    }
}

/// The records that a lookup finds, the newest first.
pub open spec fn lookup_records(found: Lookup) -> Seq<WALRecordView> {
    match found {
        Lookup::Image { records, .. } => records,
        Lookup::Initialized { records } => records,
        Lookup::NeedsOlder { records, .. } => records,
        Lookup::Broken { records } => records,
    }
}

/// The base image after a lookup: the one that it finds, else that of before.
pub open spec fn lookup_image(found: Lookup, before: Option<Seq<u8>>) -> Option<Seq<u8>> {
    match found {
        Lookup::Image { image, .. } => Some(image),
        _ => before,
    }
}

/// A filter that picks out a window of a sequence.
pub proof fn lemma_filter_window<A>(s: Seq<A>, pred: spec_fn(A) -> bool, low: int, high: int)
    requires
        0 <= low <= high <= s.len(),
        forall|i: int| 0 <= i < s.len() ==> pred(#[trigger] s[i]) == (low <= i < high),
    ensures
        s.filter(pred) == s.subrange(low, high),
    decreases s.len(),
{
    reveal(Seq::filter);
    if s.len() == 0 {
        assert(s.filter(pred) =~= s.subrange(low, high));
    } else {
        let before = s.drop_last();
        let last: int = s.len() - 1;
        assert(pred(s[last]) == (low <= last < high));
        if high == s.len() && low < high {
            lemma_filter_window(before, pred, low, high - 1);
            assert(before.subrange(low, high - 1).push(s.last()) =~= s.subrange(low, high));
        } else if high == s.len() {
            lemma_filter_window(before, pred, low - 1, high - 1);
            assert(before.subrange(low - 1, high - 1) =~= s.subrange(low, high));
        } else {
            lemma_filter_window(before, pred, low, high);
            assert(before.subrange(low, high) =~= s.subrange(low, high));
        }
    }
}

/// The versions of a block up to a position stand next to each other.
pub proof fn lemma_versions_window(
    page_versions: Seq<(PageKey, PageVersionView)>,
    blknum: u32,
    lsn: Lsn,
    low: int,
    high: int,
)
    requires
        ordered(page_versions),
        low == count_below(page_versions, PageKey { blknum, lsn: Lsn(0) }.rank()),
        high == count_below(page_versions, PageKey { blknum, lsn }.rank() + 1),
    ensures
        0 <= low <= high <= page_versions.len(),
        versions_of(page_versions, blknum, lsn) == page_versions.subrange(low, high),
{
    let first = PageKey { blknum, lsn: Lsn(0) };
    let last = PageKey { blknum, lsn };
    lemma_counted(page_versions, first.rank());
    lemma_counted(page_versions, last.rank() + 1);
    if high < low {
        assert(page_versions[high].0.rank() < first.rank());
    }
    let pred = |entry: (PageKey, PageVersionView)|
        entry.0.blknum == blknum && entry.0.lsn.0 <= lsn.0;
    assert forall|i: int| 0 <= i < page_versions.len() implies pred(#[trigger] page_versions[i])
        == (low <= i < high) by {
        if i >= low {
            assert(page_versions[low].0.rank() <= page_versions[i].0.rank());
        }
        if i >= high {
            assert(page_versions[high].0.rank() <= page_versions[i].0.rank());
        }
    }
    lemma_filter_window(page_versions, pred, low, high);
}

/// The count of deltas is where the first version that is none stands, seen from
/// the newest.
pub proof fn lemma_count_deltas(versions: Seq<(PageKey, PageVersionView)>, n: nat)
    requires
        n <= versions.len(),
        forall|i: int|
            versions.len() - n <= i < versions.len() ==> builds_on_older(
                (#[trigger] versions[i]).1,
            ),
        n < versions.len() ==> !builds_on_older(versions[versions.len() - 1 - n].1),
    ensures
        count_deltas(versions) == n,
    decreases n,
{
    if n > 0 {
        assert(builds_on_older(versions[versions.len() - 1].1));
        lemma_count_deltas(versions.drop_last(), (n - 1) as nat);
    }
}

/// What the count of deltas says of the versions.
pub proof fn lemma_counted_deltas(versions: Seq<(PageKey, PageVersionView)>)
    ensures
        count_deltas(versions) <= versions.len(),
        forall|i: int|
            versions.len() - count_deltas(versions) <= i < versions.len() ==> builds_on_older(
                (#[trigger] versions[i]).1,
            ),
        count_deltas(versions) < versions.len() ==> !builds_on_older(
            versions[versions.len() - 1 - count_deltas(versions)].1,
        ),
    decreases versions.len(),
{
    if versions.len() > 0 && builds_on_older(versions.last().1) {
        let before = versions.drop_last();
        lemma_counted_deltas(before);
        assert forall|i: int|
            versions.len() - count_deltas(versions) <= i < versions.len() implies builds_on_older(
            (#[trigger] versions[i]).1,
        ) by {
            if i < before.len() {
                assert(before[i] == versions[i]);
            }
        }
    }
}

/// The size at a position is that of the last of the entries up to there.
pub proof fn lemma_size_found(relsizes: Seq<(Lsn, u32)>, lsn: Lsn, n: int)
    requires
        ordered(relsizes),
        n == count_below(relsizes, lsn.rank() + 1),
    ensures
        0 <= n <= relsizes.len(),
        size_at(relsizes, lsn) == if n == 0 {
            None
        } else {
            Some(relsizes[n - 1].1)
        },
    decreases relsizes.len(),
{
    lemma_counted(relsizes, lsn.rank() + 1);
    if n < relsizes.len() {
        let before = relsizes.drop_last();
        assert(relsizes[n].0.rank() <= relsizes.last().0.rank());
        assert forall|i: int, j: int| 0 <= i < j < before.len() implies (
        #[trigger] before[i]).0.rank() < (#[trigger] before[j]).0.rank() by {
            assert(relsizes[i].0.rank() < relsizes[j].0.rank());
        }
        lemma_count_below(before, lsn.rank() + 1, n);
        lemma_size_found(before, lsn, n);
    }
}

/// Where an entry goes, the versions of a block before it and after it stay.
proof fn lemma_versions_inserted(
    page_versions: Seq<(PageKey, PageVersionView)>,
    key: PageKey,
    version: PageVersionView,
    blknum: u32,
    lsn: Lsn,
)
    requires
        ordered(page_versions),
    ensures
        ({
            let at = count_below(page_versions, key.rank()) as int;
            let rest = if at < page_versions.len() && page_versions[at].0 == key {
                at + 1
            } else {
                at
            };
            let low = versions_of(page_versions.take(at), blknum, lsn);
            let high = versions_of(page_versions.skip(rest), blknum, lsn);
            &&& 0 <= at <= rest <= page_versions.len()
            &&& versions_of(inserted(page_versions, key, version), blknum, lsn) == if key.blknum
                == blknum && key.lsn.0 <= lsn.0 {
                low.push((key, version)) + high
            } else {
                low + high
            }
            &&& versions_of(page_versions, blknum, lsn) == if rest > at && key.blknum == blknum
                && key.lsn.0 <= lsn.0 {
                low.push(page_versions[at]) + high
            } else {
                low + high
            }
        }),
{
    reveal(Seq::filter);
    lemma_counted(page_versions, key.rank());
    let at = count_below(page_versions, key.rank()) as int;
    let rest = if at < page_versions.len() && page_versions[at].0 == key { at + 1 } else { at };
    let pred = |entry: (PageKey, PageVersionView)|
        entry.0.blknum == blknum && entry.0.lsn.0 <= lsn.0;
    let front = page_versions.take(at);
    let back = page_versions.skip(rest);
    Seq::filter_distributes_over_add(front.push((key, version)), back, pred);
    assert(front.push((key, version)).drop_last() =~= front);
    if rest > at {
        Seq::filter_distributes_over_add(front.push(page_versions[at]), back, pred);
        assert(front.push(page_versions[at]).drop_last() =~= front);
        assert(front.push(page_versions[at]) + back =~= page_versions);
    } else {
        Seq::filter_distributes_over_add(front, back, pred);
        assert(front + back =~= page_versions);
    }
}

/// A version of another block, or one at a later position, changes nothing in what
/// a lookup finds.
pub proof fn law_other_versions_do_not_matter(
    page_versions: Seq<(PageKey, PageVersionView)>,
    key: PageKey,
    version: PageVersionView,
    blknum: u32,
    lsn: Lsn,
)
    requires
        ordered(page_versions),
        key.blknum != blknum || lsn.0 < key.lsn.0,
    ensures
        lookup(versions_of(inserted(page_versions, key, version), blknum, lsn), lsn) == lookup(
            versions_of(page_versions, blknum, lsn),
            lsn,
        ),
{
    lemma_versions_inserted(page_versions, key, version, blknum, lsn);
}

/// A lookup starts with the newest version. An image is the answer by itself; a
/// record that sets the page up anew is the answer by itself; any other record
/// comes in front of what was found without it.
pub proof fn law_newest_version_comes_first(
    page_versions: Seq<(PageKey, PageVersionView)>,
    key: PageKey,
    version: PageVersionView,
    lsn: Lsn,
)
    requires
        ordered(page_versions),
        key.lsn.0 <= lsn.0,
        forall|i: int|
            0 <= i < page_versions.len() && (#[trigger] page_versions[i]).0.blknum == key.blknum
                && page_versions[i].0.lsn.0 <= lsn.0 ==> page_versions[i].0.lsn.0 < key.lsn.0,
    ensures
        ({
            let before = versions_of(page_versions, key.blknum, lsn);
            let found = lookup(
                versions_of(inserted(page_versions, key, version), key.blknum, lsn),
                lsn,
            );
            match version.page_image {
                Some(image) => found == (Lookup::Image { image, records: Seq::empty() }),
                None => match version.record {
                    Some(record) => if record.will_init {
                        found == (Lookup::Initialized { records: seq![record] })
                    } else {
                        &&& lookup_records(found) == seq![record] + lookup_records(
                            lookup(before, lsn),
                        )
                        &&& lookup_image(found, None) == lookup_image(lookup(before, lsn), None)
                        &&& lookup_answer(found) == if before.len() == 0 {
                            Ok::<Option<Lsn>, LayerError>(Some(key.lsn))
                        } else {
                            lookup_answer(lookup(before, lsn))
                        }
                    },
                    None => found == (Lookup::Broken { records: Seq::empty() }),
                },
            }
        }),
{
    reveal(Seq::filter);
    let blknum = key.blknum;
    lemma_versions_inserted(page_versions, key, version, blknum, lsn);
    lemma_counted(page_versions, key.rank());
    let at = count_below(page_versions, key.rank()) as int;
    let pred = |entry: (PageKey, PageVersionView)|
        entry.0.blknum == blknum && entry.0.lsn.0 <= lsn.0;
    let back = page_versions.skip(at);
    assert forall|i: int| 0 <= i < back.len() implies !pred(#[trigger] back[i]) by {
        assert(back[i] == page_versions[at + i]);
        assert(page_versions[at].0.rank() <= page_versions[at + i].0.rank());
    }
    lemma_filter_window(back, pred, 0, 0);
    assert(back.subrange(0, 0) =~= Seq::empty());
    let before = versions_of(page_versions, blknum, lsn);
    let after = versions_of(inserted(page_versions, key, version), blknum, lsn);
    assert(before =~= versions_of(page_versions.take(at), blknum, lsn));
    assert(after =~= before.push((key, version)));
    assert(after.drop_last() =~= before);
    lemma_counted_deltas(before);
    let n = count_deltas(before);
    if builds_on_older(version) {
        let record = version.record->0;
        assert(count_deltas(after) == n + 1);
        assert(newest_records(after, n + 1) =~= seq![record] + newest_records(before, n));
        if n < before.len() {
            assert(newest_records(after, n + 2) =~= seq![record] + newest_records(before, n + 1));
        }
    } else {
        assert(count_deltas(after) == 0);
        assert(newest_records(after, 0) =~= Seq::empty());
        if version.record is Some {
            assert(newest_records(after, 1) =~= seq![version.record->0]);
        }
    }
}

/// The page that records make of `base`, where `apply` says what one record makes
/// of a page. The newest record stands first.
pub open spec fn replayed(
    base: Seq<u8>,
    records: Seq<WALRecordView>,
    apply: spec_fn(Seq<u8>, WALRecordView) -> Seq<u8>,
) -> Seq<u8>
    decreases records.len(),
{
    if records.len() == 0 {
        base
    } else {
        apply(replayed(base, records.drop_first(), apply), records[0])
    }
}

/// The page after all versions, the oldest first, where it was `base` before them.
pub open spec fn page_after(
    versions: Seq<(PageKey, PageVersionView)>,
    base: Seq<u8>,
    apply: spec_fn(Seq<u8>, WALRecordView) -> Seq<u8>,
) -> Seq<u8>
    decreases versions.len(),
{
    if versions.len() == 0 {
        base
    } else {
        let version = versions.last().1;
        match version.page_image {
            Some(image) => image,
            None => apply(page_after(versions.drop_last(), base, apply), version.record->0),
        }
    }
}

/// What a lookup finds is what is needed to make the page: the records, applied to
/// the image that was found, or to the page as it was before the versions, give the
/// page after all of them. To a record that sets the page up anew, the page before
/// it does not matter.
pub proof fn law_found_records_make_the_page(
    versions: Seq<(PageKey, PageVersionView)>,
    lsn: Lsn,
    base: Seq<u8>,
    apply: spec_fn(Seq<u8>, WALRecordView) -> Seq<u8>,
)
    requires
        forall|a: Seq<u8>, b: Seq<u8>, record: WALRecordView|
            record.will_init ==> #[trigger] apply(a, record) == #[trigger] apply(b, record),
    ensures
        match lookup(versions, lsn) {
            Lookup::Image { image, records } => replayed(image, records, apply) == page_after(
                versions,
                base,
                apply,
            ),
            Lookup::Initialized { records } => forall|any: Seq<u8>| #[trigger]
                replayed(any, records, apply) == page_after(versions, base, apply),
            Lookup::NeedsOlder { records, .. } => replayed(base, records, apply) == page_after(
                versions,
                base,
                apply,
            ),
            Lookup::Broken { .. } => true,
        },
    decreases versions.len(),
{
    lemma_counted_deltas(versions);
    if versions.len() > 0 {
        let before = versions.drop_last();
        let version = versions.last().1;
        let n = count_deltas(before);
        law_found_records_make_the_page(before, lsn, base, apply);
        lemma_counted_deltas(before);
        if builds_on_older(version) {
            let record = version.record->0;
            let found = newest_records(versions, n + 1);
            assert(found.drop_first() =~= newest_records(before, n));
            assert(found[0] == record);
            if n < before.len() {
                let all = newest_records(versions, n + 2);
                assert(all.drop_first() =~= newest_records(before, n + 1));
                assert(all[0] == record);
                assert(versions[versions.len() - 2 - n] == before[before.len() - 1 - n]);
                if let Lookup::Initialized { records } = lookup(before, lsn) {
                    assert(all.drop_first() == records);
                    assert forall|any: Seq<u8>| #[trigger] replayed(any, all, apply) == page_after(
                        versions,
                        base,
                        apply,
                    ) by {
                        assert(replayed(any, records, apply) == page_after(
                            before,
                            base,
                            apply,
                        ));
                    }
                }
            }
        } else if version.page_image is None && version.record is Some {
            let found = newest_records(versions, 1);
            assert(found[0] == version.record->0);
            assert forall|any: Seq<u8>| #[trigger] replayed(any, found, apply) == page_after(
                versions,
                base,
                apply,
            ) by {
                assert(replayed(any, found.drop_first(), apply) == any);
            }
        }
    }
}

/// A file that has an image of a page as of its start, and a record or an image for
/// every later version, is all that is needed to make the page at any position.
pub proof fn law_full_snapshot_is_enough(
    page_versions: Seq<(PageKey, PageVersionView)>,
    blknum: u32,
    start: Lsn,
    image: PageVersionView,
    lsn: Lsn,
)
    requires
        ordered(page_versions),
        start.0 <= lsn.0,
        page_versions.contains((PageKey { blknum, lsn: start }, image)),
        image.page_image is Some,
        forall|i: int|
            0 <= i < page_versions.len() && (#[trigger] page_versions[i]).0.blknum == blknum
                && start.0 < page_versions[i].0.lsn.0 <= lsn.0 ==> page_versions[i].1.page_image
                is Some || page_versions[i].1.record is Some,
    ensures
        lookup_answer(lookup(versions_of(page_versions, blknum, lsn), lsn)) == Ok::<
            Option<Lsn>,
            LayerError,
        >(None),
{
    let first = PageKey { blknum, lsn: Lsn(0) };
    let last = PageKey { blknum, lsn };
    let low = count_below(page_versions, first.rank()) as int;
    let high = count_below(page_versions, last.rank() + 1) as int;
    lemma_versions_window(page_versions, blknum, lsn, low, high);
    lemma_counted(page_versions, first.rank());
    lemma_counted(page_versions, last.rank() + 1);
    let versions = versions_of(page_versions, blknum, lsn);
    let i = choose|i: int|
        0 <= i < page_versions.len() && page_versions[i] == (
            PageKey { blknum, lsn: start },
            image,
        );
    if i >= high {
        assert(page_versions[high].0.rank() <= page_versions[i].0.rank());
    }
    assert(versions[i - low] == page_versions[i]);
    lemma_counted_deltas(versions);
    let n = count_deltas(versions);
    assert(!builds_on_older(versions[i - low].1));
    let stop = versions.len() - 1 - n;
    assert(versions[stop] == page_versions[low + stop]);
    if i < low + stop {
        assert(page_versions[i].0.rank() < page_versions[low + stop].0.rank());
        assert(page_versions[low].0.rank() <= page_versions[low + stop].0.rank());
    }
}

/// Where an older version is needed, it is needed from the position of the request
/// or one before it.
pub proof fn law_older_position(
    page_versions: Seq<(PageKey, PageVersionView)>,
    blknum: u32,
    lsn: Lsn,
)
    ensures
        lookup_answer(lookup(versions_of(page_versions, blknum, lsn), lsn)) matches Ok(Some(older))
            ==> older.0 <= lsn.0,
{
    let pred = |entry: (PageKey, PageVersionView)|
        entry.0.blknum == blknum && entry.0.lsn.0 <= lsn.0;
    let versions = versions_of(page_versions, blknum, lsn);
    if versions.len() > 0 {
        page_versions.lemma_filter_pred(pred, 0);
    }
}

/// A size is known at a position if and only if there is an entry for the position
/// or one before it.
pub proof fn law_size_known(relsizes: Seq<(Lsn, u32)>, lsn: Lsn)
    ensures
        size_at(relsizes, lsn) is Some <==> exists|i: int|
            0 <= i < relsizes.len() && (#[trigger] relsizes[i]).0.0 <= lsn.0,
    decreases relsizes.len(),
{
    if relsizes.len() > 0 {
        let before = relsizes.drop_last();
        law_size_known(before, lsn);
        if relsizes.last().0.0 <= lsn.0 {
            assert(relsizes[relsizes.len() - 1].0.0 <= lsn.0);
        } else if exists|i: int|
            0 <= i < relsizes.len() && (#[trigger] relsizes[i]).0.0 <= lsn.0 {
            let i = choose|i: int| 0 <= i < relsizes.len() && (#[trigger] relsizes[i]).0.0 <= lsn.0;
            assert(before[i] == relsizes[i]);
        } else {
            assert forall|i: int| 0 <= i < before.len() implies (#[trigger] before[i]).0.0
                > lsn.0 by {
                assert(before[i] == relsizes[i]);
            }
        }
    }
}

/// The size that was last recorded at a position or before it is the size there.
pub proof fn law_recorded_size_is_read(relsizes: Seq<(Lsn, u32)>, at: Lsn, size: u32, lsn: Lsn)
    requires
        ordered(relsizes),
        at.0 <= lsn.0,
        forall|i: int|
            0 <= i < relsizes.len() && (#[trigger] relsizes[i]).0.0 <= lsn.0 ==> relsizes[i].0.0
                <= at.0,
    ensures
        size_at(inserted(relsizes, at, size), lsn) == Some(size),
{
    let after = inserted(relsizes, at, size);
    lemma_inserted_ordered(relsizes, at, size);
    lemma_counted(relsizes, at.rank());
    let n = count_below(relsizes, at.rank()) as int;
    assert(after[n] == (at, size));
    assert forall|i: int| 0 <= i < n + 1 implies (#[trigger] after[i]).0.rank() < lsn.rank()
        + 1 by {
        if i < n {
            assert(after[i].0.rank() < after[n].0.rank());
        }
    }
    if n + 1 < after.len() {
        let k = if relsizes[n].0 == at { n + 1 } else { n };
        assert(after[n + 1] == relsizes[k]);
        assert(after[n].0.rank() < after[n + 1].0.rank());
    }
    lemma_count_below(after, lsn.rank() + 1, n + 1);
    lemma_size_found(after, lsn, n + 1);
}

/// A size that is recorded at a later position changes nothing at this one.
pub proof fn law_later_sizes_do_not_matter(relsizes: Seq<(Lsn, u32)>, at: Lsn, size: u32, lsn: Lsn)
    requires
        ordered(relsizes),
        lsn.0 < at.0,
    ensures
        size_at(inserted(relsizes, at, size), lsn) == size_at(relsizes, lsn),
{
    let after = inserted(relsizes, at, size);
    lemma_inserted_ordered(relsizes, at, size);
    lemma_counted(relsizes, at.rank());
    lemma_counted(relsizes, lsn.rank() + 1);
    let at_index = count_below(relsizes, at.rank()) as int;
    let n = count_below(relsizes, lsn.rank() + 1) as int;
    if at_index < n {
        assert(relsizes[at_index].0.rank() < lsn.rank() + 1);
    }
    assert forall|i: int| 0 <= i < n implies (#[trigger] after[i]).0.rank() < lsn.rank() + 1 by {
        assert(after[i] == relsizes[i]);
    }
    assert(after[at_index] == (at, size));
    if n < at_index {
        assert(after[n] == relsizes[n]);
    }
    lemma_count_below(after, lsn.rank() + 1, n);
    lemma_size_found(after, lsn, n);
    lemma_size_found(relsizes, lsn, n);
    if n > 0 {
        assert(after[n - 1] == relsizes[n - 1]);
    }
}

/// A page without a version at the position of a request or before it is needed from an
/// older file, as of exactly that position: nothing is found of it.
pub proof fn law_page_without_versions(
    page_versions: Seq<(PageKey, PageVersionView)>,
    blknum: u32,
    lsn: Lsn,
    image_before: Option<Seq<u8>>,
)
    requires
        forall|i: int|
            0 <= i < page_versions.len() && (#[trigger] page_versions[i]).0.blknum == blknum
                ==> page_versions[i].0.lsn.0 > lsn.0,
    ensures
        ({
            let found = lookup(versions_of(page_versions, blknum, lsn), lsn);
            &&& lookup_answer(found) == Ok::<Option<Lsn>, LayerError>(Some(lsn))
            &&& lookup_records(found) == Seq::<WALRecordView>::empty()
            &&& lookup_image(found, image_before) == image_before
        }),
{
    let pred = |entry: (PageKey, PageVersionView)|
        entry.0.blknum == blknum && entry.0.lsn.0 <= lsn.0;
    lemma_filter_window(page_versions, pred, 0, 0);
    let versions = versions_of(page_versions, blknum, lsn);
    assert(versions =~= Seq::empty());
    assert(newest_records(versions, 0) =~= Seq::empty());
}

/// What a newest version adds to what is found without it.
proof fn lemma_lookup_pushed(
    before: Seq<(PageKey, PageVersionView)>,
    key: PageKey,
    version: PageVersionView,
    lsn: Lsn,
    older_lsn: Lsn,
)
    requires
        version.page_image is None,
        version.record is Some,
        !version.record->0.will_init,
    ensures
        ({
            let found = lookup(before.push((key, version)), lsn);
            let older = lookup(before, older_lsn);
            &&& lookup_records(found) == seq![version.record->0] + lookup_records(older)
            &&& forall|image: Option<Seq<u8>>| #[trigger]
                lookup_image(found, image) == lookup_image(older, image)
            &&& lookup_answer(found) == if before.len() == 0 {
                Ok::<Option<Lsn>, LayerError>(Some(key.lsn))
            } else {
                lookup_answer(older)
            }
        }),
{
    let after = before.push((key, version));
    let record = version.record->0;
    assert(after.drop_last() =~= before);
    lemma_counted_deltas(before);
    let n = count_deltas(before);
    assert(count_deltas(after) == n + 1);
    assert(newest_records(after, n + 1) =~= seq![record] + newest_records(before, n));
    if n < before.len() {
        assert(newest_records(after, n + 2) =~= seq![record] + newest_records(before, n + 1));
        assert(after[after.len() - 1 - (n + 1)] == before[before.len() - 1 - n]);
    }
}

/// A request is answered by the newest version at its position or before it. An image
/// is all that is found. A record that sets the page up anew is all that is found. Of a
/// version that holds nothing, nothing can be made. Any other record comes in front of
/// what the request for the position just before the version finds; where there is no
/// older version, the page is needed from an older file, as of the version.
pub proof fn law_newest_version_decides(
    page_versions: Seq<(PageKey, PageVersionView)>,
    blknum: u32,
    lsn: Lsn,
    at: int,
    image_before: Option<Seq<u8>>,
)
    requires
        ordered(page_versions),
        0 <= at < page_versions.len(),
        page_versions[at].0.blknum == blknum,
        page_versions[at].0.lsn.0 <= lsn.0,
        forall|i: int|
            0 <= i < page_versions.len() && (#[trigger] page_versions[i]).0.blknum == blknum
                && page_versions[i].0.lsn.0 <= lsn.0 ==> page_versions[i].0.lsn.0
                <= page_versions[at].0.lsn.0,
    ensures
        ({
            let version = page_versions[at].1;
            let position = page_versions[at].0.lsn;
            let found = lookup(versions_of(page_versions, blknum, lsn), lsn);
            let just_before = Lsn((position.0 - 1) as u64);
            let older = lookup(versions_of(page_versions, blknum, just_before), just_before);
            match version.page_image {
                Some(image) => {
                    &&& lookup_answer(found) == Ok::<Option<Lsn>, LayerError>(None)
                    &&& lookup_records(found) == Seq::<WALRecordView>::empty()
                    &&& lookup_image(found, image_before) == Some(image)
                },
                None => match version.record {
                    None => {
                        &&& lookup_answer(found) == Err::<Option<Lsn>, LayerError>(
                            LayerError::NoImageOrRecord,
                        )
                        &&& lookup_records(found) == Seq::<WALRecordView>::empty()
                        &&& lookup_image(found, image_before) == image_before
                    },
                    Some(record) => if record.will_init {
                        &&& lookup_answer(found) == Ok::<Option<Lsn>, LayerError>(None)
                        &&& lookup_records(found) == seq![record]
                        &&& lookup_image(found, image_before) == image_before
                    } else if exists|i: int|
                        0 <= i < page_versions.len() && (#[trigger] page_versions[i]).0.blknum
                            == blknum && page_versions[i].0.lsn.0 < position.0 {
                        &&& lookup_answer(found) == lookup_answer(older)
                        &&& lookup_records(found) == seq![record] + lookup_records(older)
                        &&& lookup_image(found, image_before) == lookup_image(older, image_before)
                    } else {
                        &&& lookup_answer(found) == Ok::<Option<Lsn>, LayerError>(Some(position))
                        &&& lookup_records(found) == seq![record]
                        &&& lookup_image(found, image_before) == image_before
                    },
                },
            }
        }),
{
    let (key, version) = page_versions[at];
    let first = PageKey { blknum, lsn: Lsn(0) };
    let last = PageKey { blknum, lsn };
    let low = count_below(page_versions, first.rank()) as int;
    lemma_counted(page_versions, first.rank());
    if low > at {
        assert(page_versions[at].0.rank() < first.rank());
    }
    assert forall|i: int| 0 <= i < at + 1 implies (#[trigger] page_versions[i]).0.rank()
        < last.rank() + 1 by {
        if i < at {
            assert(page_versions[i].0.rank() < page_versions[at].0.rank());
        }
    }
    if at + 1 < page_versions.len() {
        assert(page_versions[at].0.rank() < page_versions[at + 1].0.rank());
        assert(page_versions[at + 1].0.rank() >= last.rank() + 1);
    }
    lemma_count_below(page_versions, last.rank() + 1, at + 1);
    lemma_versions_window(page_versions, blknum, lsn, low, at + 1);
    let versions = versions_of(page_versions, blknum, lsn);
    let before = page_versions.subrange(low, at);
    assert(versions =~= before.push((key, version)));
    assert(versions.drop_last() =~= before);
    if version.page_image is None && version.record is Some && !version.record->0.will_init {
        let record = version.record->0;
        if key.lsn.0 > 0 {
            let just_before = Lsn((key.lsn.0 - 1) as u64);
            let limit = PageKey { blknum, lsn: just_before };
            assert(limit.rank() + 1 == key.rank());
            assert forall|i: int| 0 <= i < at implies (#[trigger] page_versions[i]).0.rank()
                < limit.rank() + 1 by {
                assert(page_versions[i].0.rank() < page_versions[at].0.rank());
            }
            lemma_count_below(page_versions, limit.rank() + 1, at);
            lemma_versions_window(page_versions, blknum, just_before, low, at);
            lemma_lookup_pushed(before, key, version, lsn, just_before);
        } else {
            if low < at {
                assert(page_versions[low].0.rank() < page_versions[at].0.rank());
            }
            lemma_lookup_pushed(before, key, version, lsn, lsn);
        }
        if low < at {
            assert(page_versions[low].0.rank() < page_versions[at].0.rank());
            assert(page_versions[low].0.rank() >= first.rank());
            assert(page_versions[low].0.blknum == blknum);
        } else {
            assert forall|i: int|
                0 <= i < page_versions.len() && (#[trigger] page_versions[i]).0.blknum
                    == blknum implies page_versions[i].0.lsn.0 >= key.lsn.0 by {
                if i < at {
                    assert(page_versions[i].0.rank() < first.rank());
                } else if i > at {
                    assert(page_versions[at].0.rank() < page_versions[i].0.rank());
                }
            }
            assert(before =~= Seq::empty());
            assert(newest_records(before, 0) =~= Seq::empty());
            assert(lookup_records(lookup(before, lsn)) =~= Seq::empty());
            lemma_lookup_pushed(before, key, version, lsn, lsn);
            assert(seq![record] + Seq::<WALRecordView>::empty() =~= seq![record]);
        }
    } else {
        assert(count_deltas(versions) == 0);
        assert(newest_records(versions, 0) =~= Seq::empty());
        if version.record is Some {
            assert(newest_records(versions, 1) =~= seq![version.record->0]);
        }
    }
}

/// The size at a position is that of the last entry there or before it.
pub proof fn law_last_size_counts(relsizes: Seq<(Lsn, u32)>, lsn: Lsn, at: int)
    requires
        ordered(relsizes),
        0 <= at < relsizes.len(),
        relsizes[at].0.0 <= lsn.0,
        forall|i: int|
            0 <= i < relsizes.len() && (#[trigger] relsizes[i]).0.0 <= lsn.0 ==> relsizes[i].0.0
                <= relsizes[at].0.0,
    ensures
        size_at(relsizes, lsn) == Some(relsizes[at].1),
{
    assert forall|i: int| 0 <= i < at + 1 implies (#[trigger] relsizes[i]).0.rank() < lsn.rank()
        + 1 by {
        if i < at {
            assert(relsizes[i].0.rank() < relsizes[at].0.rank());
        }
    }
    if at + 1 < relsizes.len() {
        assert(relsizes[at].0.rank() < relsizes[at + 1].0.rank());
    }
    lemma_count_below(relsizes, lsn.rank() + 1, at + 1);
    lemma_size_found(relsizes, lsn, at + 1);
}

} // verus!
