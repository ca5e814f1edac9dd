//! The contents of a snapshot file as text.
use crate::lsn::Lsn;
use crate::page::{PageKey, PageVersionView, WALRecord, WALRecordView};
use crate::text::{decimal, push_decimal};
use vstd::prelude::*;

verus! {

/// One line for a segment size.
pub open spec fn size_line(entry: (Lsn, u32)) -> Seq<char> {
    "  "@ + entry.0.text() + ": "@ + decimal(entry.1 as nat) + " blocks\n"@
}

/// The lines for segment sizes.
pub open spec fn size_lines(relsizes: Seq<(Lsn, u32)>) -> Seq<char>
    decreases relsizes.len(),
{
    if relsizes.len() == 0 {
        Seq::empty()
    } else {
        size_lines(relsizes.drop_last()) + size_line(relsizes.last())
    }
}

/// What a dump says of the image of a page version.
pub open spec fn image_note(image: Option<Seq<u8>>) -> Seq<char> {
    match image {
        Some(image) => "  img "@ + decimal(image.len()) + " bytes"@,
        None => Seq::empty(),
    }
}

/// The text of a truth value.
pub open spec fn bool_text(b: bool) -> Seq<char> {
    if b {
        "true"@
    } else {
        "false"@
    }
}

/// What a dump says of the log record of a page version.
pub open spec fn record_note(record: Option<WALRecordView>) -> Seq<char> {
    match record {
        Some(record) => "  rec "@ + decimal(record.rec.len()) + " bytes, will_init "@ + bool_text(
            record.will_init,
        ),
        None => Seq::empty(),
    }
}

/// One line for a page version.
pub open spec fn page_line(entry: (PageKey, PageVersionView)) -> Seq<char> {
    "  blk "@ + decimal(entry.0.blknum as nat) + " at "@ + entry.0.lsn.text() + ":"@ + image_note(
        entry.1.page_image,
    ) + record_note(entry.1.record) + "\n"@
}

/// The lines for page versions.
pub open spec fn page_lines(page_versions: Seq<(PageKey, PageVersionView)>) -> Seq<char>
    decreases page_versions.len(),
{
    if page_versions.len() == 0 {
        Seq::empty()
    } else {
        page_lines(page_versions.drop_last()) + page_line(page_versions.last())
    }
}

/// Appends what a dump says of the image of a page version.
pub(crate) fn push_image_note(out: &mut String, image: &Option<Vec<u8>>)
    ensures
        final(out)@ == old(out)@ + image_note(
            match *image {
                Some(image) => Some(image@),
                None => None,
            },
        ),
{
    if let Some(image) = image {
        out.append("  img ");
        push_decimal(out, image.len() as u64);
        out.append(" bytes");
        assert(out@ =~= old(out)@ + image_note(Some(image@)));
    } else {
        assert(out@ =~= old(out)@ + image_note(None));
    }
}

/// Appends what a dump says of the log record of a page version.
pub(crate) fn push_record_note(out: &mut String, record: &Option<WALRecord>)
    ensures
        final(out)@ == old(out)@ + record_note(
            match *record {
                Some(record) => Some(record@),
                None => None,
            },
        ),
{
    if let Some(record) = record {
        out.append("  rec ");
        push_decimal(out, record.rec.len() as u64);
        out.append(" bytes, will_init ");
        if record.will_init {
            out.append("true");
        } else {
            out.append("false");
        }
        assert(out@ =~= old(out)@ + record_note(Some(record@)));
    } else {
        assert(out@ =~= old(out)@ + record_note(None));
    }
}

/// A dump has one line for each size, in order: position and number of blocks.
pub proof fn law_lines_for_sizes(relsizes: Seq<(Lsn, u32)>, lsn: Lsn, size: u32)
    ensures
        size_lines(Seq::empty()) == Seq::<char>::empty(),
        size_lines(relsizes.push((lsn, size))) == size_lines(relsizes) + ("  "@ + lsn.text() + ": "@
            + decimal(size as nat) + " blocks\n"@),
{
    assert(relsizes.push((lsn, size)).drop_last() =~= relsizes);
}

/// A dump has one line for each page version, in order: block and position, the length
/// of the image where there is one, and the length and the mark of the record where
/// there is one.
pub proof fn law_lines_for_pages(
    page_versions: Seq<(PageKey, PageVersionView)>,
    key: PageKey,
    version: PageVersionView,
)
    ensures
        page_lines(Seq::empty()) == Seq::<char>::empty(),
        page_lines(page_versions.push((key, version))) == page_lines(page_versions) + ("  blk "@
            + decimal(key.blknum as nat) + " at "@ + key.lsn.text() + ":"@
            + match version.page_image {
            Some(image) => "  img "@ + decimal(image.len()) + " bytes"@,
            None => Seq::empty(),
        } + match version.record {
            Some(record) => "  rec "@ + decimal(record.rec.len()) + " bytes, will_init "@
                + if record.will_init {
                "true"@
            } else {
                "false"@
            },
            None => Seq::empty(),
        } + "\n"@),
{
    assert(page_versions.push((key, version)).drop_last() =~= page_versions);
}

} // verus!
