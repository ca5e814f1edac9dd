//! Names of snapshot files.
//!
//! A name says which segment of which relish the file holds, and for which range
//! of log positions:
//!
//! ```text
//! rel_<spcnode>_<dbnode>_<relnode>_<forknum>_<segno>_<start LSN>_<end LSN>
//! ```
//!
//! Other relishes have another beginning. A name that ends in `_DROPPED` belongs
//! to the last file of a relish that was dropped at the end position.
use crate::lsn::{parsed_lsn, Lsn};
use crate::relish::{RelTag, RelishTag, SegmentTag, SlruKind};
use crate::text::{
    chars_of, decimal, field_views, has_prefix, join_fields, lemma_before_other_front,
    lemma_before_same_front, lemma_join_pushed, lemma_number_len, lemma_number_order,
    lemma_number_read_back, lemma_split_joined, number_text, parse_number, parsed_number,
    push_number, split_fields, split_from, text_before, upper_hex, SEPARATOR,
};
use vstd::arithmetic::power::pow;
use vstd::prelude::*;

verus! {

/// What the name of a snapshot file says.
#[derive(Debug, Clone, Copy, PartialEq, Eq, PartialOrd, Ord, Structural)]
pub struct SnapshotFileName {
    pub seg: SegmentTag,
    pub start_lsn: Lsn,
    pub end_lsn: Lsn,
    pub dropped: bool,
}

/// How the names of a kind of relish begin.
pub open spec fn relish_prefix(rel: RelishTag) -> Seq<char> {
    match rel {
        RelishTag::Relation(_) => "rel_"@,
        RelishTag::Slru { slru: SlruKind::Clog, .. } => "pg_xact_"@,
        RelishTag::Slru { slru: SlruKind::MultiXactMembers, .. } => "pg_multixact_members_"@,
        RelishTag::Slru { slru: SlruKind::MultiXactOffsets, .. } => "pg_multixact_offsets_"@,
        RelishTag::FileNodeMap { .. } => "pg_filenodemap_"@,
        RelishTag::TwoPhase { .. } => "pg_twophase_"@,
        RelishTag::Checkpoint => "pg_control_checkpoint_"@,
        RelishTag::ControlFile => "pg_control_"@,
    }
}

/// The fields that tell a relish from others of its kind.
pub open spec fn relish_fields(rel: RelishTag) -> Seq<Seq<char>> {
    match rel {
        RelishTag::Relation(tag) => seq![
            decimal(tag.spcnode as nat),
            decimal(tag.dbnode as nat),
            decimal(tag.relnode as nat),
            decimal(tag.forknum as nat),
        ],
        RelishTag::Slru { segno, .. } => seq![upper_hex(segno as nat, 4)],
        RelishTag::FileNodeMap { spcnode, dbnode } => seq![
            decimal(spcnode as nat),
            decimal(dbnode as nat),
        ],
        RelishTag::TwoPhase { xid } => seq![decimal(xid as nat)],
        RelishTag::Checkpoint => Seq::empty(),
        RelishTag::ControlFile => Seq::empty(),
    }
}

/// The fields after those of the relish: segment number, first position, end
/// position, and the mark of a dropped relish.
pub open spec fn range_fields(name: SnapshotFileName) -> Seq<Seq<char>> {
    let fields = seq![
        decimal(name.seg.segno as nat),
        upper_hex(name.start_lsn.0 as nat, 16),
        upper_hex(name.end_lsn.0 as nat, 16),
    ];
    if name.dropped {
        fields.push("DROPPED"@)
    } else {
        fields
    }
}

/// The field at `i` as a number.
pub open spec fn number_field(
    fields: Seq<Seq<char>>,
    i: int,
    radix: nat,
    max: nat,
) -> Option<nat> {
    if 0 <= i < fields.len() {
        parsed_number(fields[i], radix, max)
    } else {
        None
    }
}

/// The relation that the first four fields name.
pub open spec fn relation_of(fields: Seq<Seq<char>>) -> Option<RelishTag> {
    match (
        number_field(fields, 0, 10, u32::MAX as nat),
        number_field(fields, 1, 10, u32::MAX as nat),
        number_field(fields, 2, 10, u32::MAX as nat),
        number_field(fields, 3, 10, u8::MAX as nat),
    ) {
        (Some(spcnode), Some(dbnode), Some(relnode), Some(forknum)) => Some(
            RelishTag::Relation(
                RelTag {
                    spcnode: spcnode as u32,
                    dbnode: dbnode as u32,
                    relnode: relnode as u32,
                    forknum: forknum as u8,
                },
            ),
        ),
        _ => None,
    }
}

/// The SLRU segment that the first field names.
pub open spec fn slru_of(fields: Seq<Seq<char>>, slru: SlruKind) -> Option<RelishTag> {
    match number_field(fields, 0, 16, u32::MAX as nat) {
        Some(segno) => Some(RelishTag::Slru { slru, segno: segno as u32 }),
        None => None,
    }
}

/// The file node map that the first two fields name.
pub open spec fn filenodemap_of(fields: Seq<Seq<char>>) -> Option<RelishTag> {
    match (
        number_field(fields, 0, 10, u32::MAX as nat),
        number_field(fields, 1, 10, u32::MAX as nat),
    ) {
        (Some(spcnode), Some(dbnode)) => Some(
            RelishTag::FileNodeMap { spcnode: spcnode as u32, dbnode: dbnode as u32 },
        ),
        _ => None,
    }
}

/// The two-phase state file that the first field names.
pub open spec fn twophase_of(fields: Seq<Seq<char>>) -> Option<RelishTag> {
    match number_field(fields, 0, 10, u32::MAX as nat) {
        Some(xid) => Some(RelishTag::TwoPhase { xid: xid as u32 }),
        None => None,
    }
}

/// What the fields from `at` on say of a relish: exactly a segment number and two
/// positions, or these and the mark of a dropped relish.
pub open spec fn ranged(
    rel: Option<RelishTag>,
    fields: Seq<Seq<char>>,
    at: int,
) -> Option<SnapshotFileName> {
    let dropped = fields.len() == at + 4;
    if fields.len() != at + 3 && !(dropped && fields[at + 3] == "DROPPED"@) {
        None
    } else {
        match (
            rel,
            number_field(fields, at, 10, u32::MAX as nat),
            parsed_lsn(fields[at + 1]),
            parsed_lsn(fields[at + 2]),
        ) {
            (Some(rel), Some(segno), Some(start_lsn), Some(end_lsn)) => Some(
                SnapshotFileName {
                    seg: SegmentTag { rel, segno: segno as u32 },
                    start_lsn,
                    end_lsn,
                    dropped,
                },
            ),
            _ => None,
        }
    }
}

/// The fields of a name after a beginning.
pub open spec fn fields_after(prefix: Seq<char>, fname: Seq<char>) -> Seq<Seq<char>> {
    split_fields(fname.skip(prefix.len() as int))
}

/// What a file name says; `None` where it is not the name of a snapshot file.
pub open spec fn parsed_file_name(fname: Seq<char>) -> Option<SnapshotFileName> {
    if "rel_"@.is_prefix_of(fname) {
        let fields = fields_after("rel_"@, fname);
        ranged(relation_of(fields), fields, 4)
    } else if "pg_xact_"@.is_prefix_of(fname) {
        let fields = fields_after("pg_xact_"@, fname);
        ranged(slru_of(fields, SlruKind::Clog), fields, 1)
    } else if "pg_multixact_members_"@.is_prefix_of(fname) {
        let fields = fields_after("pg_multixact_members_"@, fname);
        ranged(slru_of(fields, SlruKind::MultiXactMembers), fields, 1)
    } else if "pg_multixact_offsets_"@.is_prefix_of(fname) {
        let fields = fields_after("pg_multixact_offsets_"@, fname);
        ranged(slru_of(fields, SlruKind::MultiXactOffsets), fields, 1)
    } else if "pg_filenodemap_"@.is_prefix_of(fname) {
        let fields = fields_after("pg_filenodemap_"@, fname);
        ranged(filenodemap_of(fields), fields, 2)
    } else if "pg_twophase_"@.is_prefix_of(fname) {
        let fields = fields_after("pg_twophase_"@, fname);
        ranged(twophase_of(fields), fields, 1)
    } else if "pg_control_checkpoint_"@.is_prefix_of(fname) {
        ranged(Some(RelishTag::Checkpoint), fields_after("pg_control_checkpoint_"@, fname), 0)
    } else if "pg_control_"@.is_prefix_of(fname) {
        ranged(Some(RelishTag::ControlFile), fields_after("pg_control_"@, fname), 0)
    } else {
        None
    }
}

impl SnapshotFileName {
    /// The file name.
    pub open spec fn text(self) -> Seq<char> {
        relish_prefix(self.seg.rel) + join_fields(
            relish_fields(self.seg.rel) + range_fields(self),
        )
    }
}

/// Reads the field at `i` as a number.
fn number_at(fields: &Vec<Vec<char>>, i: usize, radix: u64, max: u64) -> (number: Option<u64>)
    requires
        2 <= radix <= 16,
    ensures
        match number {
            Some(v) => number_field(field_views(fields@), i as int, radix as nat, max as nat)
                == Some(v as nat) && v <= max,
            None => number_field(field_views(fields@), i as int, radix as nat, max as nat) is None,
        },
{
    if i < fields.len() {
        parse_number(&fields[i], radix, max)
    } else {
        None
    }
}

fn relation_at(fields: &Vec<Vec<char>>) -> (rel: Option<RelishTag>)
    ensures
        rel == relation_of(field_views(fields@)),
{
    let spcnode: u64 = number_at(fields, 0, 10, u32::MAX as u64)?;
    let dbnode: u64 = number_at(fields, 1, 10, u32::MAX as u64)?;
    let relnode: u64 = number_at(fields, 2, 10, u32::MAX as u64)?;
    let forknum: u64 = number_at(fields, 3, 10, u8::MAX as u64)?;
    Some(
        RelishTag::Relation(
            RelTag {
                spcnode: spcnode as u32,
                dbnode: dbnode as u32,
                relnode: relnode as u32,
                forknum: forknum as u8,
            },
        ),
    )
}

fn slru_at(fields: &Vec<Vec<char>>, slru: SlruKind) -> (rel: Option<RelishTag>)
    ensures
        rel == slru_of(field_views(fields@), slru),
{
    let segno: u64 = number_at(fields, 0, 16, u32::MAX as u64)?;
    Some(RelishTag::Slru { slru, segno: segno as u32 })
}

fn filenodemap_at(fields: &Vec<Vec<char>>) -> (rel: Option<RelishTag>)
    ensures
        rel == filenodemap_of(field_views(fields@)),
{
    let spcnode: u64 = number_at(fields, 0, 10, u32::MAX as u64)?;
    let dbnode: u64 = number_at(fields, 1, 10, u32::MAX as u64)?;
    Some(RelishTag::FileNodeMap { spcnode: spcnode as u32, dbnode: dbnode as u32 })
}

fn twophase_at(fields: &Vec<Vec<char>>) -> (rel: Option<RelishTag>)
    ensures
        rel == twophase_of(field_views(fields@)),
{
    let xid: u64 = number_at(fields, 0, 10, u32::MAX as u64)?;
    Some(RelishTag::TwoPhase { xid: xid as u32 })
}

/// Whether a field is the mark of a dropped relish.
fn is_dropped_mark(field: &Vec<char>) -> (found: bool)
    ensures
        found == (field@ == "DROPPED"@),
{
    proof {
        reveal_strlit("DROPPED");
    }
    let found: bool = field.len() == 7 && has_prefix(field, "DROPPED");
    proof {
        assert(field@.take(field@.len() as int) =~= field@);
    }
    found
}

fn ranged_at(rel: Option<RelishTag>, fields: &Vec<Vec<char>>, at: usize) -> (name: Option<
    SnapshotFileName,
>)
    requires
        at <= 4,
    ensures
        name == ranged(rel, field_views(fields@), at as int),
{
    let dropped: bool = fields.len() == at + 4;
    if fields.len() != at + 3 && !(dropped && is_dropped_mark(&fields[at + 3])) {
        return None;
    }
    let rel: RelishTag = rel?;
    let segno: u64 = number_at(fields, at, 10, u32::MAX as u64)?;
    let start_lsn: Lsn = Lsn::from_hex(&fields[at + 1])?;
    let end_lsn: Lsn = Lsn::from_hex(&fields[at + 2])?;
    Some(
        SnapshotFileName {
            seg: SegmentTag { rel, segno: segno as u32 },
            start_lsn,
            end_lsn,
            dropped,
        },
    )
}

/// Appends one more field to a name of which `done` are the fields so far.
fn push_field(
    out: &mut String,
    started: bool,
    n: u64,
    radix: u128,
    width: u32,
    Ghost(prefix): Ghost<Seq<char>>,
    Ghost(done): Ghost<Seq<Seq<char>>>,
)
    requires
        2 <= radix <= 16,
        started == (done.len() > 0),
        old(out)@ == prefix + join_fields(done),
    ensures
        final(out)@ == prefix + join_fields(
            done.push(number_text(n as nat, radix as nat, true, width as nat)),
        ),
{
    let ghost field = number_text(n as nat, radix as nat, true, width as nat);
    proof {
        reveal_strlit("_");
        lemma_join_pushed(done, field);
    }
    if started {
        out.append("_");
    }
    push_number(out, n as u128, radix, true, width);
    assert(out@ =~= prefix + join_fields(done.push(field)));
}

impl SnapshotFileName {
    /// Reads a file name; `None` where it is not the name of a snapshot file.
    pub fn from_str(fname: &str) -> (name: Option<Self>)
        ensures
            name == parsed_file_name(fname@),
    {
        proof {
            reveal_strlit("rel_");
            reveal_strlit("pg_xact_");
            reveal_strlit("pg_multixact_members_");
            reveal_strlit("pg_multixact_offsets_");
            reveal_strlit("pg_filenodemap_");
            reveal_strlit("pg_twophase_");
            reveal_strlit("pg_control_checkpoint_");
            reveal_strlit("pg_control_");
        }
        let chars: Vec<char> = chars_of(fname);
        if has_prefix(&chars, "rel_") {
            let fields: Vec<Vec<char>> = split_from(&chars, 4);
            ranged_at(relation_at(&fields), &fields, 4)
        } else if has_prefix(&chars, "pg_xact_") {
            let fields: Vec<Vec<char>> = split_from(&chars, 8);
            ranged_at(slru_at(&fields, SlruKind::Clog), &fields, 1)
        } else if has_prefix(&chars, "pg_multixact_members_") {
            let fields: Vec<Vec<char>> = split_from(&chars, 21);
            ranged_at(slru_at(&fields, SlruKind::MultiXactMembers), &fields, 1)
        } else if has_prefix(&chars, "pg_multixact_offsets_") {
            let fields: Vec<Vec<char>> = split_from(&chars, 21);
            ranged_at(slru_at(&fields, SlruKind::MultiXactOffsets), &fields, 1)
        } else if has_prefix(&chars, "pg_filenodemap_") {
            let fields: Vec<Vec<char>> = split_from(&chars, 15);
            ranged_at(filenodemap_at(&fields), &fields, 2)
        } else if has_prefix(&chars, "pg_twophase_") {
            let fields: Vec<Vec<char>> = split_from(&chars, 12);
            ranged_at(twophase_at(&fields), &fields, 1)
        } else if has_prefix(&chars, "pg_control_checkpoint_") {
            let fields: Vec<Vec<char>> = split_from(&chars, 22);
            ranged_at(Some(RelishTag::Checkpoint), &fields, 0)
        } else if has_prefix(&chars, "pg_control_") {
            let fields: Vec<Vec<char>> = split_from(&chars, 11);
            ranged_at(Some(RelishTag::ControlFile), &fields, 0)
        } else {
            None
        }
    }

    /// The file name.
    pub fn to_string(&self) -> (fname: String)
        ensures
            fname@ == self.text(),
    {
        let mut out: String = String::new();
        let ghost prefix = relish_prefix(self.seg.rel);
        let ghost none = Seq::<Seq<char>>::empty();
        let started: bool = match self.seg.rel {
            RelishTag::Relation(tag) => {
                out.append("rel_");
                push_field(&mut out, false, tag.spcnode as u64, 10, 1, Ghost(prefix), Ghost(none));
                let ghost done = none.push(decimal(tag.spcnode as nat));
                push_field(&mut out, true, tag.dbnode as u64, 10, 1, Ghost(prefix), Ghost(done));
                let ghost done = done.push(decimal(tag.dbnode as nat));
                push_field(&mut out, true, tag.relnode as u64, 10, 1, Ghost(prefix), Ghost(done));
                let ghost done = done.push(decimal(tag.relnode as nat));
                push_field(&mut out, true, tag.forknum as u64, 10, 1, Ghost(prefix), Ghost(done));
                assert(done.push(decimal(tag.forknum as nat)) =~= relish_fields(self.seg.rel));
                true
            },
            RelishTag::Slru { slru, segno } => {
                match slru {
                    SlruKind::Clog => out.append("pg_xact_"),
                    SlruKind::MultiXactMembers => out.append("pg_multixact_members_"),
                    SlruKind::MultiXactOffsets => out.append("pg_multixact_offsets_"),
                }
                push_field(&mut out, false, segno as u64, 16, 4, Ghost(prefix), Ghost(none));
                assert(none.push(upper_hex(segno as nat, 4)) =~= relish_fields(self.seg.rel));
                true
            },
            RelishTag::FileNodeMap { spcnode, dbnode } => {
                out.append("pg_filenodemap_");
                push_field(&mut out, false, spcnode as u64, 10, 1, Ghost(prefix), Ghost(none));
                let ghost done = none.push(decimal(spcnode as nat));
                push_field(&mut out, true, dbnode as u64, 10, 1, Ghost(prefix), Ghost(done));
                assert(done.push(decimal(dbnode as nat)) =~= relish_fields(self.seg.rel));
                true
            },
            RelishTag::TwoPhase { xid } => {
                out.append("pg_twophase_");
                push_field(&mut out, false, xid as u64, 10, 1, Ghost(prefix), Ghost(none));
                assert(none.push(decimal(xid as nat)) =~= relish_fields(self.seg.rel));
                true
            },
            RelishTag::Checkpoint => {
                out.append("pg_control_checkpoint_");
                assert(out@ =~= prefix + join_fields(none));
                false
            },
            RelishTag::ControlFile => {
                out.append("pg_control_");
                assert(out@ =~= prefix + join_fields(none));
                false
            },
        };
        let ghost done = relish_fields(self.seg.rel);
        push_field(&mut out, started, self.seg.segno as u64, 10, 1, Ghost(prefix), Ghost(done));
        let ghost done = done.push(decimal(self.seg.segno as nat));
        push_field(&mut out, true, self.start_lsn.0, 16, 16, Ghost(prefix), Ghost(done));
        let ghost done = done.push(upper_hex(self.start_lsn.0 as nat, 16));
        push_field(&mut out, true, self.end_lsn.0, 16, 16, Ghost(prefix), Ghost(done));
        let ghost done = done.push(upper_hex(self.end_lsn.0 as nat, 16));
        if self.dropped {
            proof {
                reveal_strlit("_");
                lemma_join_pushed(done, "DROPPED"@);
            }
            out.append("_");
            out.append("DROPPED");
            assert(done.push("DROPPED"@) =~= relish_fields(self.seg.rel) + range_fields(*self));
            assert(out@ =~= self.text());
        } else {
            assert(done =~= relish_fields(self.seg.rel) + range_fields(*self));
        }
        out
    }
}

/// No field of a name holds a separator, and each is read back as the number it
/// was written from.
#[verifier::spinoff_prover]
#[verifier::rlimit(60)]
proof fn lemma_fields(name: SnapshotFileName)
    ensures
        ({
            let fields = relish_fields(name.seg.rel) + range_fields(name);
            let at = relish_fields(name.seg.rel).len() as int;
            &&& split_fields(join_fields(fields)) == fields
            &&& ranged(Some(name.seg.rel), fields, at) == Some(name)
            &&& match name.seg.rel {
                RelishTag::Relation(_) => at == 4 && relation_of(fields) == Some(name.seg.rel),
                RelishTag::Slru { slru, .. } => at == 1 && slru_of(fields, slru) == Some(
                    name.seg.rel,
                ),
                RelishTag::FileNodeMap { .. } => at == 2 && filenodemap_of(fields) == Some(
                    name.seg.rel,
                ),
                RelishTag::TwoPhase { .. } => at == 1 && twophase_of(fields) == Some(name.seg.rel),
                RelishTag::Checkpoint => at == 0,
                RelishTag::ControlFile => at == 0,
            }
            &&& join_fields(fields).len() > 0
            &&& at == 0 ==> join_fields(fields)[0] != 'c'
        }),
{
    let own = relish_fields(name.seg.rel);
    let range = range_fields(name);
    let fields = own + range;
    let at = own.len() as int;
    reveal_strlit("DROPPED");
    match name.seg.rel {
        RelishTag::Relation(tag) => {
            lemma_number_read_back(tag.spcnode as nat, 10, true, 1, u32::MAX as nat);
            lemma_number_read_back(tag.dbnode as nat, 10, true, 1, u32::MAX as nat);
            lemma_number_read_back(tag.relnode as nat, 10, true, 1, u32::MAX as nat);
            lemma_number_read_back(tag.forknum as nat, 10, true, 1, u8::MAX as nat);
        },
        RelishTag::Slru { segno, .. } => {
            lemma_number_read_back(segno as nat, 16, true, 4, u32::MAX as nat);
        },
        RelishTag::FileNodeMap { spcnode, dbnode } => {
            lemma_number_read_back(spcnode as nat, 10, true, 1, u32::MAX as nat);
            lemma_number_read_back(dbnode as nat, 10, true, 1, u32::MAX as nat);
        },
        RelishTag::TwoPhase { xid } => {
            lemma_number_read_back(xid as nat, 10, true, 1, u32::MAX as nat);
        },
        RelishTag::Checkpoint => {},
        RelishTag::ControlFile => {},
    }
    lemma_number_read_back(name.seg.segno as nat, 10, true, 1, u32::MAX as nat);
    lemma_number_read_back(name.start_lsn.0 as nat, 16, true, 16, u64::MAX as nat);
    lemma_number_read_back(name.end_lsn.0 as nat, 16, true, 16, u64::MAX as nat);
    assert forall|i: int| 0 <= i < fields.len() implies !(#[trigger] fields[i]).contains(
        SEPARATOR,
    ) by {
        if i >= at {
            assert(fields[i] == range[i - at]);
        }
    }
    lemma_split_joined(fields);
    assert(fields[at] == range[0]);
    assert(fields[at + 1] == range[1]);
    assert(fields[at + 2] == range[2]);
    if name.dropped {
        assert(fields[at + 3] == range[3]);
    }
    lemma_first_char(fields);
}

/// Joined fields begin as the first of them does.
proof fn lemma_first_char(fields: Seq<Seq<char>>)
    requires
        fields.len() > 0,
        fields[0].len() > 0,
    ensures
        join_fields(fields).len() > 0,
        join_fields(fields)[0] == fields[0][0],
    decreases fields.len(),
{
    if fields.len() > 1 {
        lemma_first_char(fields.drop_last());
    }
}

/// A text that differs from `prefix` at `i` does not begin with it.
proof fn lemma_no_prefix(prefix: Seq<char>, text: Seq<char>, i: int)
    requires
        0 <= i < prefix.len(),
        i < text.len() ==> prefix[i] != text[i],
    ensures
        !prefix.is_prefix_of(text),
{
    if prefix.is_prefix_of(text) {
        assert(prefix[i] == text.take(prefix.len() as int)[i]);
    }
}

/// A name begins as its kind of relish does, and as no kind that is tried before.
proof fn lemma_prefixes(rel: RelishTag, rest: Seq<char>)
    requires
        rel is ControlFile ==> !"pg_control_checkpoint_"@.is_prefix_of("pg_control_"@ + rest),
    ensures
        ({
            let text = relish_prefix(rel) + rest;
            &&& relish_prefix(rel).is_prefix_of(text)
            &&& rel !is Relation ==> !"rel_"@.is_prefix_of(text)
            &&& match rel {
                RelishTag::Relation(_) => true,
                RelishTag::Slru { slru: SlruKind::Clog, .. } => true,
                RelishTag::Slru { slru: SlruKind::MultiXactMembers, .. } => {
                    !"pg_xact_"@.is_prefix_of(text)
                },
                RelishTag::Slru { slru: SlruKind::MultiXactOffsets, .. } => {
                    &&& !"pg_xact_"@.is_prefix_of(text)
                    &&& !"pg_multixact_members_"@.is_prefix_of(text)
                },
                _ => {
                    &&& !"pg_xact_"@.is_prefix_of(text)
                    &&& !"pg_multixact_members_"@.is_prefix_of(text)
                    &&& !"pg_multixact_offsets_"@.is_prefix_of(text)
                    &&& rel !is FileNodeMap ==> !"pg_filenodemap_"@.is_prefix_of(text)
                    &&& rel is Checkpoint || rel is ControlFile ==> !"pg_twophase_"@.is_prefix_of(
                        text,
                    )
                    &&& rel is ControlFile ==> !"pg_control_checkpoint_"@.is_prefix_of(text)
                },
            }
        }),
{
    let prefix = relish_prefix(rel);
    let text = prefix + rest;
    assert(text.take(prefix.len() as int) =~= prefix);
    reveal_strlit("rel_");
    reveal_strlit("pg_xact_");
    reveal_strlit("pg_multixact_members_");
    reveal_strlit("pg_multixact_offsets_");
    reveal_strlit("pg_filenodemap_");
    reveal_strlit("pg_twophase_");
    reveal_strlit("pg_control_checkpoint_");
    reveal_strlit("pg_control_");
    assert(text[0] == prefix[0]);
    if rel !is Relation {
        lemma_no_prefix("rel_"@, text, 0);
        assert(text[3] == prefix[3]);
        if prefix[3] != 'x' {
            lemma_no_prefix("pg_xact_"@, text, 3);
        }
        if prefix[3] != 'm' {
            lemma_no_prefix("pg_multixact_members_"@, text, 3);
            lemma_no_prefix("pg_multixact_offsets_"@, text, 3);
        }
        if prefix[3] != 'f' {
            lemma_no_prefix("pg_filenodemap_"@, text, 3);
        }
        if prefix[3] != 't' {
            lemma_no_prefix("pg_twophase_"@, text, 3);
        }
        if prefix == "pg_multixact_offsets_"@ {
            assert(text[13] == prefix[13]);
            lemma_no_prefix("pg_multixact_members_"@, text, 13);
        }
    }
}

/// A written file name is read back as what it was written from.
pub proof fn law_file_name_read_back(name: SnapshotFileName)
    ensures
        parsed_file_name(name.text()) == Some(name),
{
    lemma_fields(name);
    let prefix = relish_prefix(name.seg.rel);
    let joined = join_fields(relish_fields(name.seg.rel) + range_fields(name));
    if name.seg.rel is ControlFile {
        reveal_strlit("pg_control_");
        reveal_strlit("pg_control_checkpoint_");
        assert(name.text()[11] == joined[0]);
        lemma_no_prefix("pg_control_checkpoint_"@, name.text(), 11);
    }
    lemma_prefixes(name.seg.rel, joined);
    assert(name.text().skip(prefix.len() as int) =~= joined);
}

/// Different names are written differently.
pub proof fn law_file_names_differ(a: SnapshotFileName, b: SnapshotFileName)
    requires
        a != b,
    ensures
        a.text() != b.text(),
{
    law_file_name_read_back(a);
    law_file_name_read_back(b);
}

/// Whether the range of `a` comes before that of `b`: by first position, end
/// position, and the mark of a dropped relish.
pub open spec fn range_before(a: SnapshotFileName, b: SnapshotFileName) -> bool {
    if a.start_lsn != b.start_lsn {
        a.start_lsn.0 < b.start_lsn.0
    } else if a.end_lsn != b.end_lsn {
        a.end_lsn.0 < b.end_lsn.0
    } else {
        !a.dropped && b.dropped
    }
}

/// The end of a name, with its separator.
spec fn mark_text(dropped: bool) -> Seq<char> {
    if dropped {
        seq![SEPARATOR] + "DROPPED"@
    } else {
        Seq::empty()
    }
}

/// The parts of a name: what its segment gives, the two positions, and the mark.
proof fn lemma_name_parts(name: SnapshotFileName)
    ensures
        name.text() == relish_prefix(name.seg.rel) + join_fields(
            relish_fields(name.seg.rel).push(decimal(name.seg.segno as nat)),
        ).push(SEPARATOR) + (upper_hex(name.start_lsn.0 as nat, 16) + (seq![SEPARATOR] + (upper_hex(
            name.end_lsn.0 as nat,
            16,
        ) + mark_text(name.dropped)))),
{
    let start = upper_hex(name.start_lsn.0 as nat, 16);
    let end = upper_hex(name.end_lsn.0 as nat, 16);
    let segment = relish_fields(name.seg.rel).push(decimal(name.seg.segno as nat));
    let ranged = segment.push(start).push(end);
    lemma_join_pushed(segment, start);
    lemma_join_pushed(segment.push(start), end);
    lemma_join_pushed(ranged, "DROPPED"@);
    let fields = relish_fields(name.seg.rel) + range_fields(name);
    if name.dropped {
        assert(fields =~= ranged.push("DROPPED"@));
    } else {
        assert(fields =~= ranged);
    }
    assert(name.text() =~= relish_prefix(name.seg.rel) + join_fields(segment).push(SEPARATOR) + (
    start + (seq![SEPARATOR] + (end + mark_text(name.dropped)))));
}

/// The names of one segment sort as text by first position, end position, and the
/// mark of a dropped relish.
pub proof fn law_names_sort_by_range(a: SnapshotFileName, b: SnapshotFileName)
    requires
        a.seg == b.seg,
    ensures
        text_before(a.text(), b.text()) <==> range_before(a, b),
{
    lemma_name_parts(a);
    lemma_name_parts(b);
    reveal_strlit("DROPPED");
    assert(pow(16, 16) == 0x1_0000_0000_0000_0000) by {
        reveal_with_fuel(pow, 17);
    }
    let segment = relish_prefix(a.seg.rel) + join_fields(
        relish_fields(a.seg.rel).push(decimal(a.seg.segno as nat)),
    ).push(SEPARATOR);
    let (sa, sb) = (upper_hex(a.start_lsn.0 as nat, 16), upper_hex(b.start_lsn.0 as nat, 16));
    let (ea, eb) = (upper_hex(a.end_lsn.0 as nat, 16), upper_hex(b.end_lsn.0 as nat, 16));
    let (ma, mb) = (mark_text(a.dropped), mark_text(b.dropped));
    let gap = seq![SEPARATOR];
    lemma_before_same_front(segment, sa + (gap + (ea + ma)), sb + (gap + (eb + mb)));
    lemma_number_order(a.start_lsn.0 as nat, b.start_lsn.0 as nat, 16, 16);
    lemma_number_order(a.end_lsn.0 as nat, b.end_lsn.0 as nat, 16, 16);
    lemma_number_len(a.start_lsn.0 as nat, 16, true, 16);
    lemma_number_len(b.start_lsn.0 as nat, 16, true, 16);
    lemma_number_len(a.end_lsn.0 as nat, 16, true, 16);
    lemma_number_len(b.end_lsn.0 as nat, 16, true, 16);
    if a.start_lsn != b.start_lsn {
        lemma_before_other_front(sa, gap + (ea + ma), sb, gap + (eb + mb));
    } else {
        lemma_before_same_front(sa, gap + (ea + ma), gap + (eb + mb));
        lemma_before_same_front(gap, ea + ma, eb + mb);
        if a.end_lsn != b.end_lsn {
            lemma_before_other_front(ea, ma, eb, mb);
        } else {
            lemma_before_same_front(ea, ma, mb);
            lemma_before_same_front(ma, Seq::empty(), Seq::empty());
            assert(ma + Seq::<char>::empty() =~= ma);
        }
    }
}

/// What every name ends in.
spec fn end_text(name: SnapshotFileName) -> Seq<char> {
    decimal(name.seg.segno as nat) + seq!['_'] + upper_hex(name.start_lsn.0 as nat, 16) + seq!['_']
        + upper_hex(name.end_lsn.0 as nat, 16) + if name.dropped {
        "_DROPPED"@
    } else {
        Seq::empty()
    }
}

/// A name is what tells its relish, and what every name ends in.
proof fn lemma_name_end(name: SnapshotFileName)
    ensures
        ({
            let prefix = relish_prefix(name.seg.rel);
            let own = relish_fields(name.seg.rel);
            name.text() == if own.len() > 0 {
                prefix + join_fields(own) + seq!['_'] + end_text(name)
            } else {
                prefix + end_text(name)
            }
        }),
{
    reveal_strlit("_DROPPED");
    reveal_strlit("DROPPED");
    let prefix = relish_prefix(name.seg.rel);
    let own = relish_fields(name.seg.rel);
    let segno = decimal(name.seg.segno as nat);
    let mark = if name.dropped {
        "_DROPPED"@
    } else {
        Seq::empty()
    };
    assert(mark_text(name.dropped) =~= mark);
    lemma_name_parts(name);
    lemma_join_pushed(own, segno);
    let start = upper_hex(name.start_lsn.0 as nat, 16);
    let end = upper_hex(name.end_lsn.0 as nat, 16);
    let tail = start + (seq![SEPARATOR] + (end + mark));
    assert(segno.push(SEPARATOR) + tail =~= end_text(name));
    if own.len() > 0 {
        let joined = join_fields(own);
        assert(prefix + (joined.push(SEPARATOR) + segno).push(SEPARATOR) + tail =~= prefix + joined
            + seq!['_'] + (segno.push(SEPARATOR) + tail));
    } else {
        assert(prefix + segno.push(SEPARATOR) + tail =~= prefix + (segno.push(SEPARATOR) + tail));
    }
}

proof fn lemma_four_joined(a: Seq<char>, b: Seq<char>, c: Seq<char>, d: Seq<char>)
    ensures
        join_fields(seq![a, b, c, d]) == a.push(SEPARATOR) + b.push(SEPARATOR) + c.push(SEPARATOR)
            + d,
{
    let none = Seq::<Seq<char>>::empty();
    lemma_join_pushed(none, a);
    lemma_join_pushed(none.push(a), b);
    lemma_join_pushed(none.push(a).push(b), c);
    lemma_join_pushed(none.push(a).push(b).push(c), d);
    assert(none.push(a).push(b).push(c).push(d) =~= seq![a, b, c, d]);
    assert(((a.push(SEPARATOR) + b).push(SEPARATOR) + c).push(SEPARATOR) + d =~= a.push(SEPARATOR)
        + b.push(SEPARATOR) + c.push(SEPARATOR) + d);
}

proof fn lemma_four_parts(
    prefix: Seq<char>,
    a: Seq<char>,
    b: Seq<char>,
    c: Seq<char>,
    d: Seq<char>,
    rest: Seq<char>,
)
    ensures
        prefix + (a.push(SEPARATOR) + b.push(SEPARATOR) + c.push(SEPARATOR) + d) + seq!['_'] + rest
            == prefix + a + seq!['_'] + b + seq!['_'] + c + seq!['_'] + d + seq!['_'] + rest,
{
    let bar = seq!['_'];
    assert(a.push(SEPARATOR) =~= a + bar);
    assert(b.push(SEPARATOR) =~= b + bar);
    assert(c.push(SEPARATOR) =~= c + bar);
    let left = a + bar + (b + bar) + (c + bar) + d;
    let right = a + bar + b + bar + c + bar + d;
    assert(left =~= right);
    assert(prefix + right =~= prefix + a + bar + b + bar + c + bar + d);
}

/// How each kind of name is spelled: what tells the relish, its numbers in this order,
/// the segment number, the first position and the end position in sixteen digits, and
/// the mark of a dropped relish, with underscores between them.
pub proof fn law_names_are_spelled(name: SnapshotFileName)
    ensures
        ({
            let bar = seq!['_'];
            let rest = decimal(name.seg.segno as nat) + bar + upper_hex(
                name.start_lsn.0 as nat,
                16,
            ) + bar + upper_hex(name.end_lsn.0 as nat, 16) + if name.dropped {
                "_DROPPED"@
            } else {
                Seq::empty()
            };
            name.text() == match name.seg.rel {
                RelishTag::Relation(tag) => "rel_"@ + decimal(tag.spcnode as nat) + bar + decimal(
                    tag.dbnode as nat,
                ) + bar + decimal(tag.relnode as nat) + bar + decimal(tag.forknum as nat) + bar
                    + rest,
                RelishTag::Slru { slru: SlruKind::Clog, segno } => "pg_xact_"@ + upper_hex(
                    segno as nat,
                    4,
                ) + bar + rest,
                RelishTag::Slru { slru: SlruKind::MultiXactMembers, segno } => {
                    "pg_multixact_members_"@ + upper_hex(segno as nat, 4) + bar + rest
                },
                RelishTag::Slru { slru: SlruKind::MultiXactOffsets, segno } => {
                    "pg_multixact_offsets_"@ + upper_hex(segno as nat, 4) + bar + rest
                },
                RelishTag::FileNodeMap { spcnode, dbnode } => "pg_filenodemap_"@ + decimal(
                    spcnode as nat,
                ) + bar + decimal(dbnode as nat) + bar + rest,
                RelishTag::TwoPhase { xid } => "pg_twophase_"@ + decimal(xid as nat) + bar + rest,
                RelishTag::Checkpoint => "pg_control_checkpoint_"@ + rest,
                RelishTag::ControlFile => "pg_control_"@ + rest,
            }
        }),
{
    let bar = seq!['_'];
    let own = relish_fields(name.seg.rel);
    let rest = end_text(name);
    let none = Seq::<Seq<char>>::empty();
    lemma_name_end(name);
    match name.seg.rel {
        RelishTag::Relation(tag) => {
            let (a, b) = (decimal(tag.spcnode as nat), decimal(tag.dbnode as nat));
            let (c, d) = (decimal(tag.relnode as nat), decimal(tag.forknum as nat));
            lemma_four_joined(a, b, c, d);
            assert(own =~= seq![a, b, c, d]);
            lemma_four_parts("rel_"@, a, b, c, d, rest);
        },
        RelishTag::Slru { slru, segno } => {
            lemma_join_pushed(none, upper_hex(segno as nat, 4));
            assert(own =~= none.push(upper_hex(segno as nat, 4)));
        },
        RelishTag::FileNodeMap { spcnode, dbnode } => {
            let (a, b) = (decimal(spcnode as nat), decimal(dbnode as nat));
            lemma_join_pushed(none, a);
            lemma_join_pushed(none.push(a), b);
            assert(own =~= none.push(a).push(b));
            assert("pg_filenodemap_"@ + (a.push(SEPARATOR) + b) + bar + rest
                =~= "pg_filenodemap_"@ + a + bar + b + bar + rest);
        },
        RelishTag::TwoPhase { xid } => {
            lemma_join_pushed(none, decimal(xid as nat));
            assert(own =~= none.push(decimal(xid as nat)));
        },
        RelishTag::Checkpoint => {},
        RelishTag::ControlFile => {},
    }
}

/// What a beginning with pieces after it is read from.
proof fn lemma_fields_after(prefix: Seq<char>, fields: Seq<Seq<char>>)
    requires
        fields.len() > 0,
        forall|i: int| 0 <= i < fields.len() ==> !(#[trigger] fields[i]).contains('_'),
    ensures
        fields_after(prefix, prefix + join_fields(fields)) == fields,
{
    assert((prefix + join_fields(fields)).skip(prefix.len() as int) =~= join_fields(fields));
    lemma_split_joined(fields);
}

/// A number that is read is not above its limit.
proof fn lemma_number_limit(s: Seq<char>, radix: nat, max: nat)
    ensures
        parsed_number(s, radix, max) matches Some(n) ==> n <= max,
{
}

/// A name that begins with `rel_` is read as a relation if and only if these pieces
/// follow: tablespace, database, relation and fork in base ten, and what every name
/// ends in.
pub proof fn law_relation_names_are_read(fields: Seq<Seq<char>>, name: SnapshotFileName)
    requires
        fields.len() > 0,
        forall|i: int| 0 <= i < fields.len() ==> !(#[trigger] fields[i]).contains('_'),
    ensures
        parsed_file_name("rel_"@ + join_fields(fields)) == Some(name) <==> {
                &&& fields.len() == if name.dropped { 8int } else { 7 }
                &&& name.dropped ==> fields[7] == "DROPPED"@
                &&& name.seg.rel is Relation
                &&& parsed_number(fields[0], 10, u32::MAX as nat) == Some(
                    name.seg.rel->Relation_0.spcnode as nat,
                )
                &&& parsed_number(fields[1], 10, u32::MAX as nat) == Some(
                    name.seg.rel->Relation_0.dbnode as nat,
                )
                &&& parsed_number(fields[2], 10, u32::MAX as nat) == Some(
                    name.seg.rel->Relation_0.relnode as nat,
                )
                &&& parsed_number(fields[3], 10, u8::MAX as nat) == Some(
                    name.seg.rel->Relation_0.forknum as nat,
                )
                &&& parsed_number(fields[4], 10, u32::MAX as nat) == Some(name.seg.segno as nat)
                &&& parsed_number(fields[5], 16, u64::MAX as nat) == Some(name.start_lsn.0 as nat)
                &&& parsed_number(fields[6], 16, u64::MAX as nat) == Some(name.end_lsn.0 as nat)
            },
{
    lemma_fields_after("rel_"@, fields);
    let any = RelTag { spcnode: 0, dbnode: 0, relnode: 0, forknum: 0 };
    lemma_prefixes(RelishTag::Relation(any), join_fields(fields));
    lemma_number_limit(fields[0], 10, u32::MAX as nat);
    lemma_number_limit(fields[1], 10, u32::MAX as nat);
    lemma_number_limit(fields[2], 10, u32::MAX as nat);
    lemma_number_limit(fields[3], 10, u8::MAX as nat);
    lemma_number_limit(fields[4], 10, u32::MAX as nat);
    lemma_number_limit(fields[5], 16, u64::MAX as nat);
    lemma_number_limit(fields[6], 16, u64::MAX as nat);
}

/// A name that begins with `pg_xact_` is read if and only if a segment of
/// the relish in base sixteen, and what every name ends in, follow.
pub proof fn law_clog_names_are_read(fields: Seq<Seq<char>>, name: SnapshotFileName)
    requires
        fields.len() > 0,
        forall|i: int| 0 <= i < fields.len() ==> !(#[trigger] fields[i]).contains('_'),
    ensures
        parsed_file_name("pg_xact_"@ + join_fields(fields)) == Some(name) <==> {
                &&& fields.len() == if name.dropped { 5int } else { 4 }
                &&& name.dropped ==> fields[4] == "DROPPED"@
                &&& name.seg.rel is Slru
                &&& name.seg.rel->slru == SlruKind::Clog
                &&& parsed_number(fields[0], 16, u32::MAX as nat) == Some(
                    name.seg.rel->segno as nat,
                )
                &&& parsed_number(fields[1], 10, u32::MAX as nat) == Some(name.seg.segno as nat)
                &&& parsed_number(fields[2], 16, u64::MAX as nat) == Some(name.start_lsn.0 as nat)
                &&& parsed_number(fields[3], 16, u64::MAX as nat) == Some(name.end_lsn.0 as nat)
            },
{
    lemma_fields_after("pg_xact_"@, fields);
    lemma_prefixes(RelishTag::Slru { slru: SlruKind::Clog, segno: 0 }, join_fields(fields));
    lemma_number_limit(fields[0], 16, u32::MAX as nat);
    lemma_number_limit(fields[1], 10, u32::MAX as nat);
    lemma_number_limit(fields[2], 16, u64::MAX as nat);
    lemma_number_limit(fields[3], 16, u64::MAX as nat);
}

/// A name that begins with `pg_multixact_members_` is read if and only if a segment of
/// the relish in base sixteen, and what every name ends in, follow.
pub proof fn law_members_names_are_read(fields: Seq<Seq<char>>, name: SnapshotFileName)
    requires
        fields.len() > 0,
        forall|i: int| 0 <= i < fields.len() ==> !(#[trigger] fields[i]).contains('_'),
    ensures
        parsed_file_name("pg_multixact_members_"@ + join_fields(fields)) == Some(name) <==> {
                &&& fields.len() == if name.dropped { 5int } else { 4 }
                &&& name.dropped ==> fields[4] == "DROPPED"@
                &&& name.seg.rel is Slru
                &&& name.seg.rel->slru == SlruKind::MultiXactMembers
                &&& parsed_number(fields[0], 16, u32::MAX as nat) == Some(
                    name.seg.rel->segno as nat,
                )
                &&& parsed_number(fields[1], 10, u32::MAX as nat) == Some(name.seg.segno as nat)
                &&& parsed_number(fields[2], 16, u64::MAX as nat) == Some(name.start_lsn.0 as nat)
                &&& parsed_number(fields[3], 16, u64::MAX as nat) == Some(name.end_lsn.0 as nat)
            },
{
    lemma_fields_after("pg_multixact_members_"@, fields);
    let any = RelishTag::Slru { slru: SlruKind::MultiXactMembers, segno: 0 };
    lemma_prefixes(any, join_fields(fields));
    lemma_number_limit(fields[0], 16, u32::MAX as nat);
    lemma_number_limit(fields[1], 10, u32::MAX as nat);
    lemma_number_limit(fields[2], 16, u64::MAX as nat);
    lemma_number_limit(fields[3], 16, u64::MAX as nat);
}

/// A name that begins with `pg_multixact_offsets_` is read if and only if a segment of
/// the relish in base sixteen, and what every name ends in, follow.
pub proof fn law_offsets_names_are_read(fields: Seq<Seq<char>>, name: SnapshotFileName)
    requires
        fields.len() > 0,
        forall|i: int| 0 <= i < fields.len() ==> !(#[trigger] fields[i]).contains('_'),
    ensures
        parsed_file_name("pg_multixact_offsets_"@ + join_fields(fields)) == Some(name) <==> {
                &&& fields.len() == if name.dropped { 5int } else { 4 }
                &&& name.dropped ==> fields[4] == "DROPPED"@
                &&& name.seg.rel is Slru
                &&& name.seg.rel->slru == SlruKind::MultiXactOffsets
                &&& parsed_number(fields[0], 16, u32::MAX as nat) == Some(
                    name.seg.rel->segno as nat,
                )
                &&& parsed_number(fields[1], 10, u32::MAX as nat) == Some(name.seg.segno as nat)
                &&& parsed_number(fields[2], 16, u64::MAX as nat) == Some(name.start_lsn.0 as nat)
                &&& parsed_number(fields[3], 16, u64::MAX as nat) == Some(name.end_lsn.0 as nat)
            },
{
    lemma_fields_after("pg_multixact_offsets_"@, fields);
    let any = RelishTag::Slru { slru: SlruKind::MultiXactOffsets, segno: 0 };
    lemma_prefixes(any, join_fields(fields));
    lemma_number_limit(fields[0], 16, u32::MAX as nat);
    lemma_number_limit(fields[1], 10, u32::MAX as nat);
    lemma_number_limit(fields[2], 16, u64::MAX as nat);
    lemma_number_limit(fields[3], 16, u64::MAX as nat);
}

/// A name that begins with `pg_filenodemap_` is read if and only if tablespace and
/// database in base ten, and what every name ends in, follow.
pub proof fn law_filenodemap_names_are_read(fields: Seq<Seq<char>>, name: SnapshotFileName)
    requires
        fields.len() > 0,
        forall|i: int| 0 <= i < fields.len() ==> !(#[trigger] fields[i]).contains('_'),
    ensures
        parsed_file_name("pg_filenodemap_"@ + join_fields(fields)) == Some(name) <==> {
                &&& fields.len() == if name.dropped { 6int } else { 5 }
                &&& name.dropped ==> fields[5] == "DROPPED"@
                &&& name.seg.rel is FileNodeMap
                &&& parsed_number(fields[0], 10, u32::MAX as nat) == Some(
                    name.seg.rel->spcnode as nat,
                )
                &&& parsed_number(fields[1], 10, u32::MAX as nat) == Some(
                    name.seg.rel->dbnode as nat,
                )
                &&& parsed_number(fields[2], 10, u32::MAX as nat) == Some(name.seg.segno as nat)
                &&& parsed_number(fields[3], 16, u64::MAX as nat) == Some(name.start_lsn.0 as nat)
                &&& parsed_number(fields[4], 16, u64::MAX as nat) == Some(name.end_lsn.0 as nat)
            },
{
    lemma_fields_after("pg_filenodemap_"@, fields);
    lemma_prefixes(RelishTag::FileNodeMap { spcnode: 0, dbnode: 0 }, join_fields(fields));
    lemma_number_limit(fields[0], 10, u32::MAX as nat);
    lemma_number_limit(fields[1], 10, u32::MAX as nat);
    lemma_number_limit(fields[2], 10, u32::MAX as nat);
    lemma_number_limit(fields[3], 16, u64::MAX as nat);
    lemma_number_limit(fields[4], 16, u64::MAX as nat);
}

/// A name that begins with `pg_twophase_` is read if and only if a transaction in base
/// ten, and what every name ends in, follow.
pub proof fn law_twophase_names_are_read(fields: Seq<Seq<char>>, name: SnapshotFileName)
    requires
        fields.len() > 0,
        forall|i: int| 0 <= i < fields.len() ==> !(#[trigger] fields[i]).contains('_'),
    ensures
        parsed_file_name("pg_twophase_"@ + join_fields(fields)) == Some(name) <==> {
                &&& fields.len() == if name.dropped { 5int } else { 4 }
                &&& name.dropped ==> fields[4] == "DROPPED"@
                &&& name.seg.rel is TwoPhase
                &&& parsed_number(fields[0], 10, u32::MAX as nat) == Some(name.seg.rel->xid as nat)
                &&& parsed_number(fields[1], 10, u32::MAX as nat) == Some(name.seg.segno as nat)
                &&& parsed_number(fields[2], 16, u64::MAX as nat) == Some(name.start_lsn.0 as nat)
                &&& parsed_number(fields[3], 16, u64::MAX as nat) == Some(name.end_lsn.0 as nat)
            },
{
    lemma_fields_after("pg_twophase_"@, fields);
    lemma_prefixes(RelishTag::TwoPhase { xid: 0 }, join_fields(fields));
    lemma_number_limit(fields[0], 10, u32::MAX as nat);
    lemma_number_limit(fields[1], 10, u32::MAX as nat);
    lemma_number_limit(fields[2], 16, u64::MAX as nat);
    lemma_number_limit(fields[3], 16, u64::MAX as nat);
}

/// A name that begins with `pg_control_checkpoint_` is read if and only if what every
/// name ends in follows.
pub proof fn law_checkpoint_names_are_read(fields: Seq<Seq<char>>, name: SnapshotFileName)
    requires
        fields.len() > 0,
        forall|i: int| 0 <= i < fields.len() ==> !(#[trigger] fields[i]).contains('_'),
    ensures
        parsed_file_name("pg_control_checkpoint_"@ + join_fields(fields)) == Some(name) <==> {
                &&& fields.len() == if name.dropped { 4int } else { 3 }
                &&& name.dropped ==> fields[3] == "DROPPED"@
                &&& name.seg.rel is Checkpoint
                &&& parsed_number(fields[0], 10, u32::MAX as nat) == Some(name.seg.segno as nat)
                &&& parsed_number(fields[1], 16, u64::MAX as nat) == Some(name.start_lsn.0 as nat)
                &&& parsed_number(fields[2], 16, u64::MAX as nat) == Some(name.end_lsn.0 as nat)
            },
{
    lemma_fields_after("pg_control_checkpoint_"@, fields);
    lemma_prefixes(RelishTag::Checkpoint, join_fields(fields));
    lemma_number_limit(fields[0], 10, u32::MAX as nat);
    lemma_number_limit(fields[1], 16, u64::MAX as nat);
    lemma_number_limit(fields[2], 16, u64::MAX as nat);
}

/// A name that begins with `pg_control_`, and not as that of a checkpoint, is read if
/// and only if what every name ends in follows.
pub proof fn law_control_names_are_read(fields: Seq<Seq<char>>, name: SnapshotFileName)
    requires
        fields.len() > 0,
        forall|i: int| 0 <= i < fields.len() ==> !(#[trigger] fields[i]).contains('_'),
        !"pg_control_checkpoint_"@.is_prefix_of("pg_control_"@ + join_fields(fields)),
    ensures
        parsed_file_name("pg_control_"@ + join_fields(fields)) == Some(name) <==> {
                &&& fields.len() == if name.dropped { 4int } else { 3 }
                &&& name.dropped ==> fields[3] == "DROPPED"@
                &&& name.seg.rel is ControlFile
                &&& parsed_number(fields[0], 10, u32::MAX as nat) == Some(name.seg.segno as nat)
                &&& parsed_number(fields[1], 16, u64::MAX as nat) == Some(name.start_lsn.0 as nat)
                &&& parsed_number(fields[2], 16, u64::MAX as nat) == Some(name.end_lsn.0 as nat)
            },
{
    lemma_fields_after("pg_control_"@, fields);
    lemma_prefixes(RelishTag::ControlFile, join_fields(fields));
    lemma_number_limit(fields[0], 10, u32::MAX as nat);
    lemma_number_limit(fields[1], 16, u64::MAX as nat);
    lemma_number_limit(fields[2], 16, u64::MAX as nat);
}

/// A name that begins in no known way is not read.
pub proof fn law_other_names_are_not_read(fname: Seq<char>)
    requires
        !"rel_"@.is_prefix_of(fname),
        !"pg_xact_"@.is_prefix_of(fname),
        !"pg_multixact_members_"@.is_prefix_of(fname),
        !"pg_multixact_offsets_"@.is_prefix_of(fname),
        !"pg_filenodemap_"@.is_prefix_of(fname),
        !"pg_twophase_"@.is_prefix_of(fname),
        !"pg_control_"@.is_prefix_of(fname),
    ensures
        parsed_file_name(fname) is None,
{
    reveal_strlit("pg_control_");
    reveal_strlit("pg_control_checkpoint_");
    if "pg_control_checkpoint_"@.is_prefix_of(fname) {
        let longer = "pg_control_checkpoint_"@;
        assert forall|i: int| 0 <= i < 11 implies fname[i] == "pg_control_"@[i] by {
            assert(fname.take(longer.len() as int)[i] == longer[i]);
        }
        assert(fname.take(11) =~= "pg_control_"@);
    }
}

/// The name that is written for a file is read back as that file, and the names that are
/// written for different files are different.
pub proof fn law_written_names_are_read(
    a: SnapshotFileName,
    b: SnapshotFileName,
    a_text: String,
    b_text: String,
    given: &str,
    read: Option<SnapshotFileName>,
)
    requires
        call_ensures(SnapshotFileName::to_string, (&a,), a_text),
        call_ensures(SnapshotFileName::to_string, (&b,), b_text),
        given@ == a_text@,
        call_ensures(SnapshotFileName::from_str, (given,), read),
    ensures
        read == Some(a),
        a_text@ == b_text@ <==> a == b,
{
    law_file_name_read_back(a);
    law_file_name_read_back(b);
}

} // verus!
