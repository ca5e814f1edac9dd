use snapshot_store::file_name::SnapshotFileName;
use snapshot_store::lsn::Lsn;
use snapshot_store::relish::{RelTag, RelishTag, SegmentTag, SlruKind};

fn name(rel: RelishTag, segno: u32, start: u64, end: u64, dropped: bool) -> SnapshotFileName {
    SnapshotFileName {
        seg: SegmentTag { rel, segno },
        start_lsn: Lsn(start),
        end_lsn: Lsn(end),
        dropped,
    }
}

fn orders() -> RelishTag {
    RelishTag::Relation(RelTag { spcnode: 1663, dbnode: 13990, relnode: 2609, forknum: 0 })
}

#[test]
fn relation_name_is_read() {
    let text = "rel_1663_13990_2609_0_10_000000000169C348_0000000001702000";
    let expected = name(orders(), 10, 0x169C348, 0x1702000, false);
    assert_eq!(SnapshotFileName::from_str(text), Some(expected));
    assert_eq!(expected.to_string(), text);
}

#[test]
fn dropped_name_is_read() {
    let text = "rel_1663_13990_2609_0_10_000000000169C348_0000000001702000_DROPPED";
    let expected = name(orders(), 10, 0x169C348, 0x1702000, true);
    assert_eq!(SnapshotFileName::from_str(text), Some(expected));
    assert_eq!(expected.to_string(), text);
}

#[test]
fn clog_name_is_read() {
    let text = "pg_xact_0000_0_00000000198B06B0_00000000198C2550";
    let rel = RelishTag::Slru { slru: SlruKind::Clog, segno: 0 };
    let expected = name(rel, 0, 0x198B06B0, 0x198C2550, false);
    assert_eq!(SnapshotFileName::from_str(text), Some(expected));
    assert_eq!(expected.to_string(), text);
}

#[test]
fn names_of_all_relishes() {
    let cases = vec![
        (
            RelishTag::Slru { slru: SlruKind::MultiXactMembers, segno: 0xAB },
            "pg_multixact_members_00AB_3_0000000000000010_0000000000000020",
        ),
        (
            RelishTag::Slru { slru: SlruKind::MultiXactOffsets, segno: 0x12345 },
            "pg_multixact_offsets_12345_3_0000000000000010_0000000000000020",
        ),
        (
            RelishTag::FileNodeMap { spcnode: 1664, dbnode: 0 },
            "pg_filenodemap_1664_0_3_0000000000000010_0000000000000020",
        ),
        (
            RelishTag::TwoPhase { xid: 4294967295 },
            "pg_twophase_4294967295_3_0000000000000010_0000000000000020",
        ),
        (
            RelishTag::Checkpoint,
            "pg_control_checkpoint_3_0000000000000010_0000000000000020",
        ),
        (
            RelishTag::ControlFile,
            "pg_control_3_0000000000000010_0000000000000020",
        ),
    ];
    for (rel, text) in cases {
        let expected = name(rel, 3, 0x10, 0x20, false);
        assert_eq!(expected.to_string(), text);
        assert_eq!(SnapshotFileName::from_str(text), Some(expected));
    }
}

#[test]
fn greatest_values_are_read_back() {
    let rel = RelishTag::Relation(RelTag {
        spcnode: u32::MAX,
        dbnode: u32::MAX,
        relnode: u32::MAX,
        forknum: u8::MAX,
    });
    let file = name(rel, u32::MAX, u64::MAX, u64::MAX, true);
    assert_eq!(
        file.to_string(),
        "rel_4294967295_4294967295_4294967295_255_4294967295_FFFFFFFFFFFFFFFF_FFFFFFFFFFFFFFFF_DROPPED"
    );
    assert_eq!(SnapshotFileName::from_str(&file.to_string()), Some(file));
}

#[test]
fn loose_spellings_are_read() {
    let expected = Some(name(orders(), 10, 0x1F, 0x2A, false));
    assert_eq!(SnapshotFileName::from_str("rel_1663_13990_2609_0_10_1f_2A"), expected);
    assert_eq!(SnapshotFileName::from_str("rel_+1663_013990_2609_00_10_+1F_00000000000000000002a"), expected);
}

#[test]
fn other_files_are_not_read() {
    for text in [
        "",
        "wal",
        "metadata",
        "rel",
        "rel_",
        "1663_13990_2609_0_10_000000000169C348_0000000001702000",
        "rel_1663_13990_2609_0_10_000000000169C348",
        "rel_1663_13990_2609_0_10__0000000001702000",
        "rel_1663_13990_2609_0_10_000000000169C348_0000000001702000_",
        "rel_1663_13990_2609_0_10_000000000169C348_0000000001702000_dropped",
        "rel_1663_13990_2609_0_10_000000000169C348_0000000001702000_DROPPED_1",
        "rel_1663_13990_2609_256_10_000000000169C348_0000000001702000",
        "rel_4294967296_13990_2609_0_10_000000000169C348_0000000001702000",
        "rel_1663_13990_-1_0_10_000000000169C348_0000000001702000",
        "rel_1663_13990_26g9_0_10_000000000169C348_0000000001702000",
        "rel_1663_13990_+_0_10_000000000169C348_0000000001702000",
        "rel_1663_13990_2609_0_10_10000000000000000_0000000001702000",
        "rel_1663_13990_2609_0_10_169G_0000000001702000",
        "pg_xact_100000000_0_00000000198B06B0_00000000198C2550",
        "pg_control_checkpoint_x_00000000198B06B0_00000000198C2550",
        "\u{e9}_1_2_3",
    ] {
        assert_eq!(SnapshotFileName::from_str(text), None, "{}", text);
    }
}

#[test]
fn different_files_have_different_names() {
    let files = [
        name(orders(), 10, 1, 2, false),
        name(orders(), 10, 1, 2, true),
        name(orders(), 11, 1, 2, false),
        name(orders(), 10, 1, 3, false),
        name(RelishTag::Checkpoint, 10, 1, 2, false),
        name(RelishTag::ControlFile, 10, 1, 2, false),
    ];
    for i in 0..files.len() {
        for j in 0..files.len() {
            assert_eq!(i == j, files[i].to_string() == files[j].to_string());
        }
    }
}

#[test]
fn names_of_one_segment_sort_by_range() {
    let mut files = Vec::new();
    for start in [0, 9, 0xA, 0x10, 0xFF, u64::MAX] {
        for end in [1, 0xF, 0x1F, 0xA0, u64::MAX] {
            for dropped in [false, true] {
                files.push(name(orders(), 10, start, end, dropped));
            }
        }
    }
    for f in &files {
        for g in &files {
            assert_eq!(
                f.to_string().cmp(&g.to_string()),
                (f.start_lsn, f.end_lsn, f.dropped).cmp(&(g.start_lsn, g.end_lsn, g.dropped))
            );
        }
    }
}
