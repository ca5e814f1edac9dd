use snapshot_store::codec::{decode_pages, decode_sizes, encode_pages, encode_sizes};
use snapshot_store::lsn::Lsn;
use snapshot_store::ordered_map::OrderedMap;
use snapshot_store::page::{PageKey, PageVersion, WALRecord};

fn one_page(page_image: Option<Vec<u8>>, record: Option<WALRecord>) -> OrderedMap<PageKey, PageVersion> {
    let mut pages = OrderedMap::new();
    pages.insert(PageKey { blknum: 1, lsn: Lsn(2) }, PageVersion { page_image, record });
    pages
}

fn record(will_init: bool, rec: Vec<u8>) -> WALRecord {
    WALRecord { lsn: Lsn(3), will_init, rec, main_data_offset: 4 }
}

#[test]
fn different_pages_have_different_bytes() {
    let all = vec![
        OrderedMap::new(),
        one_page(None, None),
        one_page(Some(vec![]), None),
        one_page(Some(vec![0]), None),
        one_page(None, Some(record(false, vec![]))),
        one_page(None, Some(record(true, vec![]))),
        one_page(None, Some(record(true, vec![0]))),
        one_page(Some(vec![0]), Some(record(true, vec![0]))),
    ];
    let bytes: Vec<Vec<u8>> = all.iter().map(encode_pages).collect();
    for i in 0..all.len() {
        for j in 0..i {
            assert_ne!(bytes[i], bytes[j]);
        }
        let back = decode_pages(&bytes[i]).unwrap();
        assert_eq!(back.len(), all[i].len());
        for k in 0..back.len() {
            assert_eq!(back.key_at(k), all[i].key_at(k));
            assert_eq!(back.value_at(k), all[i].value_at(k));
        }
    }
}

#[test]
fn sizes_are_read_back() {
    let mut sizes = OrderedMap::new();
    sizes.insert(Lsn(u64::MAX), 0);
    sizes.insert(Lsn(1), u32::MAX);
    let bytes = encode_sizes(&sizes);
    assert_eq!(bytes.len(), 8 + 2 * 12);
    assert_eq!(bytes[8..20], [0, 0, 0, 0, 0, 0, 0, 1, 255, 255, 255, 255]);
    let back = decode_sizes(&bytes).unwrap();
    assert_eq!((back.key_at(0), *back.value_at(0)), (Lsn(1), u32::MAX));
    assert_eq!((back.key_at(1), *back.value_at(1)), (Lsn(u64::MAX), 0));
    assert_eq!(back.len(), 2);
}

#[test]
fn bytes_that_stand_for_nothing() {
    let good = encode_pages(&one_page(None, Some(record(true, vec![9]))));
    for cut in 0..good.len() {
        assert!(decode_pages(&good[..cut].to_vec()).is_none());
    }
    // the tag of the image, the tag of the record, and the truth value
    for at in [20, 21, 30] {
        let mut bad = good.clone();
        bad[at] = 2;
        assert!(decode_pages(&bad).is_none());
    }
    assert!(decode_pages(&vec![0xFF; 8]).is_none());
    assert!(decode_sizes(&vec![0xFF; 20]).is_none());
    assert!(decode_sizes(&vec![]).is_none());
}
