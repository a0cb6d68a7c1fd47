use ferrumdb::page::{Page, PageType};
use ferrumdb::space::Space;
use ferrumdb::wal::record::{CRC_BYTES, RECORD_HEADER_BYTES};
use ferrumdb::wal::{RedoRecord, Wal, WalError, CHECKPOINT_MAGIC};
use std::collections::HashMap;

#[test]
fn create_then_open() {
    let image = {
        let w = Wal::create();
        assert_eq!(w.next_lsn(), 1);
        assert_eq!(w.checkpoint_lsn(), 0);
        w.image().to_vec()
    };
    let w = Wal::open(&image).unwrap();
    assert_eq!(w.next_lsn(), 1);
    assert_eq!(w.checkpoint_lsn(), 0);
}

#[test]
fn append_returns_monotonic_lsns() {
    let mut w = Wal::create();
    let l1 = w.append(0, 0, b"a").unwrap();
    let l2 = w.append(0, 0, b"b").unwrap();
    let l3 = w.append(1, 4, b"cd").unwrap();
    assert_eq!(l1, 1);
    assert_eq!(l2, 2);
    assert_eq!(l3, 3);
    assert_eq!(w.next_lsn(), 4);
}

#[test]
fn checkpoint_record_visible_after_open() {
    let image = {
        let mut w = Wal::create();
        w.append(0, 0, b"x").unwrap();
        w.append(1, 0, b"y").unwrap();
        w.checkpoint(1).unwrap();
        w.append(2, 0, b"z").unwrap();
        w.image().to_vec()
    };
    let w = Wal::open(&image).unwrap();
    assert_eq!(w.next_lsn(), 4);
    assert_eq!(w.checkpoint_lsn(), 1);
}

#[test]
fn recover_replays_all_records_before_checkpoint() {
    let mut w = Wal::create();
    w.append(0, 0, b"before-cp").unwrap();
    w.checkpoint(1).unwrap();
    w.append(0, 0, b"after-cp").unwrap();

    let mut page0 = vec![0u8; 16];
    w.recover(|rec| {
        if rec.page_id == 0 {
            assert!(rec.offset as usize + rec.payload.len() <= page0.len());
            let dst = &mut page0[rec.offset as usize..rec.offset as usize + rec.payload.len()];
            dst.copy_from_slice(&rec.payload);
        }
        Ok(())
    })
    .unwrap();
    assert_eq!(&page0[..8], b"after-cp");
}

#[test]
fn recover_handles_truncated_tail() {
    let image = {
        let mut w = Wal::create();
        w.append(0, 0, b"good").unwrap();
        let mut bytes = w.image().to_vec();
        bytes.pop();
        bytes
    };
    let mut w = Wal::open(&image).unwrap();
    let mut page0 = vec![0u8; 16];
    let result = w.recover(|rec| {
        if rec.page_id == 0 {
            page0[..rec.payload.len()].copy_from_slice(&rec.payload);
        }
        Ok(())
    });
    assert!(result.is_ok());
}

#[test]
fn recover_corrupt_crc_returns_error() {
    let image = {
        let mut w = Wal::create();
        w.append(0, 0, b"data").unwrap();
        let mut bytes = w.image().to_vec();
        bytes[30] ^= 0xFF;
        bytes
    };
    let mut w = Wal::open(&image).unwrap();
    let result = w.recover(|_rec| Ok(()));
    assert!(result.is_err());
}

#[test]
fn multiple_pages_replay() {
    let mut w = Wal::create();
    w.append(0, 0, b"page0-data").unwrap();
    w.append(1, 0, b"page1-data").unwrap();
    w.append(2, 4, b"page2-off4").unwrap();

    let mut pages = vec![vec![0u8; 16]; 3];
    w.recover(|rec| {
        let p = rec.page_id as usize;
        if p < pages.len() {
            let dst = &mut pages[p][rec.offset as usize..rec.offset as usize + rec.payload.len()];
            dst.copy_from_slice(&rec.payload);
        }
        Ok(())
    })
    .unwrap();
    assert_eq!(&pages[0][..10], b"page0-data");
    assert_eq!(&pages[1][..10], b"page1-data");
    assert_eq!(&pages[2][4..14], b"page2-off4");
}

#[test]
fn m1_crash_recovery_replays_records() {
    let lsn1;
    let image = {
        let mut wal = Wal::create();
        lsn1 = wal.append(1, 0, b"page1-new-content").unwrap();
        let _lsn2 = wal.append(2, 0, b"page2-new-content").unwrap();
        assert_eq!(lsn1, 1);
        wal.image().to_vec()
    };
    let mut wal = Wal::open(&image).unwrap();
    assert_eq!(wal.next_lsn(), 3);
    assert_eq!(wal.checkpoint_lsn(), 0);
    let mut pages: HashMap<u32, Vec<u8>> = HashMap::new();
    wal.recover(|rec| {
        let entry = pages.entry(rec.page_id).or_insert_with(Vec::new);
        let needed = rec.offset as usize + rec.payload.len();
        if entry.len() < needed {
            entry.resize(needed, 0);
        }
        entry[rec.offset as usize..needed].copy_from_slice(&rec.payload);
        Ok(())
    })
    .unwrap();
    assert_eq!(pages.get(&1).unwrap().as_slice(), b"page1-new-content");
    assert_eq!(pages.get(&2).unwrap().as_slice(), b"page2-new-content");
}

#[test]
fn m1_checkpoint_then_crash_replays_only_after_checkpoint() {
    let image = {
        let mut wal = Wal::create();
        wal.append(0, 0, b"before-cp").unwrap();
        wal.checkpoint(1).unwrap();
        wal.append(0, 0, b"after-cp").unwrap();
        wal.image().to_vec()
    };
    let mut wal = Wal::open(&image).unwrap();
    assert_eq!(wal.checkpoint_lsn(), 1);
    let mut page0 = vec![0u8; 16];
    wal.recover(|rec| {
        if rec.page_id == 0 {
            let end = (rec.offset as usize + rec.payload.len()).min(page0.len());
            page0[rec.offset as usize..end].copy_from_slice(&rec.payload);
        }
        Ok(())
    })
    .unwrap();
    assert!(page0.windows(8).any(|w| w == b"after-cp"));
    assert!(!page0.windows(9).any(|w| w == b"before-cp"));
}

#[test]
fn m1_wal_plus_space_crash_recovery() {
    let (space_image, wal_image) = {
        let mut space = Space::create();
        let page1_id = space.allocate_page().unwrap();
        assert_eq!(page1_id, 1);
        let mut new_page = Page::new(page1_id, PageType::Data);
        new_page.user_data_mut()[..15].copy_from_slice(b"page1-after-wal");
        space.write_page(page1_id, &new_page).unwrap();
        let mut wal = Wal::create();
        wal.append(page1_id, 0, b"page1-after-wal").unwrap();
        (space.image(), wal.image().to_vec())
    };

    let mut space = Space::open(&space_image).unwrap();
    let mut wal = Wal::open(&wal_image).unwrap();
    assert_eq!(wal.next_lsn(), 2);
    assert_eq!(wal.checkpoint_lsn(), 0);

    let mut applied = 0;
    wal.recover(|rec| {
        let mut page = space.read_page(rec.page_id).unwrap();
        let end = (rec.offset as usize + rec.payload.len()).min(page.user_data().len());
        if end > rec.offset as usize {
            page.user_data_mut()[rec.offset as usize..end].copy_from_slice(&rec.payload);
        }
        space.write_page(rec.page_id, &page).unwrap();
        applied += 1;
        Ok(())
    })
    .unwrap();
    assert_eq!(applied, 1);

    let page = space.read_page(1).unwrap();
    assert_eq!(&page.user_data()[..15], b"page1-after-wal");
}

#[test]
fn encode_decode_round_trip() {
    let r = RedoRecord { lsn: 42, page_id: 7, offset: 100, payload: b"hello world".to_vec() };
    let bytes = r.encode();
    let decoded = RedoRecord::decode(&bytes, Some(42)).unwrap();
    assert_eq!(decoded, r);
}

#[test]
fn decode_with_wrong_expected_lsn() {
    let r = RedoRecord { lsn: 42, page_id: 0, offset: 0, payload: vec![] };
    let bytes = r.encode();
    let err = RedoRecord::decode(&bytes, Some(99)).unwrap_err();
    assert!(matches!(err, WalError::OutOfOrder { .. }));
}

#[test]
fn decode_truncated_returns_truncated_error() {
    let bytes = vec![0u8; 10];
    let err = RedoRecord::decode(&bytes, None).unwrap_err();
    assert!(matches!(err, WalError::Truncated));
}

#[test]
fn decode_crc_mismatch() {
    let r = RedoRecord { lsn: 1, page_id: 0, offset: 0, payload: vec![0xAB, 0xCD] };
    let mut bytes = r.encode();
    bytes[20] ^= 0xFF;
    let err = RedoRecord::decode(&bytes, Some(1)).unwrap_err();
    assert!(matches!(err, WalError::RecordCrcMismatch { lsn: 1 }));
}

#[test]
fn empty_payload_round_trip() {
    let r = RedoRecord { lsn: 1, page_id: 5, offset: 0, payload: vec![] };
    let bytes = r.encode();
    let decoded = RedoRecord::decode(&bytes, Some(1)).unwrap();
    assert_eq!(decoded, r);
    assert_eq!(r.encoded_len(), RECORD_HEADER_BYTES + CRC_BYTES);
}

#[test]
fn record_layout_ends_with_crc_of_body() {
    let r = RedoRecord { lsn: 3, page_id: 9, offset: 2, payload: vec![1, 2, 3] };
    let bytes = r.encode();
    assert_eq!(bytes.len(), r.encoded_len());
    assert_eq!(&bytes[0..8], &3u64.to_le_bytes());
    assert_eq!(&bytes[8..12], &9u32.to_le_bytes());
    assert_eq!(&bytes[12..16], &2u32.to_le_bytes());
    assert_eq!(&bytes[16..20], &3u32.to_le_bytes());
    assert_eq!(&bytes[20..23], &[1, 2, 3]);
    let body = &bytes[..23];
    assert_eq!(&bytes[23..27], &crc32fast::hash(body).to_le_bytes());
}

#[test]
fn checkpoint_slot_layout() {
    let mut w = Wal::create();
    w.append(0, 0, b"q").unwrap();
    w.checkpoint(1).unwrap();
    let image = w.image();
    assert_eq!(&image[0..8], &2u64.to_le_bytes());
    assert_eq!(&image[8..12], &CHECKPOINT_MAGIC.to_le_bytes());
    assert_eq!(&image[12..20], &1u64.to_le_bytes());
}

#[test]
fn open_short_log_is_invalid() {
    assert!(matches!(Wal::open(&[0u8; 5]), Err(WalError::InvalidRecord(_))));
}

#[test]
fn replay_plan_lists_records_after_checkpoint() {
    let mut w = Wal::create();
    w.append(0, 0, b"a").unwrap();
    w.append(1, 2, b"bc").unwrap();
    w.checkpoint(1).unwrap();
    w.append(2, 0, b"d").unwrap();
    let (records, end) = w.replay_plan();
    assert_eq!(end.unwrap(), 3);
    assert_eq!(records.len(), 2);
    assert_eq!(records[0], RedoRecord { lsn: 2, page_id: 1, offset: 2, payload: b"bc".to_vec() });
    assert_eq!(records[1], RedoRecord { lsn: 3, page_id: 2, offset: 0, payload: b"d".to_vec() });
}
