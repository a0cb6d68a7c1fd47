use ferrumdb::text::{decimal, hex_byte};
use ferrumdb::page::{
    decode_key, decode_row, encode_key, encode_pk, encode_row, encode_secondary_key, successor,
    upper_bound, ColumnType, Page, PageError, PageType, Row, Schema, SlottedPage, Value,
    PAGE_FOOTER_OFFSET, PAGE_FOOTER_SIZE, PAGE_HEADER_SIZE, PAGE_MAGIC, PAGE_SIZE,
    PAGE_USER_DATA_SIZE, TAG_BYTES, TAG_I64,
};

#[test]
fn page_new_has_expected_layout_constants() {
    assert_eq!(PAGE_SIZE, 16384);
    assert_eq!(PAGE_USER_DATA_SIZE, 16344);
    assert_eq!(PAGE_FOOTER_OFFSET, 16376);
    assert_eq!(PAGE_HEADER_SIZE + PAGE_USER_DATA_SIZE + PAGE_FOOTER_SIZE, PAGE_SIZE);
}

#[test]
fn page_new_initializes_header() {
    let page = Page::new(42, PageType::Data);
    assert_eq!(page.page_id(), 42);
    assert_eq!(page.page_type(), PageType::Data);
    assert_eq!(page.lsn(), 0);
    assert!(page.user_data().iter().all(|&b| b == 0));
}

#[test]
fn page_round_trip() {
    let mut page = Page::new(1, PageType::Index);
    page.set_lsn(99);
    page.user_data_mut()[0] = 0xAB;
    page.user_data_mut()[PAGE_USER_DATA_SIZE - 1] = 0xCD;

    let bytes = page.to_bytes();
    assert_eq!(bytes.len(), PAGE_SIZE);

    let decoded = Page::from_bytes(&bytes).unwrap();
    assert_eq!(decoded.page_id(), page.page_id());
    assert_eq!(decoded.page_type(), page.page_type());
    assert_eq!(decoded.lsn(), page.lsn());
    assert_eq!(decoded.user_data(), page.user_data());
    assert_ne!(decoded.header().checksum, 0);
    assert_eq!(decoded.footer().magic, PAGE_MAGIC);
    assert_eq!(decoded.footer().checksum, decoded.header().checksum);
}

#[test]
fn page_checksum_detects_corruption() {
    let page = Page::new(1, PageType::Data);
    let mut bytes = page.to_bytes();
    bytes[100] ^= 0xFF;
    assert_eq!(Page::from_bytes(&bytes), Err(PageError::ChecksumMismatch));
}

#[test]
fn page_invalid_length() {
    assert_eq!(Page::from_bytes(&[0u8; 100]), Err(PageError::InvalidLength(100)));
}

#[test]
fn page_invalid_magic() {
    let page = Page::new(1, PageType::Data);
    let mut bytes = page.to_bytes();
    bytes[0] ^= 0xFF;
    assert_eq!(Page::from_bytes(&bytes), Err(PageError::InvalidMagic));
}

#[test]
fn page_type_round_trip() {
    for ty in [PageType::Free, PageType::Data, PageType::Index, PageType::Superblock] {
        assert_eq!(PageType::from_u8(ty.to_u8()).unwrap(), ty);
    }
    assert_eq!(PageType::from_u8(99), Err(PageError::UnknownPageType(99)));
}

#[test]
fn page_checksum_is_the_crc_of_the_image_with_zeroed_checksums() {
    let page = Page::new(3, PageType::Data);
    let bytes = page.to_bytes();
    let mut zeroed = bytes.clone();
    for b in &mut zeroed[20..24] {
        *b = 0;
    }
    for b in &mut zeroed[PAGE_SIZE - 4..] {
        *b = 0;
    }
    let crc = crc32fast::hash(&zeroed);
    assert_eq!(Page::compute_checksum(&bytes), crc);
    assert_ne!(Page::compute_checksum(&bytes), 0);
    assert_eq!(u32::from_le_bytes([bytes[20], bytes[21], bytes[22], bytes[23]]), crc);
}

#[test]
fn row_and_schema_are_constructible() {
    let row = Row { values: vec![Value::I64(1), Value::Bytes(b"ferrumdb".to_vec())] };
    let schema = Schema {
        columns: vec!["id".into(), "name".into()],
        types: vec![ColumnType::I64, ColumnType::Bytes],
        primary_key: Some(0),
    };
    assert_eq!(row.values.len(), schema.columns.len());
}

fn schema_i64_and_bytes() -> Schema {
    Schema {
        columns: vec!["id".into(), "name".into()],
        types: vec![ColumnType::I64, ColumnType::Bytes],
        primary_key: Some(0),
    }
}

#[test]
fn round_trip_mixed_columns() {
    let schema = schema_i64_and_bytes();
    let row = Row { values: vec![Value::I64(42), Value::Bytes(b"ferrumdb".to_vec())] };
    let bytes = encode_row(&row, &schema).unwrap();
    let decoded = decode_row(&bytes, &schema).unwrap();
    assert_eq!(row, decoded);
}

#[test]
fn null_bitmap_round_trip() {
    let schema = Schema {
        columns: vec!["a".into(), "b".into(), "c".into(), "d".into(), "e".into()],
        types: vec![ColumnType::I64; 5],
        primary_key: None,
    };
    let row = Row {
        values: vec![Value::Null, Value::I64(7), Value::Null, Value::I64(-1), Value::Null],
    };
    let bytes = encode_row(&row, &schema).unwrap();
    let decoded = decode_row(&bytes, &schema).unwrap();
    assert_eq!(row, decoded);
}

#[test]
fn i64_little_endian() {
    let schema =
        Schema { columns: vec!["x".into()], types: vec![ColumnType::I64], primary_key: None };
    let row = Row { values: vec![Value::I64(i64::MIN)] };
    let bytes = encode_row(&row, &schema).unwrap();
    assert_eq!(&bytes[..1], &[0]);
    assert_eq!(&bytes[1..], &i64::MIN.to_le_bytes());
}

#[test]
fn bytes_length_prefix_round_trip() {
    let schema =
        Schema { columns: vec!["s".into()], types: vec![ColumnType::Bytes], primary_key: None };
    let payload = vec![0u8, 1, 2, 3, 255];
    let row = Row { values: vec![Value::Bytes(payload.clone())] };
    let bytes = encode_row(&row, &schema).unwrap();
    let decoded = decode_row(&bytes, &schema).unwrap();
    assert_eq!(decoded.values[0], Value::Bytes(payload));
}

#[test]
fn row_arity_mismatch_returns_error() {
    let schema = Schema {
        columns: vec!["a".into(), "b".into()],
        types: vec![ColumnType::I64, ColumnType::I64],
        primary_key: None,
    };
    let row = Row { values: vec![Value::I64(1)] };
    assert!(matches!(encode_row(&row, &schema), Err(PageError::EncodingError(_))));
}

#[test]
fn type_mismatch_returns_error() {
    let schema =
        Schema { columns: vec!["x".into()], types: vec![ColumnType::I64], primary_key: None };
    let row = Row { values: vec![Value::Bytes(b"nope".to_vec())] };
    assert!(matches!(encode_row(&row, &schema), Err(PageError::EncodingError(_))));
}

#[test]
fn row_truncated_input_returns_error() {
    let schema = schema_i64_and_bytes();
    let err = decode_row(&[0u8; 2], &schema);
    assert!(matches!(err, Err(PageError::EncodingError(_))));
}

#[test]
fn bytes_overflow_returns_error() {
    let schema =
        Schema { columns: vec!["b".into()], types: vec![ColumnType::Bytes], primary_key: None };
    let mut bytes = vec![0u8];
    bytes.extend_from_slice(&1000u32.to_le_bytes());
    bytes.extend_from_slice(&[0xAA, 0xBB]);
    let err = decode_row(&bytes, &schema);
    assert!(matches!(err, Err(PageError::EncodingError(_))));
}

#[test]
fn any_column_cannot_be_decoded() {
    let schema = Schema::from_names(vec!["a".to_string()]);
    assert_eq!(schema.types, vec![ColumnType::Any]);
    let row = Row { values: vec![Value::I64(5)] };
    let bytes = encode_row(&row, &schema).unwrap();
    assert_eq!(bytes, vec![0, 5, 0, 0, 0, 0, 0, 0, 0]);
    assert!(matches!(decode_row(&bytes, &schema), Err(PageError::EncodingError(_))));
}

#[test]
fn empty_page_round_trip() {
    let sp = SlottedPage::new(7, PageType::Data);
    let rt = sp.round_trip().unwrap();
    assert_eq!(sp, rt);
    assert_eq!(rt.slot_count(), 0);
}

#[test]
fn insert_and_get_record() {
    let mut sp = SlottedPage::new(1, PageType::Data);
    sp.insert(0, b"hello").unwrap();
    sp.insert(1, b"world").unwrap();
    assert_eq!(sp.get(0), Some(&b"hello"[..]));
    assert_eq!(sp.get(1), Some(&b"world"[..]));
    assert_eq!(sp.slot_count(), 2);

    let rt = sp.round_trip().unwrap();
    assert_eq!(rt.get(0), Some(&b"hello"[..]));
    assert_eq!(rt.get(1), Some(&b"world"[..]));
}

#[test]
fn overwrite_existing_slot() {
    let mut sp = SlottedPage::new(1, PageType::Data);
    sp.insert(0, b"abc").unwrap();
    sp.insert(0, b"xyz").unwrap();
    assert_eq!(sp.get(0), Some(&b"xyz"[..]));
    assert_eq!(sp.slot_count(), 1);
}

#[test]
fn delete_creates_tombstone() {
    let mut sp = SlottedPage::new(1, PageType::Data);
    sp.insert(0, b"a").unwrap();
    sp.insert(1, b"b").unwrap();
    sp.delete(0).unwrap();
    assert_eq!(sp.get(0), None);
    assert_eq!(sp.get(1), Some(&b"b"[..]));

    let rt = sp.round_trip().unwrap();
    assert_eq!(rt.get(0), None);
    assert_eq!(rt.get(1), Some(&b"b"[..]));
}

#[test]
fn page_full_returns_error() {
    let mut sp = SlottedPage::new(1, PageType::Data);
    let huge = vec![0u8; PAGE_USER_DATA_SIZE];
    let err = sp.insert(0, &huge);
    assert!(matches!(err, Err(PageError::PageFull)));
}

#[test]
fn slot_out_of_range() {
    let mut sp = SlottedPage::new(1, PageType::Data);
    let err = sp.insert(5, b"x");
    assert!(matches!(err, Err(PageError::SlotOutOfRange(5))));
}

#[test]
fn many_records_with_growth() {
    let mut sp = SlottedPage::new(1, PageType::Index);
    for i in 0..100u32 {
        let bytes = (i as u64).to_le_bytes();
        sp.insert(i as usize, &bytes).unwrap();
    }
    assert_eq!(sp.slot_count(), 100);
    let rt = sp.round_trip().unwrap();
    for i in 0..100u32 {
        let bytes = (i as u64).to_le_bytes();
        assert_eq!(rt.get(i as usize), Some(&bytes[..]));
    }
}

#[test]
fn wrong_page_type_rejected() {
    let page = Page::new(1, PageType::Free);
    let err = SlottedPage::from_page(&page);
    assert!(matches!(err, Err(PageError::EncodingError(_))));
}

#[test]
fn truncate_then_get_returns_none() {
    let mut sp = SlottedPage::new(1, PageType::Data);
    sp.insert(0, b"alpha").unwrap();
    sp.delete(0).unwrap();
    assert_eq!(sp.get(0), None);
    let rt = sp.round_trip().unwrap();
    assert_eq!(rt.get(0), None);
}

#[test]
fn i64_order_is_preserved() {
    let mut values = [i64::MIN, -1000, -1, 0, 1, 42, i64::MAX];
    let mut encs: Vec<Vec<u8>> = values.iter().map(|v| encode_key(&Value::I64(*v))).collect();
    assert!(encs.windows(2).all(|w| w[0] < w[1]));
    values.sort_unstable();
    encs.sort_unstable();
    let expected: Vec<Vec<u8>> = values.iter().map(|v| encode_key(&Value::I64(*v))).collect();
    assert_eq!(encs, expected);
}

#[test]
fn i64_extremes_round_trip() {
    for v in [i64::MIN, i64::MAX, 0, -1, 1] {
        let enc = encode_key(&Value::I64(v));
        assert_eq!(enc.len(), 9);
        assert_eq!(enc[0], TAG_I64);
        let (decoded, consumed) = decode_key(&enc, ColumnType::I64).unwrap();
        assert_eq!(decoded, Value::I64(v));
        assert_eq!(consumed, 9);
    }
}

#[test]
fn bytes_escape_and_terminator() {
    assert_eq!(encode_key(&Value::Bytes(vec![])), vec![TAG_BYTES, 0x00, 0x00]);
    assert_eq!(encode_key(&Value::Bytes(vec![0x00])), vec![TAG_BYTES, 0x00, 0xFF, 0x00, 0x00]);
    assert_eq!(encode_key(&Value::Bytes(b"ab".to_vec())), vec![TAG_BYTES, b'a', b'b', 0x00, 0x00]);
}

#[test]
fn tagged_encoding_is_prefix_free_across_types() {
    let min = encode_key(&Value::I64(i64::MIN));
    assert_eq!(&min[1..], &[0u8; 8]);
    assert_eq!(&min[..1], &[TAG_I64]);
    let null = encode_key(&Value::Null);
    assert_eq!(null, vec![0x00]);
    assert!(!min.starts_with(&null));
    assert!(!null.starts_with(&min));
    let a = encode_key(&Value::Bytes(b"a".to_vec()));
    let ab = encode_key(&Value::Bytes(b"ab".to_vec()));
    assert!(!ab.starts_with(&a));
    assert!(!a.starts_with(&ab));
}

#[test]
fn bytes_order_is_preserved() {
    let vals = [
        Vec::new(),
        vec![0x00],
        vec![0x00, 0x00],
        vec![0x01],
        b"a".to_vec(),
        b"ab".to_vec(),
        b"b".to_vec(),
    ];
    let mut encs: Vec<Vec<u8>> = vals.iter().map(|v| encode_key(&Value::Bytes(v.clone()))).collect();
    encs.sort_unstable();
    let expected: Vec<Vec<u8>> = vals.iter().map(|v| encode_key(&Value::Bytes(v.clone()))).collect();
    assert_eq!(encs, expected);
}

#[test]
fn bytes_round_trip_including_zeros() {
    let payload = vec![0u8, 1, 0, 2, 0xFF, 0, 255];
    let enc = encode_key(&Value::Bytes(payload.clone()));
    let (decoded, consumed) = decode_key(&enc, ColumnType::Bytes).unwrap();
    assert_eq!(decoded, Value::Bytes(payload));
    assert_eq!(consumed, enc.len());
}

#[test]
fn null_round_trip_by_type() {
    for col in [ColumnType::I64, ColumnType::Bytes] {
        let enc = encode_key(&Value::Null);
        assert_eq!(enc, vec![0x00]);
        let (decoded, consumed) = decode_key(&enc, col).unwrap();
        assert_eq!(decoded, Value::Null);
        assert_eq!(consumed, 1);
    }
}

#[test]
fn truncated_i64_and_bytes_errors() {
    assert!(matches!(decode_key(&[TAG_I64], ColumnType::I64), Err(PageError::EncodingError(_))));
    assert!(matches!(
        decode_key(&[TAG_BYTES, 0x00, 0xFE], ColumnType::Bytes),
        Err(PageError::EncodingError(_))
    ));
    assert!(matches!(
        decode_key(&[TAG_BYTES, 0x01], ColumnType::Bytes),
        Err(PageError::EncodingError(_))
    ));
}

#[test]
fn tag_type_mismatch_errors() {
    assert!(matches!(
        decode_key(&encode_key(&Value::I64(1)), ColumnType::Bytes),
        Err(PageError::EncodingError(_))
    ));
    assert!(matches!(
        decode_key(&encode_key(&Value::Bytes(vec![1])), ColumnType::I64),
        Err(PageError::EncodingError(_))
    ));
}

#[test]
fn upper_bound_exceeds_all_i64_encodings() {
    let bound = upper_bound(ColumnType::I64);
    assert_eq!(bound, vec![TAG_BYTES]);
    let max_enc = encode_key(&Value::I64(i64::MAX));
    assert!(max_enc.as_slice() < bound.as_slice());
    let min_enc = encode_key(&Value::I64(i64::MIN));
    assert!(min_enc.as_slice() < bound.as_slice());
}

#[test]
fn upper_bound_bytes_is_reasonable() {
    let bound = upper_bound(ColumnType::Bytes);
    assert!(bound.len() >= 8);
    let enc = encode_key(&Value::Bytes(vec![0xFF; 32]));
    assert!(enc.as_slice() < bound.as_slice());
}

#[test]
fn successor_is_exclusive_prefix_bound() {
    assert_eq!(successor(b"ab").unwrap(), b"ac".to_vec());
    assert_eq!(successor(b"a\xff").unwrap(), b"b".to_vec());
    assert_eq!(successor(b"\xff"), None);
    assert_eq!(successor(b"\xff\xff"), None);
    for p in [b"ab".as_slice(), b"a\xff".as_slice(), b"abc".as_slice()] {
        let succ = successor(p).unwrap();
        let ext = [p, b"\xff\xff\xff"].concat();
        assert!(ext.as_slice() < succ.as_slice());
    }
}

#[test]
fn prefix_scan_bound_captures_all_extensions() {
    for p in [vec![], vec![0x00], vec![0xFF], b"ab".to_vec(), vec![0xFF, 0xFF]] {
        let end = [p.clone(), upper_bound(ColumnType::I64)].concat();
        let pk_exts = [i64::MIN, 0, i64::MAX];
        for pk in pk_exts {
            let key = [p.clone(), encode_key(&Value::I64(pk))].concat();
            assert!(
                key.as_slice() < end.as_slice(),
                "key {:?} not below end {:?} for prefix {:?}",
                key,
                end,
                p
            );
        }
    }
}

#[test]
fn secondary_key_suffix_orders_by_pk() {
    let idx = [Value::I64(1)];
    let pk_low = Value::I64(10);
    let pk_high = Value::I64(20);
    let low = encode_secondary_key(&idx, &pk_low);
    let high = encode_secondary_key(&idx, &pk_high);
    assert!(low < high);
    let idx2 = [Value::I64(2)];
    assert!(encode_secondary_key(&idx, &pk_low) < encode_secondary_key(&idx2, &pk_low));
}

#[test]
fn encode_pk_requires_primary_key() {
    let schema =
        Schema { columns: vec!["id".into()], types: vec![ColumnType::I64], primary_key: Some(0) };
    let row = Row { values: vec![Value::I64(7)] };
    assert_eq!(encode_pk(&row, &schema).unwrap(), encode_key(&Value::I64(7)));

    let no_pk =
        Schema { columns: vec!["id".into()], types: vec![ColumnType::I64], primary_key: None };
    assert!(matches!(encode_pk(&row, &no_pk), Err(PageError::EncodingError(_))));
}

#[test]
fn i64_key_encoding_is_exact() {
    assert_eq!(encode_key(&Value::I64(0)), vec![TAG_I64, 0x80, 0, 0, 0, 0, 0, 0, 0]);
    assert_eq!(encode_key(&Value::I64(-1)), vec![TAG_I64, 0x7F, 0xFF, 0xFF, 0xFF, 0xFF, 0xFF, 0xFF, 0xFF]);
}

#[test]
fn full_page_round_trip() {
    let mut sp = SlottedPage::new(1, PageType::Data);
    sp.insert(0, &vec![7u8; PAGE_USER_DATA_SIZE - 10]).unwrap();
    let rt = sp.round_trip().unwrap();
    assert_eq!(rt, sp);
    assert_eq!(rt.get(0), Some(&vec![7u8; PAGE_USER_DATA_SIZE - 10][..]));
}

#[test]
fn full_page_round_trip_after_deleting_its_only_slot() {
    let mut sp = SlottedPage::new(1, PageType::Data);
    sp.insert(0, &vec![7u8; PAGE_USER_DATA_SIZE - 10]).unwrap();
    sp.delete(0).unwrap();
    let rt = sp.round_trip().unwrap();
    assert_eq!(rt, sp);
    assert_eq!(rt.get(0), None);
}

#[test]
fn page_error_messages() {
    assert_eq!(PageError::InvalidLength(5).message(), "invalid page length: expected 16384, got 5");
    assert_eq!(PageError::InvalidMagic.message(), "invalid page magic");
    assert_eq!(PageError::UnknownPageType(200).message(), "unknown page type: 200");
}

#[test]
fn secondary_keys_sort_by_index_values_then_primary_key() {
    let k = |iv: Vec<Value>, pk: i64| encode_secondary_key(&iv, &Value::I64(pk));
    // equal index values: primary key decides
    assert!(k(vec![Value::I64(5)], 1) < k(vec![Value::I64(5)], 2));
    // index values decide before the primary key
    assert!(k(vec![Value::I64(4)], 100) < k(vec![Value::I64(5)], -100));
    assert!(k(vec![Value::Null], 9) < k(vec![Value::I64(i64::MIN)], 0));
    // a byte string that starts another still sorts first, whatever follows
    let a = k(vec![Value::Bytes(b"a".to_vec())], i64::MAX);
    let ab = k(vec![Value::Bytes(b"ab".to_vec())], i64::MIN);
    assert!(a < ab);
    // two index columns compare left to right
    assert!(
        k(vec![Value::I64(1), Value::Bytes(b"z".to_vec())], 0)
            < k(vec![Value::I64(2), Value::Bytes(b"a".to_vec())], 0)
    );
}

#[test]
fn key_and_row_errors_carry_their_numbers() {
    assert_eq!(
        decode_key(&[0x07], ColumnType::Any),
        Err(PageError::EncodingError("unknown key tag: 0x07".to_string()))
    );
    assert_eq!(
        decode_key(&[TAG_BYTES, 0x00, 0x1A], ColumnType::Bytes),
        Err(PageError::EncodingError("invalid bytes escape: 0x00 0x1A".to_string()))
    );
    assert_eq!(
        decode_key(&[TAG_I64, 1, 2], ColumnType::I64),
        Err(PageError::EncodingError("i64 key needs 9 bytes, got 3".to_string()))
    );
    let schema = schema_i64_and_bytes();
    assert_eq!(
        decode_row(&[], &schema),
        Err(PageError::EncodingError("row bytes too short: 0 < bitmap length 1".to_string()))
    );
    assert_eq!(
        decode_row(&[0, 1, 2], &schema),
        Err(PageError::EncodingError("column 0: need 8 bytes for I64, only 2 left".to_string()))
    );
    let short = Row { values: vec![Value::I64(1)] };
    assert_eq!(
        encode_row(&short, &schema),
        Err(PageError::EncodingError("row has 1 values but schema expects 2".to_string()))
    );
}

#[test]
fn decimal_and_hex_text() {
    assert_eq!(decimal(0), "0");
    assert_eq!(decimal(907), "907");
    assert_eq!(decimal(u64::MAX), "18446744073709551615");
    assert_eq!(hex_byte(0xAB), "AB");
    assert_eq!(hex_byte(5), "05");
}
