use ferrumdb::btree::PersistentBtree;
use ferrumdb::engine::{
    validate_index_meta, EngineError, FerrumEngine, IndexMeta, RangeBound, StorageEngine,
    TableCatalog, TransactionId,
};
use ferrumdb::page::{
    decode_key, decode_row, encode_index_key, encode_key, upper_bound, ColumnType, Row, Schema,
    Value,
};
use ferrumdb::space::Space;

/// An engine that supports nothing.
struct StubEngine;

impl StorageEngine for StubEngine {
    fn create_table(&mut self, _: &str, _: Schema) -> Result<(), EngineError> {
        Err(EngineError::Unsupported("create_table".into()))
    }
    fn drop_table(&mut self, _: &str) -> Result<(), EngineError> {
        Err(EngineError::Unsupported("drop_table".into()))
    }
    fn insert(&mut self, _: &str, _: Row) -> Result<(), EngineError> {
        Err(EngineError::Unsupported("insert".into()))
    }
    fn update(&mut self, _: &str, _: Value, _: Row) -> Result<(), EngineError> {
        Err(EngineError::Unsupported("update".into()))
    }
    fn delete(&mut self, _: &str, _: Value) -> Result<(), EngineError> {
        Err(EngineError::Unsupported("delete".into()))
    }
    fn get_by_pk(&self, _: &str, _: Value) -> Result<Option<Row>, EngineError> {
        Err(EngineError::Unsupported("get_by_pk".into()))
    }
    fn scan(&self, _: &str, _: RangeBound) -> Result<Vec<Row>, EngineError> {
        Err(EngineError::Unsupported("scan".into()))
    }
    fn create_index(&mut self, _: &str, _: IndexMeta) -> Result<(), EngineError> {
        Err(EngineError::Unsupported("create_index".into()))
    }
    fn get_by_index(&self, _: &str, _: &str, _: Value) -> Result<Option<Row>, EngineError> {
        Err(EngineError::Unsupported("get_by_index".into()))
    }
    fn scan_index(&self, _: &str, _: &str, _: RangeBound) -> Result<Vec<Row>, EngineError> {
        Err(EngineError::Unsupported("scan_index".into()))
    }
    fn begin(&mut self) -> Result<TransactionId, EngineError> {
        Err(EngineError::Unsupported("begin".into()))
    }
    fn commit(&mut self, _: TransactionId) -> Result<(), EngineError> {
        Err(EngineError::Unsupported("commit".into()))
    }
    fn rollback(&mut self, _: TransactionId) -> Result<(), EngineError> {
        Err(EngineError::Unsupported("rollback".into()))
    }
}

fn assert_object_safe(_: &dyn StorageEngine) {}

#[test]
fn storage_engine_trait_is_object_safe_and_implementable() {
    let mut engine = StubEngine;
    let err = engine
        .create_table("t", Schema { columns: vec![], types: vec![], primary_key: None })
        .unwrap_err();
    assert!(matches!(err, EngineError::Unsupported(_)));
}

#[test]
fn engine_trait_is_accessible_from_sql_crate() {
    assert_object_safe(&StubEngine);
}

#[test]
fn range_bound_full_scan() {
    let range = RangeBound::full();
    assert!(range.start.is_none());
    assert!(range.end.is_none());
}

fn user_schema() -> Schema {
    Schema {
        columns: vec!["id".into(), "name".into()],
        types: vec![ColumnType::I64, ColumnType::Bytes],
        primary_key: Some(0),
    }
}

fn row(id: i64, name: &str) -> Row {
    Row { values: vec![Value::I64(id), Value::Bytes(name.as_bytes().to_vec())] }
}

fn tmp_engine() -> FerrumEngine {
    FerrumEngine::open_or_create(None).expect("open_or_create")
}

fn set_up(name_idx: &str, is_unique: bool) -> FerrumEngine {
    let mut engine = tmp_engine();
    engine.create_table("users", user_schema()).unwrap();
    engine
        .create_index("users", IndexMeta { name: name_idx.into(), columns: vec![1], is_unique })
        .unwrap();
    engine
}

#[test]
fn get_by_index_point_lookup() {
    let mut engine = set_up("idx_name", false);
    engine.insert("users", row(1, "alice")).unwrap();
    engine.insert("users", row(2, "bob")).unwrap();

    let got = engine
        .get_by_index("users", "idx_name", Value::Bytes(b"alice".to_vec()))
        .unwrap()
        .expect("row for alice");
    assert_eq!(got, row(1, "alice"));

    let missing = engine.get_by_index("users", "idx_name", Value::Bytes(b"carol".to_vec())).unwrap();
    assert_eq!(missing, None);
}

#[test]
fn scan_index_range_with_lookup() {
    let mut engine = set_up("idx_name", false);
    for (id, name) in [(3, "charlie"), (1, "alice"), (2, "bob")] {
        engine.insert("users", row(id, name)).unwrap();
    }
    let range = RangeBound {
        start: Some(Value::Bytes(b"a".to_vec())),
        end: Some(Value::Bytes(b"c".to_vec())),
    };
    let rows: Vec<Row> = engine.scan_index("users", "idx_name", range).unwrap();
    assert_eq!(rows, vec![row(1, "alice"), row(2, "bob")]);
}

#[test]
fn multiple_indexes_consistent_for_same_pk() {
    let mut engine = tmp_engine();
    engine.create_table("users", user_schema()).unwrap();
    engine
        .create_index(
            "users",
            IndexMeta { name: "idx_name".into(), columns: vec![1], is_unique: false },
        )
        .unwrap();
    engine
        .create_index(
            "users",
            IndexMeta { name: "idx_id_name".into(), columns: vec![0, 1], is_unique: false },
        )
        .unwrap();
    engine.insert("users", row(7, "dave")).unwrap();

    let via_name = engine
        .get_by_index("users", "idx_name", Value::Bytes(b"dave".to_vec()))
        .unwrap()
        .expect("row via idx_name");
    assert_eq!(via_name, row(7, "dave"));

    let via_composite = engine
        .get_by_index("users", "idx_id_name", Value::I64(7))
        .unwrap()
        .expect("row via idx_id_name");
    assert_eq!(via_composite, row(7, "dave"));
}

#[test]
fn storage_persistence_reopen() {
    let (clustered_root, index_roots);
    let image = {
        let mut engine = FerrumEngine::open_or_create(None).unwrap();
        engine.create_table("users", user_schema()).unwrap();
        engine
            .create_index(
                "users",
                IndexMeta { name: "idx_name".into(), columns: vec![1], is_unique: false },
            )
            .unwrap();
        for i in 0..50 {
            engine.insert("users", row(i, &format!("user{i:03}"))).unwrap();
        }
        (clustered_root, index_roots) = engine.root_ids("users").unwrap();
        engine.image()
    };
    let idx_root = index_roots.iter().find(|(name, _)| name == "idx_name").expect("idx_name root").1;

    let mut space = Space::open(&image).unwrap();
    let clustered = PersistentBtree::open(&mut space, clustered_root).unwrap();
    let pk_bytes = encode_key(&Value::I64(5));
    let row_bytes = clustered.get(&mut space, &pk_bytes).unwrap().expect("row 5");
    let decoded = decode_row(&row_bytes, &user_schema()).unwrap();
    assert_eq!(decoded, row(5, "user005"));

    let secondary = PersistentBtree::open(&mut space, idx_root).unwrap();
    let p = encode_index_key(&[Value::Bytes(b"user005".to_vec())]);
    let end = [p.clone(), upper_bound(ColumnType::I64)].concat();
    let hits = secondary.scan_range(&mut space, &p, &end).unwrap();
    assert_eq!(hits.len(), 1);
    let (_, stored_pk) = &hits[0];
    let (pk_val, _) = decode_key(stored_pk, ColumnType::I64).unwrap();
    assert_eq!(pk_val, Value::I64(5));
}

#[test]
fn unique_index_conflict_no_partial_write() {
    let mut engine = set_up("uniq_name", true);
    engine.insert("users", row(1, "alice")).unwrap();

    let err = engine.insert("users", row(2, "alice")).unwrap_err();
    assert!(matches!(err, EngineError::DuplicateKey), "got {err:?}");

    assert_eq!(engine.get_by_pk("users", Value::I64(2)).unwrap(), None);
    let via_index = engine
        .get_by_index("users", "uniq_name", Value::Bytes(b"alice".to_vec()))
        .unwrap()
        .expect("alice still there");
    assert_eq!(via_index, row(1, "alice"));

    engine.insert("users", row(2, "bob")).unwrap();
    assert_eq!(engine.get_by_pk("users", Value::I64(2)).unwrap(), Some(row(2, "bob")));
}

#[test]
fn primary_key_conflict_duplicate() {
    let mut engine = set_up("idx_name", false);
    engine.insert("users", row(1, "alice")).unwrap();
    let err = engine.insert("users", row(1, "bob")).unwrap_err();
    assert!(matches!(err, EngineError::DuplicateKey), "got {err:?}");
    assert_eq!(engine.get_by_pk("users", Value::I64(1)).unwrap(), Some(row(1, "alice")));
}

#[test]
fn non_unique_index_shared_key_ordered() {
    let mut engine = set_up("idx_name", false);
    engine.insert("users", row(5, "dup")).unwrap();
    engine.insert("users", row(2, "dup")).unwrap();
    engine.insert("users", row(9, "dup")).unwrap();

    let rows: Vec<Row> = engine.scan_index("users", "idx_name", RangeBound::full()).unwrap();
    let expected = vec![row(2, "dup"), row(5, "dup"), row(9, "dup")];
    assert_eq!(rows, expected);

    let first = engine
        .get_by_index("users", "idx_name", Value::Bytes(b"dup".to_vec()))
        .unwrap()
        .expect("first dup row");
    assert_eq!(first, row(2, "dup"));
}

#[test]
fn get_by_pk_uses_clustered_only() {
    let mut engine = set_up("idx_name", false);
    engine.insert("users", row(42, "eve")).unwrap();
    let got = engine.get_by_pk("users", Value::I64(42)).unwrap().expect("row 42");
    assert_eq!(got, row(42, "eve"));
    assert_eq!(engine.get_by_pk("users", Value::I64(999)).unwrap(), None);
}

#[test]
fn clustered_scan_ordered_by_pk() {
    let mut engine = set_up("idx_name", false);
    for id in [3, 1, 2] {
        engine.insert("users", row(id, "n")).unwrap();
    }
    let rows: Vec<Row> = engine.scan("users", RangeBound::full()).unwrap();
    assert_eq!(rows, vec![row(1, "n"), row(2, "n"), row(3, "n")]);

    let range = RangeBound { start: Some(Value::I64(2)), end: Some(Value::I64(3)) };
    let rows: Vec<Row> = engine.scan("users", range).unwrap();
    assert_eq!(rows, vec![row(2, "n")]);
}

#[test]
fn unsupported_methods_return_unsupported() {
    let mut engine = tmp_engine();
    engine.create_table("users", user_schema()).unwrap();
    assert!(matches!(
        engine.update("users", Value::I64(1), row(1, "x")),
        Err(EngineError::Unsupported(_))
    ));
    assert!(matches!(engine.delete("users", Value::I64(1)), Err(EngineError::Unsupported(_))));
    assert!(matches!(engine.drop_table("users"), Err(EngineError::Unsupported(_))));
    assert!(matches!(engine.begin(), Err(EngineError::Unsupported(_))));
}

#[test]
fn missing_table_is_reported() {
    let mut engine = tmp_engine();
    assert!(matches!(engine.insert("nope", row(1, "a")), Err(EngineError::TableNotFound(_))));
    assert!(matches!(engine.get_by_pk("nope", Value::I64(1)), Err(EngineError::TableNotFound(_))));
    assert!(matches!(engine.scan("nope", RangeBound::full()), Err(EngineError::TableNotFound(_))));
}

#[test]
fn table_without_primary_key_is_rejected() {
    let mut engine = tmp_engine();
    let schema = Schema { columns: vec!["a".into()], types: vec![ColumnType::I64], primary_key: None };
    assert!(matches!(engine.create_table("t", schema), Err(EngineError::Internal(_))));
}

#[test]
fn duplicate_table_name_is_rejected() {
    let mut engine = tmp_engine();
    engine.create_table("users", user_schema()).unwrap();
    assert!(engine.create_table("users", user_schema()).is_err());
}

#[test]
fn arity_mismatch_on_insert_is_internal() {
    let mut engine = set_up("idx_name", false);
    let short = Row { values: vec![Value::I64(1)] };
    assert!(matches!(engine.insert("users", short), Err(EngineError::Internal(_))));
}

#[test]
fn engine_reopens_from_image() {
    let mut engine = tmp_engine();
    engine.create_table("users", user_schema()).unwrap();
    engine.insert("users", row(1, "a")).unwrap();
    let pages = engine.page_count();
    let image = engine.image();
    let reopened = FerrumEngine::open_or_create(Some(&image)).unwrap();
    assert_eq!(reopened.page_count(), pages);
}

#[test]
fn index_meta_validation() {
    let schema = user_schema();
    let ok = IndexMeta { name: "i".into(), columns: vec![1], is_unique: false };
    assert!(validate_index_meta(&ok, &schema).is_ok());
    let empty = IndexMeta { name: "i".into(), columns: vec![], is_unique: false };
    assert!(matches!(validate_index_meta(&empty, &schema), Err(EngineError::Internal(_))));
    let beyond = IndexMeta { name: "i".into(), columns: vec![5], is_unique: false };
    assert!(matches!(validate_index_meta(&beyond, &schema), Err(EngineError::Internal(_))));
}

#[test]
fn catalog_lookup() {
    let catalog = TableCatalog::new();
    assert!(matches!(catalog.get("x"), Err(EngineError::TableNotFound(_))));
}

#[test]
fn create_table_refuses_inconsistent_schemas() {
    let mut engine = tmp_engine();
    let pk_out = Schema {
        columns: vec!["id".into()],
        types: vec![ColumnType::I64],
        primary_key: Some(1),
    };
    assert!(matches!(engine.create_table("a", pk_out), Err(EngineError::Internal(_))));
    let few_types = Schema {
        columns: vec!["id".into(), "name".into()],
        types: vec![ColumnType::I64],
        primary_key: Some(0),
    };
    assert!(matches!(engine.create_table("b", few_types), Err(EngineError::Internal(_))));
    assert!(engine.create_table("c", user_schema()).is_ok());
}

#[test]
fn catalog_index_names_the_missing_table() {
    let catalog = TableCatalog::new();
    match catalog.index("nope", "ix") {
        Err(EngineError::TableNotFound(name)) => assert_eq!(name, "nope"),
        _ => panic!("expected TableNotFound"),
    }
}
