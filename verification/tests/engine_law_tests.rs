use ferrumdb::engine::{EngineError, FerrumEngine, IndexMeta, RangeBound, StorageEngine};
use ferrumdb::page::{ColumnType, Row, Schema, Value};

fn schema() -> Schema {
    Schema {
        columns: vec!["id".into(), "name".into(), "age".into()],
        types: vec![ColumnType::I64, ColumnType::Bytes, ColumnType::I64],
        primary_key: Some(0),
    }
}

fn person(id: i64, age: i64) -> Row {
    Row {
        values: vec![Value::I64(id), Value::Bytes(format!("p{id}").into_bytes()), Value::I64(age)],
    }
}

#[test]
fn every_stored_row_reads_back_by_key_and_indexes() {
    let mut engine = FerrumEngine::open_or_create(None).unwrap();
    engine.create_table("people", schema()).unwrap();
    engine
        .create_index("people", IndexMeta { name: "by_name".into(), columns: vec![1], is_unique: true })
        .unwrap();
    engine
        .create_index("people", IndexMeta { name: "by_age".into(), columns: vec![2], is_unique: false })
        .unwrap();
    let n = 400i64;
    for step in 0..n {
        let id = (step * 37) % n - 200;
        engine.insert("people", person(id, id.rem_euclid(10))).unwrap();
    }
    for id in -200..200i64 {
        assert_eq!(engine.get_by_pk("people", Value::I64(id)).unwrap(), Some(person(id, id.rem_euclid(10))));
        let by_name = engine
            .get_by_index("people", "by_name", Value::Bytes(format!("p{id}").into_bytes()))
            .unwrap();
        assert_eq!(by_name, Some(person(id, id.rem_euclid(10))));
    }
    assert_eq!(engine.get_by_pk("people", Value::I64(500)).unwrap(), None);
    let all = engine.scan("people", RangeBound::full()).unwrap();
    let ids: Vec<i64> = all
        .iter()
        .map(|r| match r.values[0] {
            Value::I64(x) => x,
            _ => panic!("id column"),
        })
        .collect();
    assert_eq!(ids, (-200..200i64).collect::<Vec<i64>>());
    let sevens = engine
        .scan_index(
            "people",
            "by_age",
            RangeBound { start: Some(Value::I64(7)), end: Some(Value::I64(8)) },
        )
        .unwrap();
    assert_eq!(sevens.len(), 40);
    assert!(sevens.iter().all(|r| r.values[2] == Value::I64(7)));
}

#[test]
fn index_created_later_starts_empty() {
    let mut engine = FerrumEngine::open_or_create(None).unwrap();
    engine.create_table("people", schema()).unwrap();
    engine.insert("people", person(1, 30)).unwrap();
    engine
        .create_index("people", IndexMeta { name: "by_age".into(), columns: vec![2], is_unique: false })
        .unwrap();
    assert_eq!(engine.get_by_index("people", "by_age", Value::I64(30)).unwrap(), None);
    engine.insert("people", person(2, 30)).unwrap();
    assert_eq!(engine.get_by_index("people", "by_age", Value::I64(30)).unwrap(), Some(person(2, 30)));
}

#[test]
fn refused_insert_changes_nothing() {
    let mut engine = FerrumEngine::open_or_create(None).unwrap();
    engine.create_table("people", schema()).unwrap();
    engine
        .create_index("people", IndexMeta { name: "by_name".into(), columns: vec![1], is_unique: true })
        .unwrap();
    engine.insert("people", person(1, 30)).unwrap();
    let before = engine.image();
    let clash = Row {
        values: vec![Value::I64(2), Value::Bytes(b"p1".to_vec()), Value::I64(40)],
    };
    assert!(matches!(engine.insert("people", clash), Err(EngineError::DuplicateKey)));
    assert!(matches!(engine.insert("people", person(1, 50)), Err(EngineError::DuplicateKey)));
    assert_eq!(engine.image(), before);
    assert_eq!(engine.get_by_pk("people", Value::I64(2)).unwrap(), None);
    assert_eq!(engine.get_by_pk("people", Value::I64(1)).unwrap(), Some(person(1, 30)));
}
