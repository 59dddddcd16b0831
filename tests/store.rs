use rust_db::datatype::check_value_matches;
use rust_db::{Database, DatabaseError, NumOrder};

fn pairs(items: &[(&str, &str)]) -> Vec<(String, String)> {
    items.iter().map(|(k, v)| (k.to_string(), v.to_string())).collect()
}

fn num_cmp(a: &str, b: &str) -> NumOrder {
    match (a.parse::<f64>(), b.parse::<f64>()) {
        (Ok(x), Ok(y)) => match x.partial_cmp(&y) {
            Some(std::cmp::Ordering::Less) => NumOrder::Less,
            Some(std::cmp::Ordering::Equal) => NumOrder::Equal,
            Some(std::cmp::Ordering::Greater) => NumOrder::Greater,
            None => NumOrder::Unordered,
        },
        _ => NumOrder::NotNumeric,
    }
}

fn ids(found: &[(String, Vec<(String, String)>)]) -> Vec<String> {
    found.iter().map(|(id, _)| id.clone()).collect()
}

#[test]
fn create_add_insert_get() {
    let mut db = Database::new();
    assert_eq!(db.create_table("t").unwrap(), "t");
    db.add_column("t", "name").unwrap();
    db.insert_row("t", "r1", pairs(&[("name", "a")])).unwrap();
    assert_eq!(db.get_row("t", "r1").unwrap(), pairs(&[("name", "a")]));
}

#[test]
fn create_twice_fails() {
    let mut db = Database::new();
    db.create_table("t").unwrap();
    assert!(db.check_table("t"));
    assert!(matches!(db.create_table("t"), Err(DatabaseError::TableAlreadyExists(n)) if n == "t"));
}

#[test]
fn insert_adds_missing_columns() {
    let mut db = Database::new();
    db.create_table("t").unwrap();
    db.add_column("t", "name").unwrap();
    let data = pairs(&[("name", "a"), ("age", "3")]);
    assert_eq!(db.insert_row("t", "r1", data.clone()).unwrap(), vec!["r1", "t"]);
    assert_eq!(db.get_row("t", "r1").unwrap(), data);
    assert_eq!(db.get_table("t").unwrap().columns, vec!["name", "age"]);
}

#[test]
fn add_column_twice_keeps_one() {
    let mut db = Database::new();
    db.create_table("t").unwrap();
    db.add_column("t", "c").unwrap();
    db.add_column("t", "c").unwrap();
    assert_eq!(db.get_table("t").unwrap().columns, vec!["c"]);
}

#[test]
fn errors_of_each_kind() {
    let mut db = Database::new();
    assert!(matches!(db.add_column("x", "c"), Err(DatabaseError::TableDoesNotExist(n)) if n == "x"));
    db.create_table("t").unwrap();
    assert!(matches!(db.get_row("t", "nope"), Err(DatabaseError::RowDoesNotExist(r, t)) if r == "nope" && t == "t"));
    assert!(matches!(db.update_row("t", "nope", "c", "v"), Err(DatabaseError::RowDoesNotExist(_, _))));
    db.insert_row("t", "r1", pairs(&[("c", "1")])).unwrap();
    assert!(matches!(db.insert_row("t", "r1", pairs(&[])), Err(DatabaseError::RowAlreadyExists(r, _)) if r == "r1"));
    assert!(matches!(
        db.add_columns("t", vec!["a".to_string()], vec![]),
        Err(DatabaseError::DataTypeError)
    ));
    assert!(matches!(
        db.add_columns("t", vec!["a".to_string()], vec!["date".to_string()]),
        Err(DatabaseError::InvalidDataType)
    ));
    // nothing was added by the rejected declaration
    assert_eq!(db.get_table("t").unwrap().columns, vec!["c"]);
    assert!(matches!(
        db.load_table_from_text("u", "a,b\n1\n"),
        Err(DatabaseError::FileCreationError(_, _))
    ));
}

#[test]
fn typed_insert_validates() {
    let mut db = Database::new();
    db.create_table("t").unwrap();
    db.add_columns(
        "t",
        vec!["n".to_string(), "b".to_string()],
        vec!["int".to_string(), "bool".to_string()],
    )
    .unwrap();
    assert!(matches!(db.insert_row_with_datatype("t", "r1", pairs(&[("n", "1.5")])), Err(DatabaseError::DataTypeError)));
    assert!(matches!(db.insert_row_with_datatype("t", "r1", pairs(&[("n", "true")])), Err(DatabaseError::DataTypeError)));
    assert!(matches!(db.insert_row_with_datatype("t", "r1", pairs(&[("zz", "1")])), Err(DatabaseError::DataTypeError)));
    db.insert_row_with_datatype("t", "r1", pairs(&[("n", "-42"), ("b", "TRUE")])).unwrap();
    db.insert_row_with_datatype("t", "r2", pairs(&[("b", "false")])).unwrap();
    assert!(matches!(db.insert_row_with_datatype("t", "r2", pairs(&[("b", "false")])), Err(DatabaseError::RowAlreadyExists(_, _))));
    // the reserved row is not a user row
    assert!(matches!(db.get_row("t", "datatypes"), Err(DatabaseError::RowDoesNotExist(_, _))));
    let t = db.get_table("t").unwrap();
    assert_eq!(t.rows.len(), 2);
    assert_eq!(t.datatypes, Some(pairs(&[("n", "int"), ("b", "bool")])));
}

#[test]
fn type_grammar() {
    assert!(check_value_matches("9223372036854775807", "int"));
    assert!(check_value_matches("-9223372036854775808", "int"));
    assert!(!check_value_matches("9223372036854775808", "int"));
    assert!(!check_value_matches("-", "int"));
    assert!(check_value_matches("+7", "int"));
    for ok in ["1.5", "1e5", ".5", "5.", "-inf", "NaN", "Infinity", "2E-3"] {
        assert!(check_value_matches(ok, "float"), "{}", ok);
    }
    for bad in ["", ".", "e5", "1e", "1.2.3", "abc", "1 "] {
        assert!(!check_value_matches(bad, "float"), "{}", bad);
    }
    assert!(check_value_matches("TrUe", "bool"));
    assert!(!check_value_matches("yes", "bool"));
    assert!(check_value_matches("anything", "string"));
    assert!(!check_value_matches("1", "date"));
}

#[test]
fn update_sets_and_adds_column() {
    let mut db = Database::new();
    db.create_table("t").unwrap();
    db.insert_row("t", "r1", pairs(&[("a", "1")])).unwrap();
    assert_eq!(db.update_row("t", "r1", "b", "x:y").unwrap(), vec!["r1", "b", "x:y"]);
    db.update_row("t", "r1", "a", "2").unwrap();
    assert_eq!(db.get_row("t", "r1").unwrap(), pairs(&[("a", "2"), ("b", "x:y")]));
    assert_eq!(db.get_table("t").unwrap().columns, vec!["a", "b"]);
}

#[test]
fn log_records_text() {
    let mut db = Database::new();
    db.create_table("t").unwrap();
    db.add_column("t", "name").unwrap();
    db.insert_row("t", "r1", pairs(&[("name", "a")])).unwrap();
    db.update_row("t", "r1", "name", "b\"c").unwrap();
    assert_eq!(
        db.wal,
        vec![
            "create_table:t",
            "add_column:t:name",
            "insert_row:t:r1:{\"name\":\"a\"}",
            "update_row:t:r1:name:\"b\\\"c\"",
        ]
    );
}

#[test]
fn append_save_after_threshold() {
    let mut db = Database::new();
    db.create_table("t").unwrap();
    db.add_column("t", "name").unwrap();
    for i in 1..=5 {
        assert!(db.pending_save.is_none());
        db.insert_row("t", &format!("r{}", i), pairs(&[("name", "a")])).unwrap();
    }
    assert_eq!(db.pending_save.as_deref(), Some("t"));
    assert_eq!(db.operations_since_save, 0);
    let text = db.save_table_for_insert("t", false).unwrap();
    assert_eq!(text, "row_id,name\nr1,a\nr2,a\nr3,a\nr4,a\nr5,a\n");
    assert_eq!(db.get_table("t").unwrap().saved_rows, 5);
}

#[test]
fn append_save_writes_only_new_rows() {
    let mut db = Database::new();
    db.create_table("t").unwrap();
    db.add_columns("t", vec!["v".to_string()], vec!["int".to_string()]).unwrap();
    db.insert_row("t", "a", pairs(&[("v", "1")])).unwrap();
    let first = db.save_table_for_insert("t", false).unwrap();
    assert_eq!(first, "row_id,v\na,1\n");
    db.insert_row("t", "b", pairs(&[("v", "2")])).unwrap();
    db.insert_row("t", "c", pairs(&[("v", "3,4")])).unwrap();
    let second = db.save_table_for_insert("t", true).unwrap();
    assert_eq!(second, "b,2\nc,\"3,4\"\n");
    assert_eq!(db.get_table("t").unwrap().saved_rows, 3);
    assert_eq!(db.save_table_for_insert("t", true).unwrap(), "");
}

#[test]
fn full_save_and_load() {
    let mut db = Database::new();
    db.create_table("t").unwrap();
    db.add_columns("t", vec!["z".to_string(), "a".to_string()], vec!["int".to_string(), "string".to_string()]).unwrap();
    db.insert_row("t", "r2", pairs(&[("z", "2"), ("a", "x")])).unwrap();
    db.insert_row("t", "r1", pairs(&[("z", "1"), ("a", "y,\"q\"")])).unwrap();
    let text = db.save_table("t").unwrap();
    assert_eq!(text, "row_id,a,z\ndatatypes,string,int\nr1,\"y,\"\"q\"\"\",1\nr2,x,2\n");
    let mut fresh = Database::new();
    fresh.load_table_from_text("t", &text).unwrap();
    let t = fresh.get_table("t").unwrap();
    let mut cols = t.columns.clone();
    cols.sort();
    assert_eq!(cols, vec!["a", "z"]);
    let mut got = fresh.get_row("t", "r1").unwrap();
    got.sort();
    assert_eq!(got, pairs(&[("a", "y,\"q\""), ("z", "1")]));
    // the declared types came back with the reserved row
    assert!(matches!(fresh.insert_row_with_datatype("t", "r3", pairs(&[("z", "x")])), Err(DatabaseError::DataTypeError)));
    fresh.insert_row_with_datatype("t", "r3", pairs(&[("z", "3")])).unwrap();
}

#[test]
fn predicate_search() {
    let mut db = Database::new();
    db.create_table("t").unwrap();
    db.insert_row("t", "r1", pairs(&[("age", "20")])).unwrap();
    db.insert_row("t", "r2", pairs(&[("age", "40")])).unwrap();
    db.insert_row("t", "r3", pairs(&[("age", "x")])).unwrap();
    let hits = db.search_rows_by_condition_in_table("t", "age > 30", num_cmp).unwrap();
    // "40" > 30 numerically; "x" > "30" as text
    assert_eq!(ids(&hits), vec!["r2", "r3"]);
    let hits = db.search_rows_by_condition_in_table("t", "age <= 20", num_cmp).unwrap();
    assert_eq!(ids(&hits), vec!["r1"]);
    let hits = db.search_rows_by_condition_in_table("t", "age == x", num_cmp).unwrap();
    assert_eq!(ids(&hits), vec!["r3"]);
    assert!(db.search_rows_by_condition_in_table("t", "age ~ 30", num_cmp).unwrap().is_empty());
    assert!(db.search_rows_by_condition_in_table("t", "age >", num_cmp).unwrap().is_empty());
    assert!(db.search_rows_by_condition_in_table("t", "age > 3 0", num_cmp).unwrap().is_empty());
    assert!(matches!(db.search_rows_by_condition_in_table("u", "age > 1", num_cmp), Err(DatabaseError::TableDoesNotExist(_))));
}

#[test]
fn find_by_value_scan_and_index() {
    let mut db = Database::new();
    db.create_table("t").unwrap();
    db.create_table("u").unwrap();
    db.insert_row("t", "r1", pairs(&[("name", "a"), ("email", "e1")])).unwrap();
    db.insert_row("t", "r2", pairs(&[("name", "b"), ("email", "e2")])).unwrap();
    db.insert_row("t", "r3", pairs(&[("name", "a")])).unwrap();
    db.insert_row("u", "u1", pairs(&[("name", "a")])).unwrap();
    assert_eq!(ids(&db.find_rows_by_value_in_table("t", "name", "a", true).unwrap()), vec!["r1", "r3"]);
    assert_eq!(ids(&db.find_rows_by_value_in_table("t", "name", "a", false).unwrap()), vec!["r1"]);
    db.build_indexes();
    let idx = db.indexer.as_ref().unwrap();
    let mut listed = idx.get("a").unwrap().clone();
    listed.sort();
    assert_eq!(listed, vec!["r1", "r3", "u1"]);
    // answered from the index, scoped to the table
    assert_eq!(ids(&db.find_rows_by_value_in_table("u", "name", "a", true).unwrap()), vec!["u1"]);
    db.build_bloom_filter();
    assert_eq!(ids(&db.find_rows_by_value_in_table("t", "email", "e2", true).unwrap()), vec!["r2"]);
    assert!(db.find_rows_by_value_in_table("t", "email", "zz", true).unwrap().is_empty());
}

#[test]
fn replay_restores_mutations() {
    let mut db = Database::new();
    db.create_table("t").unwrap();
    db.add_column("t", "name").unwrap();
    db.insert_row("t", "r1", pairs(&[("name", "a")])).unwrap();
    db.insert_row("t", "r2", pairs(&[("name", "b"), ("k", "1:2")])).unwrap();
    db.update_row("t", "r1", "name", "c").unwrap();
    db.add_column("t", "extra").unwrap();
    db.create_table("u").unwrap();
    assert_eq!(db.wal.len(), 7);
    let mut lines = db.wal.clone();
    lines.insert(3, "   ".to_string());
    let mut fresh = Database::new();
    fresh.load_wal(lines);
    assert_eq!(fresh.wal.len(), 7);
    fresh.flush_wal().unwrap();
    assert!(fresh.check_table("u"));
    assert_eq!(fresh.get_table("t").unwrap().columns, db.get_table("t").unwrap().columns);
    assert_eq!(fresh.get_row("t", "r1").unwrap(), pairs(&[("name", "c")]));
    let mut r2 = fresh.get_row("t", "r2").unwrap();
    r2.sort();
    assert_eq!(r2, pairs(&[("k", "1:2"), ("name", "b")]));
    // replaying again changes nothing
    fresh.replay_wal().unwrap();
    assert_eq!(fresh.get_row("t", "r1").unwrap(), pairs(&[("name", "c")]));
    assert_eq!(fresh.get_table("t").unwrap().rows.len(), 2);
    fresh.clear_wal();
    assert!(fresh.wal.is_empty());
}

#[test]
fn replay_skips_malformed_records() {
    let mut db = Database::new();
    db.load_wal(vec![
        "create_table:t".to_string(),
        "bogus".to_string(),
        "insert_row:t:r1:not json".to_string(),
        "update_row:t:r9:c:\"v\"".to_string(),
        "insert_row:t:r2:{\"c\":\"v\"}".to_string(),
        "update_row:t:r2:c:raw".to_string(),
    ]);
    db.flush_wal().unwrap();
    assert_eq!(db.get_table("t").unwrap().rows.len(), 1);
    assert_eq!(db.get_row("t", "r2").unwrap(), pairs(&[("c", "raw")]));
}

#[test]
fn index_hit_of_another_table_is_not_returned() {
    let mut db = Database::new();
    db.create_table("t").unwrap();
    db.create_table("u").unwrap();
    db.add_column("t", "name").unwrap();
    db.add_column("u", "name").unwrap();
    db.insert_row("t", "x", pairs(&[("name", "w")])).unwrap();
    db.insert_row("u", "x", pairs(&[("name", "v")])).unwrap();
    db.build_indexes();
    assert!(db.find_rows_by_value_in_table("t", "name", "v", true).unwrap().is_empty());
    assert!(db.find_rows_by_value_in_table("t", "name", "v", false).unwrap().is_empty());
    assert_eq!(ids(&db.find_rows_by_value_in_table("u", "name", "v", true).unwrap()), vec!["x"]);
}

#[test]
fn index_lists_shared_id_once() {
    let mut db = Database::new();
    db.create_table("t").unwrap();
    db.create_table("u").unwrap();
    db.insert_row("t", "x", pairs(&[("name", "v")])).unwrap();
    db.insert_row("u", "x", pairs(&[("name", "v")])).unwrap();
    db.build_indexes();
    assert_eq!(ids(&db.find_rows_by_value_in_table("t", "name", "v", true).unwrap()), vec!["x"]);
}

#[test]
fn equality_predicate_compares_numbers() {
    let mut db = Database::new();
    db.create_table("t").unwrap();
    db.insert_row("t", "r1", pairs(&[("v", "1.0")])).unwrap();
    db.insert_row("t", "r2", pairs(&[("v", "2")])).unwrap();
    db.insert_row("t", "r3", pairs(&[("v", "one")])).unwrap();
    assert_eq!(ids(&db.search_rows_by_condition_in_table("t", "v == 1", num_cmp).unwrap()), vec!["r1"]);
    assert_eq!(ids(&db.search_rows_by_condition_in_table("t", "v == one", num_cmp).unwrap()), vec!["r3"]);
}

#[test]
fn add_columns_logs_and_counts() {
    let mut db = Database::new();
    db.create_table("t").unwrap();
    db.wal.clear();
    let r = db.add_columns("t", vec!["a".to_string(), "b".to_string()], vec!["int".to_string(), "bool".to_string()]).unwrap();
    assert_eq!(r.len(), 3);
    assert_eq!(db.operations_since_save, 1);
    assert_eq!(
        db.wal,
        vec!["add_column:t:a", "add_column:t:b", "insert_row:t:datatypes:{\"a\":\"int\",\"b\":\"bool\"}"]
    );
    db.wal.clear();
    let r = db.add_columns("t", vec!["a".to_string()], vec!["string".to_string()]).unwrap();
    assert_eq!(r.len(), 2);
    assert_eq!(db.operations_since_save, 1);
    assert_eq!(db.wal, vec!["add_column:t:a", "update_row:t:datatypes:a:\"string\""]);
    assert_eq!(db.get_table("t").unwrap().columns, vec!["a", "b"]);
}

#[test]
fn missing_fields_load_back_empty() {
    let mut db = Database::new();
    db.create_table("t").unwrap();
    db.insert_row("t", "r1", pairs(&[("a", "1")])).unwrap();
    db.insert_row("t", "r2", pairs(&[("b", "2")])).unwrap();
    let text = db.save_table("t").unwrap();
    assert_eq!(text, "row_id,a,b\nr1,1,\nr2,,2\n");
    let mut fresh = Database::new();
    fresh.load_table_from_text("t", &text).unwrap();
    assert_eq!(fresh.get_row("t", "r1").unwrap(), pairs(&[("a", "1"), ("b", "")]));
    assert_eq!(fresh.get_row("t", "r2").unwrap(), pairs(&[("a", ""), ("b", "2")]));
}
