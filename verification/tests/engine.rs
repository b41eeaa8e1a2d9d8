use rustique_db::error::DbError;
use rustique_db::model::{Database, DataType};

fn s(x: &str) -> String {
    x.to_string()
}

fn row(cells: &[&str]) -> Vec<String> {
    cells.iter().map(|c| c.to_string()).collect()
}

fn users(db: &mut Database) {
    db.create_table(
        "users",
        vec![
            (s("id"), DataType::Int(10), true, true),
            (s("name"), DataType::Varchar(5), false, false),
        ],
    )
    .unwrap();
}

#[test]
fn create_table_and_insert() {
    let mut db = Database::new();
    users(&mut db);
    let n = db.insert("users", None, vec![row(&["1", "Alice"])]).unwrap();
    assert_eq!(n, 1);
    assert_eq!(db.tables[0].data.len(), 1);
    assert_eq!(db.tables[0].data[0], row(&["1", "Alice"]));
}

#[test]
fn create_table_duplicate_name_case_insensitive() {
    let mut db = Database::new();
    users(&mut db);
    let r = db.create_table("  USERS ", vec![(s("x"), DataType::Int(10), false, false)]);
    assert_eq!(r, Err(DbError::TableExists(s("users"))));
    assert_eq!(db.tables.len(), 1);
}

#[test]
fn insert_unknown_table() {
    let mut db = Database::new();
    let r = db.insert("nope", None, vec![row(&["1"])]);
    assert_eq!(r, Err(DbError::TableNotFound(s("nope"))));
}

#[test]
fn duplicate_primary_key_rejected_count_unchanged() {
    let mut db = Database::new();
    users(&mut db);
    db.insert("users", None, vec![row(&["1", "Alice"])]).unwrap();
    let r = db.insert("users", None, vec![row(&["1", "Bob"])]);
    assert_eq!(r, Err(DbError::DuplicateKey(s("1"))));
    assert_eq!(db.tables[0].data.len(), 1);
}

#[test]
fn varchar_too_long_rejected() {
    let mut db = Database::new();
    users(&mut db);
    db.insert("users", None, vec![row(&["1", "Alice"])]).unwrap();
    let r = db.insert("users", None, vec![row(&["2", "TooLong"])]);
    assert_eq!(r, Err(DbError::ValueTooLong(s("name"), 5)));
    assert_eq!(db.tables[0].data.len(), 1);
}

#[test]
fn null_into_not_null_rejected_table_unchanged() {
    let mut db = Database::new();
    users(&mut db);
    let r = db.insert("users", None, vec![row(&["", "Ann"])]);
    assert_eq!(r, Err(DbError::MissingValue(s("id"))));
    assert_eq!(db.tables[0].data.len(), 0);
    let r2 = db.insert("users", None, vec![row(&["NULL", "Ann"])]);
    assert_eq!(r2, Err(DbError::MissingValue(s("id"))));
    assert_eq!(db.tables[0].data.len(), 0);
}

#[test]
fn int_type_checked() {
    let mut db = Database::new();
    users(&mut db);
    let r = db.insert("users", None, vec![row(&["abc", "Ann"])]);
    assert_eq!(r, Err(DbError::TypeMismatch(s("abc"), s("id"))));
}

#[test]
fn multi_row_insert_keeps_prior_rows_on_failure() {
    let mut db = Database::new();
    users(&mut db);
    let r = db.insert(
        "users",
        None,
        vec![row(&["1", "Ann"]), row(&["1", "Bob"]), row(&["3", "Cid"])],
    );
    assert_eq!(r, Err(DbError::DuplicateKey(s("1"))));
    assert_eq!(db.tables[0].data.len(), 1);
    assert_eq!(db.tables[0].data[0], row(&["1", "Ann"]));
}

#[test]
fn insert_with_column_list_defaults_null() {
    let mut db = Database::new();
    db.create_table(
        "t",
        vec![
            (s("a"), DataType::Int(10), false, false),
            (s("b"), DataType::Varchar(9), false, false),
        ],
    )
    .unwrap();
    let n = db
        .insert("t", Some(vec![s("b")]), vec![row(&["hello"])])
        .unwrap();
    assert_eq!(n, 1);
    assert_eq!(db.tables[0].data[0], row(&["", "hello"]));
}

#[test]
fn insert_column_list_arity_and_unknown_column() {
    let mut db = Database::new();
    users(&mut db);
    let r = db.insert("users", Some(vec![s("id")]), vec![row(&["1", "x"])]);
    assert_eq!(r, Err(DbError::ColumnCountMismatch));
    let r2 = db.insert("users", Some(vec![s("nope")]), vec![row(&["1"])]);
    assert_eq!(r2, Err(DbError::ColumnNotFound(s("nope"))));
}

#[test]
fn normalization_on_write() {
    let mut db = Database::new();
    db.create_table(
        "t",
        vec![
            (s("a"), DataType::Varchar(10), false, false),
            (s("b"), DataType::Varchar(10), false, false),
            (s("c"), DataType::Varchar(10), false, false),
        ],
    )
    .unwrap();
    db.insert("t", None, vec![row(&["'Alice'", " NULL ", "'null'"])])
        .unwrap();
    assert_eq!(db.tables[0].data[0], row(&["Alice", "", "null"]));
}

#[test]
fn select_storage_order_without_condition_or_order() {
    let mut db = Database::new();
    users(&mut db);
    db.insert(
        "users",
        None,
        vec![row(&["2", "Bob"]), row(&["1", "Ann"]), row(&["3", "Cid"])],
    )
    .unwrap();
    let (rows, has) = db.select("users", vec![s("*")], None, None).unwrap();
    assert!(has);
    assert_eq!(
        rows,
        vec![row(&["2", "Bob"]), row(&["1", "Ann"]), row(&["3", "Cid"])]
    );
}

#[test]
fn select_projection_and_unknown_column() {
    let mut db = Database::new();
    users(&mut db);
    db.insert("users", None, vec![row(&["1", "Ann"])]).unwrap();
    let (rows, _) = db.select("users", vec![s("name")], None, None).unwrap();
    assert_eq!(rows, vec![row(&["Ann"])]);
    let r = db.select("users", vec![s("nope")], None, None);
    assert_eq!(r, Err(DbError::ColumnNotFound(s("nope"))));
}

fn aged_users(db: &mut Database) {
    db.create_table(
        "users",
        vec![
            (s("id"), DataType::Int(10), true, true),
            (s("name"), DataType::Varchar(10), false, false),
            (s("age"), DataType::Int(10), false, false),
        ],
    )
    .unwrap();
    db.insert(
        "users",
        None,
        vec![
            row(&["1", "Alice", "30"]),
            row(&["2", "Bob", "25"]),
            row(&["3", "Charlie", "35"]),
        ],
    )
    .unwrap();
}

#[test]
fn select_order_by_age_ascending() {
    let mut db = Database::new();
    aged_users(&mut db);
    let (rows, _) = db
        .select("users", vec![s("*")], None, Some(vec![(s("age"), false)]))
        .unwrap();
    assert_eq!(
        rows,
        vec![
            row(&["2", "Bob", "25"]),
            row(&["1", "Alice", "30"]),
            row(&["3", "Charlie", "35"]),
        ]
    );
}

#[test]
fn select_order_by_descending_reverses() {
    let mut db = Database::new();
    aged_users(&mut db);
    let (rows, _) = db
        .select("users", vec![s("name")], None, Some(vec![(s("age"), true)]))
        .unwrap();
    assert_eq!(rows, vec![row(&["Charlie"]), row(&["Alice"]), row(&["Bob"])]);
}

#[test]
fn select_multi_key_sort() {
    let mut db = Database::new();
    db.create_table(
        "t",
        vec![
            (s("a"), DataType::Int(10), false, false),
            (s("b"), DataType::Int(10), false, false),
            (s("tag"), DataType::Varchar(4), false, false),
        ],
    )
    .unwrap();
    db.insert(
        "t",
        None,
        vec![
            row(&["1", "1", "p"]),
            row(&["2", "9", "q"]),
            row(&["1", "7", "r"]),
            row(&["2", "3", "t"]),
        ],
    )
    .unwrap();
    let (rows, _) = db
        .select(
            "t",
            vec![s("tag")],
            None,
            Some(vec![(s("a"), false), (s("b"), true)]),
        )
        .unwrap();
    assert_eq!(rows, vec![row(&["r"]), row(&["p"]), row(&["q"]), row(&["t"])]);
}

#[test]
fn sort_is_stable_on_ties() {
    let mut db = Database::new();
    db.create_table(
        "t",
        vec![
            (s("k"), DataType::Int(10), false, false),
            (s("tag"), DataType::Varchar(4), false, false),
        ],
    )
    .unwrap();
    db.insert(
        "t",
        None,
        vec![row(&["1", "x"]), row(&["1", "y"]), row(&["0", "z"])],
    )
    .unwrap();
    let (rows, _) = db
        .select("t", vec![s("tag")], None, Some(vec![(s("k"), false)]))
        .unwrap();
    assert_eq!(rows, vec![row(&["z"]), row(&["x"]), row(&["y"])]);
}

#[test]
fn sort_unparsable_int_counts_as_zero() {
    let mut db = Database::new();
    db.create_table(
        "t",
        vec![
            (s("k"), DataType::Int(10), false, false),
            (s("tag"), DataType::Varchar(4), false, false),
        ],
    )
    .unwrap();
    db.insert(
        "t",
        None,
        vec![row(&["5", "a"]), row(&["-1", "b"]), row(&["", "c"])],
    )
    .unwrap();
    let (rows, _) = db
        .select("t", vec![s("tag")], None, Some(vec![(s("k"), false)]))
        .unwrap();
    assert_eq!(rows, vec![row(&["b"]), row(&["c"]), row(&["a"])]);
}

#[test]
fn select_unknown_sort_column() {
    let mut db = Database::new();
    aged_users(&mut db);
    let r = db.select("users", vec![s("*")], None, Some(vec![(s("nope"), false)]));
    assert_eq!(r, Err(DbError::ColumnNotFound(s("nope"))));
}

#[test]
fn where_equality_matches_exactly() {
    let mut db = Database::new();
    db.create_table("t", vec![(s("x"), DataType::Varchar(5), false, false)]).unwrap();
    db.insert("t", None, vec![row(&["5"]), row(&["55"]), row(&["5"])]).unwrap();
    let (rows, _) = db.select("t", vec![s("x")], Some("x = 5"), None).unwrap();
    assert_eq!(rows, vec![row(&["5"]), row(&["5"])]);
}

#[test]
fn where_numeric_comparison_unparsable_is_zero() {
    let mut db = Database::new();
    db.create_table("t", vec![(s("x"), DataType::Varchar(5), false, false)]).unwrap();
    db.insert(
        "t",
        None,
        vec![row(&["7"]), row(&["3"]), row(&["abc"]), row(&["-2"])],
    )
    .unwrap();
    let (rows, _) = db.select("t", vec![s("x")], Some("x > 5"), None).unwrap();
    assert_eq!(rows, vec![row(&["7"])]);
    let (rows2, _) = db.select("t", vec![s("x")], Some("x < 1"), None).unwrap();
    assert_eq!(rows2, vec![row(&["abc"]), row(&["-2"])]);
}

#[test]
fn where_and_or_parentheses() {
    let mut db = Database::new();
    db.create_table(
        "t",
        vec![
            (s("a"), DataType::Int(10), false, false),
            (s("b"), DataType::Int(10), false, false),
            (s("c"), DataType::Int(10), false, false),
        ],
    )
    .unwrap();
    db.insert(
        "t",
        None,
        vec![
            row(&["1", "2", "3"]),
            row(&["1", "9", "3"]),
            row(&["9", "2", "3"]),
            row(&["9", "9", "3"]),
            row(&["1", "2", "9"]),
        ],
    )
    .unwrap();
    let (both, _) = db.select("t", vec![s("*")], Some("a = 1 AND b = 2"), None).unwrap();
    assert_eq!(both, vec![row(&["1", "2", "3"]), row(&["1", "2", "9"])]);
    let (either, _) = db.select("t", vec![s("*")], Some("a = 1 OR b = 2"), None).unwrap();
    assert_eq!(
        either,
        vec![
            row(&["1", "2", "3"]),
            row(&["1", "9", "3"]),
            row(&["9", "2", "3"]),
            row(&["1", "2", "9"]),
        ]
    );
    let (mixed, _) = db
        .select("t", vec![s("*")], Some("(a = 1 OR b = 2) AND c = 3"), None)
        .unwrap();
    assert_eq!(
        mixed,
        vec![row(&["1", "2", "3"]), row(&["1", "9", "3"]), row(&["9", "2", "3"])]
    );
}

#[test]
fn where_precedence_and_binds_tighter_than_or() {
    let mut db = Database::new();
    db.create_table(
        "t",
        vec![
            (s("a"), DataType::Int(10), false, false),
            (s("b"), DataType::Int(10), false, false),
        ],
    )
    .unwrap();
    db.insert(
        "t",
        None,
        vec![row(&["1", "0"]), row(&["0", "2"]), row(&["0", "0"])],
    )
    .unwrap();
    // a = 1 OR a = 0 AND b = 2 must read as: a = 1 OR (a = 0 AND b = 2).
    let (rows, _) = db
        .select("t", vec![s("*")], Some("a = 1 OR a = 0 AND b = 2"), None)
        .unwrap();
    assert_eq!(rows, vec![row(&["1", "0"]), row(&["0", "2"])]);
}

#[test]
fn where_quoted_literals_keep_spaces_and_keywords() {
    let mut db = Database::new();
    db.create_table("t", vec![(s("x"), DataType::Varchar(10), false, false)]).unwrap();
    db.insert(
        "t",
        None,
        vec![row(&["'a and b'"]), row(&["'plain'"])],
    )
    .unwrap();
    let (rows, _) = db
        .select("t", vec![s("x")], Some("x = 'a and b'"), None)
        .unwrap();
    assert_eq!(rows, vec![row(&["a and b"])]);
}

#[test]
fn where_keyword_must_stand_alone() {
    let mut db = Database::new();
    db.create_table("t", vec![(s("brand"), DataType::Varchar(5), false, false)]).unwrap();
    db.insert("t", None, vec![row(&["x"])]).unwrap();
    let (rows, _) = db.select("t", vec![s("brand")], Some("brand = x"), None).unwrap();
    assert_eq!(rows, vec![row(&["x"])]);
}

#[test]
fn where_is_null_and_is_not_null() {
    let mut db = Database::new();
    db.create_table(
        "t",
        vec![
            (s("a"), DataType::Varchar(5), false, false),
            (s("tag"), DataType::Varchar(4), false, false),
        ],
    )
    .unwrap();
    db.insert("t", None, vec![row(&["", "p"]), row(&["v", "q"])]).unwrap();
    let (nulls, _) = db.select("t", vec![s("tag")], Some("a IS NULL"), None).unwrap();
    assert_eq!(nulls, vec![row(&["p"])]);
    let (set, _) = db
        .select("t", vec![s("tag")], Some("a is not null"), None)
        .unwrap();
    assert_eq!(set, vec![row(&["q"])]);
}

#[test]
fn select_bad_condition_is_statement_error() {
    let mut db = Database::new();
    users(&mut db);
    let r = db.select("users", vec![s("*")], Some("id ="), None);
    assert!(matches!(r, Err(DbError::ConditionParseError(_))));
    let r2 = db.select("users", vec![s("*")], Some("nope = 1"), None);
    assert!(matches!(r2, Err(DbError::ConditionParseError(_))));
}

#[test]
fn select_empty_result_flag() {
    let mut db = Database::new();
    users(&mut db);
    let (rows, has) = db.select("users", vec![s("*")], None, None).unwrap();
    assert!(rows.is_empty());
    assert!(!has);
}

#[test]
fn update_matching_rows_and_count() {
    let mut db = Database::new();
    aged_users(&mut db);
    let n = db
        .update("users", vec![(s("age"), s("40"))], Some("id > 1"))
        .unwrap();
    assert_eq!(n, 2);
    let (rows, _) = db.select("users", vec![s("age")], None, None).unwrap();
    assert_eq!(rows, vec![row(&["30"]), row(&["40"]), row(&["40"])]);
}

#[test]
fn update_bad_condition_matches_nothing() {
    let mut db = Database::new();
    aged_users(&mut db);
    let n = db.update("users", vec![(s("age"), s("40"))], Some("garbage")).unwrap();
    assert_eq!(n, 0);
}

#[test]
fn update_type_checked() {
    let mut db = Database::new();
    aged_users(&mut db);
    let r = db.update("users", vec![(s("age"), s("old"))], None);
    assert_eq!(r, Err(DbError::TypeMismatch(s("old"), s("age"))));
}

#[test]
fn update_pk_self_rename_allowed() {
    let mut db = Database::new();
    users(&mut db);
    db.insert("users", None, vec![row(&["1", "Ann"])]).unwrap();
    let n = db.update("users", vec![(s("id"), s("1"))], Some("id = 1")).unwrap();
    assert_eq!(n, 1);
    assert_eq!(db.tables[0].data[0], row(&["1", "Ann"]));
}

#[test]
fn update_pk_collision_rejected() {
    let mut db = Database::new();
    users(&mut db);
    db.insert("users", None, vec![row(&["1", "Ann"]), row(&["2", "Bob"])]).unwrap();
    let r = db.update("users", vec![(s("id"), s("1"))], Some("id = 2"));
    assert_eq!(r, Err(DbError::DuplicateKey(s("1"))));
    assert_eq!(db.tables[0].data[0], row(&["1", "Ann"]));
    assert_eq!(db.tables[0].data[1], row(&["2", "Bob"]));
}

#[test]
fn update_normalizes_values() {
    let mut db = Database::new();
    db.create_table("t", vec![(s("a"), DataType::Varchar(10), false, false)]).unwrap();
    db.insert("t", None, vec![row(&["x"])]).unwrap();
    db.update("t", vec![(s("a"), s("'new val'"))], None).unwrap();
    assert_eq!(db.tables[0].data[0], row(&["new val"]));
    db.update("t", vec![(s("a"), s("NULL"))], None).unwrap();
    assert_eq!(db.tables[0].data[0], row(&[""]));
}

#[test]
fn delete_with_condition_and_count() {
    let mut db = Database::new();
    aged_users(&mut db);
    let n = db.delete("users", Some("age > 28")).unwrap();
    assert_eq!(n, 2);
    let (rows, _) = db.select("users", vec![s("name")], None, None).unwrap();
    assert_eq!(rows, vec![row(&["Bob"])]);
}

#[test]
fn delete_without_condition_removes_all() {
    let mut db = Database::new();
    aged_users(&mut db);
    let n = db.delete("users", None).unwrap();
    assert_eq!(n, 3);
    assert_eq!(db.tables[0].data.len(), 0);
}

#[test]
fn delete_bad_condition_removes_nothing() {
    let mut db = Database::new();
    aged_users(&mut db);
    let n = db.delete("users", Some("what is this")).unwrap();
    assert_eq!(n, 0);
    assert_eq!(db.tables[0].data.len(), 3);
}

#[test]
fn drop_missing_without_if_exists_fails_unchanged() {
    let mut db = Database::new();
    users(&mut db);
    let r = db.drop_tables(&vec![s("t1")], false);
    assert_eq!(r, Err(DbError::TableNotFound(s("t1"))));
    assert_eq!(db.tables.len(), 1);
}

#[test]
fn drop_missing_with_if_exists_is_noop() {
    let mut db = Database::new();
    users(&mut db);
    let n = db.drop_tables(&vec![s("t1")], true).unwrap();
    assert_eq!(n, 0);
    assert_eq!(db.tables.len(), 1);
}

#[test]
fn drop_existing_tables() {
    let mut db = Database::new();
    users(&mut db);
    db.create_table("other", vec![(s("x"), DataType::Int(10), false, false)]).unwrap();
    let n = db.drop_tables(&vec![s("users")], false).unwrap();
    assert_eq!(n, 1);
    assert_eq!(db.tables.len(), 1);
    assert_eq!(db.tables[0].name, s("other"));
}

#[test]
fn where_unterminated_quote_is_parse_error() {
    let mut db = Database::new();
    users(&mut db);
    let r = db.select("users", vec![s("*")], Some("name = 'oops"), None);
    assert!(matches!(r, Err(DbError::ConditionParseError(_))));
}

#[test]
fn where_negative_numbers_compare() {
    let mut db = Database::new();
    db.create_table("t", vec![(s("x"), DataType::Int(10), false, false)]).unwrap();
    db.insert(
        "t",
        None,
        vec![row(&["-5"]), row(&["-1"]), row(&["3"])],
    )
    .unwrap();
    let (rows, _) = db.select("t", vec![s("x")], Some("x < -2"), None).unwrap();
    assert_eq!(rows, vec![row(&["-5"])]);
}

#[test]
fn int_extremes_accepted() {
    let mut db = Database::new();
    db.create_table("t", vec![(s("x"), DataType::Int(10), false, false)]).unwrap();
    let n = db
        .insert(
            "t",
            None,
            vec![row(&["-2147483648"]), row(&["2147483647"])],
        )
        .unwrap();
    assert_eq!(n, 2);
    let r = db.insert("t", None, vec![row(&["2147483648"])]);
    assert_eq!(r, Err(DbError::TypeMismatch(s("2147483648"), s("x"))));
}
