use rustique_db::commands::{clean_command_arg, remove_comments, should_exit};
use rustique_db::error::DbError;
use rustique_db::format::{format_table, format_table_from_db};
use rustique_db::history::CommandHistory;
use rustique_db::model::{Database, DataType};

fn s(x: &str) -> String {
    x.to_string()
}

fn row(cells: &[&str]) -> Vec<String> {
    cells.iter().map(|c| c.to_string()).collect()
}

#[test]
fn snapshot_round_trip() {
    let mut db = Database::new();
    db.create_table(
        "users",
        vec![
            (s("id"), DataType::Int(10), true, true),
            (s("name"), DataType::Varchar(5), false, false),
        ],
    )
    .unwrap();
    db.insert(
        "users",
        None,
        vec![row(&["1", "Alice"]), row(&["2", "Bob"])],
    )
    .unwrap();
    db.create_table("empty", vec![(s("v"), DataType::Varchar(7), false, true)]).unwrap();
    let text = db.save();
    let db2 = Database::load(text.as_str()).unwrap();
    assert_eq!(db2.tables.len(), db.tables.len());
    for (t2, t1) in db2.tables.iter().zip(db.tables.iter()) {
        assert_eq!(t2.name, t1.name);
        assert_eq!(t2.data, t1.data);
        assert_eq!(t2.columns.len(), t1.columns.len());
        for (c2, c1) in t2.columns.iter().zip(t1.columns.iter()) {
            assert_eq!(c2.name, c1.name);
            assert_eq!(c2.data_type, c1.data_type);
            assert_eq!(c2.is_primary, c1.is_primary);
            assert_eq!(c2.not_null, c1.not_null);
        }
    }
    assert_eq!(db2.save(), text);
}

#[test]
fn snapshot_escapes_special_characters() {
    let mut db = Database::new();
    db.create_table("t", vec![(s("a"), DataType::Varchar(20), false, false)]).unwrap();
    db.insert("t", None, vec![row(&["'he said \"hi\" \\ there'"])]).unwrap();
    let text = db.save();
    let db2 = Database::load(text.as_str()).unwrap();
    assert_eq!(db2.tables[0].data[0], row(&["he said \"hi\" \\ there"]));
}

#[test]
fn snapshot_empty_database() {
    let db = Database::new();
    let text = db.save();
    assert_eq!(text, s("{\"tables\":[]}"));
    let db2 = Database::load(text.as_str()).unwrap();
    assert_eq!(db2.tables.len(), 0);
}

#[test]
fn snapshot_malformed_is_hard_error() {
    assert!(matches!(
        Database::load("not a snapshot"),
        Err(DbError::SnapshotFormatError)
    ));
    assert!(matches!(Database::load(""), Err(DbError::SnapshotFormatError)));
    assert!(matches!(
        Database::load("{\"tables\":["),
        Err(DbError::SnapshotFormatError)
    ));
}

#[test]
fn snapshot_rejects_invariant_violations() {
    // A hand-written document with two rows sharing the primary value.
    let text = "{\"tables\":[{\"name\":\"t\",\"columns\":[{\"name\":\"id\",\"data_type\":{\"Int\":10},\"is_primary\":true,\"not_null\":true}],\"data\":[[\"1\"],[\"1\"]]}]}";
    assert!(matches!(Database::load(text), Err(DbError::SnapshotFormatError)));
    // A row with the wrong number of cells.
    let text2 = "{\"tables\":[{\"name\":\"t\",\"columns\":[{\"name\":\"id\",\"data_type\":{\"Int\":10},\"is_primary\":false,\"not_null\":false}],\"data\":[[\"1\",\"2\"]]}]}";
    assert!(matches!(Database::load(text2), Err(DbError::SnapshotFormatError)));
}

#[test]
fn format_table_layout() {
    let out = format_table(
        vec![s("id"), s("name")],
        vec![row(&["1", "Alice"]), row(&["2", "Bo"])],
    );
    let lines: Vec<&str> = out.split('\n').collect();
    assert_eq!(lines.len(), 4);
    assert_eq!(lines[0], "| id  | name  |");
    assert_eq!(lines[1], "| --- | ----- |");
    assert_eq!(lines[2], "| 1   | Alice |");
    assert_eq!(lines[3], "| 2   | Bo    |");
}

#[test]
fn format_table_from_db_resolves_headers() {
    let mut db = Database::new();
    db.create_table(
        "t",
        vec![
            (s("a"), DataType::Int(10), false, false),
            (s("b"), DataType::Varchar(5), false, false),
        ],
    )
    .unwrap();
    let out = format_table_from_db(&db, "t", vec![s("b")], vec![row(&["hi"])]).unwrap();
    assert!(out.starts_with("| b   |"));
    let missing = format_table_from_db(&db, "nope", vec![s("*")], vec![]);
    assert_eq!(missing, Err(DbError::TableNotFound(s("nope"))));
    let badcol = format_table_from_db(&db, "t", vec![s("z")], vec![]);
    assert_eq!(badcol, Err(DbError::ColumnNotFound(s("z"))));
}

#[test]
fn history_records_and_completes_commands() {
    let mut h = CommandHistory::new(10);
    h.add("SELECT 1");
    assert_eq!(h.len(), 1);
    assert_eq!(h.get_full_command(0), Some(s("SELECT 1;")));
    h.add("  exit  ");
    assert_eq!(h.get_full_command(1), Some(s("exit")));
    assert_eq!(h.get_full_command(2), None);
}

#[test]
fn history_skips_blank_history_and_repeats() {
    let mut h = CommandHistory::new(10);
    h.add("   ");
    h.add("HISTORY");
    h.add("history;");
    h.add("!!");
    h.add("!3");
    assert_eq!(h.len(), 0);
    h.add("SELECT 1;");
    h.add("SELECT 1");
    assert_eq!(h.len(), 1);
}

#[test]
fn history_bound_evicts_oldest() {
    let mut h = CommandHistory::new(2);
    h.add("a");
    h.add("b");
    h.add("c");
    assert_eq!(h.len(), 2);
    assert_eq!(h.iter(), vec![s("b;"), s("c;")]);
}

#[test]
fn history_navigation() {
    let mut h = CommandHistory::new(10);
    h.add("a");
    h.add("b");
    assert_eq!(h.get_previous(), Some(s("b;")));
    assert_eq!(h.get_previous(), Some(s("a;")));
    assert_eq!(h.get_previous(), None);
    assert_eq!(h.get_next(), Some(s("a;")));
    assert_eq!(h.get_next(), Some(s("b;")));
    assert_eq!(h.get_next(), None);
    h.reset_index();
    assert_eq!(h.get_previous(), Some(s("b;")));
}

#[test]
fn history_clear_and_enumerate() {
    let mut h = CommandHistory::new(10);
    h.add("a");
    h.add("b");
    let e = h.enumerate();
    assert_eq!(e, vec![(0usize, s("a;")), (1usize, s("b;"))]);
    h.clear();
    assert_eq!(h.len(), 0);
}

#[test]
fn history_command_recognition() {
    assert!(CommandHistory::is_history_command("!!"));
    assert!(CommandHistory::is_history_command(" !12 "));
    assert!(!CommandHistory::is_history_command("!abc"));
    assert!(!CommandHistory::is_history_command("select"));
}

#[test]
fn comments_are_stripped() {
    assert_eq!(
        remove_comments("select 1; -- trailing\nselect 2;"),
        s("select 1; \nselect 2;")
    );
    assert_eq!(remove_comments("a /* gone */ b"), s("a  b"));
    assert_eq!(remove_comments("plain"), s("plain"));
}

#[test]
fn exit_commands_recognized() {
    assert!(should_exit(" exit "));
    assert!(should_exit("EXIT;"));
    assert!(should_exit("quit"));
    assert!(should_exit("Quit;"));
    assert!(!should_exit("exits"));
}

#[test]
fn command_argument_cleaned() {
    assert_eq!(clean_command_arg("  3;; "), s("3"));
    assert_eq!(clean_command_arg("7"), s("7"));
}

#[test]
fn snapshot_accepts_canonical_documents() {
    // A canonical document written by hand must load, and re-encode to
    // itself.
    let text = "{\"tables\":[{\"name\":\"t\",\"columns\":[{\"name\":\"id\",\"data_type\":{\"Int\":10},\"is_primary\":true,\"not_null\":true},{\"name\":\"v\",\"data_type\":{\"Varchar\":255},\"is_primary\":false,\"not_null\":false}],\"data\":[[\"1\",\"a\"],[\"2\",\"\"]]}]}";
    let db = Database::load(text).unwrap();
    assert_eq!(db.tables[0].name, s("t"));
    assert_eq!(db.tables[0].data.len(), 2);
    assert_eq!(db.save(), s(text));
}
