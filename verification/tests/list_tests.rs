use db_rs::table::Table;
use db_rs::Bincode;
use db_rs::Config;
use db_rs::Database;
use db_rs::Db;
use db_rs::List;
use db_rs::SchemaName;

struct Name;

impl SchemaName for Name {
    fn name() -> &'static str {
        "Schema"
    }

    fn schema_name() -> &'static str {
        "Schema"
    }
}

type Lists = (List<String, Bincode>, (List<String, Bincode>, (List<String, Bincode>, ())));

type Schema = Database<Name, Lists>;

/// Opens the database on what the log file holds.
fn open(file: &[u8], config: Config) -> Schema {
    let stamp = file.len().min(2);
    Schema::init(config, &file[..stamp], &file[stamp..]).unwrap()
}

/// Appends to the log file what the database owes it.
fn sync(db: &mut Schema, file: &mut Vec<u8>) {
    file.extend(db.logger.take_pending());
}

fn strings(list: &List<String, Bincode>) -> Vec<&str> {
    list.get().iter().map(|s| s.as_str()).collect()
}

#[test]
fn list_test() {
    let dir = "/tmp/j/";
    let mut file = Vec::new();
    let mut db = open(&file, Config::in_folder(dir));
    db.tables.0.push(&mut db.logger, "a".to_string()).unwrap();
    assert_eq!(db.tables.0.get(), ["a"]);
    sync(&mut db, &mut file);

    drop(db);
    let db = open(&file, Config::in_folder(dir));
    assert_eq!(db.tables.0.get(), ["a"]);
}

#[test]
fn list_test2() {
    let dir = "/tmp/k/";
    let mut file = Vec::new();
    let mut db = open(&file, Config::in_folder(dir));
    db.tables.0.push(&mut db.logger, "a".to_string()).unwrap();

    for s in ["b", "c", "d"] {
        db.tables.1.0.push(&mut db.logger, s.to_string()).unwrap();
    }
    for s in ["e", "f", "g", "h", "i", "j"] {
        db.tables.1.1.0.push(&mut db.logger, s.to_string()).unwrap();
    }

    assert_eq!(db.tables.0.get(), ["a"]);
    assert_eq!(db.tables.1.0.get(), ["b", "c", "d"]);
    assert_eq!(db.tables.1.1.0.get(), ["e", "f", "g", "h", "i", "j"]);
    sync(&mut db, &mut file);
    drop(db);

    let db = open(&file, Config::in_folder(dir));
    assert_eq!(db.tables.0.get(), ["a"]);
    assert_eq!(db.tables.1.0.get(), ["b", "c", "d"]);
    assert_eq!(db.tables.1.1.0.get(), ["e", "f", "g", "h", "i", "j"]);
}

#[test]
fn list_test3() {
    let dir = "/tmp/kk/";
    let mut file = Vec::new();
    let mut db = open(&file, Config::in_folder(dir));
    db.tables.0.push(&mut db.logger, "a".to_string()).unwrap();

    for s in ["b", "c", "d"] {
        db.tables.1.0.push(&mut db.logger, s.to_string()).unwrap();
    }
    assert_eq!(db.tables.1.0.remove(&mut db.logger, 1).unwrap(), "c");

    for s in ["e", "f", "g", "h", "i", "j"] {
        db.tables.1.1.0.push(&mut db.logger, s.to_string()).unwrap();
    }

    assert_eq!(db.tables.1.1.0.pop(&mut db.logger).unwrap(), Some("j".to_string()));
    assert_eq!(db.tables.1.1.0.pop(&mut db.logger).unwrap(), Some("i".to_string()));

    assert_eq!(db.tables.0.get(), ["a"]);
    assert_eq!(db.tables.1.0.get(), ["b", "d"]);
    assert_eq!(db.tables.1.1.0.get(), ["e", "f", "g", "h"]);

    sync(&mut db, &mut file);
    drop(db);
    let db = open(&file, Config::in_folder(dir));
    assert_eq!(db.tables.0.get(), ["a"]);
    assert_eq!(db.tables.1.0.get(), ["b", "d"]);
    assert_eq!(db.tables.1.1.0.get(), ["e", "f", "g", "h"]);
}

#[test]
fn list_test_clear() {
    let dir = "/tmp/kkk/";
    let mut file = Vec::new();
    let mut db = open(&file, Config::in_folder(dir));
    db.tables.0.push(&mut db.logger, "a".to_string()).unwrap();

    for s in ["b", "c"] {
        db.tables.1.0.push(&mut db.logger, s.to_string()).unwrap();
    }
    for s in ["e", "f", "g", "h"] {
        db.tables.1.1.0.push(&mut db.logger, s.to_string()).unwrap();
    }

    assert_eq!(db.tables.0.get(), ["a"]);
    assert_eq!(db.tables.1.0.get(), ["b", "c"]);
    assert_eq!(db.tables.1.1.0.get(), ["e", "f", "g", "h"]);

    db.tables.1.0.clear(&mut db.logger).unwrap();

    assert_eq!(db.tables.0.get(), ["a"]);
    assert_eq!(db.tables.1.0.get(), Vec::<String>::new());
    assert_eq!(db.tables.1.1.0.get(), ["e", "f", "g", "h"]);

    sync(&mut db, &mut file);
    drop(db);
    let db = open(&file, Config::in_folder(dir));
    assert_eq!(db.tables.0.get(), ["a"]);
    assert_eq!(db.tables.1.0.get(), Vec::<String>::new());
    assert_eq!(db.tables.1.1.0.get(), ["e", "f", "g", "h"]);
}

#[test]
fn list_pop_on_an_empty_list_writes_nothing() {
    let mut file = Vec::new();
    let mut db = open(&file, Config::in_folder("/tmp/pop/"));
    sync(&mut db, &mut file);
    assert_eq!(db.tables.0.pop(&mut db.logger).unwrap(), None);
    assert!(db.logger.take_pending().is_empty());
    assert!(strings(&db.tables.0).is_empty());
}

#[test]
fn list_remove_out_of_range_is_refused() {
    let mut file = Vec::new();
    let mut db = open(&file, Config::in_folder("/tmp/oor/"));
    sync(&mut db, &mut file);
    db.tables.0.push(&mut db.logger, "a".to_string()).unwrap();
    sync(&mut db, &mut file);
    assert!(matches!(
        db.tables.0.remove(&mut db.logger, 1),
        Err(db_rs::DbError::Unexpected(_))
    ));
    assert!(db.logger.take_pending().is_empty());
    assert_eq!(strings(&db.tables.0), ["a"]);
}

#[test]
fn list_replay_of_an_index_out_of_range_fails() {
    let mut list = List::<String, Bincode>::init(1);
    // the removal at index 3, from an empty list
    let payload = [2, 0, 0, 0, 3, 0, 0, 0, 0, 0, 0, 0];
    assert!(matches!(list.handle_event(&payload), Err(db_rs::DbError::Unexpected(_))));
    // the insertion of "x" at index 0
    let payload = [1, 0, 0, 0, 0, 0, 0, 0, 0, 0, 0, 0, 1, 0, 0, 0, 0, 0, 0, 0, b'x'];
    list.handle_event(&payload).unwrap();
    assert_eq!(list.get(), ["x"]);
}

#[test]
fn list_entries_are_what_bincode_writes_for_them() {
    let mut file = Vec::new();
    let mut db = open(&file, Config::in_folder("/tmp/fmt/"));
    sync(&mut db, &mut file);
    db.tables.0.push(&mut db.logger, "ab".to_string()).unwrap();
    let written = db.logger.take_pending();
    let payload = bincode::serialize(&(0u32, "ab".to_string())).unwrap();
    let mut expected = vec![1, 0, 0, 0, payload.len() as u8];
    expected.extend(payload);
    assert_eq!(written, expected);

    db.tables.0.remove(&mut db.logger, 0).unwrap();
    let written = db.logger.take_pending();
    let payload = bincode::serialize(&(2u32, 0usize)).unwrap();
    let mut expected = vec![1, 0, 0, 0, payload.len() as u8];
    expected.extend(payload);
    assert_eq!(written, expected);
}
