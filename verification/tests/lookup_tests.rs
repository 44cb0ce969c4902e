use db_rs::table::Table;
use db_rs::Bincode;
use db_rs::Config;
use db_rs::Database;
use db_rs::Db;
use db_rs::DbError;
use db_rs::LookupTable;
use db_rs::SchemaName;

struct Name;

impl SchemaName for Name {
    fn name() -> &'static str {
        "LookupSchema"
    }

    fn schema_name() -> &'static str {
        "LookupSchema"
    }
}

type Table1 = LookupTable<u8, String, Bincode>;

type LookupSchema = Database<Name, (Table1, (Table1, (Table1, (Table1, (Table1, ())))))>;

fn open(file: &[u8], config: Config) -> LookupSchema {
    let stamp = file.len().min(2);
    LookupSchema::init(config, &file[..stamp], &file[stamp..]).unwrap()
}

fn sync(db: &mut LookupSchema, file: &mut Vec<u8>) {
    file.extend(db.logger.take_pending());
}

#[test]
fn lookup_tests_test() {
    let dir = "/tmp/a/";
    let mut file = Vec::new();
    let mut db = open(&file, Config::in_folder(dir));
    db.tables.0.insert(&mut db.logger, 5, "test".to_string()).unwrap();
    sync(&mut db, &mut file);
    drop(db);

    let db = open(&file, Config::in_folder(dir));
    assert_eq!(db.tables.0.get(&5).unwrap(), "test");
}

#[test]
fn lookup_tests_test2() {
    let dir = "/tmp/b/";
    let mut file = Vec::new();
    let mut db = open(&file, Config::in_folder(dir));
    db.tables.0.insert(&mut db.logger, 5, "test".to_string()).unwrap();
    db.tables.0.insert(&mut db.logger, 5, "test".to_string()).unwrap();
    db.tables.0.insert(&mut db.logger, 1, "test1".to_string()).unwrap();
    db.tables.0.insert(&mut db.logger, 2, "tes2".to_string()).unwrap();
    db.tables.0.insert(&mut db.logger, 3, "test3".to_string()).unwrap();
    db.tables.0.insert(&mut db.logger, 5, "test5".to_string()).unwrap();
    sync(&mut db, &mut file);
    drop(db);

    let db = open(&file, Config::in_folder(dir));
    assert_eq!(db.tables.0.get(&1).unwrap(), "test1");
    assert_eq!(db.tables.0.get(&2).unwrap(), "tes2");
    assert_eq!(db.tables.0.get(&3).unwrap(), "test3");
    assert_eq!(db.tables.0.get(&5).unwrap(), "test5");
}

#[test]
fn lookup_insert_gives_back_what_it_replaces() {
    let mut file = Vec::new();
    let mut db = open(&file, Config::in_folder("/tmp/lookup"));
    sync(&mut db, &mut file);
    assert_eq!(db.tables.0.insert(&mut db.logger, 5, "a".to_string()).unwrap(), None);
    assert_eq!(
        db.tables.0.insert(&mut db.logger, 5, "b".to_string()).unwrap(),
        Some("a".to_string())
    );
    assert_eq!(db.tables.0.data().len(), 1);
    assert_eq!(db.tables.0.get(&4), None);
}

#[test]
fn lookup_clear_empties_the_table() {
    let mut file = Vec::new();
    let mut db = open(&file, Config::in_folder("/tmp/lookup"));
    db.tables.1.0.insert(&mut db.logger, 1, "a".to_string()).unwrap();
    db.tables.1.0.insert(&mut db.logger, 2, "b".to_string()).unwrap();
    db.tables.1.0.clear(&mut db.logger).unwrap();
    db.tables.1.0.insert(&mut db.logger, 3, "c".to_string()).unwrap();
    assert_eq!(db.tables.1.0.data().len(), 1);
    sync(&mut db, &mut file);

    let db = open(&file, Config::in_folder("/tmp/lookup"));
    assert_eq!(db.tables.1.0.data().len(), 1);
    assert_eq!(db.tables.1.0.get(&3).unwrap(), "c");
    assert!(db.tables.0.data().is_empty());
}

#[test]
fn lookup_entries_are_what_bincode_writes_for_them() {
    let mut file = Vec::new();
    let mut db = open(&file, Config::in_folder("/tmp/lookup"));
    sync(&mut db, &mut file);
    db.tables.0.insert(&mut db.logger, 5, "test".to_string()).unwrap();
    let payload = bincode::serialize(&(0u32, 5u8, "test".to_string())).unwrap();
    let mut expected = vec![1, 0, 0, 0, payload.len() as u8];
    expected.extend(payload);
    assert_eq!(db.logger.take_pending(), expected);

    db.tables.0.clear(&mut db.logger).unwrap();
    assert_eq!(db.logger.take_pending(), vec![1, 0, 0, 0, 4, 2, 0, 0, 0]);
}

#[test]
fn lookup_replays_a_removal() {
    let mut table = Table1::init(1);
    table.handle_event(&bincode::serialize(&(0u32, 5u8, "five".to_string())).unwrap()).unwrap();
    table.handle_event(&bincode::serialize(&(0u32, 6u8, "six".to_string())).unwrap()).unwrap();
    table.handle_event(&bincode::serialize(&(1u32, 5u8)).unwrap()).unwrap();
    assert_eq!(table.get(&5), None);
    assert_eq!(table.get(&6).unwrap(), "six");
    assert!(matches!(table.handle_event(&[3, 0, 0, 0]), Err(DbError::Unexpected(_))));
    assert!(matches!(table.handle_event(&[0, 0, 0, 0, 5, 9]), Err(DbError::Bincode(_))));
    assert!(matches!(table.handle_event(&[0, 0]), Err(DbError::Unexpected(_))));
    assert_eq!(table.data().len(), 1);
}

#[test]
fn lookup_compact_repr_rebuilds_the_table() {
    let mut logger = db_rs::Logger::init(Config::no_io(), &[]).unwrap();
    let mut table = Table1::init(2);
    for i in 0..50u8 {
        table.insert(&mut logger, i, format!("{i}")).unwrap();
        table.insert(&mut logger, i, format!("{i}!")).unwrap();
    }
    let repr = table.compact_repr().unwrap();
    let mut rebuilt = Table1::init(2);
    for entry in logger.get_entries(&repr) {
        assert_eq!(entry.table_id, 2);
        rebuilt.handle_event(entry.bytes).unwrap();
    }
    assert_eq!(rebuilt.data(), table.data());
    assert_eq!(rebuilt.data().len(), 50);
    assert_eq!(rebuilt.get(&7).unwrap(), "7!");
}
