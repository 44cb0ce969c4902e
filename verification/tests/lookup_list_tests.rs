use db_rs::table::Table;
use db_rs::Bincode;
use db_rs::Config;
use db_rs::Database;
use db_rs::Db;
use db_rs::DbError;
use db_rs::LookupList;
use db_rs::SchemaName;

struct Name;

impl SchemaName for Name {
    fn name() -> &'static str {
        "LookupSchema"
    }

    fn schema_name() -> &'static str {
        "LookupSchema"
    }
}

type Table1 = LookupList<u8, String, Bincode>;

type LookupSchema = Database<Name, (Table1, (Table1, (Table1, (Table1, (Table1, ())))))>;

fn open(file: &[u8], config: Config) -> LookupSchema {
    let stamp = file.len().min(2);
    LookupSchema::init(config, &file[..stamp], &file[stamp..]).unwrap()
}

fn sync(db: &mut LookupSchema, file: &mut Vec<u8>) {
    file.extend(db.logger.take_pending());
}

#[test]
fn lookup_list_tests_test() {
    let dir = "/tmp/o/";
    let mut file = Vec::new();
    let mut db = open(&file, Config::in_folder(dir));
    db.tables.0.push(&mut db.logger, 5, "test".to_string()).unwrap();
    sync(&mut db, &mut file);
    drop(db);

    let db = open(&file, Config::in_folder(dir));
    let target = vec!["test".to_string()];
    assert_eq!(db.tables.0.get().get(&5).unwrap(), &target);
}

#[test]
fn lookup_list_tests_test2() {
    let dir = "/tmp/p/";
    let mut file = Vec::new();
    let mut db = open(&file, Config::in_folder(dir));
    db.tables.0.push(&mut db.logger, 1, "test1".to_string()).unwrap();
    assert!(db.tables.0.get().get(&1).is_some());
    db.tables.0.push(&mut db.logger, 2, "test2".to_string()).unwrap();
    db.tables.0.push(&mut db.logger, 3, "test3".to_string()).unwrap();
    db.tables.0.push(&mut db.logger, 4, "test4".to_string()).unwrap();
    db.tables.0.push(&mut db.logger, 5, "test5".to_string()).unwrap();
    sync(&mut db, &mut file);
    drop(db);

    let db = open(&file, Config::in_folder(dir));
    assert!(db.tables.0.get().get(&1).unwrap().contains(&"test1".to_string()));
    assert!(db.tables.0.get().get(&2).unwrap().contains(&"test2".to_string()));
    assert!(db.tables.0.get().get(&3).unwrap().contains(&"test3".to_string()));
    assert!(db.tables.0.get().get(&4).unwrap().contains(&"test4".to_string()));
    assert!(db.tables.0.get().get(&5).unwrap().contains(&"test5".to_string()));
}

#[test]
fn lookup_list_tests_test3() {
    let dir = "/tmp/q/";
    let mut file = Vec::new();
    let mut db = open(&file, Config::in_folder(dir));
    db.tables.0.create_key(&mut db.logger, 1).unwrap();
    assert!(db.tables.0.get().get(&1).is_some());
    assert!(db.tables.0.get().get(&1).unwrap().is_empty());
    sync(&mut db, &mut file);

    let db = open(&file, Config::in_folder(dir));
    assert!(db.tables.0.get().get(&1).is_some());
    assert!(db.tables.0.get().get(&1).unwrap().is_empty());
}

#[test]
fn lookup_list_keeps_the_order_of_what_is_pushed() {
    let mut file = Vec::new();
    let mut db = open(&file, Config::in_folder("/tmp/ll"));
    for v in ["a", "b", "c", "d"] {
        db.tables.0.push(&mut db.logger, 7, v.to_string()).unwrap();
    }
    assert!(db.tables.0.remove(&mut db.logger, 7, 1).unwrap());
    assert!(!db.tables.0.remove(&mut db.logger, 8, 0).unwrap());
    assert!(matches!(db.tables.0.remove(&mut db.logger, 7, 3), Err(DbError::Unexpected(_))));
    assert_eq!(db.tables.0.get().get(&7).unwrap(), &["a", "c", "d"]);
    sync(&mut db, &mut file);

    let db = open(&file, Config::in_folder("/tmp/ll"));
    assert_eq!(db.tables.0.get().get(&7).unwrap(), &["a", "c", "d"]);
    assert_eq!(db.tables.0.get().len(), 1);
}

#[test]
fn lookup_list_create_key_and_clear_key_give_back_what_was_there() {
    let mut file = Vec::new();
    let mut db = open(&file, Config::in_folder("/tmp/ll"));
    db.tables.0.push(&mut db.logger, 1, "a".to_string()).unwrap();
    assert_eq!(db.tables.0.create_key(&mut db.logger, 1).unwrap(), Some(vec!["a".to_string()]));
    assert_eq!(db.tables.0.create_key(&mut db.logger, 2).unwrap(), None);
    db.tables.0.push(&mut db.logger, 2, "b".to_string()).unwrap();
    assert_eq!(db.tables.0.clear_key(&mut db.logger, &2).unwrap(), Some(vec!["b".to_string()]));
    assert_eq!(db.tables.0.clear_key(&mut db.logger, &3).unwrap(), None);
    sync(&mut db, &mut file);

    let mut db = open(&file, Config::in_folder("/tmp/ll"));
    assert_eq!(db.tables.0.get().len(), 1);
    assert!(db.tables.0.get().get(&1).unwrap().is_empty());
    db.tables.0.clear(&mut db.logger).unwrap();
    assert!(db.tables.0.get().is_empty());
    sync(&mut db, &mut file);
    let db = open(&file, Config::in_folder("/tmp/ll"));
    assert!(db.tables.0.get().is_empty());
}

#[test]
fn lookup_list_entries_are_what_bincode_writes_for_them() {
    let mut file = Vec::new();
    let mut db = open(&file, Config::in_folder("/tmp/ll"));
    sync(&mut db, &mut file);
    db.tables.0.push(&mut db.logger, 5, "v".to_string()).unwrap();
    db.tables.0.remove(&mut db.logger, 5, 0).unwrap();
    db.tables.0.create_key(&mut db.logger, 6).unwrap();
    db.tables.0.clear_key(&mut db.logger, &6).unwrap();
    db.tables.0.clear(&mut db.logger).unwrap();
    let payloads = vec![
        bincode::serialize(&(0u32, 5u8, "v".to_string())).unwrap(),
        bincode::serialize(&(1u32, 5u8, 0usize)).unwrap(),
        bincode::serialize(&(2u32, 6u8)).unwrap(),
        bincode::serialize(&(3u32, 6u8)).unwrap(),
        bincode::serialize(&4u32).unwrap(),
    ];
    let mut expected = Vec::new();
    for payload in payloads {
        expected.extend([1, 0, 0, 0, payload.len() as u8]);
        expected.extend(payload);
    }
    assert_eq!(db.logger.take_pending(), expected);
}

#[test]
fn lookup_list_replay_of_an_index_out_of_range_fails() {
    let mut table = Table1::init(1);
    table.handle_event(&bincode::serialize(&(0u32, 5u8, "v".to_string())).unwrap()).unwrap();
    let beyond = bincode::serialize(&(1u32, 5u8, 1usize)).unwrap();
    assert!(matches!(table.handle_event(&beyond), Err(DbError::Unexpected(_))));
    let absent = bincode::serialize(&(1u32, 9u8, 1usize)).unwrap();
    table.handle_event(&absent).unwrap();
    assert_eq!(table.get().get(&5).unwrap(), &["v"]);
    assert_eq!(table.get().len(), 1);
}

#[test]
fn lookup_list_compact_repr_rebuilds_the_table() {
    let mut logger = db_rs::Logger::init(Config::no_io(), &[]).unwrap();
    let mut table = Table1::init(4);
    for k in 0..20u8 {
        table.create_key(&mut logger, k).unwrap();
        for n in 0..(k % 4) {
            table.push(&mut logger, k, format!("{k}-{n}")).unwrap();
        }
    }
    let repr = table.compact_repr().unwrap();
    let mut rebuilt = Table1::init(4);
    for entry in logger.get_entries(&repr) {
        assert_eq!(entry.table_id, 4);
        rebuilt.handle_event(entry.bytes).unwrap();
    }
    assert_eq!(rebuilt.get(), table.get());
    assert!(rebuilt.get().get(&4).unwrap().is_empty());
    assert_eq!(rebuilt.get().get(&7).unwrap(), &["7-0", "7-1", "7-2"]);
}

#[test]
fn lookup_list_compact_repr_has_one_record_for_each_value_or_empty_key() {
    let mut logger = db_rs::Logger::init(Config::no_io(), &[]).unwrap();
    let mut table = Table1::init(4);
    assert!(table.compact_repr().unwrap().is_empty());
    let mut expected = 0;
    for k in 0..20u8 {
        table.create_key(&mut logger, k).unwrap();
        for n in 0..(k % 4) {
            table.push(&mut logger, k, format!("{k}-{n}")).unwrap();
        }
        expected += if k % 4 == 0 { 1 } else { usize::from(k % 4) };
    }
    let repr = table.compact_repr().unwrap();
    assert_eq!(logger.get_entries(&repr).len(), expected);
}
