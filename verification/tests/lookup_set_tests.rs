use db_rs::table::Table;
use db_rs::Bincode;
use db_rs::Config;
use db_rs::Database;
use db_rs::Db;
use db_rs::LookupSet;
use db_rs::SchemaName;
use std::collections::HashSet;

struct Name;

impl SchemaName for Name {
    fn name() -> &'static str {
        "LookupSchema"
    }

    fn schema_name() -> &'static str {
        "LookupSchema"
    }
}

type Table1 = LookupSet<u8, u64, Bincode>;

type LookupSchema = Database<Name, (Table1, (Table1, (Table1, (Table1, (Table1, ())))))>;

fn open(file: &[u8], config: Config) -> LookupSchema {
    let stamp = file.len().min(2);
    LookupSchema::init(config, &file[..stamp], &file[stamp..]).unwrap()
}

fn sync(db: &mut LookupSchema, file: &mut Vec<u8>) {
    file.extend(db.logger.take_pending());
}

#[test]
fn lookup_set_tests_test() {
    let dir = "/tmp/l/";
    let mut file = Vec::new();
    let mut db = open(&file, Config::in_folder(dir));
    db.tables.0.insert(&mut db.logger, 5, 1000).unwrap();
    sync(&mut db, &mut file);
    drop(db);

    let db = open(&file, Config::in_folder(dir));
    let mut target = HashSet::new();
    target.insert(1000);
    assert_eq!(db.tables.0.get().get(&5).unwrap(), &target);
}

#[test]
fn lookup_set_tests_test2() {
    let dir = "/tmp/m/";
    let mut file = Vec::new();
    let mut db = open(&file, Config::in_folder(dir));
    db.tables.0.insert(&mut db.logger, 1, 1001).unwrap();
    assert!(db.tables.0.get().get(&1).is_some());
    db.tables.0.insert(&mut db.logger, 2, 1002).unwrap();
    db.tables.0.insert(&mut db.logger, 3, 1003).unwrap();
    db.tables.0.insert(&mut db.logger, 4, 1004).unwrap();
    db.tables.0.insert(&mut db.logger, 5, 1005).unwrap();
    sync(&mut db, &mut file);
    drop(db);

    let db = open(&file, Config::in_folder(dir));
    assert!(db.tables.0.get().get(&1).unwrap().contains(&1001));
    assert!(db.tables.0.get().get(&2).unwrap().contains(&1002));
    assert!(db.tables.0.get().get(&3).unwrap().contains(&1003));
    assert!(db.tables.0.get().get(&4).unwrap().contains(&1004));
    assert!(db.tables.0.get().get(&5).unwrap().contains(&1005));
}

#[test]
fn lookup_set_tests_test3() {
    let dir = "/tmp/n/";
    let mut file = Vec::new();
    let mut db = open(&file, Config::in_folder(dir));
    db.tables.0.create_key(&mut db.logger, 1).unwrap();
    assert!(db.tables.0.get().get(&1).is_some());
    assert!(db.tables.0.get().get(&1).unwrap().is_empty());
    sync(&mut db, &mut file);

    let db = open(&file, Config::in_folder(dir));
    assert!(db.tables.0.get().get(&1).is_some());
    assert!(db.tables.0.get().get(&1).unwrap().is_empty());
}

#[test]
fn lookup_set_insert_says_whether_the_value_is_new() {
    let mut file = Vec::new();
    let mut db = open(&file, Config::in_folder("/tmp/ls"));
    assert!(db.tables.0.insert(&mut db.logger, 1, 10).unwrap());
    assert!(!db.tables.0.insert(&mut db.logger, 1, 10).unwrap());
    assert!(db.tables.0.insert(&mut db.logger, 1, 11).unwrap());
    db.tables.0.create_key(&mut db.logger, 2).unwrap();
    assert!(db.tables.0.insert(&mut db.logger, 2, 10).unwrap());
    assert_eq!(db.tables.0.get().get(&1).unwrap().len(), 2);
    sync(&mut db, &mut file);
    let db = open(&file, Config::in_folder("/tmp/ls"));
    assert_eq!(db.tables.0.get().get(&1).unwrap().len(), 2);
    assert_eq!(db.tables.0.get().get(&2).unwrap().len(), 1);
}

#[test]
fn lookup_set_remove_says_whether_the_value_was_there() {
    let mut file = Vec::new();
    let mut db = open(&file, Config::in_folder("/tmp/ls"));
    db.tables.0.insert(&mut db.logger, 1, 10).unwrap();
    db.tables.0.insert(&mut db.logger, 1, 11).unwrap();
    sync(&mut db, &mut file);
    assert!(db.tables.0.remove(&mut db.logger, 1, &10).unwrap());
    assert!(!db.tables.0.remove(&mut db.logger, 1, &10).unwrap());
    assert!(!db.logger.take_pending().is_empty());
    assert!(!db.tables.0.remove(&mut db.logger, 2, &10).unwrap());
    assert!(db.logger.take_pending().is_empty());
    db.tables.0.remove(&mut db.logger, 1, &11).unwrap();
    assert!(db.tables.0.get().get(&1).unwrap().is_empty());
}

#[test]
fn lookup_set_create_key_and_clear_key_give_back_what_was_there() {
    let mut file = Vec::new();
    let mut db = open(&file, Config::in_folder("/tmp/ls"));
    db.tables.0.insert(&mut db.logger, 1, 10).unwrap();
    let held: HashSet<u64> = [10].into_iter().collect();
    assert_eq!(db.tables.0.create_key(&mut db.logger, 1).unwrap(), Some(held));
    assert_eq!(db.tables.0.create_key(&mut db.logger, 2).unwrap(), None);
    assert_eq!(db.tables.0.clear_key(&mut db.logger, &2).unwrap(), Some(HashSet::new()));
    assert_eq!(db.tables.0.clear_key(&mut db.logger, &2).unwrap(), None);
    sync(&mut db, &mut file);
    let mut db = open(&file, Config::in_folder("/tmp/ls"));
    assert_eq!(db.tables.0.get().len(), 1);
    db.tables.0.clear(&mut db.logger).unwrap();
    assert!(db.tables.0.get().is_empty());
}

#[test]
fn lookup_set_entries_are_what_bincode_writes_for_them() {
    let mut file = Vec::new();
    let mut db = open(&file, Config::in_folder("/tmp/ls"));
    sync(&mut db, &mut file);
    db.tables.0.insert(&mut db.logger, 5, 77).unwrap();
    db.tables.0.remove(&mut db.logger, 5, &77).unwrap();
    db.tables.0.create_key(&mut db.logger, 6).unwrap();
    db.tables.0.clear_key(&mut db.logger, &6).unwrap();
    db.tables.0.clear(&mut db.logger).unwrap();
    let payloads = vec![
        bincode::serialize(&(0u32, 5u8, 77u64)).unwrap(),
        bincode::serialize(&(1u32, 5u8, 77u64)).unwrap(),
        bincode::serialize(&(2u32, 6u8)).unwrap(),
        bincode::serialize(&(3u32, 6u8)).unwrap(),
        bincode::serialize(&4u32).unwrap(),
    ];
    let mut expected = Vec::new();
    for payload in payloads {
        expected.extend([1, 0, 0, 0, payload.len() as u8]);
        expected.extend(payload);
    }
    assert_eq!(db.logger.take_pending(), expected);
}

#[test]
fn lookup_set_compact_repr_rebuilds_the_table() {
    let mut logger = db_rs::Logger::init(Config::no_io(), &[]).unwrap();
    let mut table = Table1::init(4);
    for k in 0..20u8 {
        table.create_key(&mut logger, k).unwrap();
        for n in 0..(k % 4) {
            table.insert(&mut logger, k, 100 * k as u64 + n as u64).unwrap();
        }
    }
    let repr = table.compact_repr().unwrap();
    let mut rebuilt = Table1::init(4);
    for entry in logger.get_entries(&repr) {
        assert_eq!(entry.table_id, 4);
        rebuilt.handle_event(entry.bytes).unwrap();
    }
    assert_eq!(rebuilt.get(), table.get());
    assert!(rebuilt.get().get(&4).unwrap().is_empty());
    assert_eq!(rebuilt.get().get(&7).unwrap().len(), 3);
}
