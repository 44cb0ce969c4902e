use db_rs::table::Table;
use db_rs::Bincode;
use db_rs::Config;
use db_rs::Database;
use db_rs::Db;
use db_rs::DbError;
use db_rs::SchemaName;
use db_rs::Single;

struct Name;

impl SchemaName for Name {
    fn name() -> &'static str {
        "SingleSchema"
    }

    fn schema_name() -> &'static str {
        "SingleSchema"
    }
}

type Tables = (
    Single<u8, Bincode>,
    (
        Single<String, Bincode>,
        (Single<u32, Bincode>, (Single<Vec<u8>, Bincode>, (Single<String, Bincode>, ()))),
    ),
);

type SingleSchema = Database<Name, Tables>;

fn open(file: &[u8], config: Config) -> SingleSchema {
    let stamp = file.len().min(2);
    SingleSchema::init(config, &file[..stamp], &file[stamp..]).unwrap()
}

fn sync(db: &mut SingleSchema, file: &mut Vec<u8>) {
    file.extend(db.logger.take_pending());
}

#[test]
fn test_simple() {
    let dir = "/tmp/c";
    let mut file = Vec::new();

    let mut db = open(&file, Config::in_folder(dir));
    db.tables.0.insert(&mut db.logger, 5).unwrap();
    assert_eq!(db.tables.0.data(), Some(&5));
    sync(&mut db, &mut file);

    let mut db = open(&file, Config::in_folder(dir));
    assert_eq!(db.tables.0.data(), Some(&5));
    assert_eq!(db.tables.0.clear(&mut db.logger).unwrap(), Some(5));
    assert_eq!(db.tables.0.data(), None);
    sync(&mut db, &mut file);

    let db = open(&file, Config::in_folder(dir));
    assert_eq!(db.tables.0.data(), None);
}

#[test]
fn test_complex() {
    let dir = "/tmp/d";
    let mut file = Vec::new();
    let line = "--offline test --color=always --test single_tests test_simple --no-fail-fast --manifest-path /Users/parth/Documents/db-rs/db/Cargo.toml -- --format=json --exact -Z unstable-options --show-output";

    let mut db = open(&file, Config::in_folder(dir));
    db.tables.0.insert(&mut db.logger, 5).unwrap();
    db.tables.1.0.insert(&mut db.logger, "test".to_string()).unwrap();
    db.tables.1.1.0.insert(&mut db.logger, u32::MAX).unwrap();
    db.tables.1.1.1.0.insert(&mut db.logger, line.bytes().collect()).unwrap();
    db.tables.1.1.1.1.0.insert(&mut db.logger, "/test/test/test/test/".to_string()).unwrap();
    sync(&mut db, &mut file);

    let db = open(&file, Config::in_folder(dir));
    assert_eq!(db.tables.0.data().unwrap(), &5);
    assert_eq!(db.tables.1.0.data().unwrap(), &("test".to_string()));
    assert_eq!(db.tables.1.1.0.data().unwrap(), &u32::MAX);
    assert_eq!(db.tables.1.1.1.0.data().unwrap(), &line.bytes().collect::<Vec<u8>>());
    assert_eq!(db.tables.1.1.1.1.0.data().unwrap(), &"/test/test/test/test/".to_string());
}

#[test]
fn single_insert_gives_back_what_it_replaces() {
    let mut file = Vec::new();
    let mut db = open(&file, Config::in_folder("/tmp/single"));
    sync(&mut db, &mut file);
    assert_eq!(db.tables.0.insert(&mut db.logger, 1).unwrap(), None);
    assert_eq!(db.tables.0.insert(&mut db.logger, 2).unwrap(), Some(1));
    // "present" and the value, then "present" and the next value
    assert_eq!(db.logger.take_pending(), vec![1, 0, 0, 0, 2, 1, 1, 1, 0, 0, 0, 2, 1, 2]);
    assert_eq!(db.tables.0.clear(&mut db.logger).unwrap(), Some(2));
    assert_eq!(db.logger.take_pending(), vec![1, 0, 0, 0, 1, 0]);
}

#[test]
fn single_entries_are_what_bincode_writes_for_them() {
    let mut file = Vec::new();
    let mut db = open(&file, Config::in_folder("/tmp/single"));
    sync(&mut db, &mut file);
    db.tables.1.0.insert(&mut db.logger, "test".to_string()).unwrap();
    let payload = bincode::serialize(&Some("test".to_string())).unwrap();
    let mut expected = vec![2, 0, 0, 0, payload.len() as u8];
    expected.extend(payload);
    assert_eq!(db.logger.take_pending(), expected);
}

#[test]
fn single_compact_repr_is_one_entry_or_nothing() {
    let mut logger = db_rs::Logger::init(Config::no_io(), &[]).unwrap();
    let mut table = Single::<u8, Bincode>::init(3);
    assert!(table.compact_repr().unwrap().is_empty());
    table.insert(&mut logger, 9).unwrap();
    assert_eq!(table.compact_repr().unwrap(), vec![3, 0, 0, 0, 2, 1, 9]);
}

#[test]
fn single_refuses_what_is_no_entry() {
    let mut table = Single::<u32, Bincode>::init(1);
    assert!(matches!(table.handle_event(&[]), Err(DbError::Unexpected(_))));
    assert!(matches!(table.handle_event(&[2, 0, 0, 0, 0]), Err(DbError::Unexpected(_))));
    assert!(matches!(table.handle_event(&[1, 0, 0]), Err(DbError::Bincode(_))));
    assert_eq!(table.data(), None);
    table.handle_event(&[1, 7, 0, 0, 0]).unwrap();
    assert_eq!(table.data(), Some(&7));
    table.handle_event(&[0]).unwrap();
    assert_eq!(table.data(), None);
}

#[test]
fn a_record_of_an_unknown_table_is_refused() {
    let log = db_rs::Logger::log_entry(9, vec![0]);
    let mut file = vec![1, 0];
    file.extend(log);
    assert!(matches!(
        SingleSchema::init(Config::in_folder("/tmp/unknown"), &file[..2], &file[2..]),
        Err(DbError::Unexpected(_))
    ));
}

type Five<R> = (Single<u8, Bincode>, (Single<u8, Bincode>, (Single<u8, Bincode>, (Single<u8, Bincode>, (Single<u8, Bincode>, R)))));

type TwentyFive<R> = Five<Five<Five<Five<Five<R>>>>>;

type Hundred = TwentyFive<TwentyFive<TwentyFive<TwentyFive<()>>>>;

#[test]
fn the_tables_of_a_schema_get_their_ids_in_order() {
    let value = [1, 7];
    let mut file = vec![1, 0];
    file.extend(db_rs::Logger::log_entry(100, value.to_vec()));
    file.extend(db_rs::Logger::log_entry(1, value.to_vec()));

    let db = Database::<Name, Hundred>::open(Config::in_folder("/tmp/many"), &file[..2], &file[2..])
        .unwrap();
    assert_eq!(db.tables.0.data(), Some(&7));
    assert_eq!(db.tables.1.0.data(), None);

    let mut beyond = vec![1, 0];
    beyond.extend(db_rs::Logger::log_entry(101, value.to_vec()));
    let db = Database::<Name, Hundred>::open(Config::in_folder("/tmp/many"), &beyond[..2], &beyond[2..]);
    assert!(matches!(db, Err(DbError::Unexpected(_))));
}
