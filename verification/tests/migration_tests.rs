use db_rs::Bincode;
use db_rs::Config;
use db_rs::Database;
use db_rs::Db;
use db_rs::Logger;
use db_rs::LookupTable;
use db_rs::SchemaName;

struct Name;

impl SchemaName for Name {
    fn name() -> &'static str {
        "MigrationTest"
    }

    fn schema_name() -> &'static str {
        "MigrationTest"
    }
}

type MigrationTest = Database<Name, (LookupTable<u8, String, Bincode>, ())>;

/// The files of a database, by what they hold.
struct Files {
    v1: Option<Vec<u8>>,
    staging: Option<Vec<u8>>,
    v2: Option<Vec<u8>>,
}

/// Opens the database as its owner would: migrates, then replays the log.
fn open(files: &mut Files) -> MigrationTest {
    let plan = Logger::handle_migration(files.v1.is_some(), files.staging.is_some(), files.v2.is_some());
    if plan.remove_staging {
        files.staging = None;
    }
    if plan.migrate {
        files.staging = Some(Logger::migrated(files.v1.clone().unwrap()));
        files.v2 = files.staging.take();
        files.v1 = None;
    }
    let file = files.v2.get_or_insert_with(Vec::new);
    let stamp = file.len().min(2);
    let mut db =
        MigrationTest::init(Config::in_folder("tests/test_data/v1_log_format"), &file[..stamp], &file[stamp..])
            .unwrap();
    file.extend(db.logger.take_pending());
    db
}

/// A log in the legacy format: the records, without a stamp.
fn generate_data() -> Vec<u8> {
    let mut v1 = Vec::new();
    for (key, value) in [(0u8, "zero"), (1, "one"), (2, "two"), (3, "three")] {
        let payload = bincode::serialize(&(0u32, key, value.to_string())).unwrap();
        v1.extend(Logger::log_entry(1, payload));
    }
    v1
}

#[test]
fn migration_test() {
    let mut files = Files { v1: Some(generate_data()), staging: None, v2: None };

    // run init ensure migration succeeds
    let db = open(&mut files);

    // make sure the files we expect are there
    assert!(files.v2.is_some());
    assert!(files.v1.is_none());

    // make sure the data we expect is there
    assert_eq!(db.tables.0.data().len(), 4);
    assert_eq!(db.tables.0.data().get(&0).unwrap(), "zero");
    assert_eq!(db.tables.0.data().get(&1).unwrap(), "one");
    assert_eq!(db.tables.0.data().get(&2).unwrap(), "two");
    assert_eq!(db.tables.0.data().get(&3).unwrap(), "three");

    // drop the db re-run init
    drop(db);
    let db = open(&mut files);

    // make sure the files we expect are there
    assert!(files.v2.is_some());
    assert!(files.v1.is_none());

    // make sure the data we expect is there
    assert_eq!(db.tables.0.data().len(), 4);
    assert_eq!(db.tables.0.data().get(&0).unwrap(), "zero");
    assert_eq!(db.tables.0.data().get(&1).unwrap(), "one");
    assert_eq!(db.tables.0.data().get(&2).unwrap(), "two");
    assert_eq!(db.tables.0.data().get(&3).unwrap(), "three");
}

#[test]
fn a_migrated_log_is_the_stamp_and_the_legacy_log() {
    assert_eq!(Logger::migrated(vec![9, 8, 7]), vec![1, 0, 9, 8, 7]);
    assert_eq!(Logger::migrated(vec![]), vec![1, 0]);
}

#[test]
fn a_migration_happens_only_without_a_live_log() {
    for v1 in [false, true] {
        for staging in [false, true] {
            for v2 in [false, true] {
                let plan = Logger::handle_migration(v1, staging, v2);
                assert_eq!(plan.remove_staging, v1 && staging);
                assert_eq!(plan.migrate, v1 && !v2);
            }
        }
    }
}

#[test]
fn a_staging_file_that_was_left_behind_is_replaced() {
    let mut files = Files { v1: Some(generate_data()), staging: Some(vec![1, 0, 1, 2, 3]), v2: None };
    let db = open(&mut files);
    assert!(files.staging.is_none());
    assert!(files.v1.is_none());
    assert_eq!(db.tables.0.data().len(), 4);
    assert!(!db.incomplete_write());
}

#[test]
fn a_live_log_wins_over_a_legacy_log() {
    let mut live = vec![1, 0];
    live.extend(Logger::log_entry(1, bincode::serialize(&(0u32, 9u8, "nine".to_string())).unwrap()));
    let mut files = Files { v1: Some(generate_data()), staging: None, v2: Some(live) };
    let db = open(&mut files);
    assert!(files.v1.is_some());
    assert_eq!(db.tables.0.data().len(), 1);
    assert_eq!(db.tables.0.data().get(&9).unwrap(), "nine");
}
