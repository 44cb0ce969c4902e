use db_rs::compacter::Step;
use db_rs::BackgroundCompacter;
use db_rs::Bincode;
use db_rs::CancelSig;
use db_rs::Config;
use db_rs::Database;
use db_rs::Db;
use db_rs::LookupTable;
use db_rs::SchemaName;
use db_rs::Single;

struct Name;

impl SchemaName for Name {
    fn name() -> &'static str {
        "LogTests"
    }

    fn schema_name() -> &'static str {
        "LogTests"
    }
}

type LogTests = Database<Name, (LookupTable<u8, String, Bincode>, (Single<Vec<u128>, Bincode>, ()))>;

fn open(file: &[u8], config: Config) -> LogTests {
    let stamp = file.len().min(2);
    LogTests::init(config, &file[..stamp], &file[stamp..]).unwrap()
}

fn sync(db: &mut LogTests, file: &mut Vec<u8>) {
    file.extend(db.logger.take_pending());
}

fn populate(db: &mut LogTests, file: &mut Vec<u8>) {
    for i in 0..u8::MAX {
        db.tables
            .0
            .insert(&mut db.logger, i, format!("{i} * {i} = {}", i as usize * i as usize))
            .unwrap();
        let mut data = db.tables.1.0.data().cloned().unwrap_or_default();
        data.push(i as u128 * i as u128);
        db.tables.1.0.insert(&mut db.logger, data).unwrap();
        sync(db, file);
    }
}

#[test]
fn log_compaction() {
    let dir = "/tmp/e";
    let mut file = Vec::new();

    let mut db = open(&file, Config::in_folder(dir));
    populate(&mut db, &mut file);

    assert!(file.len() > 500000);
    db.tables.0.clear(&mut db.logger).unwrap();
    sync(&mut db, &mut file);
    file = db.compact_log().unwrap();
    db.finish_compaction();
    assert!(file.len() < (256 * (128 / 8)) + 1 + 4 + 100);

    let db = open(&file, Config::in_folder(dir));
    assert_eq!(db.tables.0.data().get(&4), None);
    assert_eq!(db.tables.1.0.data().unwrap().len() as u8, u8::MAX);
    assert!(!db.incomplete_write());
    assert_eq!(db.logger.log_metadata().unwrap().compaction_count, 1);
}

#[test]
fn the_snapshot_of_an_empty_lookup_table_is_empty() {
    let mut file = Vec::new();
    let mut db = open(&file, Config::in_folder("/tmp/e"));
    populate(&mut db, &mut file);
    db.tables.0.clear(&mut db.logger).unwrap();
    assert!(db_rs::table::Table::compact_repr(&db.tables.0).unwrap().is_empty());
    // what is left is the one record of the second table
    let snapshot = db.compact_repr().unwrap();
    assert_eq!(snapshot.len(), 5 + 1 + 8 + 255 * 16);
}

#[test]
fn a_read_only_database_refuses_changes() {
    let mut file = Vec::new();
    let mut db = open(&file, Config::in_folder("/tmp/ro"));
    db.tables.0.insert(&mut db.logger, 1, "one".to_string()).unwrap();
    sync(&mut db, &mut file);

    let mut config = Config::in_folder("/tmp/ro");
    config.read_only = true;
    let mut db = open(&file, config);
    assert_eq!(db.tables.0.get(&1).unwrap(), "one");
    assert!(db.tables.0.insert(&mut db.logger, 2, "two".to_string()).is_err());
    assert!(db.tables.0.clear(&mut db.logger).is_err());
    assert!(db.tables.1.0.insert(&mut db.logger, vec![1]).is_err());
    assert_eq!(db.tables.0.data().len(), 1);
    assert_eq!(db.tables.0.get(&1).unwrap(), "one");
    assert_eq!(db.tables.1.0.data(), None);
    assert!(db.logger.take_pending().is_empty());
}

#[test]
fn inter_log() {
    let dir = "/tmp/f";
    let mut file = Vec::new();

    let mut db = open(&file, Config::in_folder(dir));
    assert!(!db.incomplete_write());
    populate(&mut db, &mut file);

    let buf = file[0..1000].to_vec();

    let db = open(&buf, Config::in_folder(dir));
    assert!(db.incomplete_write());
    assert_eq!(db.tables.0.data().get(&0).unwrap(), "0 * 0 = 0");

    // exactly the entries whose records fit within the bytes that are left
    let mut fit = 0;
    let mut at = 2;
    loop {
        let size = u32::from_be_bytes([file[at + 1], file[at + 2], file[at + 3], file[at + 4]]);
        let end = at + 5 + size as usize;
        if end > 1000 {
            break;
        }
        if file[at] == 1 {
            fit += 1;
        }
        at = end;
    }
    assert!(fit > 0);
    assert_eq!(db.tables.0.data().len(), fit);
    for i in 0..fit as u8 {
        assert!(db.tables.0.data().contains_key(&i));
    }
}

#[test]
fn compaction_equivalence() {
    let mut file = Vec::new();
    let mut db = open(&file, Config::in_folder("/tmp/ce"));
    populate(&mut db, &mut file);
    let snapshot = db.compact_repr().unwrap();
    let image = db.compact_log().unwrap();
    db.finish_compaction();
    assert_eq!(image.len(), snapshot.len() + 2 + 5);
    assert_eq!(db.logger.log_metadata().unwrap().compaction_count, 1);

    let again = open(&image, Config::in_folder("/tmp/ce"));
    assert_eq!(again.tables.0.data(), db.tables.0.data());
    assert_eq!(again.tables.1.0.data(), db.tables.1.0.data());
    assert_eq!(again.tables.0.data().len(), 255);
    assert_eq!(again.tables.0.data().get(&12).unwrap(), "12 * 12 = 144");
}

#[test]
fn replay_fidelity() {
    let mut file = Vec::new();
    let mut db = open(&file, Config::in_folder("/tmp/rf"));
    populate(&mut db, &mut file);
    db.tables.0.insert(&mut db.logger, 3, "three".to_string()).unwrap();
    db.tables.1.0.clear(&mut db.logger).unwrap();
    sync(&mut db, &mut file);

    let again = open(&file, Config::in_folder("/tmp/rf"));
    assert_eq!(again.tables.0.data(), db.tables.0.data());
    assert_eq!(again.tables.1.0.data(), db.tables.1.0.data());
    assert_eq!(again.tables.0.data().get(&3).unwrap(), "three");
    assert_eq!(again.tables.1.0.data(), None);
}

#[test]
fn the_schema_names_the_log() {
    let db = open(&[], Config::in_folder("/tmp/e"));
    assert_eq!(db.config().schema_name.as_deref(), Some("LogTests"));
    assert_eq!(db.config().db_location_v2().unwrap(), "/tmp/e/LogTests.db");
    assert_eq!(LogTests::schema_name(), "LogTests");
}

#[test]
fn auto_log_compacter() {
    let mut file = Vec::new();
    let mut db = open(&file, Config::in_folder("/tmp/fa"));
    sync(&mut db, &mut file);
    let cancel = CancelSig::default();
    let worker = cancel.clone();
    let mut compacter = BackgroundCompacter::begin_compacter();
    // the worker wakes up twice before the signal is raised
    for _ in 0..2 {
        assert_eq!(compacter.wake(worker.is_canceled()), Step::Compact);
        file = db.compact_log().unwrap();
        db.finish_compaction();
        compacter.compacted();
    }
    cancel.cancel();
    assert!(worker.is_canceled());
    assert_eq!(compacter.wake(worker.is_canceled()), Step::Stop(2));
    assert_eq!(&file[..2], &[1, 2]);
}
