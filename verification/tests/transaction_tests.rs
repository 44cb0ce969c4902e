use db_rs::Bincode;
use db_rs::Config;
use db_rs::Database;
use db_rs::Db;
use db_rs::LookupTable;
use db_rs::SchemaName;

struct Name;

impl SchemaName for Name {
    fn name() -> &'static str {
        "TxTest"
    }

    fn schema_name() -> &'static str {
        "TxTest"
    }
}

type TxTest = Database<Name, (LookupTable<u8, String, Bincode>, ())>;

fn open(file: &[u8], config: Config) -> TxTest {
    let stamp = file.len().min(2);
    TxTest::init(config, &file[..stamp], &file[stamp..]).unwrap()
}

fn sync(db: &mut TxTest, file: &mut Vec<u8>) {
    file.extend(db.logger.take_pending());
}

#[test]
fn simple_tx() {
    let dir = "/tmp/g";
    let mut file = Vec::new();
    let mut cfg = Config::in_folder(dir);
    cfg.fs_locks = false;

    let mut db = open(&file, cfg.clone());
    sync(&mut db, &mut file);
    let tx = db.begin_transaction().unwrap();
    db.tables.0.insert(&mut db.logger, 43, "test".to_string()).unwrap();
    sync(&mut db, &mut file);
    assert_eq!(db.tables.0.data().get(&43), Some(&"test".to_string()));

    {
        let db = open(&file, cfg.clone());
        assert_eq!(db.tables.0.data().get(&43), None);
    }
    tx.drop_safely(&mut db.logger).unwrap();
    sync(&mut db, &mut file);
    {
        let db = open(&file, cfg.clone());
        assert_eq!(db.tables.0.data().get(&43), Some(&"test".to_string()));
    }
}

#[test]
fn tx_log_corrupt() {
    let dir = "/tmp/h";
    let mut file = Vec::new();

    let mut db = open(&file, Config::in_folder(dir));
    for _ in 0..10 {
        db.tables.0.insert(&mut db.logger, 41, "test".to_string()).unwrap();
    }

    let tx = db.begin_transaction().unwrap();
    for _ in 0..20 {
        db.tables.0.insert(&mut db.logger, 43, "test".to_string()).unwrap();
    }
    tx.drop_safely(&mut db.logger).unwrap();
    sync(&mut db, &mut file);

    // cut out half the log
    let buf = file[0..file.len() / 2].to_vec();

    drop(db);
    let db = open(&buf, Config::in_folder(dir));
    assert_eq!(db.tables.0.data().get(&41), Some(&"test".to_string()));
    assert_eq!(db.tables.0.data().get(&43), None);
    assert!(db.incomplete_write());
}

#[test]
fn snapshot_inter() {
    let dir = "/tmp/i";
    let mut file = Vec::new();

    let mut db = open(&file, Config::in_folder(dir));

    for i in 0..u8::MAX {
        db.tables.0.insert(&mut db.logger, i, "test".to_string()).unwrap();
    }
    sync(&mut db, &mut file);

    file = db.compact_log().unwrap();
    db.finish_compaction();

    // cut out half the log
    let buf = file[0..file.len() / 2].to_vec();

    drop(db);
    let db = open(&buf, Config::in_folder(dir));
    assert_eq!(db.tables.0.data().get(&1), None);
    assert!(db.tables.0.data().is_empty());
    assert!(db.incomplete_write());
}

#[test]
fn a_transaction_that_is_never_ended_leaves_no_trace() {
    let mut file = Vec::new();
    let mut db = open(&file, Config::in_folder("/tmp/tx"));
    db.tables.0.insert(&mut db.logger, 1, "before".to_string()).unwrap();
    sync(&mut db, &mut file);
    let _tx = db.begin_transaction().unwrap();
    for i in 2..50 {
        db.tables.0.insert(&mut db.logger, i, "inside".to_string()).unwrap();
        sync(&mut db, &mut file);
    }
    drop(db);
    let db = open(&file, Config::in_folder("/tmp/tx"));
    assert_eq!(db.tables.0.data().len(), 1);
    assert!(!db.incomplete_write());
}

#[test]
fn a_transaction_is_seen_whole_or_not_at_all() {
    let mut file = Vec::new();
    let mut db = open(&file, Config::in_folder("/tmp/tx"));
    db.tables.0.insert(&mut db.logger, 1, "before".to_string()).unwrap();
    sync(&mut db, &mut file);
    let before = file.len();
    let tx = db.begin_transaction().unwrap();
    for i in 2..6 {
        db.tables.0.insert(&mut db.logger, i, "inside".to_string()).unwrap();
    }
    tx.drop_safely(&mut db.logger).unwrap();
    sync(&mut db, &mut file);
    for cut in before..=file.len() {
        let db = open(&file[..cut], Config::in_folder("/tmp/tx"));
        let expected = if cut == file.len() { 5 } else { 1 };
        assert_eq!(db.tables.0.data().len(), expected);
        assert_eq!(db.incomplete_write(), cut != before && cut != file.len());
    }
}
