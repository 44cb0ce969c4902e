use db_rs::logger::LockMode;
use db_rs::Config;
use db_rs::DbError;
use db_rs::Logger;

fn on_disk() -> Config {
    Config::in_folder("/tmp/logger")
}

#[test]
fn a_new_log_is_stamped() {
    let mut logger = Logger::init(on_disk(), &[]).unwrap();
    let stamp = logger.log_metadata().unwrap();
    assert_eq!((stamp.log_version, stamp.compaction_count), (1, 0));
    assert_eq!(logger.take_pending(), vec![1, 0]);
    assert!(!logger.incomplete_write());
}

#[test]
fn a_new_read_only_log_is_not_stamped() {
    let mut config = on_disk();
    config.read_only = true;
    let mut logger = Logger::init(config, &[]).unwrap();
    assert!(logger.log_metadata().is_some());
    assert!(logger.take_pending().is_empty());
}

#[test]
fn a_stamp_is_read() {
    let mut logger = Logger::init(on_disk(), &[1, 7]).unwrap();
    let stamp = logger.log_metadata().unwrap();
    assert_eq!((stamp.log_version, stamp.compaction_count), (1, 7));
    assert!(logger.take_pending().is_empty());
}

#[test]
fn another_version_is_refused() {
    assert!(matches!(Logger::init(on_disk(), &[2, 0]), Err(DbError::Unexpected(_))));
    assert!(matches!(Logger::init(on_disk(), &[0, 0]), Err(DbError::Unexpected(_))));
}

#[test]
fn half_a_stamp_is_refused() {
    assert!(matches!(Logger::init(on_disk(), &[1]), Err(DbError::Unexpected(_))));
    assert!(matches!(Logger::init(on_disk(), &[1, 0, 0]), Err(DbError::Unexpected(_))));
}

#[test]
fn a_log_in_memory_needs_no_stamp() {
    let mut logger = Logger::init(Config::no_io(), &[9, 9, 9]).unwrap();
    assert!(logger.log_metadata().is_none());
    logger.write(1, vec![1, 2, 3]).unwrap();
    assert!(logger.take_pending().is_empty());
    let tx = logger.begin_tx().unwrap();
    logger.write(1, vec![1, 2, 3]).unwrap();
    tx.drop_safely(&mut logger).unwrap();
    assert!(logger.take_pending().is_empty());
    assert!(matches!(logger.compact_log(vec![]), Err(DbError::Unexpected(_))));
}

#[test]
fn a_write_is_owed_to_the_file() {
    let mut logger = Logger::init(on_disk(), &[1, 0]).unwrap();
    logger.write(5, vec![1, 2]).unwrap();
    logger.write(6, vec![]).unwrap();
    assert_eq!(logger.take_pending(), vec![5, 0, 0, 0, 2, 1, 2, 6, 0, 0, 0, 0]);
    assert!(logger.take_pending().is_empty());
}

#[test]
fn a_transaction_is_written_as_one_envelope() {
    let mut logger = Logger::init(on_disk(), &[1, 0]).unwrap();
    let tx = logger.begin_tx().unwrap();
    logger.write(5, vec![1, 2]).unwrap();
    logger.write(6, vec![3]).unwrap();
    assert!(logger.take_pending().is_empty());
    tx.drop_safely(&mut logger).unwrap();
    assert_eq!(
        logger.take_pending(),
        vec![0, 0, 0, 0, 13, 5, 0, 0, 0, 2, 1, 2, 6, 0, 0, 0, 1, 3]
    );
    logger.write(7, vec![]).unwrap();
    assert_eq!(logger.take_pending(), vec![7, 0, 0, 0, 0]);
}

#[test]
fn nested_transactions_commit_with_the_outermost() {
    let mut logger = Logger::init(on_disk(), &[1, 0]).unwrap();
    let outer = logger.begin_tx().unwrap();
    logger.write(1, vec![1]).unwrap();
    let inner = logger.begin_tx().unwrap();
    logger.write(2, vec![2]).unwrap();
    inner.drop_safely(&mut logger).unwrap();
    assert!(logger.take_pending().is_empty());
    logger.write(3, vec![3]).unwrap();
    outer.drop_safely(&mut logger).unwrap();
    assert_eq!(
        logger.take_pending(),
        vec![0, 0, 0, 0, 18, 1, 0, 0, 0, 1, 1, 2, 0, 0, 0, 1, 2, 3, 0, 0, 0, 1, 3]
    );
}

#[test]
fn an_empty_transaction_writes_nothing() {
    let mut logger = Logger::init(on_disk(), &[1, 0]).unwrap();
    let tx = logger.begin_tx().unwrap();
    tx.drop_safely(&mut logger).unwrap();
    assert!(logger.take_pending().is_empty());
}

#[test]
fn ending_without_a_transaction_does_nothing() {
    let mut logger = Logger::init(on_disk(), &[1, 0]).unwrap();
    logger.end_tx().unwrap();
    logger.write(1, vec![1]).unwrap();
    assert_eq!(logger.take_pending(), vec![1, 0, 0, 0, 1, 1]);
}

#[test]
fn a_compaction_counts_and_wraps_the_snapshot() {
    let mut logger = Logger::init(on_disk(), &[1, 4]).unwrap();
    logger.write(1, vec![1]).unwrap();
    let snapshot = Logger::log_entry(2, vec![7, 7]);
    let image = logger.compact_log(snapshot.clone()).unwrap();
    assert_eq!(image, vec![1, 5, 0, 0, 0, 0, 7, 2, 0, 0, 0, 2, 7, 7]);
    assert_eq!(image.len(), 2 + 5 + snapshot.len());
    logger.finish_compaction();
    assert_eq!(logger.log_metadata().unwrap().compaction_count, 5);
    assert!(logger.take_pending().is_empty());
}

#[test]
fn the_compactions_counter_grows_by_one_each_time() {
    let mut logger = Logger::init(on_disk(), &[]).unwrap();
    for n in 1..=255u8 {
        let image = logger.compact_log(vec![]).unwrap();
        assert_eq!(&image[..2], &[1, n]);
        logger.finish_compaction();
        assert_eq!(logger.log_metadata().unwrap().compaction_count, n);
    }
    assert!(matches!(logger.compact_log(vec![]), Err(DbError::Unexpected(_))));
    logger.finish_compaction();
    assert_eq!(logger.log_metadata().unwrap().compaction_count, 255);
}

#[test]
fn the_file_is_opened_as_the_configuration_says() {
    let plan = Logger::open_file(&on_disk());
    assert!(plan.read && plan.create && plan.append);
    assert_eq!(plan.lock, LockMode::Try);

    let mut config = on_disk();
    config.fs_locks_block = true;
    assert_eq!(Logger::open_file(&config).lock, LockMode::Wait);

    config.fs_locks = false;
    assert_eq!(Logger::open_file(&config).lock, LockMode::Unlocked);

    config.create_db = false;
    let plan = Logger::open_file(&config);
    assert!(plan.read && !plan.create && plan.append);

    config.read_only = true;
    let plan = Logger::open_file(&config);
    assert!(plan.read && !plan.create && !plan.append);

    config.create_db = true;
    let plan = Logger::open_file(&config);
    assert!(plan.read && !plan.create && !plan.append);
}

#[test]
fn the_configuration_is_kept() {
    let mut config = on_disk();
    config.schema_name = Some("Kept".to_string());
    let logger = Logger::init(config, &[]).unwrap();
    assert_eq!(logger.config().path, "/tmp/logger");
    assert_eq!(logger.config().schema_name.as_deref(), Some("Kept"));
}

#[test]
fn a_compaction_that_is_not_finished_leaves_the_log_as_it_is() {
    let mut logger = Logger::init(on_disk(), &[1, 4]).unwrap();
    logger.write(1, vec![1]).unwrap();
    let image = logger.compact_log(vec![]).unwrap();
    assert_eq!(&image[..2], &[1, 5]);
    // the file could not be replaced: the log still counts four compactions
    // and still owes the old file its record
    assert_eq!(logger.log_metadata().unwrap().compaction_count, 4);
    assert_eq!(logger.take_pending(), vec![1, 0, 0, 0, 1, 1]);
    let again = logger.compact_log(vec![]).unwrap();
    assert_eq!(&again[..2], &[1, 5]);
}

#[test]
fn a_read_only_log_refuses_appends() {
    let mut config = on_disk();
    config.read_only = true;
    let mut logger = Logger::init(config, &[1, 0]).unwrap();
    assert!(matches!(logger.write(1, vec![1, 2, 3]), Err(DbError::Unexpected(_))));
    assert!(logger.take_pending().is_empty());
    let tx = logger.begin_tx().unwrap();
    assert!(matches!(logger.write(1, vec![1, 2, 3]), Err(DbError::Unexpected(_))));
    tx.drop_safely(&mut logger).unwrap();
    assert!(logger.take_pending().is_empty());
}
