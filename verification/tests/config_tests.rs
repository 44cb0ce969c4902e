use db_rs::Config;
use db_rs::DbError;

#[test]
fn in_folder_has_the_defaults() {
    let config = Config::in_folder("/tmp/test/");
    assert_eq!(config.path, "/tmp/test/");
    assert!(config.create_path);
    assert!(config.create_db);
    assert!(!config.read_only);
    assert!(!config.no_io);
    assert!(config.fs_locks);
    assert!(!config.fs_locks_block);
    assert!(config.schema_name.is_none());
}

#[test]
fn base_has_the_defaults_and_no_folder() {
    let config = Config::base();
    assert_eq!(config.path, "");
    assert!(config.create_path && config.create_db && config.fs_locks);
    assert!(!config.read_only && !config.no_io && !config.fs_locks_block);
    assert!(config.schema_name.is_none());
}

#[test]
fn no_io_touches_nothing() {
    let config = Config::no_io();
    assert_eq!(config.path, "");
    assert!(!config.create_path);
    assert!(!config.create_db);
    assert!(config.read_only);
    assert!(config.no_io);
    assert!(!config.fs_locks);
    assert!(!config.fs_locks_block);
    assert!(config.schema_name.is_none());
}

#[test]
fn the_files_are_named_after_the_schema() {
    let mut config = Config::in_folder("/tmp/db");
    config.schema_name = Some("Schema".to_string());
    assert_eq!(config.db_location_v2().unwrap(), "/tmp/db/Schema.db");
    assert_eq!(config.db_location_v1().unwrap(), "/tmp/db/Schema");
    assert_eq!(config.compaction_location().unwrap(), "/tmp/db/Schema.db.tmp");
    assert_eq!(config.migration_location().unwrap(), "/tmp/db/Schema.db.migration");
}

#[test]
fn without_a_folder_the_files_stand_alone() {
    let mut config = Config::base();
    config.schema_name = Some("Schema".to_string());
    assert_eq!(config.db_location_v2().unwrap(), "Schema.db");
    assert_eq!(config.db_location_v1().unwrap(), "Schema");
}

#[test]
fn without_a_schema_name_there_are_no_files() {
    let config = Config::in_folder("/tmp/db");
    assert!(matches!(config.db_location_v2(), Err(DbError::Unexpected(_))));
    assert!(matches!(config.db_location_v1(), Err(DbError::Unexpected(_))));
    assert!(matches!(config.compaction_location(), Err(DbError::Unexpected(_))));
    assert!(matches!(config.migration_location(), Err(DbError::Unexpected(_))));
}
