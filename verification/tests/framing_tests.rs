use db_rs::Config;
use db_rs::Logger;

fn logger() -> Logger {
    Logger::init(Config::in_folder("/tmp/framing"), &[1, 0]).unwrap()
}

fn frame(id: u8, payload: &[u8]) -> Vec<u8> {
    Logger::log_entry(id, payload.to_vec())
}

#[test]
fn header_is_id_then_big_endian_size() {
    let data = vec![7u8; 258];
    assert_eq!(Logger::header(3, &data), [3, 0, 0, 1, 2]);
    assert_eq!(Logger::header(0, &[]), [0, 0, 0, 0, 0]);
    let data = vec![0u8; 0x01_02_03];
    assert_eq!(Logger::header(254, &data), [254, 0, 1, 2, 3]);
}

#[test]
fn log_entry_is_header_then_payload() {
    assert_eq!(Logger::log_entry(9, vec![1, 2, 3]), vec![9, 0, 0, 0, 3, 1, 2, 3]);
    assert_eq!(Logger::log_entry(9, vec![]), vec![9, 0, 0, 0, 0]);
}

#[test]
fn framing_round_trip() {
    let records: Vec<(u8, Vec<u8>)> =
        vec![(1, vec![1, 2, 3]), (2, vec![]), (254, vec![0; 300]), (1, vec![9])];
    let mut log = Vec::new();
    for (id, payload) in &records {
        log.extend(frame(*id, payload));
    }
    let mut logger = logger();
    let entries = logger.get_entries(&log);
    let found: Vec<(u8, Vec<u8>)> = entries.iter().map(|e| (e.table_id, e.bytes.to_vec())).collect();
    assert_eq!(found, records);
    assert!(!logger.incomplete_write());
}

#[test]
fn an_empty_log_has_no_entries() {
    let mut logger = logger();
    assert!(logger.get_entries(&[]).is_empty());
    assert!(!logger.incomplete_write());
}

#[test]
fn an_envelope_is_transparent() {
    let mut inner = frame(1, &[1]);
    inner.extend(frame(2, &[2, 2]));
    let mut log = frame(3, &[3]);
    log.extend(frame(0, &inner));
    log.extend(frame(4, &[4]));
    let mut logger = logger();
    let entries = logger.get_entries(&log);
    let found: Vec<(u8, Vec<u8>)> = entries.iter().map(|e| (e.table_id, e.bytes.to_vec())).collect();
    assert_eq!(found, vec![(3, vec![3]), (1, vec![1]), (2, vec![2, 2]), (4, vec![4])]);
    assert!(!logger.incomplete_write());
}

#[test]
fn truncation_tolerance() {
    let mut log = frame(1, &[1, 1]);
    log.extend(frame(2, &[2, 2, 2]));
    let whole_first = 7;
    for cut in 0..=log.len() {
        let mut logger = logger();
        let entries = logger.get_entries(&log[..cut]);
        let expected = if cut == log.len() {
            2
        } else if cut >= whole_first {
            1
        } else {
            0
        };
        assert_eq!(entries.len(), expected);
        assert_eq!(logger.incomplete_write(), cut != 0 && cut != whole_first && cut != log.len());
    }
}

#[test]
fn an_envelope_that_was_cut_short_is_not_seen_at_all() {
    let mut inner = frame(1, &[1]);
    inner.extend(frame(2, &[2, 2]));
    let before = frame(3, &[3]);
    let mut log = before.clone();
    log.extend(frame(0, &inner));
    for cut in before.len()..log.len() {
        let mut logger = logger();
        let entries = logger.get_entries(&log[..cut]);
        assert_eq!(entries.len(), 1);
        assert_eq!(entries[0].table_id, 3);
        assert_eq!(logger.incomplete_write(), cut != before.len());
    }
}

#[test]
fn an_incomplete_write_is_remembered() {
    let mut logger = logger();
    logger.get_entries(&[1, 0, 0]);
    assert!(logger.incomplete_write());
    logger.get_entries(&frame(1, &[1]));
    assert!(logger.incomplete_write());
}
