use db_rs::DbError;

#[test]
fn an_error_says_what_it_is() {
    assert_eq!(DbError::Unexpected("boom").message(), "unexpected error: boom");
    assert_eq!(DbError::MutexPoisoned.message(), "mutex poisoned");
    let io = std::io::Error::new(std::io::ErrorKind::Other, "disk full");
    assert_eq!(DbError::Io(io).message(), "io error: disk full");
    let codec = bincode::deserialize::<u8>(&[]).unwrap_err();
    let text = DbError::Bincode(codec).message();
    assert!(text.starts_with("bincode error: "));
    assert!(text.len() > "bincode error: ".len());
}

#[test]
fn outside_errors_become_errors_of_the_database() {
    let io = std::io::Error::new(std::io::ErrorKind::Other, "disk full");
    assert!(matches!(DbError::from(io), DbError::Io(_)));
    let codec = bincode::deserialize::<u8>(&[]).unwrap_err();
    assert!(matches!(DbError::from(codec), DbError::Bincode(_)));
}
