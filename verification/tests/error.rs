use glassdb_storage::error::{BackendError, StorageError};

fn cause() -> String {
    "disk on fire".to_string()
}

#[test]
fn with_source_keeps_cause_in_chain() {
    let e = StorageError::with_source("reading body", cause());
    assert_eq!(e.message(), "reading body");
    assert_eq!(e.source().unwrap().to_string(), "disk on fire");
}

#[test]
fn context_prefixes_message_and_preserves_source() {
    let e = StorageError::with_source("reading body", cause()).context("loading metadata");
    assert_eq!(e.message(), "loading metadata: reading body");
    assert_eq!(e.source().unwrap().to_string(), "disk on fire");
}

#[test]
fn context_preserves_in_doubt_classification() {
    let e = StorageError::Unavailable("lost ack".into()).context("committing");
    assert!(matches!(e, StorageError::Unavailable(_)));
    assert_eq!(
        e.message(),
        "storage outcome unknown (in doubt): committing: lost ack"
    );
}

#[test]
fn context_leaves_classified_variants_untouched() {
    assert!(matches!(
        StorageError::NotFound.context("x"),
        StorageError::NotFound
    ));
    assert!(matches!(
        StorageError::Precondition.context("x"),
        StorageError::Precondition
    ));
    assert!(matches!(
        StorageError::InvalidCursor.context("x"),
        StorageError::InvalidCursor
    ));
}

#[test]
fn from_backend_moves_cause_through() {
    let backend = BackendError::Other {
        msg: "gcs request".to_string(),
        source: Some(cause()),
    };
    let storage: StorageError = backend.into();
    assert!(matches!(storage, StorageError::Other { .. }));
    assert_eq!(storage.source().unwrap().to_string(), "disk on fire");
}

#[test]
fn every_backend_error_keeps_its_class() {
    assert_eq!(StorageError::from(BackendError::NotFound), StorageError::NotFound);
    assert_eq!(StorageError::from(BackendError::Precondition), StorageError::Precondition);
    assert_eq!(StorageError::from(BackendError::InvalidCursor), StorageError::InvalidCursor);
    assert_eq!(
        StorageError::from(BackendError::Unavailable("lost".to_string())),
        StorageError::Unavailable("lost".to_string())
    );
}

#[test]
fn messages_of_classified_errors() {
    assert_eq!(StorageError::NotFound.message(), "object not found");
    assert_eq!(StorageError::Precondition.message(), "precondition failed");
    assert_eq!(StorageError::InvalidCursor.message(), "invalid listing cursor");
    assert_eq!(
        StorageError::KeyNotFound.message(),
        "key not found in committed transaction"
    );
    assert_eq!(StorageError::other("boom").message(), "boom");
    assert!(StorageError::other("boom").source().is_none());
}
