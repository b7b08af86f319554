use vortex::kv::{classify_store_error, CasError, KeyDoesNotExistError, StoreError};
use vortex::Error;

fn classify(s: &[u8]) -> Result<StoreError, Error> {
    classify_store_error(&s.to_vec())
}

#[test]
fn classifies_missing_key() {
    assert_eq!(classify(b"key does not exist"), Ok(StoreError::KeyDoesNotExist));
}

#[test]
fn classifies_cas_conflict() {
    assert_eq!(
        classify(b"current value 7 is not 12"),
        Ok(StoreError::CasConflict { actual: 7 })
    );
    assert_eq!(
        classify(b"current value 4294967295 is not 0"),
        Ok(StoreError::CasConflict { actual: u32::MAX })
    );
}

#[test]
fn rejects_unparseable_conflicts() {
    assert_eq!(classify(b""), Err(Error::UnparseableConflict));
    assert_eq!(classify(b"something else entirely"), Err(Error::UnparseableConflict));
    assert_eq!(classify(b"current value "), Err(Error::UnparseableConflict));
    assert_eq!(classify(b"current value  is not 2"), Err(Error::UnparseableConflict));
    assert_eq!(classify(b"current value 12"), Err(Error::UnparseableConflict));
    assert_eq!(classify(b"current value 1x is not 2"), Err(Error::UnparseableConflict));
    assert_eq!(classify(b"current value 4294967296 is not 2"), Err(Error::UnparseableConflict));
    assert_eq!(classify(b"key does not exist!"), Err(Error::UnparseableConflict));
}

#[test]
fn missing_key_parser_wants_the_exact_literal() {
    assert!(KeyDoesNotExistError::parse(&b"key does not exist".to_vec()).is_some());
    assert!(KeyDoesNotExistError::parse(&b"key does not exist ".to_vec()).is_none());
    assert!(KeyDoesNotExistError::parse(&b"Key does not exist".to_vec()).is_none());
}

#[test]
fn conflict_parser_extracts_actual_value() {
    let c = CasError::parse(&b"current value 19 is not 24".to_vec()).unwrap();
    assert_eq!(c.actual, 19);
    assert_eq!(
        CasError::parse(&b"current value nineteen is not 24".to_vec()),
        Err(Error::UnparseableConflict)
    );
}

#[test]
fn conflict_parser_splits_at_first_separator() {
    let c = CasError::parse(&b"current value 5 is not 6 is not 7".to_vec()).unwrap();
    assert_eq!(c.actual, 5);
}
