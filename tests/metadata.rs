use std::path::PathBuf;

use backend::error::StoreError;
use backend::metadata::MetadataStore;

fn store() -> MetadataStore {
    MetadataStore::new(PathBuf::from("reviews.jsonl"))
}

#[test]
fn appended_records_are_lines_in_order() {
    let ms = store();
    let mut log: Vec<u8> = Vec::new();
    ms.append_line(&mut log, &b"{\"a\":1}".to_vec()).unwrap();
    ms.append_line(&mut log, &b"{\"b\":2}".to_vec()).unwrap();
    assert_eq!(log, b"{\"a\":1}\n{\"b\":2}\n".to_vec());
    assert_eq!(ms.line_at(&log, 0), Some(b"{\"a\":1}".to_vec()));
    assert_eq!(ms.line_at(&log, 1), Some(b"{\"b\":2}".to_vec()));
    assert_eq!(ms.line_at(&log, 2), None);
}

#[test]
fn record_with_newline_is_refused() {
    let ms = store();
    let mut log: Vec<u8> = b"x\n".to_vec();
    let r = ms.append_line(&mut log, &b"a\nb".to_vec());
    assert!(matches!(r, Err(StoreError::EncodingFailure)));
    assert_eq!(log, b"x\n".to_vec());
    let r = ms.append_line(&mut log, &b"ends in cr\r".to_vec());
    assert!(matches!(r, Err(StoreError::EncodingFailure)));
    assert_eq!(log, b"x\n".to_vec());
    ms.append_line(&mut log, &b"cr\rinside".to_vec()).unwrap();
    assert_eq!(ms.line_at(&log, 1), Some(b"cr\rinside".to_vec()));
}

#[test]
fn lines_follow_buffered_reader_rules() {
    let ms = store();
    let log = b"one\r\ntwo\n\nlast\r".to_vec();
    assert_eq!(ms.line_at(&log, 0), Some(b"one".to_vec()));
    assert_eq!(ms.line_at(&log, 1), Some(b"two".to_vec()));
    assert_eq!(ms.line_at(&log, 2), Some(Vec::new()));
    assert_eq!(ms.line_at(&log, 3), Some(b"last\r".to_vec()));
    assert_eq!(ms.line_at(&log, 4), None);
    assert_eq!(ms.line_at(&Vec::new(), 0), None);
    assert_eq!(ms.line_at(&b"\n".to_vec(), 0), Some(Vec::new()));
    assert_eq!(ms.line_at(&b"\n".to_vec(), 1), None);
}
