use bytes::{Bytes, BytesMut};
use rowkv::kv_entry::{decode, DecodeError, Entry};

/// The bytes that appending the entries to an empty log file would leave in it.
fn log_of(entries: &[Entry]) -> Bytes {
    let mut log = BytesMut::new();
    for entry in entries {
        log.extend_from_slice(&entry.encode().expect("test entry fits in the format"));
    }
    log.freeze()
}

#[test]
fn log_reads_empty_file_as_eof() -> Result<(), DecodeError> {
    let mut log = log_of(&[]);

    assert!(decode(&mut log)?.is_none());
    Ok(())
}

#[test]
fn log_persists_entries_across_reopen() -> Result<(), DecodeError> {
    let mut log = log_of(&[
        Entry::new(
            Bytes::from_static(b"first"),
            Bytes::from_static(b"value"),
            false,
        ),
        Entry::new(Bytes::from_static(b"second"), Bytes::new(), true),
    ]);

    let first = decode(&mut log)?.expect("first entry should be present");
    assert_eq!(first.key(), &Bytes::from_static(b"first"));
    assert_eq!(first.value(), &Bytes::from_static(b"value"));
    assert!(!first.is_deleted());

    let second = decode(&mut log)?.expect("second entry should be present");
    assert_eq!(second.key(), &Bytes::from_static(b"second"));
    assert!(second.value().is_empty());
    assert!(second.is_deleted());
    assert!(decode(&mut log)?.is_none());
    Ok(())
}
