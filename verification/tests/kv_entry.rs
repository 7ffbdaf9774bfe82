use bytes::Bytes;
use rowkv::kv_entry::{
    decode, DecodeError, EncodeError, Entry, CHECKSUM_SIZE, HEADER_SIZE, MAX_ENTRY_SIZE,
};

#[test]
fn entry_encode() -> Result<(), EncodeError> {
    let entry = Entry::new(Bytes::from("hello"), Bytes::from("world"), true);
    let encoded = entry.encode()?;

    assert_eq!(
        &encoded[CHECKSUM_SIZE..],
        b"\x05\x00\x00\x00\x05\x00\x00\x00\x01helloworld"
    );
    assert_eq!(
        u32::from_le_bytes(encoded[..CHECKSUM_SIZE].try_into().unwrap()),
        crc32fast::hash(&encoded[CHECKSUM_SIZE..])
    );
    Ok(())
}

#[test]
fn entry_decode_from_reader_returns_entry_then_eof() -> Result<(), DecodeError> {
    let entry = Entry::new(
        Bytes::from_static(b"key"),
        Bytes::from_static(b"value"),
        true,
    );
    let mut reader = entry.encode().expect("test entry fits in the format").freeze();

    let decoded = decode(&mut reader)?.expect("entry should be present");

    assert_eq!(decoded, entry);
    assert!(decode(&mut reader)?.is_none());
    Ok(())
}

#[test]
fn entry_decode_from_reader_rejects_truncated_header() {
    let error = decode(&mut Bytes::from_static(b"\x05\x00")).unwrap_err();

    assert!(matches!(error, DecodeError::ReadHeader));
}

#[test]
fn entry_decode_from_reader_rejects_oversized_entry() {
    let mut bytes = vec![0; CHECKSUM_SIZE];
    bytes.extend_from_slice(&((MAX_ENTRY_SIZE + 1) as u32).to_le_bytes());
    bytes.extend_from_slice(&0_u32.to_le_bytes());
    bytes.push(0);

    let error = decode(&mut Bytes::from(bytes)).unwrap_err();

    assert!(matches!(
        error,
        DecodeError::EntryTooLarge {
            key_length,
            value_length: 0,
            maximum: MAX_ENTRY_SIZE,
        } if key_length == MAX_ENTRY_SIZE + 1
    ));
}

#[test]
fn entry_decode_from_reader_round_trips_long_binary_data() -> Result<(), DecodeError> {
    let entry = Entry::new(
        Bytes::from((0..=255).collect::<Vec<_>>()),
        Bytes::from((0..=255).rev().cycle().take(1_024).collect::<Vec<_>>()),
        true,
    );
    let mut reader = entry.encode().expect("test entry fits in the format").freeze();

    assert_eq!(decode(&mut reader)?, Some(entry));
    Ok(())
}

#[test]
fn entry_decode_from_reader_consumes_only_one_entry() -> Result<(), DecodeError> {
    let first = Entry::new(
        Bytes::from_static(b"first"),
        Bytes::from_static(b"value"),
        false,
    );
    let second = Entry::new(
        Bytes::from_static(b"second"),
        Bytes::from_static(b"tombstone"),
        true,
    );
    let first_encoded = first.encode().expect("test entry fits in the format");
    let second_encoded = second.encode().expect("test entry fits in the format");
    let mut bytes = first_encoded.to_vec();
    bytes.extend_from_slice(&second_encoded);
    let mut reader = Bytes::from(bytes);

    assert_eq!(decode(&mut reader)?, Some(first));
    assert_eq!(reader.as_ref(), &second_encoded[..]);
    assert_eq!(decode(&mut reader)?, Some(second));
    assert!(decode(&mut reader)?.is_none());
    Ok(())
}

#[test]
fn entry_decode_from_reader_rejects_payload_checksum_mismatch() {
    let entry = Entry::new(
        Bytes::from_static(b"key"),
        Bytes::from_static(b"value"),
        false,
    );
    let mut encoded = entry.encode().expect("test entry fits in the format");
    let last = encoded.len() - 1;
    encoded[last] ^= 1;

    let error = decode(&mut encoded.freeze()).unwrap_err();
    assert!(matches!(error, DecodeError::ChecksumMismatch));
}

#[test]
fn entry_decode_from_reader_rejects_header_checksum_mismatch() {
    let entry = Entry::new(Bytes::from_static(b"key"), Bytes::new(), true);
    let mut encoded = entry.encode().expect("test entry fits in the format");
    encoded[HEADER_SIZE - 1] ^= 1;

    let error = decode(&mut encoded.freeze()).unwrap_err();
    assert!(matches!(error, DecodeError::ChecksumMismatch));
}

#[test]
fn entry_decode_from_reader_rejects_truncated_payload() {
    let entry = Entry::new(
        Bytes::from_static(b"key"),
        Bytes::from_static(b"value"),
        false,
    );
    let mut encoded = entry.encode().expect("test entry fits in the format");
    encoded.truncate(encoded.len() - 1);

    let error = decode(&mut encoded.freeze()).unwrap_err();
    assert!(matches!(error, DecodeError::ReadValue));
}

#[test]
fn entry_decode_rejects_truncated_key_and_reads_everything() {
    let entry = Entry::new(
        Bytes::from_static(b"key"),
        Bytes::from_static(b"value"),
        false,
    );
    let mut encoded = entry.encode().expect("test entry fits in the format");
    encoded.truncate(HEADER_SIZE + 2);
    let mut input = encoded.freeze();

    let error = decode(&mut input).unwrap_err();
    assert!(matches!(error, DecodeError::ReadKey));
    assert!(input.is_empty());
}

#[test]
fn entry_decode_oversized_entry_reads_only_the_header() {
    let mut bytes = vec![0; CHECKSUM_SIZE];
    bytes.extend_from_slice(&(MAX_ENTRY_SIZE as u32).to_le_bytes());
    bytes.extend_from_slice(&1_u32.to_le_bytes());
    bytes.push(0);
    bytes.extend_from_slice(b"more");
    let mut input = Bytes::from(bytes);

    let error = decode(&mut input).unwrap_err();
    assert!(matches!(
        error,
        DecodeError::EntryTooLarge { key_length, value_length: 1, maximum: MAX_ENTRY_SIZE }
            if key_length == MAX_ENTRY_SIZE
    ));
    assert_eq!(input.as_ref(), b"more");
}

#[test]
fn entry_decode_checksum_mismatch_skips_the_frame() {
    let first = Entry::new(Bytes::from_static(b"a"), Bytes::from_static(b"b"), false);
    let second = Entry::new(Bytes::from_static(b"c"), Bytes::from_static(b"d"), false);
    let mut bytes = first.encode().expect("fits").to_vec();
    bytes[HEADER_SIZE] ^= 0x20;
    bytes.extend_from_slice(&second.encode().expect("fits"));
    let mut input = Bytes::from(bytes);

    assert_eq!(decode(&mut input), Err(DecodeError::ChecksumMismatch));
    assert_eq!(decode(&mut input), Ok(Some(second)));
}

#[test]
fn entry_encode_rejects_entry_over_the_maximum() {
    let key = Bytes::from(vec![7u8; MAX_ENTRY_SIZE]);
    let entry = Entry::new(key, Bytes::from_static(b"x"), false);

    assert_eq!(
        entry.encode().unwrap_err(),
        EncodeError::EntryTooLarge {
            key_length: MAX_ENTRY_SIZE,
            value_length: 1,
            maximum: MAX_ENTRY_SIZE,
        }
    );
}

#[test]
fn entry_encode_accepts_entry_at_the_maximum() {
    let key = Bytes::from(vec![7u8; MAX_ENTRY_SIZE - 1]);
    let entry = Entry::new(key, Bytes::from_static(b"x"), false);
    let encoded = entry.encode().expect("entry at the maximum fits");

    assert_eq!(encoded.len(), HEADER_SIZE + MAX_ENTRY_SIZE);
}

#[test]
fn entry_encode_live_entry_has_zero_flag_and_parts_come_back() {
    let entry = Entry::new(Bytes::from_static(b"k"), Bytes::from_static(b"v"), false);
    let encoded = entry.encode().expect("fits");

    assert_eq!(&encoded[CHECKSUM_SIZE..], b"\x01\x00\x00\x00\x01\x00\x00\x00\x00kv");
    assert_eq!(entry.key().as_ref(), b"k");
    assert_eq!(entry.value().as_ref(), b"v");
    assert!(!entry.is_deleted());
    let (key, value, deleted) = entry.into_parts();
    assert_eq!((key.as_ref(), value.as_ref(), deleted), (&b"k"[..], &b"v"[..], false));
}
