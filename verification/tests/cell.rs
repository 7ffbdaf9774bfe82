use bytes::{Bytes, BytesMut};
use rowkv::cell::{Cell, CellType, DecodeError, EncodeError};

#[test]
fn cell_encodes_i64() -> Result<(), EncodeError> {
    let mut encoded = BytesMut::new();

    Cell::I64(-42).encode_into(&mut encoded)?;

    assert_eq!(encoded.as_ref(), b"\xd6\xff\xff\xff\xff\xff\xff\xff");
    Ok(())
}

#[test]
fn cell_encodes_and_decodes_a_string() -> Result<(), DecodeError> {
    let cell = Cell::Str(Bytes::from_static(b"hello"));
    let mut encoded = BytesMut::new();
    cell.encode_into(&mut encoded).expect("test string fits");
    let mut input = encoded.freeze();

    assert_eq!(Cell::decode(CellType::Str, &mut input)?, cell);
    assert!(input.is_empty());
    Ok(())
}

#[test]
fn cell_decode_consumes_one_cell() -> Result<(), DecodeError> {
    let mut encoded = BytesMut::new();
    Cell::I64(7)
        .encode_into(&mut encoded)
        .expect("i64 always fits");
    Cell::Str(Bytes::from_static(b"next"))
        .encode_into(&mut encoded)
        .expect("test string fits");
    let mut input = encoded.freeze();

    assert_eq!(Cell::decode(CellType::I64, &mut input)?, Cell::I64(7));
    assert_eq!(
        Cell::decode(CellType::Str, &mut input)?,
        Cell::Str(Bytes::from_static(b"next"))
    );
    assert!(input.is_empty());
    Ok(())
}

#[test]
fn cell_decode_rejects_truncated_i64() {
    let error = Cell::decode(CellType::I64, &mut Bytes::from_static(b"\xff")).unwrap_err();

    assert!(matches!(error, DecodeError::TruncatedI64));
}

#[test]
fn cell_decode_rejects_truncated_string_payload() {
    let bytes = b"\x05\x00\x00\x00abc";
    let error = Cell::decode(CellType::Str, &mut Bytes::from_static(bytes)).unwrap_err();

    assert!(matches!(
        error,
        DecodeError::TruncatedString {
            expected: 5,
            available: 3,
        }
    ));
}

#[test]
fn cell_string_encoding_is_length_then_bytes() {
    let mut encoded = BytesMut::new();
    Cell::Str(Bytes::from_static(b"ab"))
        .encode_into(&mut encoded)
        .expect("test string fits");

    assert_eq!(encoded.as_ref(), b"\x02\x00\x00\x00ab");
}

#[test]
fn cell_encode_appends_to_existing_bytes() {
    let mut encoded = BytesMut::new();
    Cell::I64(1).encode_into(&mut encoded).expect("i64 always fits");
    Cell::I64(0x0102030405060708)
        .encode_into(&mut encoded)
        .expect("i64 always fits");

    assert_eq!(
        encoded.as_ref(),
        b"\x01\x00\x00\x00\x00\x00\x00\x00\x08\x07\x06\x05\x04\x03\x02\x01"
    );
}

#[test]
fn cell_decode_rejects_truncated_string_length_and_keeps_input() {
    let mut input = Bytes::from_static(b"\x01\x00\x00");
    let error = Cell::decode(CellType::Str, &mut input).unwrap_err();

    assert!(matches!(error, DecodeError::TruncatedStringLength));
    assert_eq!(input.as_ref(), b"\x01\x00\x00");
}

#[test]
fn cell_decode_truncated_string_consumes_the_length() {
    let mut input = Bytes::from_static(b"\x05\x00\x00\x00abc");
    let _ = Cell::decode(CellType::Str, &mut input).unwrap_err();

    assert_eq!(input.as_ref(), b"abc");
}

#[test]
fn cell_decode_reads_negative_i64_and_leaves_the_rest() {
    let mut input = Bytes::from_static(b"\xd6\xff\xff\xff\xff\xff\xff\xffrest");

    assert_eq!(Cell::decode(CellType::I64, &mut input), Ok(Cell::I64(-42)));
    assert_eq!(input.as_ref(), b"rest");
}

#[test]
fn cell_type_reports_its_name() {
    assert_eq!(CellType::I64.name(), "I64");
    assert_eq!(CellType::Str.name(), "Str");
    assert_eq!(Cell::I64(3).cell_type(), CellType::I64);
    assert_eq!(Cell::Str(Bytes::new()).cell_type(), CellType::Str);
}
