use bytes::Bytes;
use rowkv::cell::{Cell, CellType, DecodeError};
use rowkv::row::{Column, Row, RowError, Schema, SchemaError};

fn schema() -> Schema {
    Schema::new(
        "link",
        vec![
            Column::new("time", CellType::I64),
            Column::new("src", CellType::Str),
            Column::new("dst", CellType::Str),
        ],
        vec![1, 2],
    )
    .expect("test schema is valid")
}

fn row() -> Row {
    Row::new(vec![
        Cell::I64(123),
        Cell::Str(Bytes::from_static(b"a")),
        Cell::Str(Bytes::from_static(b"b")),
    ])
}

#[test]
fn row_encodes_and_decodes_key_and_value() -> Result<(), RowError> {
    let schema = schema();
    let row = row();
    let mut key = row.encode_key(&schema)?.freeze();
    let mut value = row.encode_value(&schema)?.freeze();

    assert_eq!(key.as_ref(), b"link\0\x01\x00\x00\x00a\x01\x00\x00\x00b");
    assert_eq!(value.as_ref(), b"{\0\0\0\0\0\0\0");
    assert_eq!(Row::decode(&schema, &mut key, &mut value)?, row);
    assert!(key.is_empty());
    assert!(value.is_empty());
    Ok(())
}

#[test]
fn row_rejects_cell_type_mismatch() {
    let row = Row::new(vec![
        Cell::Str(Bytes::from_static(b"not an integer")),
        Cell::Str(Bytes::from_static(b"a")),
        Cell::Str(Bytes::from_static(b"b")),
    ]);

    let error = row.encode_key(&schema()).unwrap_err();
    assert!(matches!(
        error,
        RowError::CellTypeMismatch {
            index: 0,
            expected: CellType::I64,
            actual: CellType::Str,
        }
    ));
}

#[test]
fn row_rejects_key_for_another_table() {
    let schema = schema();
    let mut key = Bytes::from_static(b"other\0\x01\x00\x00\x00a\x01\x00\x00\x00b");
    let mut value = Bytes::from_static(b"{\0\0\0\0\0\0\0");

    let error = Row::decode(&schema, &mut key, &mut value).unwrap_err();
    assert!(matches!(error, RowError::TableMismatch));
}

#[test]
fn schema_rejects_invalid_primary_key_columns() {
    let columns = vec![Column::new("id", CellType::I64)];

    let out_of_bounds = Schema::new("table", columns.clone(), vec![1]).unwrap_err();
    assert!(matches!(
        out_of_bounds,
        SchemaError::PrimaryKeyIndexOutOfBounds {
            index: 1,
            column_count: 1,
        }
    ));

    let duplicate = Schema::new("table", columns, vec![0, 0]).unwrap_err();
    assert!(matches!(
        duplicate,
        SchemaError::DuplicatePrimaryKeyColumn { index: 0 }
    ));
}

#[test]
fn schema_reports_the_first_fault_in_list_order() {
    let columns = vec![
        Column::new("a", CellType::I64),
        Column::new("b", CellType::I64),
    ];

    let error = Schema::new("t", columns.clone(), vec![1, 1, 5]).unwrap_err();
    assert_eq!(error, SchemaError::DuplicatePrimaryKeyColumn { index: 1 });
    let error = Schema::new("t", columns.clone(), vec![7, 0, 0]).unwrap_err();
    assert_eq!(
        error,
        SchemaError::PrimaryKeyIndexOutOfBounds { index: 7, column_count: 2 }
    );
    let schema = Schema::new("t", columns, vec![1]).expect("valid");
    assert!(schema.is_primary_key(1));
    assert!(!schema.is_primary_key(0));
}

#[test]
fn row_rejects_wrong_column_count() {
    let row = Row::new(vec![Cell::I64(1)]);

    assert_eq!(
        row.encode_value(&schema()).unwrap_err(),
        RowError::ColumnCountMismatch { expected: 3, actual: 1 }
    );
}

#[test]
fn row_decode_rejects_short_key_prefix() {
    let mut key = Bytes::from_static(b"lin");
    let mut value = Bytes::new();

    assert_eq!(
        Row::decode(&schema(), &mut key, &mut value).unwrap_err(),
        RowError::TruncatedKeyPrefix { expected: 5, actual: 3 }
    );
}

#[test]
fn row_decode_rejects_missing_zero_after_table() {
    let mut key = Bytes::from_static(b"link!\x01\x00\x00\x00a\x01\x00\x00\x00b");
    let mut value = Bytes::from_static(b"{\0\0\0\0\0\0\0");

    assert_eq!(
        Row::decode(&schema(), &mut key, &mut value).unwrap_err(),
        RowError::TableMismatch
    );
}

#[test]
fn row_decode_rejects_trailing_key_bytes() {
    let mut key = Bytes::from_static(b"link\0\x01\x00\x00\x00a\x01\x00\x00\x00bxy");
    let mut value = Bytes::from_static(b"{\0\0\0\0\0\0\0");

    assert_eq!(
        Row::decode(&schema(), &mut key, &mut value).unwrap_err(),
        RowError::TrailingKeyBytes { remaining: 2 }
    );
}

#[test]
fn row_decode_rejects_trailing_value_bytes() {
    let mut key = Bytes::from_static(b"link\0\x01\x00\x00\x00a\x01\x00\x00\x00b");
    let mut value = Bytes::from_static(b"{\0\0\0\0\0\0\0z");

    assert_eq!(
        Row::decode(&schema(), &mut key, &mut value).unwrap_err(),
        RowError::TrailingValueBytes { remaining: 1 }
    );
}

#[test]
fn row_decode_reports_cell_errors() {
    let mut key = Bytes::from_static(b"link\0\x01\x00\x00\x00a\x09\x00\x00\x00b");
    let mut value = Bytes::from_static(b"{\0\0\0\0\0\0\0");

    assert_eq!(
        Row::decode(&schema(), &mut key, &mut value).unwrap_err(),
        RowError::CellDecode(DecodeError::TruncatedString { expected: 9, available: 1 })
    );

    let mut key = Bytes::from_static(b"link\0\x01\x00\x00\x00a\x01\x00\x00\x00b");
    let mut value = Bytes::from_static(b"{\0\0");
    assert_eq!(
        Row::decode(&schema(), &mut key, &mut value).unwrap_err(),
        RowError::CellDecode(DecodeError::TruncatedI64)
    );
}

#[test]
fn row_round_trips_with_key_columns_anywhere() -> Result<(), RowError> {
    let schema = Schema::new(
        "t",
        vec![
            Column::new("a", CellType::Str),
            Column::new("b", CellType::I64),
            Column::new("c", CellType::Str),
            Column::new("d", CellType::I64),
        ],
        vec![3, 0],
    )
    .expect("valid");
    let row = Row::new(vec![
        Cell::Str(Bytes::from_static(b"x")),
        Cell::I64(-1),
        Cell::Str(Bytes::new()),
        Cell::I64(2),
    ]);
    let mut key = row.encode_key(&schema)?.freeze();
    let mut value = row.encode_value(&schema)?.freeze();

    assert_eq!(
        key.as_ref(),
        b"t\0\x01\x00\x00\x00x\x02\x00\x00\x00\x00\x00\x00\x00"
    );
    assert_eq!(
        value.as_ref(),
        b"\xff\xff\xff\xff\xff\xff\xff\xff\x00\x00\x00\x00"
    );
    assert_eq!(Row::decode(&schema, &mut key, &mut value)?, row);
    Ok(())
}
