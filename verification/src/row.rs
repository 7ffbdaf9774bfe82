//! Table schemas and rows, and the encoding of a row into a key and a value.
//!
//! The key is the table's name, a zero byte, and the encodings of the
//! primary-key cells in column order; the value is the encodings of the
//! other cells in column order.
use vstd::prelude::*;
use vstd::utf8::encode_utf8;
use bytes::{Bytes, BytesMut};
use crate::buf::{
    bytes_advance, bytes_as_slice, bytes_has_remaining, bytes_mut_new, bytes_mut_put_slice,
    bytes_mut_put_u8, bytes_mut_view, bytes_mut_with_capacity, bytes_remaining, bytes_view,
};
use crate::cell::{
    cell_fits, cell_type_of, decode_cell, encode_cell, lemma_cell_roundtrip, Cell, CellType,
    CellView, DecodeError, EncodeError,
};

verus! {

/// A named, typed column.
#[derive(Debug, Clone, PartialEq, Eq)]
pub struct Column {
    name: String,
    cell_type: CellType,
}

/// A table: its name, its columns, and the positions of its primary-key
/// columns.
#[derive(Debug, Clone, PartialEq, Eq)]
pub struct Schema {
    table: String,
    columns: Vec<Column>,
    primary_key: Vec<usize>,
}

/// The cells of one row, in column order.
#[derive(Debug, Clone, PartialEq, Eq)]
pub struct Row(Vec<Cell>);

/// A column as a mathematical value.
pub struct ColumnView {
    pub name: Seq<char>,
    pub cell_type: CellType,
}

/// A schema as a mathematical value.
pub struct SchemaView {
    pub table: Seq<char>,
    pub columns: Seq<ColumnView>,
    pub primary_key: Seq<usize>,
}

impl View for Column {
    type V = ColumnView;

    closed spec fn view(&self) -> ColumnView {
        ColumnView { name: self.name@, cell_type: self.cell_type }
    }
}

/// Columns as mathematical values.
pub open spec fn columns_view(columns: Seq<Column>) -> Seq<ColumnView> {
    columns.map_values(|c: Column| c@)
}

impl View for Schema {
    type V = SchemaView;

    closed spec fn view(&self) -> SchemaView {
        SchemaView {
            table: self.table@,
            columns: columns_view(self.columns@),
            primary_key: self.primary_key@,
        }
    }
}

/// Cells as mathematical values.
pub open spec fn cells_view(cells: Seq<Cell>) -> Seq<CellView> {
    cells.map_values(|c: Cell| c@)
}

impl View for Row {
    type V = Seq<CellView>;

    closed spec fn view(&self) -> Seq<CellView> {
        cells_view(self.0@)
    }
}

/// Why a schema was refused.
#[derive(Debug, Clone, Copy, PartialEq, Eq, Structural)]
pub enum SchemaError {
    /// A primary-key position names no column.
    PrimaryKeyIndexOutOfBounds { index: usize, column_count: usize },
    /// A column appears twice in the primary key.
    DuplicatePrimaryKeyColumn { index: usize },
}

/// Why a row could not be encoded or decoded.
#[allow(inconsistent_fields)]
#[derive(Debug, Clone, Copy, PartialEq, Eq, Structural)]
pub enum RowError {
    ColumnCountMismatch { expected: usize, actual: usize },
    CellTypeMismatch { index: usize, expected: CellType, actual: CellType },
    TruncatedKeyPrefix { expected: usize, actual: usize },
    TableMismatch,
    TrailingKeyBytes { remaining: usize },
    TrailingValueBytes { remaining: usize },
    MissingCell { index: usize },
    CellDecode(DecodeError),
    CellEncode(EncodeError),
}

/// The first fault of a primary-key list over `n` columns, in list order:
/// a position past the columns, or a column named twice.
pub open spec fn primary_key_error(n: nat, pk: Seq<usize>) -> Option<SchemaError>
    decreases pk.len(),
{
    if pk.len() == 0 {
        None
    } else {
        match primary_key_error(n, pk.drop_last()) {
            Some(e) => Some(e),
            None => {
                let index = pk.last();
                if index >= n {
                    Some(
                        SchemaError::PrimaryKeyIndexOutOfBounds {
                            index,
                            column_count: n as usize,
                        },
                    )
                } else if pk.drop_last().contains(index) {
                    Some(SchemaError::DuplicatePrimaryKeyColumn { index })
                } else {
                    None
                }
            },
        }
    }
}

/// The bytes of a table's name.
pub open spec fn table_bytes(table: Seq<char>) -> Seq<u8> {
    encode_utf8(table)
}

/// The first cell among the first `k` whose type differs from its column's.
pub open spec fn type_error(cells: Seq<CellView>, columns: Seq<ColumnView>, k: nat) -> Option<
    RowError,
>
    decreases k,
{
    if k == 0 {
        None
    } else {
        match type_error(cells, columns, (k - 1) as nat) {
            Some(e) => Some(e),
            None => {
                let i = k - 1;
                if cell_type_of(cells[i]) != columns[i].cell_type {
                    Some(
                        RowError::CellTypeMismatch {
                            index: i as usize,
                            expected: columns[i].cell_type,
                            actual: cell_type_of(cells[i]),
                        },
                    )
                } else {
                    None
                }
            },
        }
    }
}

/// Why the cells do not fit the columns, if they do not.
pub open spec fn row_error(cells: Seq<CellView>, columns: Seq<ColumnView>) -> Option<RowError> {
    if cells.len() != columns.len() {
        Some(
            RowError::ColumnCountMismatch {
                expected: columns.len() as usize,
                actual: cells.len() as usize,
            },
        )
    } else {
        type_error(cells, columns, cells.len())
    }
}

/// Whether column `i` belongs to the key part (`key_part`) or to the value part.
pub open spec fn in_part(pk: Seq<usize>, key_part: bool, i: int) -> bool {
    pk.contains(i as usize) == key_part
}

/// The error of encoding a cell that does not fit.
pub open spec fn cell_encode_error(c: CellView) -> EncodeError {
    match c {
        CellView::Str(s) => EncodeError::StringTooLarge { length: s.len() as usize },
        CellView::I64(_) => EncodeError::StringTooLarge { length: 0 },
    }
}

/// The encodings, in column order, of those of the first `k` cells that
/// belong to the part; or the error of the first that does not fit.
pub open spec fn encode_part(
    cells: Seq<CellView>,
    pk: Seq<usize>,
    key_part: bool,
    k: nat,
) -> Result<Seq<u8>, EncodeError>
    decreases k,
{
    if k == 0 {
        Ok(Seq::empty())
    } else {
        match encode_part(cells, pk, key_part, (k - 1) as nat) {
            Err(e) => Err(e),
            Ok(b) => {
                let c = cells[k - 1];
                if in_part(pk, key_part, k - 1) {
                    if cell_fits(c) {
                        Ok(b + encode_cell(c))
                    } else {
                        Err(cell_encode_error(c))
                    }
                } else {
                    Ok(b)
                }
            },
        }
    }
}

/// The encoded key of a row.
pub open spec fn encode_row_key(cells: Seq<CellView>, schema: SchemaView) -> Result<
    Seq<u8>,
    RowError,
> {
    match row_error(cells, schema.columns) {
        Some(e) => Err(e),
        None => match encode_part(cells, schema.primary_key, true, cells.len()) {
            Ok(b) => Ok(table_bytes(schema.table) + seq![0u8] + b),
            Err(e) => Err(RowError::CellEncode(e)),
        },
    }
}

/// The encoded value of a row.
pub open spec fn encode_row_value(cells: Seq<CellView>, schema: SchemaView) -> Result<
    Seq<u8>,
    RowError,
> {
    match row_error(cells, schema.columns) {
        Some(e) => Err(e),
        None => match encode_part(cells, schema.primary_key, false, cells.len()) {
            Ok(b) => Ok(b),
            Err(e) => Err(RowError::CellEncode(e)),
        },
    }
}

/// The total length of the encodings of those of the first `k` cells that
/// belong to the part.
pub open spec fn part_size(cells: Seq<CellView>, pk: Seq<usize>, key_part: bool, k: nat) -> int
    decreases k,
{
    if k == 0 {
        0
    } else if in_part(pk, key_part, k - 1) {
        part_size(cells, pk, key_part, (k - 1) as nat) + encode_cell(cells[k - 1]).len()
    } else {
        part_size(cells, pk, key_part, (k - 1) as nat)
    }
}

/// Decoding, from the front of `s`, the cells of the first `k` columns that
/// belong to the part, into the slots of their columns: the slots reached or
/// the first error, and the bytes left unread.
pub open spec fn decode_part(
    columns: Seq<ColumnView>,
    pk: Seq<usize>,
    key_part: bool,
    slots: Seq<Option<CellView>>,
    s: Seq<u8>,
    k: nat,
) -> (Result<Seq<Option<CellView>>, DecodeError>, Seq<u8>)
    decreases k,
{
    if k == 0 {
        (Ok(slots), s)
    } else {
        let (r, rest) = decode_part(columns, pk, key_part, slots, s, (k - 1) as nat);
        match r {
            Err(e) => (Err(e), rest),
            Ok(filled) => {
                if in_part(pk, key_part, k - 1) {
                    let (c, rest2) = decode_cell(columns[k - 1].cell_type, rest);
                    match c {
                        Ok(cell) => (Ok(filled.update(k - 1, Some(cell))), rest2),
                        Err(e) => (Err(e), rest2),
                    }
                } else {
                    (Ok(filled), rest)
                }
            },
        }
    }
}

/// Decoding a key into the slots of a row: the slots reached or the error,
/// and the bytes of the key left unread.
pub open spec fn decode_row_key(schema: SchemaView, slots: Seq<Option<CellView>>, key: Seq<u8>) -> (
    Result<Seq<Option<CellView>>, RowError>,
    Seq<u8>,
) {
    let t = table_bytes(schema.table);
    let p = t.len() + 1;
    if key.len() < p {
        (
            Err(RowError::TruncatedKeyPrefix { expected: p as usize, actual: key.len() as usize }),
            key,
        )
    } else if key.take(t.len() as int) != t || key[t.len() as int] != 0 {
        (Err(RowError::TableMismatch), key)
    } else {
        let (r, rest) = decode_part(
            schema.columns,
            schema.primary_key,
            true,
            slots,
            key.skip(p as int),
            schema.columns.len(),
        );
        match r {
            Err(e) => (Err(RowError::CellDecode(e)), rest),
            Ok(filled) => if rest.len() > 0 {
                (Err(RowError::TrailingKeyBytes { remaining: rest.len() as usize }), rest)
            } else {
                (Ok(filled), rest)
            },
        }
    }
}

/// Decoding a value into the slots of a row: the slots reached or the
/// error, and the bytes of the value left unread.
pub open spec fn decode_row_value(
    schema: SchemaView,
    slots: Seq<Option<CellView>>,
    value: Seq<u8>,
) -> (Result<Seq<Option<CellView>>, RowError>, Seq<u8>) {
    let (r, rest) = decode_part(
        schema.columns,
        schema.primary_key,
        false,
        slots,
        value,
        schema.columns.len(),
    );
    match r {
        Err(e) => (Err(RowError::CellDecode(e)), rest),
        Ok(filled) => if rest.len() > 0 {
            (Err(RowError::TrailingValueBytes { remaining: rest.len() as usize }), rest)
        } else {
            (Ok(filled), rest)
        },
    }
}

/// The first of the first `k` slots that is empty.
pub open spec fn first_empty(slots: Seq<Option<CellView>>, k: nat) -> Option<usize>
    decreases k,
{
    if k == 0 {
        None
    } else {
        match first_empty(slots, (k - 1) as nat) {
            Some(i) => Some(i),
            None => if slots[k - 1] is None {
                Some((k - 1) as usize)
            } else {
                None
            },
        }
    }
}

/// `n` empty slots.
pub open spec fn empty_slots(n: nat) -> Seq<Option<CellView>> {
    Seq::new(n, |i: int| None::<CellView>)
}

/// Decoding a row from its key and value: the row or the error, and the
/// bytes of the key and of the value left unread.
pub open spec fn decode_row(schema: SchemaView, key: Seq<u8>, value: Seq<u8>) -> (
    Result<Seq<CellView>, RowError>,
    Seq<u8>,
    Seq<u8>,
) {
    let (rk, key_rest) = decode_row_key(schema, empty_slots(schema.columns.len()), key);
    match rk {
        Err(e) => (Err(e), key_rest, value),
        Ok(slots) => {
            let (rv, value_rest) = decode_row_value(schema, slots, value);
            match rv {
                Err(e) => (Err(e), key_rest, value_rest),
                Ok(filled) => match first_empty(filled, filled.len()) {
                    Some(index) => (Err(RowError::MissingCell { index }), key_rest, value_rest),
                    None => (
                        Ok(filled.map_values(|o: Option<CellView>| o.unwrap())),
                        key_rest,
                        value_rest,
                    ),
                },
            }
        },
    }
}

/// Slots as mathematical values.
pub open spec fn slots_view(slots: Seq<Option<Cell>>) -> Seq<Option<CellView>> {
    slots.map_values(
        |o: Option<Cell>|
            match o {
                Some(c) => Some(c@),
                None => None,
            },
    )
}

/// The outcome of a row-decoding call, as a mathematical value.
pub open spec fn row_result_view(r: Result<Row, RowError>) -> Result<Seq<CellView>, RowError> {
    match r {
        Ok(row) => Ok(row@),
        Err(e) => Err(e),
    }
}

/// Whether `v[..end]` holds `x`.
fn contains_before(v: &Vec<usize>, end: usize, x: usize) -> (r: bool)
    requires
        end <= v@.len(),
    ensures
        r == v@.take(end as int).contains(x),
{
    let mut i: usize = 0;
    while i < end
        invariant
            i <= end <= v@.len(),
            forall|j: int| 0 <= j < i ==> v@[j] != x,
        decreases end - i,
    {
        if v[i] == x {
            assert(v@.take(end as int)[i as int] == x);
            return true;
        }
        i = i + 1;
    }
    assert forall|j: int| 0 <= j < end implies v@.take(end as int)[j] != x by {
        assert(v@.take(end as int)[j] == v@[j]);
    }
    false
}

/// Whether `s` begins with `prefix`.
fn starts_with(s: &[u8], prefix: &[u8]) -> (r: bool)
    requires
        prefix@.len() <= s@.len(),
    ensures
        r == (s@.take(prefix@.len() as int) == prefix@),
{
    let mut i: usize = 0;
    while i < prefix.len()
        invariant
            i <= prefix@.len() <= s@.len(),
            forall|j: int| 0 <= j < i ==> s@[j] == prefix@[j],
        decreases prefix@.len() - i,
    {
        if s[i] != prefix[i] {
            assert(s@.take(prefix@.len() as int)[i as int] != prefix@[i as int]);
            return false;
        }
        i = i + 1;
    }
    assert(s@.take(prefix@.len() as int) == prefix@);
    true
}

impl Column {
    /// A column named `name` holding cells of type `cell_type`.
    pub fn new(name: &str, cell_type: CellType) -> (r: Self)
        ensures
            r@ == (ColumnView { name: name@, cell_type }),
    {
        Column { name: String::from_str(name), cell_type }
    }
}

impl Schema {
    /// A schema, unless a primary-key position names no column or names a
    /// column twice; the first such position in the list is reported.
    pub fn new(table: &str, columns: Vec<Column>, primary_key: Vec<usize>) -> (r: Result<
        Self,
        SchemaError,
    >)
        ensures
            match r {
                Ok(schema) => primary_key_error(columns@.len(), primary_key@) is None && schema@
                    == (SchemaView {
                    table: table@,
                    columns: columns_view(columns@),
                    primary_key: primary_key@,
                }),
                Err(e) => primary_key_error(columns@.len(), primary_key@) == Some(e),
            },
    {
        let mut position: usize = 0;
        while position < primary_key.len()
            invariant
                position <= primary_key@.len(),
                primary_key_error(columns@.len(), primary_key@.take(position as int)) is None,
            decreases primary_key@.len() - position,
        {
            let index = primary_key[position];
            let ghost upto = primary_key@.take(position + 1);
            assert(upto.drop_last() == primary_key@.take(position as int));
            if index >= columns.len() {
                proof {
                    lemma_primary_key_error_prefix(columns@.len(), primary_key@, position + 1);
                }
                return Err(
                    SchemaError::PrimaryKeyIndexOutOfBounds { index, column_count: columns.len() },
                );
            }
            if contains_before(&primary_key, position, index) {
                proof {
                    lemma_primary_key_error_prefix(columns@.len(), primary_key@, position + 1);
                }
                return Err(SchemaError::DuplicatePrimaryKeyColumn { index });
            }
            position = position + 1;
        }
        assert(primary_key@.take(primary_key@.len() as int) == primary_key@);
        Ok(Schema { table: String::from_str(table), columns, primary_key })
    }

    /// Whether column `index` belongs to the primary key.
    pub fn is_primary_key(&self, index: usize) -> (r: bool)
        ensures
            r == self@.primary_key.contains(index),
    {
        let end = self.primary_key.len();
        let r = contains_before(&self.primary_key, end, index);
        assert(self.primary_key@.take(end as int) == self.primary_key@);
        r
    }
}

/// Where a primary-key list has a fault among its first `k` positions, the
/// whole list reports that fault.
proof fn lemma_primary_key_error_prefix(n: nat, pk: Seq<usize>, k: int)
    requires
        0 <= k <= pk.len(),
        primary_key_error(n, pk.take(k)) is Some,
    ensures
        primary_key_error(n, pk) == primary_key_error(n, pk.take(k)),
    decreases pk.len() - k,
{
    if k < pk.len() {
        assert(pk.take(k + 1).drop_last() == pk.take(k));
        lemma_primary_key_error_prefix(n, pk, k + 1);
    } else {
        assert(pk.take(k) == pk);
    }
}

/// The size of a part never shrinks as more cells are counted.
proof fn lemma_part_size_monotone(
    cells: Seq<CellView>,
    pk: Seq<usize>,
    key_part: bool,
    k: nat,
    n: nat,
)
    requires
        k <= n,
    ensures
        part_size(cells, pk, key_part, k) <= part_size(cells, pk, key_part, n),
    decreases n - k,
{
    if k < n {
        lemma_part_size_monotone(cells, pk, key_part, k, (n - 1) as nat);
    }
}

/// Where the first `k` cells have their columns' types, every one of them does.
proof fn lemma_type_error_none(cells: Seq<CellView>, columns: Seq<ColumnView>, k: nat)
    requires
        type_error(cells, columns, k) is None,
    ensures
        forall|i: int| 0 <= i < k ==> cell_type_of(cells[i]) == #[trigger] columns[i].cell_type,
    decreases k,
{
    if k > 0 {
        lemma_type_error_none(cells, columns, (k - 1) as nat);
    }
}

/// Where a type mismatch shows among the first `k` cells, the whole row
/// reports it.
proof fn lemma_type_error_prefix(cells: Seq<CellView>, columns: Seq<ColumnView>, k: nat, n: nat)
    requires
        k <= n,
        type_error(cells, columns, k) is Some,
    ensures
        type_error(cells, columns, n) == type_error(cells, columns, k),
    decreases n - k,
{
    if k < n {
        lemma_type_error_prefix(cells, columns, k, (n - 1) as nat);
    }
}

/// Where encoding the part fails within the first `k` cells, it fails
/// there for the whole row too.
proof fn lemma_encode_part_prefix(
    cells: Seq<CellView>,
    pk: Seq<usize>,
    key_part: bool,
    k: nat,
    n: nat,
)
    requires
        k <= n,
        encode_part(cells, pk, key_part, k) is Err,
    ensures
        encode_part(cells, pk, key_part, n) == encode_part(cells, pk, key_part, k),
    decreases n - k,
{
    if k < n {
        lemma_encode_part_prefix(cells, pk, key_part, k, (n - 1) as nat);
    }
}

/// Where decoding the part fails within the first `k` columns, it fails
/// there for all of them, with the same bytes left.
proof fn lemma_decode_part_prefix(
    columns: Seq<ColumnView>,
    pk: Seq<usize>,
    key_part: bool,
    slots: Seq<Option<CellView>>,
    s: Seq<u8>,
    k: nat,
    n: nat,
)
    requires
        k <= n,
        decode_part(columns, pk, key_part, slots, s, k).0 is Err,
    ensures
        decode_part(columns, pk, key_part, slots, s, n) == decode_part(
            columns,
            pk,
            key_part,
            slots,
            s,
            k,
        ),
    decreases n - k,
{
    if k < n {
        lemma_decode_part_prefix(columns, pk, key_part, slots, s, k, (n - 1) as nat);
    }
}

/// Where the first `k` slots are filled, none of them is reported empty.
proof fn lemma_first_empty_prefix(slots: Seq<Option<CellView>>, k: nat, n: nat)
    requires
        k <= n,
        first_empty(slots, k) is Some,
    ensures
        first_empty(slots, n) == first_empty(slots, k),
    decreases n - k,
{
    if k < n {
        lemma_first_empty_prefix(slots, k, (n - 1) as nat);
    }
}

impl Row {
    /// A row of the given cells.
    pub fn new(cells: Vec<Cell>) -> (r: Self)
        ensures
            r@ == cells_view(cells@),
    {
        Row(cells)
    }

    /// Checks that the row has one cell per column, each of its column's type.
    fn validate(&self, schema: &Schema) -> (r: Result<(), RowError>)
        ensures
            match r {
                Ok(()) => row_error(self@, schema@.columns) is None,
                Err(e) => row_error(self@, schema@.columns) == Some(e),
            },
    {
        if self.0.len() != schema.columns.len() {
            return Err(
                RowError::ColumnCountMismatch {
                    expected: schema.columns.len(),
                    actual: self.0.len(),
                },
            );
        }
        let mut index: usize = 0;
        while index < self.0.len()
            invariant
                index <= self.0@.len() == schema.columns@.len(),
                type_error(self@, schema@.columns, index as nat) is None,
            decreases self.0@.len() - index,
        {
            let expected = schema.columns[index].cell_type;
            let actual = self.0[index].cell_type();
            assert(self@[index as int] == self.0@[index as int]@);
            assert(schema@.columns[index as int] == schema.columns@[index as int]@);
            if expected != actual {
                proof {
                    lemma_type_error_prefix(
                        self@,
                        schema@.columns,
                        (index + 1) as nat,
                        self@.len(),
                    );
                }
                return Err(RowError::CellTypeMismatch { index, expected, actual });
            }
            index = index + 1;
        }
        Ok(())
    }

    /// The encoding of the row's primary-key cells, behind the table's name
    /// and a zero byte.
    pub fn encode_key(&self, schema: &Schema) -> (r: Result<BytesMut, RowError>)
        requires
            row_error(self@, schema@.columns) is None ==> table_bytes(schema@.table).len() + 1
                + part_size(self@, schema@.primary_key, true, self@.len()) <= isize::MAX,
        ensures
            match r {
                Ok(key) => encode_row_key(self@, schema@) == Ok::<Seq<u8>, RowError>(
                    bytes_mut_view(key),
                ),
                Err(e) => encode_row_key(self@, schema@) == Err::<Seq<u8>, RowError>(e),
            },
    {
        match self.validate(schema) {
            Ok(()) => {},
            Err(e) => {
                return Err(e);
            },
        }
        let table = schema.table.as_str().as_bytes();
        assert(table@ == table_bytes(schema@.table));
        proof {
            lemma_part_size_monotone(self@, schema@.primary_key, true, 0, self@.len());
        }
        let mut key = bytes_mut_with_capacity(table.len() + 1);
        bytes_mut_put_slice(&mut key, table);
        bytes_mut_put_u8(&mut key, 0);
        let ghost prefix = table_bytes(schema@.table) + seq![0u8];
        assert(bytes_mut_view(key) == prefix);
        match self.encode_part_into(schema, true, &mut key) {
            Ok(()) => {
                let ghost kv = bytes_mut_view(key);
                assert(kv =~= kv.take(prefix.len() as int) + kv.skip(prefix.len() as int));
            },
            Err(e) => {
                return Err(RowError::CellEncode(e));
            },
        }
        Ok(key)
    }

    /// The encoding of the row's other cells.
    pub fn encode_value(&self, schema: &Schema) -> (r: Result<BytesMut, RowError>)
        requires
            row_error(self@, schema@.columns) is None ==> part_size(
                self@,
                schema@.primary_key,
                false,
                self@.len(),
            ) <= isize::MAX,
        ensures
            match r {
                Ok(value) => encode_row_value(self@, schema@) == Ok::<Seq<u8>, RowError>(
                    bytes_mut_view(value),
                ),
                Err(e) => encode_row_value(self@, schema@) == Err::<Seq<u8>, RowError>(e),
            },
    {
        match self.validate(schema) {
            Ok(()) => {},
            Err(e) => {
                return Err(e);
            },
        }
        let mut value = bytes_mut_new();
        match self.encode_part_into(schema, false, &mut value) {
            Ok(()) => {},
            Err(e) => {
                return Err(RowError::CellEncode(e));
            },
        }
        assert(bytes_mut_view(value).skip(0) == bytes_mut_view(value));
        Ok(value)
    }

    /// Appends, in column order, the encodings of the cells of one part.
    fn encode_part_into(&self, schema: &Schema, key_part: bool, out: &mut BytesMut) -> (r: Result<
        (),
        EncodeError,
    >)
        requires
            bytes_mut_view(*old(out)).len() + part_size(
                self@,
                schema@.primary_key,
                key_part,
                self@.len(),
            ) <= isize::MAX,
        ensures
            match r {
                Ok(()) => bytes_mut_view(*final(out)).len() >= bytes_mut_view(*old(out)).len()
                    && encode_part(self@, schema@.primary_key, key_part, self@.len())
                    == Ok::<Seq<u8>, EncodeError>(
                    bytes_mut_view(*final(out)).skip(bytes_mut_view(*old(out)).len() as int),
                ) && bytes_mut_view(*final(out)).take(bytes_mut_view(*old(out)).len() as int)
                    == bytes_mut_view(*old(out)),
                Err(e) => encode_part(self@, schema@.primary_key, key_part, self@.len()) == Err::<
                    Seq<u8>,
                    EncodeError,
                >(e),
            },
    {
        let ghost start = bytes_mut_view(*out);
        let ghost cells = self@;
        let ghost pk = schema@.primary_key;
        proof {
            lemma_part_size_monotone(cells, pk, key_part, 0, cells.len());
        }
        assert(start.skip(start.len() as int) =~= Seq::<u8>::empty());
        assert(start.take(start.len() as int) =~= start);
        let mut index: usize = 0;
        while index < self.0.len()
            invariant
                index <= self.0@.len(),
                cells == self@,
                pk == schema@.primary_key,
                start.len() + part_size(cells, pk, key_part, cells.len()) <= isize::MAX,
                bytes_mut_view(*out).len() <= start.len() + part_size(
                    cells,
                    pk,
                    key_part,
                    index as nat,
                ),
                bytes_mut_view(*out).len() >= start.len(),
                bytes_mut_view(*out).take(start.len() as int) == start,
                encode_part(cells, pk, key_part, index as nat) == Ok::<Seq<u8>, EncodeError>(
                    bytes_mut_view(*out).skip(start.len() as int),
                ),
            decreases self.0@.len() - index,
        {
            let ghost before = bytes_mut_view(*out);
            proof {
                lemma_part_size_monotone(cells, pk, key_part, (index + 1) as nat, cells.len());
            }
            assert(cells[index as int] == self.0@[index as int]@);
            if schema.is_primary_key(index) == key_part {
                match self.0[index].encode_into(out) {
                    Ok(()) => {
                        let ghost e = encode_cell(cells[index as int]);
                        assert(bytes_mut_view(*out) == before + e);
                        assert((before + e).skip(start.len() as int) =~= before.skip(
                            start.len() as int,
                        ) + e);
                        assert((before + e).take(start.len() as int) =~= before.take(
                            start.len() as int,
                        ));
                    },
                    Err(e) => {
                        proof {
                            lemma_encode_part_prefix(
                                cells,
                                pk,
                                key_part,
                                (index + 1) as nat,
                                cells.len(),
                            );
                        }
                        return Err(e);
                    },
                }
            }
            index = index + 1;
        }
        Ok(())
    }

    /// Decodes a row from its key and its value, leaving each after the
    /// bytes read from it.
    pub fn decode(schema: &Schema, key: &mut Bytes, value: &mut Bytes) -> (r: Result<
        Self,
        RowError,
    >)
        requires
            table_bytes(schema@.table).len() < usize::MAX,
        ensures
            decode_row(schema@, bytes_view(*old(key)), bytes_view(*old(value))) == (
                row_result_view(r),
                bytes_view(*final(key)),
                bytes_view(*final(value)),
            ),
    {
        let n = schema.columns.len();
        let mut cells: Vec<Option<Cell>> = Vec::new();
        while cells.len() < n
            invariant
                cells@.len() <= n,
                n == schema@.columns.len(),
                slots_view(cells@) == empty_slots(cells@.len()),
            decreases n - cells@.len(),
        {
            let ghost before = cells@;
            cells.push(None);
            assert forall|i: int| 0 <= i < cells@.len() implies #[trigger] slots_view(cells@)[i]
                == empty_slots(cells@.len())[i] by {
                if i < before.len() {
                    assert(cells@[i] == before[i]);
                    assert(slots_view(before)[i] == empty_slots(before.len())[i]);
                }
            }
            assert(slots_view(cells@) =~= empty_slots(cells@.len()));
        }

        match Self::decode_key(schema, key, &mut cells) {
            Ok(()) => {},
            Err(e) => {
                return Err(e);
            },
        }
        match Self::decode_value(schema, value, &mut cells) {
            Ok(()) => {},
            Err(e) => {
                return Err(e);
            },
        }

        let ghost filled = slots_view(cells@);
        let mut out: Vec<Cell> = Vec::new();
        let mut index: usize = 0;
        while index < n
            invariant
                index <= n == cells@.len() == filled.len(),
                decode_row(schema@, bytes_view(*old(key)), bytes_view(*old(value))) == (
                    match first_empty(filled, filled.len()) {
                        Some(i) => Err(RowError::MissingCell { index: i }),
                        None => Ok(filled.map_values(|o: Option<CellView>| o.unwrap())),
                    },
                    bytes_view(*key),
                    bytes_view(*value),
                ),
                first_empty(filled, index as nat) is None,
                out@.len() == index,
                forall|i: int| index <= i < n ==> slots_view(cells@)[i] == #[trigger] filled[i],
                forall|i: int|
                    0 <= i < index ==> Some(#[trigger] cells_view(out@)[i]) == filled[i],
            decreases n - index,
        {
            assert(slots_view(cells@)[index as int] == filled[index as int]);
            let ghost slot = cells@[index as int];
            let taken = cells[index].take();
            assert(taken == slot);
            match taken {
                Some(cell) => {
                    let ghost out_before = out@;
                    out.push(cell);
                    assert(cells_view(out@)[index as int] == cell@);
                    assert forall|i: int| 0 <= i < index + 1 implies Some(
                        #[trigger] cells_view(out@)[i],
                    ) == filled[i] by {
                        if i < index {
                            assert(out@[i] == out_before[i]);
                            assert(cells_view(out_before)[i] == out_before[i]@);
                        }
                    }
                },
                None => {
                    assert(first_empty(filled, (index + 1) as nat) == Some(index));
                    proof {
                        lemma_first_empty_prefix(filled, (index + 1) as nat, n as nat);
                        assert(first_empty(filled, filled.len()) == Some(index));
                    }
                    return Err(RowError::MissingCell { index });
                },
            }
            index = index + 1;
        }
        assert(cells_view(out@) == filled.map_values(|o: Option<CellView>| o.unwrap()));
        Ok(Row(out))
    }

    /// Checks the table prefix of a key and decodes its primary-key cells
    /// into their slots.
    fn decode_key(schema: &Schema, key: &mut Bytes, cells: &mut Vec<Option<Cell>>) -> (r: Result<
        (),
        RowError,
    >)
        requires
            old(cells)@.len() == schema@.columns.len(),
            table_bytes(schema@.table).len() < usize::MAX,
        ensures
            final(cells)@.len() == old(cells)@.len(),
            decode_row_key(schema@, slots_view(old(cells)@), bytes_view(*old(key))).1
                == bytes_view(*final(key)),
            match r {
                Ok(()) => decode_row_key(schema@, slots_view(old(cells)@), bytes_view(*old(key))).0
                    == Ok::<Seq<Option<CellView>>, RowError>(slots_view(final(cells)@)),
                Err(e) => decode_row_key(
                    schema@,
                    slots_view(old(cells)@),
                    bytes_view(*old(key)),
                ).0 == Err::<Seq<Option<CellView>>, RowError>(e),
            },
    {
        let table = schema.table.as_str().as_bytes();
        let table_len = table.len();
        let prefix_len = table_len + 1;
        let available = bytes_remaining(key);
        if available < prefix_len {
            return Err(RowError::TruncatedKeyPrefix { expected: prefix_len, actual: available });
        }
        let head = bytes_as_slice(key);
        if !starts_with(head, table) || head[table_len] != 0 {
            return Err(RowError::TableMismatch);
        }
        bytes_advance(key, prefix_len);
        match Self::decode_part_into(schema, true, key, cells) {
            Ok(()) => {},
            Err(e) => {
                return Err(RowError::CellDecode(e));
            },
        }
        if bytes_has_remaining(key) {
            return Err(RowError::TrailingKeyBytes { remaining: bytes_remaining(key) });
        }
        Ok(())
    }

    /// Decodes the non-primary-key cells of a value into their slots.
    fn decode_value(schema: &Schema, value: &mut Bytes, cells: &mut Vec<Option<Cell>>) -> (r:
        Result<(), RowError>)
        requires
            old(cells)@.len() == schema@.columns.len(),
        ensures
            final(cells)@.len() == old(cells)@.len(),
            decode_row_value(schema@, slots_view(old(cells)@), bytes_view(*old(value))).1
                == bytes_view(*final(value)),
            match r {
                Ok(()) => decode_row_value(
                    schema@,
                    slots_view(old(cells)@),
                    bytes_view(*old(value)),
                ).0 == Ok::<Seq<Option<CellView>>, RowError>(slots_view(final(cells)@)),
                Err(e) => decode_row_value(
                    schema@,
                    slots_view(old(cells)@),
                    bytes_view(*old(value)),
                ).0 == Err::<Seq<Option<CellView>>, RowError>(e),
            },
    {
        match Self::decode_part_into(schema, false, value, cells) {
            Ok(()) => {},
            Err(e) => {
                return Err(RowError::CellDecode(e));
            },
        }
        if bytes_has_remaining(value) {
            return Err(RowError::TrailingValueBytes { remaining: bytes_remaining(value) });
        }
        Ok(())
    }

    /// Decodes, in column order, the cells of one part into their slots.
    fn decode_part_into(
        schema: &Schema,
        key_part: bool,
        input: &mut Bytes,
        cells: &mut Vec<Option<Cell>>,
    ) -> (r: Result<(), DecodeError>)
        requires
            old(cells)@.len() == schema@.columns.len(),
        ensures
            final(cells)@.len() == old(cells)@.len(),
            ({
                let (res, rest) = decode_part(
                    schema@.columns,
                    schema@.primary_key,
                    key_part,
                    slots_view(old(cells)@),
                    bytes_view(*old(input)),
                    schema@.columns.len(),
                );
                &&& rest == bytes_view(*final(input))
                &&& match r {
                    Ok(()) => res == Ok::<Seq<Option<CellView>>, DecodeError>(
                        slots_view(final(cells)@),
                    ),
                    Err(e) => res == Err::<Seq<Option<CellView>>, DecodeError>(e),
                }
            }),
    {
        let ghost columns = schema@.columns;
        let ghost pk = schema@.primary_key;
        let ghost slots0 = slots_view(cells@);
        let ghost s0 = bytes_view(*input);
        let n = schema.columns.len();
        let mut index: usize = 0;
        while index < n
            invariant
                index <= n == columns.len() == cells@.len(),
                columns == schema@.columns,
                pk == schema@.primary_key,
                old(cells)@.len() == n,
                slots0 == slots_view(old(cells)@),
                s0 == bytes_view(*old(input)),
                decode_part(columns, pk, key_part, slots0, s0, index as nat) == (
                    Ok::<Seq<Option<CellView>>, DecodeError>(slots_view(cells@)),
                    bytes_view(*input),
                ),
            decreases n - index,
        {
            assert(columns[index as int] == schema.columns@[index as int]@);
            if schema.is_primary_key(index) == key_part {
                match Cell::decode(schema.columns[index].cell_type, input) {
                    Ok(cell) => {
                        let ghost before = slots_view(cells@);
                        let ghost cv = cell@;
                        cells[index] = Some(cell);
                        assert(slots_view(cells@) == before.update(index as int, Some(cv)));
                    },
                    Err(e) => {
                        proof {
                            lemma_decode_part_prefix(
                                columns,
                                pk,
                                key_part,
                                slots0,
                                s0,
                                (index + 1) as nat,
                                n as nat,
                            );
                        }
                        return Err(e);
                    },
                }
            }
            index = index + 1;
        }
        Ok(())
    }
}

/// The slots after the cells of the first `k` columns of a part have been
/// put in them.
pub open spec fn fill_part(
    slots: Seq<Option<CellView>>,
    cells: Seq<CellView>,
    pk: Seq<usize>,
    key_part: bool,
    k: nat,
) -> Seq<Option<CellView>> {
    Seq::new(
        slots.len(),
        |i: int|
            if i < k && in_part(pk, key_part, i) {
                Some(cells[i])
            } else {
                slots[i]
            },
    )
}

/// Decoding the encoding of a part, followed by any bytes, puts the part's
/// cells in their slots and leaves those bytes.
proof fn lemma_decode_encoded_part(
    columns: Seq<ColumnView>,
    cells: Seq<CellView>,
    pk: Seq<usize>,
    key_part: bool,
    slots: Seq<Option<CellView>>,
    k: nat,
    rest: Seq<u8>,
)
    requires
        k <= cells.len(),
        cells.len() == columns.len(),
        slots.len() == cells.len(),
        forall|i: int|
            0 <= i < cells.len() ==> cell_type_of(cells[i]) == #[trigger] columns[i].cell_type,
        encode_part(cells, pk, key_part, k) is Ok,
    ensures
        decode_part(
            columns,
            pk,
            key_part,
            slots,
            encode_part(cells, pk, key_part, k)->Ok_0 + rest,
            k,
        ) == (
            Ok::<Seq<Option<CellView>>, DecodeError>(fill_part(slots, cells, pk, key_part, k)),
            rest,
        ),
    decreases k,
{
    let s = encode_part(cells, pk, key_part, k)->Ok_0 + rest;
    if k == 0 {
        assert(s == rest);
        assert(fill_part(slots, cells, pk, key_part, k) == slots);
    } else {
        let j = k - 1;
        let b = encode_part(cells, pk, key_part, j as nat)->Ok_0;
        let c = cells[j];
        if in_part(pk, key_part, j) {
            let e = encode_cell(c);
            assert(s == b + (e + rest));
            lemma_decode_encoded_part(columns, cells, pk, key_part, slots, j as nat, e + rest);
            assert(columns[j].cell_type == cell_type_of(c));
            lemma_cell_roundtrip(c, rest);
            assert(fill_part(slots, cells, pk, key_part, k) == fill_part(
                slots,
                cells,
                pk,
                key_part,
                j as nat,
            ).update(j, Some(c)));
        } else {
            assert(s == b + rest);
            lemma_decode_encoded_part(columns, cells, pk, key_part, slots, j as nat, rest);
            assert(fill_part(slots, cells, pk, key_part, k) == fill_part(
                slots,
                cells,
                pk,
                key_part,
                j as nat,
            ));
        }
    }
}

/// No slot is empty when every slot holds a cell.
proof fn lemma_first_empty_none(slots: Seq<Option<CellView>>, k: nat)
    requires
        k <= slots.len(),
        forall|i: int| 0 <= i < slots.len() ==> #[trigger] slots[i] is Some,
    ensures
        first_empty(slots, k) is None,
    decreases k,
{
    if k > 0 {
        lemma_first_empty_none(slots, (k - 1) as nat);
    }
}

/// Decoding reads back what encoding wrote: for a row whose key and value
/// both encode, decoding that key and that value gives the row back and
/// reads both to their end.
pub proof fn law_row_roundtrip(schema: SchemaView, cells: Seq<CellView>)
    requires
        encode_row_key(cells, schema) is Ok,
        encode_row_value(cells, schema) is Ok,
    ensures
        decode_row(
            schema,
            encode_row_key(cells, schema)->Ok_0,
            encode_row_value(cells, schema)->Ok_0,
        ) == (Ok::<Seq<CellView>, RowError>(cells), Seq::<u8>::empty(), Seq::<u8>::empty()),
{
    let n = cells.len();
    let columns = schema.columns;
    let pk = schema.primary_key;
    lemma_type_error_none(cells, columns, n);
    let t = table_bytes(schema.table);
    let kb = encode_part(cells, pk, true, n)->Ok_0;
    let vb = encode_part(cells, pk, false, n)->Ok_0;
    let key = t + seq![0u8] + kb;
    let empty = Seq::<u8>::empty();
    assert(key.take(t.len() as int) == t);
    assert(key[t.len() as int] == 0);
    assert(key.skip(t.len() + 1int) == kb + empty);
    let slots0 = empty_slots(n);
    lemma_decode_encoded_part(columns, cells, pk, true, slots0, n, empty);
    let f1 = fill_part(slots0, cells, pk, true, n);
    assert(vb == vb + empty);
    lemma_decode_encoded_part(columns, cells, pk, false, f1, n, empty);
    let f2 = fill_part(f1, cells, pk, false, n);
    assert forall|i: int| 0 <= i < n implies #[trigger] f2[i] == Some(cells[i]) by {}
    lemma_first_empty_none(f2, n);
    assert(f2.map_values(|o: Option<CellView>| o.unwrap()) == cells);
}

/// A decoded row's key starts with the table's name and a zero byte, and a
/// key long enough for that prefix whose first bytes are not the table's
/// name is refused as belonging to another table.
pub proof fn law_decoded_key_names_the_table(schema: SchemaView, key: Seq<u8>, value: Seq<u8>)
    ensures
        decode_row(schema, key, value).0 is Ok ==> key.len() > table_bytes(schema.table).len()
            && key.take(table_bytes(schema.table).len() + 1int) == table_bytes(schema.table)
            + seq![0u8],
        key.len() > table_bytes(schema.table).len() && key.take(
            table_bytes(schema.table).len() as int,
        ) != table_bytes(schema.table) ==> decode_row(schema, key, value).0 == Err::<
            Seq<CellView>,
            RowError,
        >(RowError::TableMismatch),
{
    let t = table_bytes(schema.table);
    if decode_row(schema, key, value).0 is Ok {
        assert(key.take(t.len() + 1int) == key.take(t.len() as int) + seq![key[t.len() as int]]);
    }
}

/// A primary key is accepted exactly when every position names a column and
/// no column is named twice; where every position names a column, the only
/// fault left is a repeated one.
pub proof fn law_primary_key_accepted_iff_valid(n: nat, pk: Seq<usize>)
    ensures
        primary_key_error(n, pk) is None <==> (forall|i: int| 0 <= i < pk.len() ==> pk[i] < n)
            && (forall|i: int, j: int| 0 <= i < j < pk.len() ==> pk[i] != pk[j]),
        (forall|i: int| 0 <= i < pk.len() ==> pk[i] < n) ==> (primary_key_error(n, pk) is None
            || primary_key_error(n, pk) matches Some(SchemaError::DuplicatePrimaryKeyColumn { .. })),
    decreases pk.len(),
{
    if pk.len() > 0 {
        let init = pk.drop_last();
        let last = pk.last();
        law_primary_key_accepted_iff_valid(n, init);
        assert forall|i: int| 0 <= i < init.len() implies init[i] == pk[i] by {}
        if primary_key_error(n, init) is None && last < n && !init.contains(last) {
            assert forall|i: int, j: int| 0 <= i < j < pk.len() implies pk[i] != pk[j] by {
                if j == pk.len() - 1 {
                    assert(init[i] == pk[i]);
                } else {
                    assert(init[i] != init[j]);
                }
            }
        }
        if init.contains(last) {
            let i = choose|i: int| 0 <= i < init.len() && init[i] == last;
            assert(pk[i] == pk[pk.len() - 1]);
        }
        if primary_key_error(n, init) is Some {
            if forall|i: int| 0 <= i < init.len() ==> init[i] < n {
                let (i, j) = choose|i: int, j: int| 0 <= i < j < init.len() && init[i] == init[j];
                assert(pk[i] == pk[j]);
            } else {
                let i = choose|i: int| 0 <= i < init.len() && !(init[i] < n);
                assert(pk[i] == init[i]);
            }
        }
        if last >= n {
            assert(!(pk[pk.len() - 1] < n));
        }
    }
}

} // verus!
