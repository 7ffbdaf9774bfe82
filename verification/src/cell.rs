//! Typed cells and their byte encoding: an `i64` as eight little-endian
//! bytes, a string as its length in four little-endian bytes followed by
//! its bytes.
use vstd::prelude::*;
use bytes::{Bytes, BytesMut};
use crate::buf::{
    bytes_as_slice, bytes_get_i64_le, bytes_get_u32_le, bytes_len, bytes_mut_put_i64_le,
    bytes_mut_put_slice, bytes_mut_put_u32_le, bytes_mut_view, bytes_remaining,
    bytes_split_to, bytes_view,
};
use crate::le::{
    i64_le, le_i64, le_u32, lemma_i64_le_roundtrip, lemma_le_i64_bytes, lemma_le_u32_bytes,
    lemma_u32_le_roundtrip, u32_le,
};

verus! {

/// The type of a cell, as a schema's column declares it.
#[derive(Debug, Clone, Copy, PartialEq, Eq, Structural)]
pub enum CellType {
    I64,
    Str,
}

impl CellType {
    /// The name under which error messages show the type.
    pub fn name(self) -> (r: &'static str)
        ensures
            self == CellType::I64 ==> r@ == "I64"@,
            self == CellType::Str ==> r@ == "Str"@,
    {
        match self {
            CellType::I64 => "I64",
            CellType::Str => "Str",
        }
    }
}

/// Why a cell could not be encoded.
#[derive(Debug, Clone, Copy, PartialEq, Eq, Structural)]
pub enum EncodeError {
    /// The string is longer than a four-byte length can say.
    StringTooLarge { length: usize },
}

/// Why a cell could not be decoded.
#[derive(Debug, Clone, Copy, PartialEq, Eq, Structural)]
pub enum DecodeError {
    /// Fewer than eight bytes were left for an `i64`.
    TruncatedI64,
    /// Fewer than four bytes were left for a string's length.
    TruncatedStringLength,
    /// The string's bytes end early.
    TruncatedString { expected: usize, available: usize },
}

/// One value of a row.
#[derive(Debug, Clone, PartialEq, Eq)]
pub enum Cell {
    I64(i64),
    Str(Bytes),
}

/// A cell as a mathematical value.
pub enum CellView {
    I64(i64),
    Str(Seq<u8>),
}

impl View for Cell {
    type V = CellView;

    open spec fn view(&self) -> CellView {
        match self {
            Cell::I64(v) => CellView::I64(*v),
            Cell::Str(b) => CellView::Str(bytes_view(*b)),
        }
    }
}

/// The type of a cell.
pub open spec fn cell_type_of(c: CellView) -> CellType {
    match c {
        CellView::I64(_) => CellType::I64,
        CellView::Str(_) => CellType::Str,
    }
}

/// Whether the cell can be encoded: a string's length must fit in a `u32`.
pub open spec fn cell_fits(c: CellView) -> bool {
    match c {
        CellView::I64(_) => true,
        CellView::Str(s) => s.len() <= u32::MAX,
    }
}

/// The encoding of a cell.
pub open spec fn encode_cell(c: CellView) -> Seq<u8> {
    match c {
        CellView::I64(v) => i64_le(v),
        CellView::Str(s) => u32_le(s.len() as u32) + s,
    }
}

/// Decoding one cell of type `ty` from the front of `s`: the outcome, and
/// the bytes left unread.
pub open spec fn decode_cell(ty: CellType, s: Seq<u8>) -> (Result<CellView, DecodeError>, Seq<u8>) {
    match ty {
        CellType::I64 => {
            if s.len() < 8 {
                (Err(DecodeError::TruncatedI64), s)
            } else {
                (Ok(CellView::I64(le_i64(s.take(8)))), s.skip(8))
            }
        },
        CellType::Str => {
            if s.len() < 4 {
                (Err(DecodeError::TruncatedStringLength), s)
            } else {
                let n = le_u32(s.take(4));
                let rest = s.skip(4);
                if rest.len() < n {
                    (
                        Err(
                            DecodeError::TruncatedString {
                                expected: n as usize,
                                available: rest.len() as usize,
                            },
                        ),
                        rest,
                    )
                } else {
                    (Ok(CellView::Str(rest.take(n as int))), rest.skip(n as int))
                }
            }
        },
    }
}

/// The outcome of a decoding call, as a mathematical value.
pub open spec fn cell_result_view(r: Result<Cell, DecodeError>) -> Result<CellView, DecodeError> {
    match r {
        Ok(c) => Ok(c@),
        Err(e) => Err(e),
    }
}

impl Cell {
    /// Appends the encoding of the cell to `out`.
    pub fn encode_into(&self, out: &mut BytesMut) -> (r: Result<(), EncodeError>)
        requires
            cell_fits(self@) ==> bytes_mut_view(*old(out)).len() + encode_cell(self@).len()
                <= isize::MAX,
        ensures
            r is Ok <==> cell_fits(self@),
            r is Ok ==> bytes_mut_view(*final(out)) == bytes_mut_view(*old(out)) + encode_cell(
                self@,
            ),
            r is Err ==> bytes_mut_view(*final(out)) == bytes_mut_view(*old(out)),
            r is Err ==> (self@ matches CellView::Str(s) && r == Err::<(), EncodeError>(
                EncodeError::StringTooLarge { length: s.len() as usize },
            )),
    {
        match self {
            Cell::I64(value) => {
                bytes_mut_put_i64_le(out, *value);
            },
            Cell::Str(value) => {
                let len = bytes_len(value);
                let length = match u32::try_from(len) {
                    Ok(length) => length,
                    Err(_) => {
                        return Err(EncodeError::StringTooLarge { length: len });
                    },
                };
                bytes_mut_put_u32_le(out, length);
                bytes_mut_put_slice(out, bytes_as_slice(value));
                assert(bytes_mut_view(*out) == bytes_mut_view(*old(out)) + encode_cell(self@));
            },
        }
        Ok(())
    }

    /// The type of the cell.
    pub fn cell_type(&self) -> (r: CellType)
        ensures
            r == cell_type_of(self@),
    {
        match self {
            Cell::I64(_) => CellType::I64,
            Cell::Str(_) => CellType::Str,
        }
    }

    /// Decodes one cell of type `cell_type` from the front of `input`,
    /// leaving `input` at the first byte not read.
    pub fn decode(cell_type: CellType, input: &mut Bytes) -> (r: Result<Self, DecodeError>)
        ensures
            decode_cell(cell_type, bytes_view(*old(input))) == (
                cell_result_view(r),
                bytes_view(*final(input)),
            ),
    {
        match cell_type {
            CellType::I64 => {
                if bytes_remaining(input) < 8 {
                    return Err(DecodeError::TruncatedI64);
                }
                Ok(Cell::I64(bytes_get_i64_le(input)))
            },
            CellType::Str => {
                if bytes_remaining(input) < 4 {
                    return Err(DecodeError::TruncatedStringLength);
                }
                let length = bytes_get_u32_le(input) as usize;
                let available = bytes_remaining(input);
                if available < length {
                    return Err(DecodeError::TruncatedString { expected: length, available });
                }
                Ok(Cell::Str(bytes_split_to(input, length)))
            },
        }
    }
}

/// Decoding reads back what encoding wrote, and nothing after it: for a
/// cell that can be encoded, decoding its encoding followed by any bytes
/// gives the cell and leaves those bytes.
pub proof fn lemma_cell_roundtrip(c: CellView, rest: Seq<u8>)
    requires
        cell_fits(c),
    ensures
        decode_cell(cell_type_of(c), encode_cell(c) + rest) == (
            Ok::<CellView, DecodeError>(c),
            rest,
        ),
{
    let s = encode_cell(c) + rest;
    match c {
        CellView::I64(v) => {
            lemma_i64_le_roundtrip(v);
            assert(s.take(8) == i64_le(v));
            assert(s.skip(8) == rest);
        },
        CellView::Str(b) => {
            lemma_u32_le_roundtrip(b.len() as u32);
            assert(s.take(4) == u32_le(b.len() as u32));
            let r = s.skip(4);
            assert(r == b + rest);
            assert(r.take(b.len() as int) == b);
            assert(r.skip(b.len() as int) == rest);
        },
    }
}

/// What a cell's encoding is made of: an `i64` always encodes, as its eight
/// little-endian bytes; a string encodes exactly when its length fits in a
/// `u32`, as four bytes that read back as that length, followed by the
/// string itself.
pub proof fn law_cell_encoding_layout(v: i64, s: Seq<u8>)
    ensures
        cell_fits(CellView::I64(v)),
        encode_cell(CellView::I64(v)).len() == 8,
        le_i64(encode_cell(CellView::I64(v))) == v,
        cell_fits(CellView::Str(s)) <==> s.len() <= u32::MAX,
        s.len() <= u32::MAX ==> encode_cell(CellView::Str(s)).len() == 4 + s.len(),
        s.len() <= u32::MAX ==> le_u32(encode_cell(CellView::Str(s)).take(4)) == s.len(),
        encode_cell(CellView::Str(s)).skip(4) == s,
{
    lemma_i64_le_roundtrip(v);
    let e = encode_cell(CellView::Str(s));
    lemma_u32_le_roundtrip(s.len() as u32);
    assert(e.take(4) == u32_le(s.len() as u32));
    assert(e.skip(4) == s);
}

/// What decoding reads is an encoding: where a cell of type `ty` decodes
/// from the front of `s`, the cell has that type, can be encoded, and `s` is
/// its encoding followed by the bytes left unread.
pub proof fn law_decode_cell_reads_an_encoding(ty: CellType, s: Seq<u8>)
    ensures
        decode_cell(ty, s).0 matches Ok(c) ==> {
            &&& cell_type_of(c) == ty
            &&& cell_fits(c)
            &&& s == encode_cell(c) + decode_cell(ty, s).1
        },
{
    if let Ok(c) = decode_cell(ty, s).0 {
        match ty {
            CellType::I64 => {
                lemma_le_i64_bytes(s.take(8));
                assert(s == s.take(8) + s.skip(8));
            },
            CellType::Str => {
                let n = le_u32(s.take(4));
                lemma_le_u32_bytes(s.take(4));
                let rest = s.skip(4);
                assert(rest.take(n as int).len() == n);
                assert(s == s.take(4) + (rest.take(n as int) + rest.skip(n as int)));
            },
        }
    }
}

} // verus!
