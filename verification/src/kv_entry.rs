//! Write-ahead log entries and their checksummed frame.
//!
//! A frame is a 13-byte header, the key and the value. The header holds the
//! CRC-32 of everything after its first four bytes, the key's length, the
//! value's length (each four little-endian bytes) and a deletion flag byte.
use vstd::prelude::*;
use vstd::slice::slice_subrange;
use bytes::{Bytes, BytesMut};
use crate::buf::{
    bytes_advance, bytes_as_slice, bytes_len, bytes_mut_as_slice, bytes_mut_put_slice,
    bytes_mut_put_u32_le, bytes_mut_put_u8, bytes_mut_set, bytes_mut_view, bytes_mut_with_capacity,
    bytes_remaining, bytes_split_to, bytes_view,
};
use crate::checksum::{crc32, crc32_hash};
use crate::le::{le_u32, lemma_u32_le_roundtrip, read_u32_le, u32_le};

verus! {

/// One write to the store: a key, and either its new value or its deletion.
#[derive(Debug, Clone, PartialEq, Eq)]
pub struct Entry {
    key: Bytes,
    value: Bytes,
    deleted: bool,
}

/// An entry as a mathematical value.
pub struct EntryView {
    pub key: Seq<u8>,
    pub value: Seq<u8>,
    pub deleted: bool,
}

impl View for Entry {
    type V = EntryView;

    closed spec fn view(&self) -> EntryView {
        EntryView {
            key: bytes_view(self.key),
            value: bytes_view(self.value),
            deleted: self.deleted,
        }
    }
}

/// Why an entry could not be framed.
#[derive(Debug, Clone, Copy, PartialEq, Eq, Structural)]
pub enum EncodeError {
    /// The key is longer than a four-byte length can say.
    KeyTooLarge { length: usize },
    /// The value is longer than a four-byte length can say.
    ValueTooLarge { length: usize },
    /// Key and value together exceed `MAX_ENTRY_SIZE`.
    EntryTooLarge { key_length: usize, value_length: usize, maximum: usize },
}

/// Why no entry could be read from a frame.
#[derive(Debug, Clone, Copy, PartialEq, Eq, Structural)]
pub enum DecodeError {
    /// The checksum in the header does not match the rest of the frame.
    ChecksumMismatch,
    /// The input ends inside the header.
    ReadHeader,
    /// The input ends inside the key.
    ReadKey,
    /// The input ends inside the value.
    ReadValue,
    /// The header announces key and value longer together than `MAX_ENTRY_SIZE`.
    EntryTooLarge { key_length: usize, value_length: usize, maximum: usize },
}

/// The largest number of key and value bytes that one entry may hold.
pub const MAX_ENTRY_SIZE: usize = 64 * 1024 * 1024;

/// The length of the checksum at the front of a frame.
pub const CHECKSUM_SIZE: usize = 4;

/// The length of a frame's header.
pub const HEADER_SIZE: usize = CHECKSUM_SIZE + 4 + 4 + 1;

/// The flag byte of an entry.
pub open spec fn deleted_byte(deleted: bool) -> u8 {
    if deleted {
        1
    } else {
        0
    }
}

/// The frame without its checksum: lengths, flag, key and value.
pub open spec fn entry_body(e: EntryView) -> Seq<u8> {
    u32_le(e.key.len() as u32) + u32_le(e.value.len() as u32) + seq![deleted_byte(e.deleted)]
        + e.key + e.value
}

/// The frame of an entry.
pub open spec fn encode_entry(e: EntryView) -> Seq<u8> {
    u32_le(crc32(entry_body(e))) + entry_body(e)
}

/// Why an entry cannot be framed, if it cannot.
pub open spec fn entry_encode_error(e: EntryView) -> Option<EncodeError> {
    if e.key.len() > u32::MAX {
        Some(EncodeError::KeyTooLarge { length: e.key.len() as usize })
    } else if e.value.len() > u32::MAX {
        Some(EncodeError::ValueTooLarge { length: e.value.len() as usize })
    } else if e.key.len() + e.value.len() > MAX_ENTRY_SIZE {
        Some(
            EncodeError::EntryTooLarge {
                key_length: e.key.len() as usize,
                value_length: e.value.len() as usize,
                maximum: MAX_ENTRY_SIZE,
            },
        )
    } else {
        None
    }
}

/// Reading one frame from the front of `s`: no entry at the end of the
/// input, an entry, or an error; and the bytes left unread. Where the input
/// ends inside a frame, all of it is read.
pub open spec fn decode_entry(s: Seq<u8>) -> (Result<Option<EntryView>, DecodeError>, Seq<u8>) {
    if s.len() == 0 {
        (Ok(None), s)
    } else if s.len() < HEADER_SIZE {
        (Err(DecodeError::ReadHeader), Seq::empty())
    } else {
        let checksum = le_u32(s.subrange(0, 4));
        let k = le_u32(s.subrange(4, 8)) as int;
        let v = le_u32(s.subrange(8, 12)) as int;
        let deleted = s[12] != 0;
        if k + v > MAX_ENTRY_SIZE {
            (
                Err(
                    DecodeError::EntryTooLarge {
                        key_length: k as usize,
                        value_length: v as usize,
                        maximum: MAX_ENTRY_SIZE,
                    },
                ),
                s.skip(HEADER_SIZE as int),
            )
        } else if s.len() < HEADER_SIZE + k {
            (Err(DecodeError::ReadKey), Seq::empty())
        } else if s.len() < HEADER_SIZE + k + v {
            (Err(DecodeError::ReadValue), Seq::empty())
        } else if crc32(s.subrange(4, HEADER_SIZE + k + v)) != checksum {
            (Err(DecodeError::ChecksumMismatch), s.skip(HEADER_SIZE + k + v))
        } else {
            (
                Ok(
                    Some(
                        EntryView {
                            key: s.subrange(HEADER_SIZE as int, HEADER_SIZE + k),
                            value: s.subrange(HEADER_SIZE + k, HEADER_SIZE + k + v),
                            deleted,
                        },
                    ),
                ),
                s.skip(HEADER_SIZE + k + v),
            )
        }
    }
}

/// The outcome of a decoding call, as a mathematical value.
pub open spec fn entry_result_view(r: Result<Option<Entry>, DecodeError>) -> Result<
    Option<EntryView>,
    DecodeError,
> {
    match r {
        Ok(Some(e)) => Ok(Some(e@)),
        Ok(None) => Ok(None),
        Err(err) => Err(err),
    }
}

impl Entry {
    /// An entry that sets `key` to `value`, or deletes `key` when `deleted`.
    pub fn new(key: Bytes, value: Bytes, deleted: bool) -> (r: Self)
        ensures
            r@ == (EntryView { key: bytes_view(key), value: bytes_view(value), deleted }),
    {
        Entry { key, value, deleted }
    }

    /// The key.
    pub fn key(&self) -> (r: &Bytes)
        ensures
            bytes_view(*r) == self@.key,
    {
        &self.key
    }

    /// The value (empty for a deletion).
    pub fn value(&self) -> (r: &Bytes)
        ensures
            bytes_view(*r) == self@.value,
    {
        &self.value
    }

    /// Whether the entry deletes its key.
    pub fn is_deleted(&self) -> (r: bool)
        ensures
            r == self@.deleted,
    {
        self.deleted
    }

    /// The key, the value and the deletion flag.
    pub fn into_parts(self) -> (r: (Bytes, Bytes, bool))
        ensures
            bytes_view(r.0) == self@.key,
            bytes_view(r.1) == self@.value,
            r.2 == self@.deleted,
    {
        (self.key, self.value, self.deleted)
    }

    /// The frame of the entry.
    pub fn encode(&self) -> (r: Result<BytesMut, EncodeError>)
        ensures
            match r {
                Ok(buffer) => entry_encode_error(self@) is None && bytes_mut_view(buffer)
                    == encode_entry(self@),
                Err(e) => entry_encode_error(self@) == Some(e),
            },
    {
        let key_length = bytes_len(&self.key);
        let value_length = bytes_len(&self.value);

        if key_length > u32::MAX as usize {
            return Err(EncodeError::KeyTooLarge { length: key_length });
        }
        if value_length > u32::MAX as usize {
            return Err(EncodeError::ValueTooLarge { length: value_length });
        }
        let too_large = match key_length.checked_add(value_length) {
            Some(length) => length > MAX_ENTRY_SIZE,
            None => true,
        };
        if too_large {
            return Err(
                EncodeError::EntryTooLarge { key_length, value_length, maximum: MAX_ENTRY_SIZE },
            );
        }

        let mut buffer = bytes_mut_with_capacity(HEADER_SIZE + key_length + value_length);
        bytes_mut_put_u32_le(&mut buffer, 0);
        bytes_mut_put_u32_le(&mut buffer, key_length as u32);
        bytes_mut_put_u32_le(&mut buffer, value_length as u32);
        if self.deleted {
            bytes_mut_put_u8(&mut buffer, 0x01);
        } else {
            bytes_mut_put_u8(&mut buffer, 0x00);
        }
        bytes_mut_put_slice(&mut buffer, bytes_as_slice(&self.key));
        bytes_mut_put_slice(&mut buffer, bytes_as_slice(&self.value));
        let ghost body = entry_body(self@);
        assert(bytes_mut_view(buffer) == u32_le(0) + body);

        let written = bytes_mut_as_slice(&buffer);
        let checksum = crc32_hash(slice_subrange(written, CHECKSUM_SIZE, written.len()));
        assert(written@.subrange(CHECKSUM_SIZE as int, written@.len() as int) == body);

        bytes_mut_set(&mut buffer, 0, (checksum & 0xff) as u8);
        bytes_mut_set(&mut buffer, 1, ((checksum >> 8u32) & 0xff) as u8);
        bytes_mut_set(&mut buffer, 2, ((checksum >> 16u32) & 0xff) as u8);
        bytes_mut_set(&mut buffer, 3, ((checksum >> 24u32) & 0xff) as u8);
        assert(bytes_mut_view(buffer) == encode_entry(self@));
        Ok(buffer)
    }
}

/// Reads one entry from the front of `input`, leaving `input` after the
/// frame; `None` where the input is empty.
pub fn decode(input: &mut Bytes) -> (r: Result<Option<Entry>, DecodeError>)
    ensures
        decode_entry(bytes_view(*old(input))) == (entry_result_view(r), bytes_view(*final(input))),
{
    let ghost s = bytes_view(*input);
    let available = bytes_remaining(input);
    if available == 0 {
        return Ok(None);
    }
    if available < HEADER_SIZE {
        bytes_advance(input, available);
        return Err(DecodeError::ReadHeader);
    }

    let frame = bytes_as_slice(input);
    let checksum = read_u32_le(frame, 0);
    let key_length = read_u32_le(frame, 4) as usize;
    let value_length = read_u32_le(frame, 8) as usize;
    let deleted = frame[12] != 0x00;

    let payload_length = match key_length.checked_add(value_length) {
        Some(length) if length <= MAX_ENTRY_SIZE => length,
        _ => {
            bytes_advance(input, HEADER_SIZE);
            return Err(
                DecodeError::EntryTooLarge { key_length, value_length, maximum: MAX_ENTRY_SIZE },
            );
        },
    };
    if available < HEADER_SIZE + key_length {
        bytes_advance(input, available);
        return Err(DecodeError::ReadKey);
    }
    if available < HEADER_SIZE + payload_length {
        bytes_advance(input, available);
        return Err(DecodeError::ReadValue);
    }

    let actual = crc32_hash(slice_subrange(frame, CHECKSUM_SIZE, HEADER_SIZE + payload_length));
    bytes_advance(input, HEADER_SIZE);
    let key = bytes_split_to(input, key_length);
    let value = bytes_split_to(input, value_length);
    let ghost k = key_length as int;
    let ghost v = value_length as int;
    assert(bytes_view(key) == s.subrange(HEADER_SIZE as int, HEADER_SIZE + k));
    assert(bytes_view(value) == s.subrange(HEADER_SIZE + k, HEADER_SIZE + k + v));
    assert(bytes_view(*input) == s.skip(HEADER_SIZE + k + v));
    if actual != checksum {
        return Err(DecodeError::ChecksumMismatch);
    }

    Ok(Some(Entry { key, value, deleted }))
}

/// Reading a frame gives back the entry it was written from, and stops at
/// its end: for an entry that can be framed, decoding its frame followed by
/// any bytes gives the entry and leaves those bytes.
pub proof fn lemma_entry_roundtrip(e: EntryView, rest: Seq<u8>)
    requires
        entry_encode_error(e) is None,
    ensures
        decode_entry(encode_entry(e) + rest) == (
            Ok::<Option<EntryView>, DecodeError>(Some(e)),
            rest,
        ),
{
    let body = entry_body(e);
    let c = crc32(body);
    let s = encode_entry(e) + rest;
    let k = e.key.len() as int;
    let v = e.value.len() as int;
    lemma_u32_le_roundtrip(c);
    lemma_u32_le_roundtrip(k as u32);
    lemma_u32_le_roundtrip(v as u32);
    assert(s.subrange(0, 4) == u32_le(c));
    assert(s.subrange(4, 8) == u32_le(k as u32));
    assert(s.subrange(8, 12) == u32_le(v as u32));
    assert(s[12] == deleted_byte(e.deleted));
    assert(s.subrange(4, 13 + k + v) == body);
    assert(s.subrange(13, 13 + k) == e.key);
    assert(s.subrange(13 + k, 13 + k + v) == e.value);
    assert(s.skip(13 + k + v) == rest);
}

/// Bytes after a complete frame do not change how the frame is read: they
/// are simply left unread after it.
pub proof fn lemma_decode_entry_extend(s: Seq<u8>, t: Seq<u8>)
    requires
        decode_entry(s).0 matches Ok(Some(_)),
    ensures
        decode_entry(s + t) == (decode_entry(s).0, decode_entry(s).1 + t),
{
    let u = s + t;
    let k = le_u32(s.subrange(4, 8)) as int;
    let v = le_u32(s.subrange(8, 12)) as int;
    let end = HEADER_SIZE + k + v;
    assert(u.subrange(0, 4) == s.subrange(0, 4));
    assert(u.subrange(4, 8) == s.subrange(4, 8));
    assert(u.subrange(8, 12) == s.subrange(8, 12));
    assert(u[12] == s[12]);
    assert(u.subrange(4, end) == s.subrange(4, end));
    assert(u.subrange(HEADER_SIZE as int, HEADER_SIZE + k) == s.subrange(
        HEADER_SIZE as int,
        HEADER_SIZE + k,
    ));
    assert(u.subrange(HEADER_SIZE + k, end) == s.subrange(HEADER_SIZE + k, end));
    assert(u.skip(end) == s.skip(end) + t);
}

/// The layout of a frame: the checksum of everything after it, the key's
/// length, the value's length, a flag byte that is 1 for a deletion and 0
/// otherwise, the key, and the value.
pub proof fn law_frame_layout(e: EntryView)
    requires
        entry_encode_error(e) is None,
    ensures
        encode_entry(e).len() == HEADER_SIZE + e.key.len() + e.value.len(),
        le_u32(encode_entry(e).subrange(0, 4)) == crc32(encode_entry(e).skip(4)),
        le_u32(encode_entry(e).subrange(4, 8)) == e.key.len(),
        le_u32(encode_entry(e).subrange(8, 12)) == e.value.len(),
        encode_entry(e)[12] == (if e.deleted {
            1u8
        } else {
            0u8
        }),
        encode_entry(e).subrange(HEADER_SIZE as int, HEADER_SIZE + e.key.len()) == e.key,
        encode_entry(e).skip(HEADER_SIZE + e.key.len()) == e.value,
{
    let f = encode_entry(e);
    let body = entry_body(e);
    let k = e.key.len() as int;
    lemma_u32_le_roundtrip(crc32(body));
    lemma_u32_le_roundtrip(e.key.len() as u32);
    lemma_u32_le_roundtrip(e.value.len() as u32);
    assert(f.subrange(0, 4) == u32_le(crc32(body)));
    assert(f.skip(4) == body);
    assert(f.subrange(4, 8) == u32_le(e.key.len() as u32));
    assert(f.subrange(8, 12) == u32_le(e.value.len() as u32));
    assert(f.subrange(13, 13 + k) == e.key);
    assert(f.skip(13 + k) == e.value);
}

/// What a read entry says of the bytes it was read from: the header's
/// lengths are those of its key and value, its flag is set exactly when the
/// flag byte is not zero, its key and value are the bytes after the header,
/// the checksum covers everything after the checksum up to the value's end,
/// and reading stops right there.
pub proof fn law_decoded_frame_layout(s: Seq<u8>)
    ensures
        decode_entry(s).0 matches Ok(Some(e)) ==> {
            let end = HEADER_SIZE + e.key.len() + e.value.len();
            &&& end <= s.len()
            &&& le_u32(s.subrange(4, 8)) == e.key.len()
            &&& le_u32(s.subrange(8, 12)) == e.value.len()
            &&& e.deleted == (s[12] != 0)
            &&& s.subrange(HEADER_SIZE as int, HEADER_SIZE + e.key.len()) == e.key
            &&& s.subrange(HEADER_SIZE + e.key.len(), end) == e.value
            &&& le_u32(s.subrange(0, 4)) == crc32(s.subrange(4, end))
            &&& decode_entry(s).1 == s.skip(end)
        },
        decode_entry(s).0 matches Ok(None) <==> s.len() == 0,
{
}

/// A frame read from the front of some bytes is read the same from those
/// bytes cut at its end, and nothing is left.
pub proof fn lemma_decode_entry_truncate(s: Seq<u8>)
    requires
        decode_entry(s).0 matches Ok(Some(_)),
    ensures
        decode_entry(s.take(s.len() - decode_entry(s).1.len())) == (
            decode_entry(s).0,
            Seq::<u8>::empty(),
        ),
{
    let k = le_u32(s.subrange(4, 8)) as int;
    let v = le_u32(s.subrange(8, 12)) as int;
    let end = HEADER_SIZE + k + v;
    let u = s.take(end);
    assert(s.len() - decode_entry(s).1.len() == end);
    assert(u.subrange(0, 4) == s.subrange(0, 4));
    assert(u.subrange(4, 8) == s.subrange(4, 8));
    assert(u.subrange(8, 12) == s.subrange(8, 12));
    assert(u[12] == s[12]);
    assert(u.subrange(4, end) == s.subrange(4, end));
    assert(u.subrange(HEADER_SIZE as int, HEADER_SIZE + k) == s.subrange(
        HEADER_SIZE as int,
        HEADER_SIZE + k,
    ));
    assert(u.subrange(HEADER_SIZE + k, end) == s.subrange(HEADER_SIZE + k, end));
    assert(u.skip(end) == Seq::<u8>::empty());
}

} // verus!
