//! Entries: the records that a tree page holds.

use vstd::prelude::*;
use crate::bytes::{
    le_bytes, le_u16, le_u32, lemma_le_bytes_u16, lemma_le_bytes_u32, read_u16, read_u32,
};
use crate::error::Error;

verus! {

/// Bytes in front of the payload of a key/data entry.
pub const KEYDATA_HEADER: usize = 3;

/// Bytes in front of the payload of an internal entry.
pub const INTERNAL_HEADER: usize = 12;

/// The type byte that every key/data entry carries.
pub const KEYDATA_TYPE: u8 = 1;

/// One record of a tree page, borrowed from the page's bytes.
#[derive(Debug, Clone, Copy)]
pub enum Entry<'a> {
    /// A key or a value on a leaf page.
    KeyData { length: u16, data: &'a [u8] },
    /// A routing record on a page above the leaves: `data` is the separator
    /// key and `pgno` the child page for keys from that separator on.
    Internal { length: u16, ty: u8, pgno: u32, nrecs: u32, data: &'a [u8] },
}

/// What an [`Entry`] holds, with its payload as a sequence of bytes.
pub enum EntryView {
    KeyData { length: u16, data: Seq<u8> },
    Internal { length: u16, ty: u8, pgno: u32, nrecs: u32, data: Seq<u8> },
}

impl EntryView {
    /// The payload: a key, a value or a separator key.
    pub open spec fn data(self) -> Seq<u8> {
        match self {
            EntryView::KeyData { data, .. } => data,
            EntryView::Internal { data, .. } => data,
        }
    }
}

impl<'a> View for Entry<'a> {
    type V = EntryView;

    open spec fn view(&self) -> EntryView {
        match *self {
            Entry::KeyData { length, data } => EntryView::KeyData { length, data: data@ },
            Entry::Internal { length, ty, pgno, nrecs, data } => EntryView::Internal {
                length,
                ty,
                pgno,
                nrecs,
                data: data@,
            },
        }
    }
}

/// The key/data entry that the bytes `buf` encode.
///
/// The first two bytes are the length field, the third is the type byte, and
/// the payload runs from byte 3 up to the byte at the length field.
pub open spec fn decode_keydata(buf: Seq<u8>) -> Result<EntryView, Error> {
    if buf.len() < 3 || buf[2] != 1 {
        Err(Error::InvalidEntry)
    } else if le_u16(buf, 0) < 3 || le_u16(buf, 0) > buf.len() {
        Err(Error::InvalidEntry)
    } else {
        Ok(
            EntryView::KeyData {
                length: le_u16(buf, 0) as u16,
                data: buf.subrange(3, le_u16(buf, 0)),
            },
        )
    }
}

/// The internal entry that the bytes `buf` encode.
///
/// The twelve leading bytes are the length field, the type byte, two unused
/// bytes, the child page number and the record count of the subtree; the
/// separator key is the next `length` bytes.
pub open spec fn decode_internal(buf: Seq<u8>) -> Result<EntryView, Error> {
    if buf.len() < 12 || 12 + le_u16(buf, 0) > buf.len() {
        Err(Error::InvalidEntry)
    } else {
        Ok(
            EntryView::Internal {
                length: le_u16(buf, 0) as u16,
                ty: buf[2],
                pgno: le_u32(buf, 4) as u32,
                nrecs: le_u32(buf, 8) as u32,
                data: buf.subrange(12, 12 + le_u16(buf, 0)),
            },
        )
    }
}

/// The entry that `buf` encodes on a page of the given level: a key/data
/// entry on a leaf (level 1), an internal entry on any other level.
pub open spec fn decode_entry(buf: Seq<u8>, level: u8) -> Result<EntryView, Error> {
    if level == 1 {
        decode_keydata(buf)
    } else {
        decode_internal(buf)
    }
}

/// Each fixed field of the entry, encoded at its width with the least
/// significant byte first, gives the bytes that stand at the field's place in
/// `buf`, and the payload is the bytes at its place.
pub open spec fn entry_fields_match(e: EntryView, buf: Seq<u8>) -> bool {
    match e {
        EntryView::KeyData { length, data } => {
            &&& le_bytes(length as int, 2) == buf.subrange(0, 2)
            &&& data == buf.subrange(3, length as int)
        },
        EntryView::Internal { length, ty, pgno, nrecs, data } => {
            &&& le_bytes(length as int, 2) == buf.subrange(0, 2)
            &&& ty == buf[2]
            &&& le_bytes(pgno as int, 4) == buf.subrange(4, 8)
            &&& le_bytes(nrecs as int, 4) == buf.subrange(8, 12)
            &&& data == buf.subrange(12, 12 + length)
        },
    }
}

/// Round trip: the fields of a decoded entry encode the very bytes from which
/// they were decoded.
pub proof fn lemma_entry_round_trip(buf: Seq<u8>, level: u8)
    requires
        decode_entry(buf, level) is Ok,
    ensures
        entry_fields_match(decode_entry(buf, level)->Ok_0, buf),
{
    lemma_le_bytes_u16(buf, 0);
    if level != 1 {
        lemma_le_bytes_u32(buf, 4);
        lemma_le_bytes_u32(buf, 8);
    }
}

impl<'a> Entry<'a> {
    /// Decodes a key/data entry from the bytes of its extent.
    pub fn new_keydata(buffer: &'a [u8]) -> (r: Result<Entry<'a>, Error>)
        ensures
            match r {
                Ok(e) => decode_keydata(buffer@) == Ok::<EntryView, Error>(e@),
                Err(err) => decode_keydata(buffer@) == Err::<EntryView, Error>(err),
            },
    {
        if buffer.len() < KEYDATA_HEADER {
            return Err(Error::InvalidEntry);
        }
        if buffer[2] != KEYDATA_TYPE {
            return Err(Error::InvalidEntry);
        }
        let length: u16 = read_u16(buffer, 0);
        let end: usize = length as usize;
        if end < KEYDATA_HEADER || end > buffer.len() {
            return Err(Error::InvalidEntry);
        }
        Ok(Entry::KeyData { length, data: &buffer[KEYDATA_HEADER..end] })
    }

    /// Decodes an internal entry from the bytes of its extent.
    pub fn new_internal(buffer: &'a [u8]) -> (r: Result<Entry<'a>, Error>)
        ensures
            match r {
                Ok(e) => decode_internal(buffer@) == Ok::<EntryView, Error>(e@),
                Err(err) => decode_internal(buffer@) == Err::<EntryView, Error>(err),
            },
    {
        if buffer.len() < INTERNAL_HEADER {
            return Err(Error::InvalidEntry);
        }
        let length: u16 = read_u16(buffer, 0);
        let end: usize = INTERNAL_HEADER + length as usize;
        if end > buffer.len() {
            return Err(Error::InvalidEntry);
        }
        let ty: u8 = buffer[2];
        let pgno: u32 = read_u32(buffer, 4);
        let nrecs: u32 = read_u32(buffer, 8);
        Ok(Entry::Internal { length, ty, pgno, nrecs, data: &buffer[INTERNAL_HEADER..end] })
    }

    /// The payload of the entry: a key, a value or a separator key.
    pub fn data(&self) -> (r: &'a [u8])
        ensures
            r@ == self@.data(),
    {
        match *self {
            Entry::KeyData { data, .. } => data,
            Entry::Internal { data, .. } => data,
        }
    }
}

} // verus!
