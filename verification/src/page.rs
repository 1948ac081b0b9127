//! Pages: the header at the start of each page, and the entries that the
//! offset table of a tree page locates.

use vstd::prelude::*;
use crate::bytes::{
    le_bytes, le_u128, le_u16, le_u32, le_u64, lemma_le_bytes_u128, lemma_le_bytes_u16,
    lemma_le_bytes_u32, lemma_le_bytes_u64, read_u128, read_u16, read_u32, read_u64,
};
use crate::entry::{decode_entry, Entry, EntryView};
use crate::error::Error;

verus! {

/// The size of every page, in bytes.
pub const PAGE_SIZE: usize = 4096;

/// The value at byte 12 that marks a metadata page.
pub const MAGIC: u32 = 0x00053162;

/// Page type of a routing page.
pub const TYPE_INTERNAL: u8 = 3;

/// Page type of a leaf page.
pub const TYPE_LEAF: u8 = 5;

/// Page type of a metadata page.
pub const TYPE_META: u8 = 9;

/// The level of the leaf pages.
pub const LEAF_LEVEL: u8 = 1;

/// Where the offset table of a tree page starts.
pub const OFFSET_TABLE: usize = 26;

/// The decoded header of a page.
#[derive(Debug, Clone, Copy)]
pub enum PageHeader<'a> {
    /// The header of the page that describes the whole table.
    Metadata {
        lsn: u64,
        pgno: u32,
        magic: u32,
        version: u32,
        pagesize: u32,
        ec: u8,
        ty: u8,
        mf: u8,
        free: u32,
        last_pgno: u32,
        nparts: u32,
        key_count: u32,
        record_count: u32,
        flags: u32,
        uid: &'a [u8],
        minkey: u32,
        re_len: u32,
        re_pad: u32,
        root: u32,
        crypto_magic: u32,
        iv: u128,
        chksum: &'a [u8],
    },
    /// The header of a routing page or of a leaf page.
    BTree {
        lsn: u64,
        pgno: u32,
        prev_pgno: u32,
        next_pgno: u32,
        entries: u16,
        hf_offset: u16,
        level: u8,
        ty: u8,
    },
}

/// What a [`PageHeader`] holds, with its byte fields as sequences.
pub enum HeaderView {
    Metadata {
        lsn: u64,
        pgno: u32,
        magic: u32,
        version: u32,
        pagesize: u32,
        ec: u8,
        ty: u8,
        mf: u8,
        free: u32,
        last_pgno: u32,
        nparts: u32,
        key_count: u32,
        record_count: u32,
        flags: u32,
        uid: Seq<u8>,
        minkey: u32,
        re_len: u32,
        re_pad: u32,
        root: u32,
        crypto_magic: u32,
        iv: u128,
        chksum: Seq<u8>,
    },
    BTree {
        lsn: u64,
        pgno: u32,
        prev_pgno: u32,
        next_pgno: u32,
        entries: u16,
        hf_offset: u16,
        level: u8,
        ty: u8,
    },
}

impl HeaderView {
    /// A tree page on the leaf level.
    pub open spec fn is_leaf(self) -> bool {
        self matches HeaderView::BTree { level, .. } && level == LEAF_LEVEL
    }

    /// A tree page above the leaf level.
    pub open spec fn is_internal(self) -> bool {
        self matches HeaderView::BTree { level, .. } && level > LEAF_LEVEL
    }

    /// The number of entries that the page announces: none on a metadata page.
    pub open spec fn entry_count(self) -> nat {
        match self {
            HeaderView::BTree { entries, .. } => entries as nat,
            HeaderView::Metadata { .. } => 0,
        }
    }

    /// The page that follows on the same level, if the header names one.
    pub open spec fn sibling(self) -> Option<u32> {
        match self {
            HeaderView::BTree { next_pgno, .. } => if next_pgno != 0 {
                Some(next_pgno)
            } else {
                None
            },
            HeaderView::Metadata { .. } => None,
        }
    }
}

impl<'a> View for PageHeader<'a> {
    type V = HeaderView;

    open spec fn view(&self) -> HeaderView {
        match *self {
            PageHeader::Metadata {
                lsn,
                pgno,
                magic,
                version,
                pagesize,
                ec,
                ty,
                mf,
                free,
                last_pgno,
                nparts,
                key_count,
                record_count,
                flags,
                uid,
                minkey,
                re_len,
                re_pad,
                root,
                crypto_magic,
                iv,
                chksum,
            } => HeaderView::Metadata {
                lsn,
                pgno,
                magic,
                version,
                pagesize,
                ec,
                ty,
                mf,
                free,
                last_pgno,
                nparts,
                key_count,
                record_count,
                flags,
                uid: uid@,
                minkey,
                re_len,
                re_pad,
                root,
                crypto_magic,
                iv,
                chksum: chksum@,
            },
            PageHeader::BTree {
                lsn,
                pgno,
                prev_pgno,
                next_pgno,
                entries,
                hf_offset,
                level,
                ty,
            } => HeaderView::BTree {
                lsn,
                pgno,
                prev_pgno,
                next_pgno,
                entries,
                hf_offset,
                level,
                ty,
            },
        }
    }
}

/// The page types that a tree page may carry.
pub open spec fn known_page_type(ty: u8) -> bool {
    ty == TYPE_INTERNAL || ty == TYPE_LEAF || ty == TYPE_META
}

/// The metadata header that the fixed layout yields for `page`.
pub open spec fn decode_metadata(page: Seq<u8>) -> HeaderView {
    HeaderView::Metadata {
        lsn: le_u64(page, 0) as u64,
        pgno: le_u32(page, 8) as u32,
        magic: MAGIC,
        version: le_u32(page, 16) as u32,
        pagesize: le_u32(page, 20) as u32,
        ec: page[24],
        ty: page[25],
        mf: page[26],
        free: le_u32(page, 28) as u32,
        last_pgno: le_u32(page, 32) as u32,
        nparts: le_u32(page, 36) as u32,
        key_count: le_u32(page, 40) as u32,
        record_count: le_u32(page, 44) as u32,
        flags: le_u32(page, 48) as u32,
        uid: page.subrange(52, 72),
        minkey: le_u32(page, 76) as u32,
        re_len: le_u32(page, 80) as u32,
        re_pad: le_u32(page, 84) as u32,
        root: le_u32(page, 88) as u32,
        crypto_magic: le_u32(page, 460) as u32,
        iv: le_u128(page, 476) as u128,
        chksum: page.subrange(492, 512),
    }
}

/// The tree-page header that the fixed layout yields for `page`.
pub open spec fn decode_btree(page: Seq<u8>) -> HeaderView {
    HeaderView::BTree {
        lsn: le_u64(page, 0) as u64,
        pgno: le_u32(page, 8) as u32,
        prev_pgno: le_u32(page, 12) as u32,
        next_pgno: le_u32(page, 16) as u32,
        entries: le_u16(page, 20) as u16,
        hf_offset: le_u16(page, 22) as u16,
        level: page[24],
        ty: page[25],
    }
}

/// The header of the page with the bytes `page`.
///
/// A page is exactly `PAGE_SIZE` bytes. It is a metadata page if and only if
/// the four bytes at offset 12 hold `MAGIC`; any other page is a tree page,
/// whose page type has to be a known one.
pub open spec fn decode_header(page: Seq<u8>) -> Result<HeaderView, Error> {
    if page.len() != PAGE_SIZE {
        Err(Error::TruncatedPage)
    } else if le_u32(page, 12) == MAGIC {
        Ok(decode_metadata(page))
    } else if !known_page_type(page[25]) {
        Err(Error::UnknownPageType)
    } else {
        Ok(decode_btree(page))
    }
}

/// Each field of the header, encoded at its width with the least significant
/// byte first, gives the bytes that stand at the field's place in the page.
pub open spec fn fields_match(h: HeaderView, page: Seq<u8>) -> bool {
    match h {
        HeaderView::Metadata {
            lsn,
            pgno,
            magic,
            version,
            pagesize,
            ec,
            ty,
            mf,
            free,
            last_pgno,
            nparts,
            key_count,
            record_count,
            flags,
            uid,
            minkey,
            re_len,
            re_pad,
            root,
            crypto_magic,
            iv,
            chksum,
        } => {
            &&& le_bytes(lsn as int, 8) == page.subrange(0, 8)
            &&& le_bytes(pgno as int, 4) == page.subrange(8, 12)
            &&& le_bytes(magic as int, 4) == page.subrange(12, 16)
            &&& le_bytes(version as int, 4) == page.subrange(16, 20)
            &&& le_bytes(pagesize as int, 4) == page.subrange(20, 24)
            &&& ec == page[24]
            &&& ty == page[25]
            &&& mf == page[26]
            &&& le_bytes(free as int, 4) == page.subrange(28, 32)
            &&& le_bytes(last_pgno as int, 4) == page.subrange(32, 36)
            &&& le_bytes(nparts as int, 4) == page.subrange(36, 40)
            &&& le_bytes(key_count as int, 4) == page.subrange(40, 44)
            &&& le_bytes(record_count as int, 4) == page.subrange(44, 48)
            &&& le_bytes(flags as int, 4) == page.subrange(48, 52)
            &&& uid == page.subrange(52, 72)
            &&& le_bytes(minkey as int, 4) == page.subrange(76, 80)
            &&& le_bytes(re_len as int, 4) == page.subrange(80, 84)
            &&& le_bytes(re_pad as int, 4) == page.subrange(84, 88)
            &&& le_bytes(root as int, 4) == page.subrange(88, 92)
            &&& le_bytes(crypto_magic as int, 4) == page.subrange(460, 464)
            &&& le_bytes(iv as int, 16) == page.subrange(476, 492)
            &&& chksum == page.subrange(492, 512)
        },
        HeaderView::BTree { lsn, pgno, prev_pgno, next_pgno, entries, hf_offset, level, ty } => {
            &&& le_bytes(lsn as int, 8) == page.subrange(0, 8)
            &&& le_bytes(pgno as int, 4) == page.subrange(8, 12)
            &&& le_bytes(prev_pgno as int, 4) == page.subrange(12, 16)
            &&& le_bytes(next_pgno as int, 4) == page.subrange(16, 20)
            &&& le_bytes(entries as int, 2) == page.subrange(20, 22)
            &&& le_bytes(hf_offset as int, 2) == page.subrange(22, 24)
            &&& level == page[24]
            &&& ty == page[25]
        },
    }
}

/// Round trip: the fields of a decoded header encode the very bytes of the
/// page from which they were decoded.
pub proof fn lemma_header_round_trip(page: Seq<u8>)
    requires
        decode_header(page) is Ok,
    ensures
        fields_match(decode_header(page)->Ok_0, page),
{
    lemma_le_bytes_u64(page, 0);
    lemma_le_bytes_u32(page, 8);
    lemma_le_bytes_u32(page, 12);
    lemma_le_bytes_u32(page, 16);
    lemma_le_bytes_u16(page, 20);
    lemma_le_bytes_u16(page, 22);
    if decode_header(page)->Ok_0 is Metadata {
        lemma_le_bytes_u32(page, 20);
        lemma_le_bytes_u32(page, 28);
        lemma_le_bytes_u32(page, 32);
        lemma_le_bytes_u32(page, 36);
        lemma_le_bytes_u32(page, 40);
        lemma_le_bytes_u32(page, 44);
        lemma_le_bytes_u32(page, 48);
        lemma_le_bytes_u32(page, 76);
        lemma_le_bytes_u32(page, 80);
        lemma_le_bytes_u32(page, 84);
        lemma_le_bytes_u32(page, 88);
        lemma_le_bytes_u32(page, 460);
        lemma_le_bytes_u128(page, 476);
    }
}

/// The entry with the given index on the page with the bytes `page`.
///
/// A metadata page has no entries, and a tree page none from its entry count
/// on. Slot `index` of the offset table gives the byte at which the entry
/// starts; it ends where the entry before it starts, the first one at the end
/// of the page.
pub open spec fn entry_at(page: Seq<u8>, index: nat) -> Result<Option<EntryView>, Error> {
    match decode_header(page) {
        Err(e) => Err(e),
        Ok(HeaderView::Metadata { .. }) => Ok(None),
        Ok(HeaderView::BTree { entries, level, .. }) => {
            if index >= entries {
                Ok(None)
            } else if OFFSET_TABLE + 2 * index + 2 > PAGE_SIZE {
                Err(Error::OffsetOutOfRange)
            } else {
                let start = le_u16(page, OFFSET_TABLE + 2 * index);
                let end = if index == 0 {
                    PAGE_SIZE as int
                } else {
                    le_u16(page, OFFSET_TABLE + 2 * index - 2)
                };
                if start > end || end > PAGE_SIZE {
                    Err(Error::OffsetOutOfRange)
                } else {
                    match decode_entry(page.subrange(start, end), level) {
                        Ok(e) => Ok(Some(e)),
                        Err(e) => Err(e),
                    }
                }
            }
        },
    }
}

/// The entries with the indices below `n`, in order, or the failure of the
/// first of them that cannot be decoded.
pub open spec fn entries_upto(page: Seq<u8>, n: nat) -> Result<Seq<EntryView>, Error>
    decreases n,
{
    if n == 0 {
        Ok(Seq::empty())
    } else {
        match entries_upto(page, (n - 1) as nat) {
            Err(e) => Err(e),
            Ok(s) => match entry_at(page, (n - 1) as nat) {
                Err(e) => Err(e),
                Ok(Some(x)) => Ok(s.push(x)),
                Ok(None) => Ok(s),
            },
        }
    }
}

/// The number of entries on the page: that of its header, none if the page
/// has no valid header.
pub open spec fn entry_count(page: Seq<u8>) -> nat {
    match decode_header(page) {
        Ok(h) => h.entry_count(),
        Err(_) => 0,
    }
}

/// All entries of the page, in order, or the failure of the first of them
/// that cannot be decoded.
pub open spec fn all_entries(page: Seq<u8>) -> Result<Seq<EntryView>, Error> {
    entries_upto(page, entry_count(page))
}

/// The views of a sequence of entries.
pub open spec fn entry_views(s: Seq<Entry<'_>>) -> Seq<EntryView> {
    s.map_values(|e: Entry<'_>| e@)
}

/// Where the first `n` entries of a page decode, there are `n` of them, and
/// each is the entry at its index.
proof fn lemma_entries_upto_index(page: Seq<u8>, n: nat)
    requires
        n <= entry_count(page),
        entries_upto(page, n) is Ok,
    ensures
        entries_upto(page, n)->Ok_0.len() == n,
        forall|i: nat|
            i < n ==> #[trigger] entry_at(page, i) == Ok::<Option<EntryView>, Error>(
                Some(entries_upto(page, n)->Ok_0[i as int]),
            ),
    decreases n,
{
    if n > 0 {
        lemma_entries_upto_index(page, (n - 1) as nat);
    }
}

/// Where all entries of a page decode, there are as many as the header
/// announces, and each is the entry at its index.
pub proof fn lemma_all_entries_index(page: Seq<u8>)
    requires
        decode_header(page) is Ok,
        all_entries(page) is Ok,
    ensures
        all_entries(page)->Ok_0.len() == entry_count(page),
        forall|i: nat|
            i < entry_count(page) ==> #[trigger] entry_at(page, i) == Ok::<
                Option<EntryView>,
                Error,
            >(Some(all_entries(page)->Ok_0[i as int])),
        forall|i: nat|
            i >= entry_count(page) ==> #[trigger] entry_at(page, i) == Ok::<
                Option<EntryView>,
                Error,
            >(None),
{
    lemma_entries_upto_index(page, entry_count(page));
}

/// Once an entry fails to decode, every longer run of entries fails with it.
proof fn lemma_entries_upto_failure(page: Seq<u8>, i: nat, n: nat)
    requires
        i <= n,
        entries_upto(page, i) is Err,
    ensures
        entries_upto(page, n) == entries_upto(page, i),
    decreases n,
{
    if i < n {
        lemma_entries_upto_failure(page, i, (n - 1) as nat);
    }
}

impl<'a> PageHeader<'a> {
    /// Whether this is the header of a metadata page.
    pub fn is_metadata(&self) -> (r: bool)
        ensures
            r == (self@ is Metadata),
    {
        match self {
            PageHeader::Metadata { .. } => true,
            PageHeader::BTree { .. } => false,
        }
    }

    /// Whether this is the header of a tree page.
    pub fn is_b_tree(&self) -> (r: bool)
        ensures
            r == (self@ is BTree),
    {
        match self {
            PageHeader::Metadata { .. } => false,
            PageHeader::BTree { .. } => true,
        }
    }

    fn new(data: &'a [u8]) -> (r: Result<PageHeader<'a>, Error>)
        requires
            data.len() == PAGE_SIZE,
        ensures
            match r {
                Ok(h) => decode_header(data@) == Ok::<HeaderView, Error>(h@),
                Err(e) => decode_header(data@) == Err::<HeaderView, Error>(e),
            },
    {
        if read_u32(data, 12) == MAGIC {
            Ok(PageHeader::new_metadata(data))
        } else {
            PageHeader::new_btree(data)
        }
    }

    fn new_metadata(data: &'a [u8]) -> (r: PageHeader<'a>)
        requires
            data.len() == PAGE_SIZE,
        ensures
            r@ == decode_metadata(data@),
    {
        PageHeader::Metadata {
            lsn: read_u64(data, 0),
            pgno: read_u32(data, 8),
            magic: MAGIC,
            version: read_u32(data, 16),
            pagesize: read_u32(data, 20),
            ec: data[24],
            ty: data[25],
            mf: data[26],
            free: read_u32(data, 28),
            last_pgno: read_u32(data, 32),
            nparts: read_u32(data, 36),
            key_count: read_u32(data, 40),
            record_count: read_u32(data, 44),
            flags: read_u32(data, 48),
            uid: &data[52..72],
            minkey: read_u32(data, 76),
            re_len: read_u32(data, 80),
            re_pad: read_u32(data, 84),
            root: read_u32(data, 88),
            crypto_magic: read_u32(data, 460),
            iv: read_u128(data, 476),
            chksum: &data[492..512],
        }
    }

    fn new_btree(data: &'a [u8]) -> (r: Result<PageHeader<'a>, Error>)
        requires
            data.len() == PAGE_SIZE,
        ensures
            match r {
                Ok(h) => known_page_type(data@[25]) && h@ == decode_btree(data@),
                Err(e) => !known_page_type(data@[25]) && e == Error::UnknownPageType,
            },
    {
        let ty: u8 = data[25];
        if !(ty == TYPE_META || ty == TYPE_LEAF || ty == TYPE_INTERNAL) {
            return Err(Error::UnknownPageType);
        }
        Ok(
            PageHeader::BTree {
                lsn: read_u64(data, 0),
                pgno: read_u32(data, 8),
                prev_pgno: read_u32(data, 12),
                next_pgno: read_u32(data, 16),
                entries: read_u16(data, 20),
                hf_offset: read_u16(data, 22),
                level: data[24],
                ty,
            },
        )
    }
}

/// One page of the file: its decoded header and its bytes.
pub struct Page<'a> {
    header: PageHeader<'a>,
    data: &'a [u8],
}

impl<'a> View for Page<'a> {
    type V = Seq<u8>;

    /// The bytes of the page.
    closed spec fn view(&self) -> Seq<u8> {
        self.data@
    }
}

impl<'a> Page<'a> {
    #[verifier::type_invariant]
    spec fn well_formed(self) -> bool {
        decode_header(self.data@) == Ok::<HeaderView, Error>(self.header@)
    }

    /// Decodes the page with the bytes `data`.
    pub fn new(data: &'a [u8]) -> (r: Result<Page<'a>, Error>)
        ensures
            match r {
                Ok(p) => p@ == data@ && decode_header(data@) is Ok,
                Err(e) => decode_header(data@) == Err::<HeaderView, Error>(e),
            },
    {
        if data.len() != PAGE_SIZE {
            return Err(Error::TruncatedPage);
        }
        let header = PageHeader::new(data)?;
        Ok(Page { header, data })
    }

    /// The decoded header of the page.
    pub fn header(&self) -> (r: &PageHeader<'a>)
        ensures
            decode_header(self@) == Ok::<HeaderView, Error>(r@),
    {
        proof {
            use_type_invariant(self);
        }
        &self.header
    }

    /// The bytes of the page.
    pub fn data(&self) -> (r: &'a [u8])
        ensures
            r@ == self@,
    {
        self.data
    }

    /// The number of entries that the page announces: none on a metadata page.
    pub fn entry_count(&self) -> (r: usize)
        ensures
            r == entry_count(self@),
            r <= u16::MAX,
    {
        proof {
            use_type_invariant(self);
        }
        match self.header {
            PageHeader::BTree { entries, .. } => entries as usize,
            PageHeader::Metadata { .. } => 0,
        }
    }

    fn get_offset(&self, index: usize) -> (r: usize)
        requires
            OFFSET_TABLE + 2 * index + 2 <= PAGE_SIZE,
        ensures
            r == le_u16(self@, OFFSET_TABLE + 2 * index),
    {
        proof {
            use_type_invariant(self);
        }
        read_u16(self.data, OFFSET_TABLE + 2 * index) as usize
    }

    /// Decodes the entry with the given index, if the page has one there.
    pub fn get_entry(&self, index: usize) -> (r: Result<Option<Entry<'a>>, Error>)
        ensures
            match r {
                Ok(Some(e)) => entry_at(self@, index as nat) == Ok::<Option<EntryView>, Error>(
                    Some(e@),
                ),
                Ok(None) => entry_at(self@, index as nat) == Ok::<Option<EntryView>, Error>(None),
                Err(err) => entry_at(self@, index as nat) == Err::<Option<EntryView>, Error>(err),
            },
    {
        proof {
            use_type_invariant(self);
        }
        let (entries, level) = match self.header {
            PageHeader::BTree { entries, level, .. } => (entries, level),
            PageHeader::Metadata { .. } => {
                return Ok(None);
            },
        };
        if index >= entries as usize {
            return Ok(None);
        }
        if OFFSET_TABLE + 2 * index + 2 > PAGE_SIZE {
            return Err(Error::OffsetOutOfRange);
        }
        let end: usize = if index == 0 {
            PAGE_SIZE
        } else {
            self.get_offset(index - 1)
        };
        let start: usize = self.get_offset(index);
        if start > end || end > PAGE_SIZE {
            return Err(Error::OffsetOutOfRange);
        }
        let buffer: &'a [u8] = &self.data[start..end];
        let entry = if level == LEAF_LEVEL {
            Entry::new_keydata(buffer)?
        } else {
            Entry::new_internal(buffer)?
        };
        Ok(Some(entry))
    }

    /// Decodes all entries of the page, in order.
    pub fn entries(&self) -> (r: Result<Vec<Entry<'a>>, Error>)
        ensures
            match r {
                Ok(v) => all_entries(self@) == Ok::<Seq<EntryView>, Error>(entry_views(v@)),
                Err(e) => all_entries(self@) == Err::<Seq<EntryView>, Error>(e),
            },
    {
        proof {
            use_type_invariant(self);
        }
        let count: usize = self.entry_count();
        let mut found: Vec<Entry<'a>> = Vec::new();
        let mut index: usize = 0;
        assert(entry_views(found@) =~= Seq::empty());
        while index < count
            invariant
                index <= count,
                count == entry_count(self@),
                entries_upto(self@, index as nat) == Ok::<Seq<EntryView>, Error>(
                    entry_views(found@),
                ),
            decreases count - index,
        {
            match self.get_entry(index) {
                Err(e) => {
                    proof {
                        lemma_entries_upto_failure(self@, (index + 1) as nat, count as nat);
                    }
                    return Err(e);
                },
                Ok(None) => {},
                Ok(Some(entry)) => {
                    proof {
                        assert(entry_views(found@.push(entry)) =~= entry_views(found@).push(
                            entry@,
                        ));
                    }
                    found.push(entry);
                },
            }
            index += 1;
        }
        Ok(found)
    }

    /// Whether this is a metadata page.
    pub fn is_metadata(&self) -> (r: bool)
        ensures
            decode_header(self@) matches Ok(h) && r == (h is Metadata),
    {
        proof {
            use_type_invariant(self);
        }
        self.header.is_metadata()
    }

    /// Whether this is a leaf page: a tree page on level 1.
    pub fn is_leaf(&self) -> (r: bool)
        ensures
            decode_header(self@) matches Ok(h) && r == h.is_leaf(),
    {
        proof {
            use_type_invariant(self);
        }
        match self.header {
            PageHeader::BTree { level, .. } => level == LEAF_LEVEL,
            PageHeader::Metadata { .. } => false,
        }
    }

    /// Whether this is a routing page: a tree page above level 1.
    pub fn is_internal(&self) -> (r: bool)
        ensures
            decode_header(self@) matches Ok(h) && r == h.is_internal(),
    {
        proof {
            use_type_invariant(self);
        }
        match self.header {
            PageHeader::BTree { level, .. } => level > LEAF_LEVEL,
            PageHeader::Metadata { .. } => false,
        }
    }

    /// The number of the next page on the same level, unless this is a
    /// metadata page or the last page of its level.
    pub fn next_page_number(&self) -> (r: Option<u32>)
        ensures
            decode_header(self@) matches Ok(h) && r == h.sibling(),
    {
        proof {
            use_type_invariant(self);
        }
        match self.header {
            PageHeader::BTree { next_pgno, .. } => {
                if next_pgno != 0 {
                    Some(next_pgno)
                } else {
                    None
                }
            },
            PageHeader::Metadata { .. } => None,
        }
    }
}

} // verus!
