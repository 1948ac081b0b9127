//! The database: the bytes of the file, its pages by number, and the point
//! lookup that descends from the root to one leaf.

use vstd::prelude::*;
use crate::bytes::{bytes_eq, bytes_le, lex_le};
use crate::entry::{Entry, EntryView};
use crate::error::Error;
use crate::page::{
    all_entries, decode_header, entry_at, entry_count, entry_views, HeaderView, Page, PageHeader,
    LEAF_LEVEL, PAGE_SIZE,
};

verus! {

/// A file is made of whole pages, and of one at least.
pub open spec fn whole_pages(file: Seq<u8>) -> bool {
    file.len() >= PAGE_SIZE && file.len() % (PAGE_SIZE as nat) == 0
}

/// The number of whole pages in the file.
pub open spec fn page_count(file: Seq<u8>) -> nat {
    file.len() / (PAGE_SIZE as nat)
}

/// The bytes of page `n` of the file.
pub open spec fn page_bytes(file: Seq<u8>, n: nat) -> Seq<u8> {
    file.subrange(n * PAGE_SIZE, n * PAGE_SIZE + PAGE_SIZE)
}

/// The header of page `n` of the file.
pub open spec fn header_at(file: Seq<u8>, n: nat) -> Result<HeaderView, Error> {
    decode_header(page_bytes(file, n))
}

/// Page `i` is the first page of the file whose header cannot be decoded,
/// and `e` is why.
pub open spec fn first_bad_page(file: Seq<u8>, i: nat, e: Error) -> bool {
    &&& i < page_count(file)
    &&& header_at(file, i) == Err::<HeaderView, Error>(e)
    &&& forall|j: nat| j < i ==> (#[trigger] header_at(file, j)) is Ok
}

/// The root page number that the first metadata page from page `from` on
/// names. Looking for it decodes the pages in order, and fails where one of
/// them cannot be decoded, or where there is no metadata page.
pub open spec fn find_root(file: Seq<u8>, from: nat) -> Result<u32, Error>
    decreases page_count(file) - from,
{
    if from >= page_count(file) {
        Err(Error::NoRootPage)
    } else {
        match header_at(file, from) {
            Err(e) => Err(e),
            Ok(HeaderView::Metadata { root, .. }) => Ok(root),
            Ok(HeaderView::BTree { .. }) => find_root(file, from + 1),
        }
    }
}

/// The child page of an internal entry; a key/data entry has none.
pub open spec fn child_of(e: EntryView) -> Option<u32> {
    match e {
        EntryView::Internal { pgno, .. } => Some(pgno),
        EntryView::KeyData { .. } => None,
    }
}

/// The child of the last of the first `n` entries whose separator key comes
/// before `key` or equals it.
pub open spec fn last_child_le(entries: Seq<EntryView>, key: Seq<u8>, n: nat) -> Option<u32>
    decreases n,
{
    if n == 0 {
        None
    } else if child_of(entries[n - 1]) is Some && lex_le(entries[n - 1].data(), key) {
        child_of(entries[n - 1])
    } else {
        last_child_le(entries, key, (n - 1) as nat)
    }
}

/// The child into which a routing page sends `key`: that of its last entry
/// whose separator key does not exceed `key`, if it has such an entry.
pub open spec fn route(page: Seq<u8>, key: Seq<u8>) -> Result<Option<u32>, Error> {
    match all_entries(page) {
        Err(e) => Err(e),
        Ok(entries) => Ok(last_child_le(entries, key, entries.len())),
    }
}

/// Scans the keys of a leaf, which stand at the even indices, from index
/// `from` on. `found` is the index of the last key seen so far that equals
/// `key`. The scan ends at the first key that comes after `key`.
pub open spec fn leaf_scan(page: Seq<u8>, key: Seq<u8>, from: nat, found: Option<nat>) -> Result<
    Option<nat>,
    Error,
>
    decreases entry_count(page) + 1 - from,
{
    if from >= entry_count(page) {
        Ok(found)
    } else {
        match entry_at(page, from) {
            Err(e) => Err(e),
            Ok(None) => Ok(found),
            Ok(Some(e)) => if e.data() == key {
                leaf_scan(page, key, from + 2, Some(from))
            } else if lex_le(e.data(), key) {
                leaf_scan(page, key, from + 2, found)
            } else {
                Ok(found)
            },
        }
    }
}

/// The value that a leaf holds for `key`: the entry after the key's own.
/// A key without such an entry counts as absent.
pub open spec fn leaf_lookup(page: Seq<u8>, key: Seq<u8>) -> Result<Option<Seq<u8>>, Error> {
    match leaf_scan(page, key, 0, None) {
        Err(e) => Err(e),
        Ok(None) => Ok(None),
        Ok(Some(i)) => match entry_at(page, i + 1) {
            Err(e) => Err(e),
            Ok(None) => Ok(None),
            Ok(Some(v)) => Ok(Some(v.data())),
        },
    }
}

/// Whether a page with this header routes a lookup to a child: a tree page
/// that is not a leaf. Its entries are internal entries, whether its level
/// lies above that of the leaves or, against the format, below it.
pub open spec fn is_routing(h: HeaderView) -> bool {
    h matches HeaderView::BTree { level, .. } && level != LEAF_LEVEL
}

/// The lookup of `key` from page `page` down, following at most `fuel`
/// child links.
pub open spec fn lookup_from(file: Seq<u8>, key: Seq<u8>, page: nat, fuel: nat) -> Result<
    Option<Seq<u8>>,
    Error,
>
    decreases fuel,
{
    if page >= page_count(file) {
        Err(Error::TraversalError)
    } else {
        match header_at(file, page) {
            Err(e) => Err(e),
            Ok(h) => if is_routing(h) {
                match route(page_bytes(file, page), key) {
                    Err(e) => Err(e),
                    Ok(None) => Err(Error::TraversalError),
                    Ok(Some(child)) => if fuel == 0 {
                        Err(Error::TraversalError)
                    } else {
                        lookup_from(file, key, child as nat, (fuel - 1) as nat)
                    },
                }
            } else {
                leaf_lookup(page_bytes(file, page), key)
            },
        }
    }
}

/// The value stored for `key`, or `None` if the leaf that the tree leads to
/// does not hold the key.
///
/// The descent starts at the root that the first metadata page names, and
/// may follow as many child links as the file has pages. A descent that would
/// follow more of them never ends, and fails as a traversal error.
pub open spec fn lookup(file: Seq<u8>, key: Seq<u8>) -> Result<Option<Seq<u8>>, Error> {
    match find_root(file, 0) {
        Err(e) => Err(e),
        Ok(root) => lookup_from(file, key, root as nat, page_count(file)),
    }
}

/// What a lookup returned, with the value as a sequence of bytes.
pub open spec fn fetched(r: Result<Option<&[u8]>, Error>) -> Result<Option<Seq<u8>>, Error> {
    match r {
        Ok(Some(value)) => Ok(Some(value@)),
        Ok(None) => Ok(None),
        Err(e) => Err(e),
    }
}

/// An open database: the bytes of the whole file.
pub struct Database {
    buffer: Vec<u8>,
}

impl View for Database {
    type V = Seq<u8>;

    /// The bytes of the file.
    closed spec fn view(&self) -> Seq<u8> {
        self.buffer@
    }
}

impl Database {
    #[verifier::type_invariant]
    spec fn well_formed(self) -> bool {
        whole_pages(self.buffer@)
    }

    /// Takes the bytes of a file as a database, if they are whole pages.
    pub fn from_bytes(buffer: Vec<u8>) -> (r: Result<Database, Error>)
        ensures
            match r {
                Ok(db) => whole_pages(buffer@) && db@ == buffer@,
                Err(e) => !whole_pages(buffer@) && e == Error::TruncatedPage,
            },
    {
        if buffer.len() < PAGE_SIZE || buffer.len() % PAGE_SIZE != 0 {
            return Err(Error::TruncatedPage);
        }
        Ok(Database { buffer })
    }

    /// Gives the database up.
    pub fn close(self) {
    }

    /// The number of pages in the file.
    pub fn page_count(&self) -> (r: usize)
        ensures
            r == page_count(self@),
            1 <= r <= usize::MAX / PAGE_SIZE,
            whole_pages(self@),
    {
        proof {
            use_type_invariant(self);
        }
        self.buffer.len() / PAGE_SIZE
    }

    /// Decodes the page with the given number, if the file has such a page.
    pub fn page(&self, index: usize) -> (r: Result<Option<Page<'_>>, Error>)
        ensures
            match r {
                Ok(Some(p)) => index < page_count(self@) && p@ == page_bytes(self@, index as nat)
                    && header_at(self@, index as nat) is Ok,
                Ok(None) => index >= page_count(self@),
                Err(e) => index < page_count(self@) && header_at(self@, index as nat) == Err::<
                    HeaderView,
                    Error,
                >(e),
            },
    {
        proof {
            use_type_invariant(self);
        }
        if index >= self.buffer.len() / PAGE_SIZE {
            return Ok(None);
        }
        let start: usize = index * PAGE_SIZE;
        let end: usize = start + PAGE_SIZE;
        let bytes: &[u8] = self.buffer.as_slice();
        Ok(Some(Page::new(&bytes[start..end])?))
    }

    /// The bytes of each page of the file, in order.
    pub fn raw_pages(&self) -> (r: Vec<&[u8]>)
        ensures
            r@.len() == page_count(self@),
            forall|i: int| 0 <= i < r@.len() ==> (#[trigger] r@[i])@ == page_bytes(self@, i as nat),
    {
        proof {
            use_type_invariant(self);
        }
        let count: usize = self.buffer.len() / PAGE_SIZE;
        let bytes: &[u8] = self.buffer.as_slice();
        let mut chunks: Vec<&[u8]> = Vec::new();
        let mut index: usize = 0;
        while index < count
            invariant
                index <= count,
                count == page_count(self@),
                bytes@ == self@,
                bytes.len() == self@.len(),
                whole_pages(self@),
                chunks@.len() == index,
                forall|i: int|
                    0 <= i < chunks@.len() ==> (#[trigger] chunks@[i])@ == page_bytes(
                        self@,
                        i as nat,
                    ),
            decreases count - index,
        {
            let start: usize = index * PAGE_SIZE;
            chunks.push(&bytes[start..start + PAGE_SIZE]);
            index += 1;
        }
        chunks
    }

    /// Decodes every page of the file, in order.
    pub fn pages(&self) -> (r: Result<Vec<Page<'_>>, Error>)
        ensures
            match r {
                Ok(v) => {
                    &&& v@.len() == page_count(self@)
                    &&& forall|i: int|
                        0 <= i < v@.len() ==> (#[trigger] v@[i])@ == page_bytes(self@, i as nat)
                    &&& forall|i: nat|
                        i < page_count(self@) ==> (#[trigger] header_at(self@, i)) is Ok
                },
                Err(e) => exists|i: nat| first_bad_page(self@, i, e),
            },
    {
        let count: usize = self.page_count();
        let mut decoded: Vec<Page<'_>> = Vec::new();
        let mut index: usize = 0;
        while index < count
            invariant
                index <= count,
                count == page_count(self@),
                decoded@.len() == index,
                forall|i: int|
                    0 <= i < decoded@.len() ==> (#[trigger] decoded@[i])@ == page_bytes(
                        self@,
                        i as nat,
                    ),
                forall|i: nat| i < index ==> (#[trigger] header_at(self@, i)) is Ok,
            decreases count - index,
        {
            match self.page(index) {
                Err(e) => {
                    assert(first_bad_page(self@, index as nat, e));
                    return Err(e);
                },
                Ok(None) => {},
                Ok(Some(page)) => {
                    decoded.push(page);
                },
            }
            index += 1;
        }
        Ok(decoded)
    }

    /// The root page number that the first metadata page names.
    pub fn root(&self) -> (r: Result<u32, Error>)
        ensures
            r == find_root(self@, 0),
    {
        let count: usize = self.page_count();
        let mut index: usize = 0;
        while index < count
            invariant
                index <= count,
                count == page_count(self@),
                find_root(self@, 0) == find_root(self@, index as nat),
            decreases count - index,
        {
            if let Some(page) = self.page(index)? {
                if let PageHeader::Metadata { root, .. } = page.header() {
                    return Ok(*root);
                }
            }
            index += 1;
        }
        Err(Error::NoRootPage)
    }

    /// Looks `key` up: descends from the root to one leaf and returns the
    /// value that the leaf holds for the key.
    pub fn get(&self, key: &[u8]) -> (r: Result<Option<&[u8]>, Error>)
        ensures
            fetched(r) == lookup(self@, key@),
    {
        let mut current: usize = self.root()? as usize;
        let mut fuel: usize = self.page_count();
        loop
            invariant
                lookup(self@, key@) == lookup_from(self@, key@, current as nat, fuel as nat),
            decreases fuel,
        {
            let page = match self.page(current)? {
                Some(page) => page,
                None => {
                    return Err(Error::TraversalError);
                },
            };
            if page.is_metadata() || page.is_leaf() {
                return find_in_leaf(&page, key);
            }
            match find_child(&page, key)? {
                Some(child) if fuel > 0 => {
                    fuel -= 1;
                    current = child as usize;
                },
                _ => {
                    return Err(Error::TraversalError);
                },
            }
        }
    }
}

/// The child of a routing page into which `key` is sent.
pub fn find_child(page: &Page<'_>, key: &[u8]) -> (r: Result<Option<u32>, Error>)
    ensures
        r == route(page@, key@),
{
    let entries = page.entries()?;
    let ghost views = entry_views(entries@);
    let mut child: Option<u32> = None;
    let mut index: usize = 0;
    while index < entries.len()
        invariant
            index <= entries.len(),
            views == entry_views(entries@),
            child == last_child_le(views, key@, index as nat),
        decreases entries.len() - index,
    {
        match entries[index] {
            Entry::Internal { pgno, data, .. } => {
                if bytes_le(data, key) {
                    child = Some(pgno);
                }
            },
            Entry::KeyData { .. } => {},
        }
        index += 1;
    }
    Ok(child)
}

/// The value that a leaf page holds for `key`.
pub fn find_in_leaf<'a>(page: &Page<'a>, key: &[u8]) -> (r: Result<Option<&'a [u8]>, Error>)
    ensures
        fetched(r) == leaf_lookup(page@, key@),
{
    let count: usize = page.entry_count();
    let mut found: Option<usize> = None;
    let mut index: usize = 0;
    let mut done: bool = false;
    while !done && index < count
        invariant
            count == entry_count(page@),
            count <= u16::MAX,
            index <= count + 1,
            !done ==> leaf_scan(page@, key@, 0, None) == leaf_scan(
                page@,
                key@,
                index as nat,
                match found {
                    Some(i) => Some(i as nat),
                    None => None,
                },
            ),
            done ==> leaf_scan(page@, key@, 0, None) == Ok::<Option<nat>, Error>(
                match found {
                    Some(i) => Some(i as nat),
                    None => None,
                },
            ),
            found matches Some(i) ==> i < count,
        decreases (if done { 0int } else { 1int }), count + 1 - index,
    {
        match page.get_entry(index)? {
            None => {
                done = true;
            },
            Some(entry) => {
                let data = entry.data();
                if bytes_eq(data, key) {
                    found = Some(index);
                    index += 2;
                } else if bytes_le(data, key) {
                    index += 2;
                } else {
                    done = true;
                }
            },
        }
    }
    match found {
        None => Ok(None),
        Some(i) => match page.get_entry(i + 1)? {
            None => Ok(None),
            Some(value) => Ok(Some(value.data())),
        },
    }
}

} // verus!
