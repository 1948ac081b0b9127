//! The ordered walk over all key/value pairs: down to the leftmost leaf, then
//! from leaf to leaf along the sibling links.

use vstd::prelude::*;
use crate::database::{header_at, is_routing, page_bytes, page_count, Database};
use crate::entry::{Entry, EntryView};
use crate::error::Error;
use crate::page::{decode_header, entry_at, HeaderView, Page, PageHeader};

verus! {

/// A key with its value.
pub type Pair = (Seq<u8>, Seq<u8>);

/// The position of a walk: the page it stands on, the index of the entry to
/// read next, which is that of a key and so even, and the number of page
/// changes that it may still make.
pub struct Cursor {
    pub page: nat,
    pub entry: nat,
    pub budget: nat,
}

/// Where every walk starts: at the first entry of page 0, with two page
/// changes to spend for each page of the file: one to come to the page from
/// above, one to come to it from its left.
pub open spec fn start(file: Seq<u8>) -> Cursor {
    Cursor { page: 0, entry: 0, budget: 2 * page_count(file) }
}

/// The child that the first entry of a routing page names.
pub open spec fn first_child(page: Seq<u8>) -> Result<u32, Error> {
    match entry_at(page, 0) {
        Err(e) => Err(e),
        Ok(Some(EntryView::Internal { pgno, .. })) => Ok(pgno),
        Ok(_) => Err(Error::TraversalError),
    }
}

/// The page to which a page with header `h` and bytes `page` hands a walk
/// down: a metadata page to its root, a routing page to its first child. A
/// leaf hands it no further.
pub open spec fn way_down(h: HeaderView, page: Seq<u8>) -> Result<Option<u32>, Error> {
    match h {
        HeaderView::Metadata { root, .. } => Ok(Some(root)),
        HeaderView::BTree { .. } => if is_routing(h) {
            match first_child(page) {
                Ok(child) => Ok(Some(child)),
                Err(e) => Err(e),
            }
        } else {
            Ok(None)
        },
    }
}

/// The cursor after it has moved down to a leaf: from a metadata page to its
/// root, from a routing page to its first child, each time to the first
/// entry. On a leaf it stays as it is.
pub open spec fn settle(file: Seq<u8>, c: Cursor) -> Result<Cursor, Error>
    decreases c.budget,
{
    if c.page >= page_count(file) {
        Err(Error::TraversalError)
    } else {
        match header_at(file, c.page) {
            Err(e) => Err(e),
            Ok(h) => match way_down(h, page_bytes(file, c.page)) {
                Err(e) => Err(e),
                Ok(None) => Ok(c),
                Ok(Some(next)) => if c.budget == 0 {
                    Err(Error::TraversalError)
                } else {
                    settle(
                        file,
                        Cursor { page: next as nat, entry: 0, budget: (c.budget - 1) as nat },
                    )
                },
            },
        }
    }
}

/// The entries with the indices `i` and `i + 1`, if the page has both.
pub open spec fn pair_at(page: Seq<u8>, i: nat) -> Result<Option<(EntryView, EntryView)>, Error> {
    match entry_at(page, i) {
        Err(e) => Err(e),
        Ok(None) => Ok(None),
        Ok(Some(k)) => match entry_at(page, i + 1) {
            Err(e) => Err(e),
            Ok(None) => Ok(None),
            Ok(Some(v)) => Ok(Some((k, v))),
        },
    }
}

/// The next pair from the cursor on, and the cursor behind it. Where the
/// page has no pair left at the cursor, the walk goes on at the first entry
/// of the sibling; where there is no sibling, it has come to its end.
pub open spec fn advance(file: Seq<u8>, c: Cursor) -> Result<
    Option<(EntryView, EntryView, Cursor)>,
    Error,
>
    decreases c.budget,
{
    if c.page >= page_count(file) {
        Err(Error::TraversalError)
    } else {
        match header_at(file, c.page) {
            Err(e) => Err(e),
            Ok(h) => match pair_at(page_bytes(file, c.page), c.entry) {
                Err(e) => Err(e),
                Ok(Some((k, v))) => Ok(
                    Some((k, v, Cursor { page: c.page, entry: c.entry + 2, budget: c.budget })),
                ),
                Ok(None) => match h.sibling() {
                    None => Ok(None),
                    Some(next) => if c.budget == 0 {
                        Err(Error::TraversalError)
                    } else {
                        advance(
                            file,
                            Cursor { page: next as nat, entry: 0, budget: (c.budget - 1) as nat },
                        )
                    },
                },
            },
        }
    }
}

/// One step of the walk: move down to a leaf, then take the next pair.
pub open spec fn step(file: Seq<u8>, c: Cursor) -> Result<
    Option<(EntryView, EntryView, Cursor)>,
    Error,
> {
    match settle(file, c) {
        Err(e) => Err(e),
        Ok(settled) => advance(file, settled),
    }
}

/// Moving down never gains budget.
proof fn lemma_settle_budget(file: Seq<u8>, c: Cursor)
    ensures
        settle(file, c) matches Ok(s) ==> s.budget <= c.budget && (s.budget == c.budget ==> s
            == c),
    decreases c.budget,
{
    if c.page < page_count(file) {
        if let Ok(h) = header_at(file, c.page) {
            if let Ok(Some(next)) = way_down(h, page_bytes(file, c.page)) {
                if c.budget > 0 {
                    lemma_settle_budget(
                        file,
                        Cursor { page: next as nat, entry: 0, budget: (c.budget - 1) as nat },
                    );
                }
            }
        }
    }
}

/// A pair is found either two entries on, on the same page and below the
/// largest entry count, or after a page change.
proof fn lemma_advance_budget(file: Seq<u8>, c: Cursor)
    ensures
        advance(file, c) matches Ok(Some((_, _, next))) ==> next.budget < c.budget || (next.budget
            == c.budget && next.page == c.page && next.entry == c.entry + 2 && next.entry
            <= 65536),
    decreases c.budget,
{
    if c.page < page_count(file) {
        if let Ok(h) = header_at(file, c.page) {
            if let Ok(None) = pair_at(page_bytes(file, c.page), c.entry) {
                if let Some(next) = h.sibling() {
                    if c.budget > 0 {
                        lemma_advance_budget(
                            file,
                            Cursor { page: next as nat, entry: 0, budget: (c.budget - 1) as nat },
                        );
                    }
                }
            }
        }
    }
}

/// Each step that yields a pair brings the cursor nearer to the end of the
/// walk: it spends budget, or it moves on within a page.
pub proof fn lemma_step_progress(file: Seq<u8>, c: Cursor)
    ensures
        step(file, c) matches Ok(Some((_, _, next))) ==> next.budget < c.budget || (next.budget
            == c.budget && next.page == c.page && next.entry == c.entry + 2 && next.entry
            <= 65536),
{
    lemma_settle_budget(file, c);
    if let Ok(s) = settle(file, c) {
        lemma_advance_budget(file, s);
    }
}

/// A failure stays a failure, and pairs are put in front of those that follow.
pub open spec fn followed_by(
    front: Seq<Pair>,
    rest: Result<Seq<Pair>, Error>,
) -> Result<Seq<Pair>, Error> {
    match rest {
        Err(e) => Err(e),
        Ok(pairs) => Ok(front + pairs),
    }
}

/// What is left of the second part of the walk's measure: the room between
/// the cursor's entry index and the largest index that a step can leave.
pub open spec fn entry_room(c: Cursor) -> nat {
    if c.entry <= 65536 {
        (65536 - c.entry) as nat
    } else {
        0
    }
}

/// All pairs of payloads that the walk yields from the cursor on, in order,
/// or the first failure that it meets.
pub open spec fn scan_from(file: Seq<u8>, c: Cursor) -> Result<Seq<Pair>, Error>
    decreases c.budget, entry_room(c),
{
    match step(file, c) {
        Err(e) => Err(e),
        Ok(None) => Ok(Seq::empty()),
        Ok(Some((k, v, next))) => {
            proof {
                lemma_step_progress(file, c);
            }
            followed_by(seq![(k.data(), v.data())], scan_from(file, next))
        },
    }
}

/// All key/value pairs of the table in the order of the walk: from page 0
/// down to the leftmost leaf, then leaf by leaf along the sibling links.
///
/// The walk may change pages twice as often as the file has pages. A walk
/// that would change pages more often never ends, and fails as a traversal
/// error.
pub open spec fn scan(file: Seq<u8>) -> Result<Seq<Pair>, Error> {
    scan_from(file, start(file))
}

/// The payloads of a sequence of borrowed pairs.
pub open spec fn pair_views(s: Seq<(&[u8], &[u8])>) -> Seq<Pair> {
    s.map_values(|p: (&[u8], &[u8])| (p.0@, p.1@))
}

/// What the walk yields from the cursor on when it does not first move down
/// to a leaf: how it goes on behind a sibling link.
pub open spec fn hop(file: Seq<u8>, c: Cursor) -> Result<Seq<Pair>, Error> {
    match advance(file, c) {
        Err(e) => Err(e),
        Ok(None) => Ok(Seq::empty()),
        Ok(Some((k, v, next))) => followed_by(seq![(k.data(), v.data())], scan_from(file, next)),
    }
}

/// On a leaf the walk does not move down, so a step is an advance.
pub(crate) proof fn lemma_settled_on_leaf(file: Seq<u8>, c: Cursor)
    requires
        c.page < page_count(file),
        header_at(file, c.page) matches Ok(h) && h.is_leaf(),
    ensures
        settle(file, c) == Ok::<Cursor, Error>(c),
        scan_from(file, c) == hop(file, c),
{
}

/// Putting pairs in front twice is putting both runs in front.
pub(crate) proof fn lemma_followed_by_twice(
    a: Seq<Pair>,
    b: Seq<Pair>,
    rest: Result<Seq<Pair>, Error>,
)
    ensures
        followed_by(a, followed_by(b, rest)) == followed_by(a + b, rest),
{
    if let Ok(pairs) = rest {
        assert(a + (b + pairs) =~= (a + b) + pairs);
    }
}

/// What a collected walk returned, with the payloads as sequences of bytes.
pub open spec fn scanned(r: Result<Vec<(&[u8], &[u8])>, Error>) -> Result<
    Seq<Pair>,
    Error,
> {
    match r {
        Ok(pairs) => Ok(pair_views(pairs@)),
        Err(e) => Err(e),
    }
}

/// Idempotence: two walks over the same file yield the same pairs in the
/// same order, or fail alike.
pub proof fn lemma_scan_repeatable(
    file: Seq<u8>,
    first: Result<Vec<(&[u8], &[u8])>, Error>,
    second: Result<Vec<(&[u8], &[u8])>, Error>,
)
    requires
        scanned(first) == scan(file),
        scanned(second) == scan(file),
    ensures
        scanned(first) == scanned(second),
{
}

/// A walk in progress over one database.
pub struct Walk<'a> {
    database: &'a Database,
    page: usize,
    entry: usize,
    budget: usize,
}

impl<'a> View for Walk<'a> {
    type V = Cursor;

    /// The position of the walk.
    closed spec fn view(&self) -> Cursor {
        Cursor { page: self.page as nat, entry: self.entry as nat, budget: self.budget as nat }
    }
}

impl<'a> Walk<'a> {
    /// The walk stands in front of a key: its entry index is even.
    #[verifier::type_invariant]
    spec fn before_a_key(self) -> bool {
        self.entry % 2 == 0
    }

    /// The bytes of the file that is walked.
    pub closed spec fn file(&self) -> Seq<u8> {
        self.database@
    }

    /// A walk at its start.
    pub fn new(database: &'a Database) -> (r: Walk<'a>)
        ensures
            r.file() == database@,
            r@ == start(database@),
    {
        let budget: usize = 2 * database.page_count();
        Walk { database, page: 0, entry: 0, budget }
    }

    /// Decodes the page on which the walk stands.
    pub fn current_page(&self) -> (r: Result<Page<'a>, Error>)
        ensures
            match r {
                Ok(p) => self@.page < page_count(self.file()) && p@ == page_bytes(
                    self.file(),
                    self@.page,
                ) && header_at(self.file(), self@.page) is Ok,
                Err(e) => if self@.page < page_count(self.file()) {
                    header_at(self.file(), self@.page) == Err::<HeaderView, Error>(e)
                } else {
                    e == Error::TraversalError
                },
            },
    {
        load(self.database, self.page)
    }

    /// Where the walk stands once it has moved down to a leaf: the page, the
    /// entry index and the budget.
    fn settled(&self) -> (r: Result<(usize, usize, usize), Error>)
        ensures
            match r {
                Ok((page, entry, budget)) => entry % 2 == 0 && settle(self.file(), self@) == Ok::<
                    Cursor,
                    Error,
                >(Cursor { page: page as nat, entry: entry as nat, budget: budget as nat }),
                Err(e) => settle(self.file(), self@) == Err::<Cursor, Error>(e),
            },
    {
        proof {
            use_type_invariant(self);
        }
        let mut page: usize = self.page;
        let mut entry: usize = self.entry;
        let mut budget: usize = self.budget;
        loop
            invariant
                entry % 2 == 0,
                settle(self.file(), self@) == settle(
                    self.file(),
                    Cursor { page: page as nat, entry: entry as nat, budget: budget as nat },
                ),
            decreases budget,
        {
            let current = load(self.database, page)?;
            match way_down_from(&current)? {
                None => {
                    return Ok((page, entry, budget));
                },
                Some(next) => {
                    if budget == 0 {
                        return Err(Error::TraversalError);
                    }
                    budget -= 1;
                    entry = 0;
                    page = next as usize;
                },
            }
        }
    }

    /// Moves down to a leaf: from a metadata page to its root, from a
    /// routing page to its first child. A failure leaves the walk where it
    /// was.
    pub fn move_to_leaf(&mut self) -> (r: Result<(), Error>)
        ensures
            final(self).file() == old(self).file(),
            final(self)@.entry % 2 == 0,
            match r {
                Ok(_) => settle(old(self).file(), old(self)@) == Ok::<Cursor, Error>(final(self)@),
                Err(e) => settle(old(self).file(), old(self)@) == Err::<Cursor, Error>(e)
                    && final(self)@ == old(self)@,
            },
    {
        proof {
            use_type_invariant(&*self);
        }
        let (page, entry, budget) = self.settled()?;
        self.page = page;
        self.entry = entry;
        self.budget = budget;
        Ok(())
    }

    /// Yields the next pair of entries, or `None` at the end of the walk.
    /// Only a step that yields a pair moves the walk.
    pub fn next(&mut self) -> (r: Result<Option<(Entry<'a>, Entry<'a>)>, Error>)
        ensures
            final(self).file() == old(self).file(),
            final(self)@.entry % 2 == 0,
            match r {
                Ok(Some((k, v))) => step(old(self).file(), old(self)@) == Ok::<
                    Option<(EntryView, EntryView, Cursor)>,
                    Error,
                >(Some((k@, v@, final(self)@))),
                Ok(None) => step(old(self).file(), old(self)@) == Ok::<
                    Option<(EntryView, EntryView, Cursor)>,
                    Error,
                >(None) && final(self)@ == old(self)@,
                Err(e) => step(old(self).file(), old(self)@) == Err::<
                    Option<(EntryView, EntryView, Cursor)>,
                    Error,
                >(e) && final(self)@ == old(self)@,
            },
    {
        proof {
            use_type_invariant(&*self);
        }
        let (mut page, mut entry, mut budget) = self.settled()?;
        loop
            invariant
                entry % 2 == 0,
                self.file() == old(self).file(),
                self@ == old(self)@,
                self@.entry % 2 == 0,
                step(self.file(), self@) == advance(
                    self.file(),
                    Cursor { page: page as nat, entry: entry as nat, budget: budget as nat },
                ),
            decreases budget,
        {
            let current = load(self.database, page)?;
            if let Some((key, value)) = pair_on(&current, entry)? {
                self.page = page;
                self.entry = entry + 2;
                self.budget = budget;
                return Ok(Some((key, value)));
            }
            match current.next_page_number() {
                None => {
                    return Ok(None);
                },
                Some(next) => {
                    if budget == 0 {
                        return Err(Error::TraversalError);
                    }
                    budget -= 1;
                    entry = 0;
                    page = next as usize;
                },
            }
        }
    }
}

/// The page to which `page` hands a walk down: a metadata page to its root,
/// a routing page to its first child, a leaf no further.
fn way_down_from(page: &Page<'_>) -> (r: Result<Option<u32>, Error>)
    ensures
        decode_header(page@) matches Ok(h) && r == way_down(h, page@),
{
    match page.header() {
        PageHeader::Metadata { root, .. } => Ok(Some(*root)),
        PageHeader::BTree { .. } => {
            if page.is_leaf() {
                return Ok(None);
            }
            match page.get_entry(0)? {
                Some(Entry::Internal { pgno, .. }) => Ok(Some(pgno)),
                _ => Err(Error::TraversalError),
            }
        },
    }
}

/// The entries with the indices `index` and `index + 1`, if the page has
/// both.
fn pair_on<'a>(page: &Page<'a>, index: usize) -> (r: Result<
    Option<(Entry<'a>, Entry<'a>)>,
    Error,
>)
    ensures
        match r {
            Ok(Some((k, v))) => index + 1 < u16::MAX && pair_at(page@, index as nat) == Ok::<
                Option<(EntryView, EntryView)>,
                Error,
            >(Some((k@, v@))),
            Ok(None) => pair_at(page@, index as nat) == Ok::<
                Option<(EntryView, EntryView)>,
                Error,
            >(None),
            Err(e) => pair_at(page@, index as nat) == Err::<
                Option<(EntryView, EntryView)>,
                Error,
            >(e),
        },
{
    if let Some(key) = page.get_entry(index)? {
        if let Some(value) = page.get_entry(index + 1)? {
            return Ok(Some((key, value)));
        }
    }
    Ok(None)
}

/// Decodes page `index` of the database for a walk, to which a page number
/// outside the file is a failure.
fn load<'a>(database: &'a Database, index: usize) -> (r: Result<Page<'a>, Error>)
    ensures
        match r {
            Ok(p) => index < page_count(database@) && p@ == page_bytes(database@, index as nat)
                && header_at(database@, index as nat) is Ok,
            Err(e) => if index < page_count(database@) {
                header_at(database@, index as nat) == Err::<HeaderView, Error>(e)
            } else {
                e == Error::TraversalError
            },
        },
{
    match database.page(index)? {
        Some(page) => Ok(page),
        None => Err(Error::TraversalError),
    }
}

impl Database {
    /// Starts a walk over all pairs of the table.
    pub fn walk(&self) -> (r: Walk<'_>)
        ensures
            r.file() == self@,
            r@ == start(self@),
    {
        Walk::new(self)
    }

    /// Collects the payloads of all pairs of the table, in the order of the
    /// walk.
    pub fn scan(&self) -> (r: Result<Vec<(&[u8], &[u8])>, Error>)
        ensures
            scanned(r) == scan(self@),
    {
        let mut walk = self.walk();
        let mut pairs: Vec<(&[u8], &[u8])> = Vec::new();
        assert(pair_views(pairs@) + scan(self@)->Ok_0 =~= scan(self@)->Ok_0);
        loop
            invariant
                walk.file() == self@,
                scan(self@) == followed_by(pair_views(pairs@), scan_from(self@, walk@)),
            decreases walk@.budget, entry_room(walk@),
        {
            let ghost before = walk@;
            proof {
                lemma_step_progress(self@, before);
            }
            match walk.next()? {
                None => {
                    assert(pair_views(pairs@) + Seq::<Pair>::empty() =~= pair_views(
                        pairs@,
                    ));
                    return Ok(pairs);
                },
                Some((key, value)) => {
                    let pair: (&[u8], &[u8]) = (key.data(), value.data());
                    proof {
                        let front = pair_views(pairs@);
                        let one = seq![(key@.data(), value@.data())];
                        assert(pair_views(pairs@.push(pair)) =~= front + one);
                        lemma_followed_by_twice(front, one, scan_from(self@, walk@));
                    }
                    pairs.push(pair);
                },
            }
        }
    }
}

} // verus!
