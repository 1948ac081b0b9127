//! Well-formed trees, and what the lookup and the walk do on them.

use vstd::prelude::*;
use crate::bytes::{lemma_lex_lt_le, lemma_lex_lt_then_le, lemma_lex_transitive, lex_le, lex_lt};
use crate::database::{
    child_of, find_root, header_at, is_routing, last_child_le, leaf_lookup, leaf_scan, lookup,
    lookup_from, page_bytes, page_count, route, whole_pages,
};
use crate::entry::EntryView;
use crate::error::Error;
use crate::page::{
    all_entries, decode_header, entry_at, entry_count, lemma_all_entries_index, HeaderView,
};
use crate::steps::{iterate, lemma_iterate_split, lemma_long_way_for_ever};
use crate::walk::{
    advance, first_child, followed_by, hop, lemma_followed_by_twice, lemma_settled_on_leaf,
    pair_at, scan, scan_from, settle, start, way_down, Cursor, Pair,
};

verus! {

/// The value of the first pair with the given key.
pub open spec fn value_of(pairs: Seq<Pair>, key: Seq<u8>) -> Option<Seq<u8>>
    decreases pairs.len(),
{
    if pairs.len() == 0 {
        None
    } else if pairs[0].0 == key {
        Some(pairs[0].1)
    } else {
        value_of(pairs.drop_first(), key)
    }
}

/// The keys of the pairs are strictly ascending.
pub open spec fn ascending(pairs: Seq<Pair>) -> bool {
    forall|i: int, j: int|
        0 <= i < j < pairs.len() ==> lex_lt(#[trigger] pairs[i].0, #[trigger] pairs[j].0)
}

/// The key lies in the range from `lo` up to, but not including, `hi`; no
/// `hi` leaves the range open at the top.
pub open spec fn within(key: Seq<u8>, lo: Seq<u8>, hi: Option<Seq<u8>>) -> bool {
    lex_le(lo, key) && (hi matches Some(h) ==> lex_lt(key, h))
}

/// The keys of all pairs lie in the range from `lo` to `hi`.
pub open spec fn keys_within(pairs: Seq<Pair>, lo: Seq<u8>, hi: Option<Seq<u8>>) -> bool {
    forall|i: int| 0 <= i < pairs.len() ==> within(#[trigger] pairs[i].0, lo, hi)
}

/// A key that no pair has is not found.
proof fn lemma_value_of_absent(pairs: Seq<Pair>, key: Seq<u8>)
    requires
        forall|i: int| 0 <= i < pairs.len() ==> (#[trigger] pairs[i]).0 != key,
    ensures
        value_of(pairs, key) is None,
    decreases pairs.len(),
{
    if pairs.len() > 0 {
        let rest = pairs.drop_first();
        assert forall|i: int| 0 <= i < rest.len() implies (#[trigger] rest[i]).0 != key by {
            assert(rest[i] == pairs[i + 1]);
        }
        lemma_value_of_absent(rest, key);
    }
}

/// The first pair with the key gives the value.
proof fn lemma_value_of_first(pairs: Seq<Pair>, key: Seq<u8>, j: int)
    requires
        0 <= j < pairs.len(),
        pairs[j].0 == key,
        forall|i: int| 0 <= i < j ==> (#[trigger] pairs[i]).0 != key,
    ensures
        value_of(pairs, key) == Some(pairs[j].1),
    decreases j,
{
    if j > 0 {
        let rest = pairs.drop_first();
        assert forall|i: int| 0 <= i < j - 1 implies (#[trigger] rest[i]).0 != key by {
            assert(rest[i] == pairs[i + 1]);
        }
        assert(rest[j - 1] == pairs[j]);
        assert(pairs[0].0 != key);
        lemma_value_of_first(rest, key, j - 1);
    }
}

/// In two runs of pairs put together, the key is looked for in the first
/// run, then in the second.
proof fn lemma_value_of_concat(a: Seq<Pair>, b: Seq<Pair>, key: Seq<u8>)
    ensures
        value_of(a + b, key) == (if value_of(a, key) is Some {
            value_of(a, key)
        } else {
            value_of(b, key)
        }),
    decreases a.len(),
{
    if a.len() == 0 {
        assert(a + b =~= b);
    } else {
        assert((a + b).drop_first() =~= a.drop_first() + b);
        assert((a + b)[0] == a[0]);
        lemma_value_of_concat(a.drop_first(), b, key);
    }
}

/// No pair of a range holds a key outside the range.
proof fn lemma_value_of_outside(
    pairs: Seq<Pair>,
    lo: Seq<u8>,
    hi: Option<Seq<u8>>,
    key: Seq<u8>,
)
    requires
        keys_within(pairs, lo, hi),
        !within(key, lo, hi),
    ensures
        value_of(pairs, key) is None,
{
    assert forall|i: int| 0 <= i < pairs.len() implies (#[trigger] pairs[i]).0 != key by {
        assert(within(pairs[i].0, lo, hi));
    }
    lemma_value_of_absent(pairs, key);
}

/// The entries of a page whose entries all decode.
pub open spec fn entries_of(page: Seq<u8>) -> Seq<EntryView> {
    all_entries(page)->Ok_0
}

/// The `i`-th key among the entries of a leaf.
pub open spec fn key_at(entries: Seq<EntryView>, i: int) -> Seq<u8> {
    entries[2 * i].data()
}

/// The value that belongs to the `i`-th key.
pub open spec fn value_at(entries: Seq<EntryView>, i: int) -> Seq<u8> {
    entries[2 * i + 1].data()
}

/// The number of keys among the entries of a leaf, a last key without a
/// value included.
pub open spec fn key_total(entries: Seq<EntryView>) -> int {
    (entries.len() as int + 1) / 2
}

/// The number of keys that have a value.
pub open spec fn pair_total(entries: Seq<EntryView>) -> int {
    entries.len() as int / 2
}

/// The pairs of a leaf, in the order of its entries. A last key without a
/// value makes no pair.
pub open spec fn leaf_pairs(page: Seq<u8>) -> Seq<Pair> {
    let entries = entries_of(page);
    Seq::new(pair_total(entries) as nat, |i: int| (key_at(entries, i), value_at(entries, i)))
}

/// The page number that the header gives for the next page of the level;
/// zero where it gives none.
pub open spec fn next_of(page: Seq<u8>) -> nat {
    match decode_header(page) {
        Ok(HeaderView::BTree { next_pgno, .. }) => next_pgno as nat,
        _ => 0,
    }
}

/// A well-formed leaf for the key range from `lo` to `hi`: all its entries
/// decode, and its keys are strictly ascending and lie in the range.
pub open spec fn leaf_ok(page: Seq<u8>, lo: Seq<u8>, hi: Option<Seq<u8>>) -> bool {
    let entries = entries_of(page);
    &&& decode_header(page) matches Ok(h) && h.is_leaf()
    &&& all_entries(page) is Ok
    &&& forall|i: int, j: int|
        0 <= i < j < key_total(entries) ==> lex_lt(
            #[trigger] key_at(entries, i),
            #[trigger] key_at(entries, j),
        )
    &&& forall|i: int|
        0 <= i < key_total(entries) ==> within(#[trigger] key_at(entries, i), lo, hi)
}

/// On a well-formed leaf, a scan that starts behind every key that could
/// still match keeps what it has found.
proof fn lemma_leaf_scan_past(
    page: Seq<u8>,
    lo: Seq<u8>,
    hi: Option<Seq<u8>>,
    key: Seq<u8>,
    i: int,
    found: Option<nat>,
)
    requires
        leaf_ok(page, lo, hi),
        0 <= i,
        forall|j: int|
            i <= j < key_total(entries_of(page)) ==> lex_lt(
                key,
                #[trigger] key_at(entries_of(page), j),
            ),
    ensures
        leaf_scan(page, key, (2 * i) as nat, found) == Ok::<Option<nat>, Error>(found),
{
    let entries = entries_of(page);
    lemma_all_entries_index(page);
    if 2 * i < entry_count(page) {
        assert(entry_at(page, (2 * i) as nat) == Ok::<Option<EntryView>, Error>(
            Some(entries[2 * i]),
        ));
        assert(lex_lt(key, key_at(entries, i)));
        lemma_lex_lt_le(key, key_at(entries, i));
    }
}

/// On a well-formed leaf, the scan from the `i`-th key on finds the index of
/// the key's entry, or nothing where no key from there on is the key.
proof fn lemma_leaf_scan_finds(
    page: Seq<u8>,
    lo: Seq<u8>,
    hi: Option<Seq<u8>>,
    key: Seq<u8>,
    i: int,
)
    requires
        leaf_ok(page, lo, hi),
        0 <= i <= key_total(entries_of(page)),
    ensures
        (forall|j: int|
            i <= j < key_total(entries_of(page)) ==> #[trigger] key_at(entries_of(page), j)
                != key) ==> leaf_scan(page, key, (2 * i) as nat, None) == Ok::<
            Option<nat>,
            Error,
        >(None),
        forall|j: int|
            i <= j < key_total(entries_of(page)) && #[trigger] key_at(entries_of(page), j) == key
                ==> leaf_scan(page, key, (2 * i) as nat, None) == Ok::<Option<nat>, Error>(
                Some((2 * j) as nat),
            ),
    decreases key_total(entries_of(page)) - i,
{
    let entries = entries_of(page);
    lemma_all_entries_index(page);
    if 2 * i < entry_count(page) {
        assert(entry_at(page, (2 * i) as nat) == Ok::<Option<EntryView>, Error>(
            Some(entries[2 * i]),
        ));
        let here = key_at(entries, i);
        if here == key {
            assert forall|j: int| i + 1 <= j < key_total(entries) implies lex_lt(
                key,
                #[trigger] key_at(entries, j),
            ) by {
                assert(lex_lt(key_at(entries, i), key_at(entries, j)));
            }
            lemma_leaf_scan_past(page, lo, hi, key, i + 1, Some((2 * i) as nat));
            assert forall|j: int|
                i <= j < key_total(entries) && #[trigger] key_at(entries, j) == key implies j
                == i by {
                if i < j {
                    assert(lex_lt(key_at(entries, i), key_at(entries, j)));
                    lemma_lex_lt_le(key_at(entries, i), key_at(entries, j));
                }
            }
        } else if lex_le(here, key) {
            lemma_leaf_scan_finds(page, lo, hi, key, i + 1);
        } else {
            assert forall|j: int| i <= j < key_total(entries) implies #[trigger] key_at(
                entries,
                j,
            ) != key by {
                if i < j {
                    assert(lex_lt(key_at(entries, i), key_at(entries, j)));
                    lemma_lex_lt_le(key_at(entries, i), key_at(entries, j));
                    if key_at(entries, j) == key {
                        assert(lex_le(here, key));
                    }
                }
            }
        }
    }
}

/// On a well-formed leaf the lookup returns the value of the pair with the
/// key, and nothing where the leaf has no such pair.
pub proof fn lemma_leaf_lookup(page: Seq<u8>, lo: Seq<u8>, hi: Option<Seq<u8>>, key: Seq<u8>)
    requires
        leaf_ok(page, lo, hi),
    ensures
        leaf_lookup(page, key) == Ok::<Option<Seq<u8>>, Error>(value_of(leaf_pairs(page), key)),
{
    let entries = entries_of(page);
    let pairs = leaf_pairs(page);
    lemma_all_entries_index(page);
    lemma_leaf_scan_finds(page, lo, hi, key, 0);
    if exists|j: int| 0 <= j < key_total(entries) && #[trigger] key_at(entries, j) == key {
        let j = choose|j: int| 0 <= j < key_total(entries) && #[trigger] key_at(entries, j) == key;
        assert(leaf_scan(page, key, 0, None) == Ok::<Option<nat>, Error>(Some((2 * j) as nat)));
        assert forall|i: int| 0 <= i < pairs.len() && i != j implies (#[trigger] pairs[i]).0
            != key by {
            if i < j {
                assert(lex_lt(key_at(entries, i), key_at(entries, j)));
                lemma_lex_lt_le(key_at(entries, i), key_at(entries, j));
            } else {
                assert(lex_lt(key_at(entries, j), key_at(entries, i)));
                lemma_lex_lt_le(key_at(entries, j), key_at(entries, i));
            }
        }
        if 2 * j + 1 < entries.len() {
            assert(entry_at(page, (2 * j + 1) as nat) == Ok::<Option<EntryView>, Error>(
                Some(entries[2 * j + 1]),
            ));
            assert(pairs[j] == (key_at(entries, j), value_at(entries, j)));
            lemma_value_of_first(pairs, key, j);
        } else {
            assert(entry_at(page, (2 * j + 1) as nat) == Ok::<Option<EntryView>, Error>(None));
            lemma_value_of_absent(pairs, key);
        }
    } else {
        assert forall|i: int| 0 <= i < pairs.len() implies (#[trigger] pairs[i]).0 != key by {
            assert(key_at(entries, i) != key);
        }
        lemma_value_of_absent(pairs, key);
    }
}

/// What the walk yields behind a leaf that it has used up with `budget` page
/// changes left, where the leaf names `link` as its sibling.
pub open spec fn resume(file: Seq<u8>, link: nat, budget: int) -> Result<Seq<Pair>, Error> {
    if link == 0 {
        Ok(Seq::empty())
    } else if budget <= 0 {
        Err(Error::TraversalError)
    } else {
        hop(file, Cursor { page: link, entry: 0, budget: (budget - 1) as nat })
    }
}

/// From the `i`-th key of a well-formed leaf on, the walk yields the pairs
/// of the leaf from there on, and then goes on behind the sibling link.
proof fn lemma_scan_leaf(
    file: Seq<u8>,
    page: nat,
    lo: Seq<u8>,
    hi: Option<Seq<u8>>,
    i: int,
    budget: nat,
)
    requires
        page < page_count(file),
        leaf_ok(page_bytes(file, page), lo, hi),
        0 <= i <= pair_total(entries_of(page_bytes(file, page))),
    ensures
        scan_from(file, Cursor { page, entry: (2 * i) as nat, budget }) == followed_by(
            leaf_pairs(page_bytes(file, page)).subrange(
                i,
                pair_total(entries_of(page_bytes(file, page))),
            ),
            resume(file, next_of(page_bytes(file, page)), budget as int),
        ),
    decreases pair_total(entries_of(page_bytes(file, page))) - i,
{
    let bytes = page_bytes(file, page);
    let entries = entries_of(bytes);
    let pairs = leaf_pairs(bytes);
    let total = pair_total(entries);
    let c = Cursor { page, entry: (2 * i) as nat, budget };
    let tail = resume(file, next_of(bytes), budget as int);
    lemma_all_entries_index(bytes);
    lemma_settled_on_leaf(file, c);
    if i < total {
        assert(entry_at(bytes, (2 * i) as nat) == Ok::<Option<EntryView>, Error>(
            Some(entries[2 * i]),
        ));
        assert(entry_at(bytes, (2 * i + 1) as nat) == Ok::<Option<EntryView>, Error>(
            Some(entries[2 * i + 1]),
        ));
        let next = Cursor { page, entry: (2 * (i + 1)) as nat, budget };
        assert(advance(file, c) == Ok::<Option<(EntryView, EntryView, Cursor)>, Error>(
            Some((entries[2 * i], entries[2 * i + 1], next)),
        ));
        lemma_scan_leaf(file, page, lo, hi, i + 1, budget);
        let one = seq![(entries[2 * i].data(), entries[2 * i + 1].data())];
        assert(scan_from(file, c) == followed_by(one, scan_from(file, next)));
        lemma_followed_by_twice(one, pairs.subrange(i + 1, total), tail);
        assert(one + pairs.subrange(i + 1, total) =~= pairs.subrange(i, total));
    } else {
        assert(pair_at(bytes, (2 * i) as nat) == Ok::<Option<(EntryView, EntryView)>, Error>(
            None,
        )) by {
            if 2 * i < entries.len() {
                assert(entry_at(bytes, (2 * i) as nat) == Ok::<Option<EntryView>, Error>(
                    Some(entries[2 * i]),
                ));
            }
        }
        assert(pairs.subrange(i, total) =~= Seq::<Pair>::empty());
        if let Ok(rest) = tail {
            assert(Seq::<Pair>::empty() + rest =~= rest);
        }
    }
}

/// The page to which the `i`-th entry of a routing page leads.
pub open spec fn child_page(entries: Seq<EntryView>, i: int) -> nat {
    match child_of(entries[i]) {
        Some(pgno) => pgno as nat,
        None => 0,
    }
}

/// The separator key of the `i`-th entry of a routing page.
pub open spec fn separator(entries: Seq<EntryView>, i: int) -> Seq<u8> {
    entries[i].data()
}

/// The lower end of the key range of the `i`-th child: that of the page for
/// the first child, the child's separator for the others.
pub open spec fn child_lo(entries: Seq<EntryView>, i: int, lo: Seq<u8>) -> Seq<u8> {
    if i == 0 {
        lo
    } else {
        separator(entries, i)
    }
}

/// The upper end of the key range of the `i`-th child: the separator of the
/// next child, and that of the page for the last child.
pub open spec fn child_hi(entries: Seq<EntryView>, i: int, hi: Option<Seq<u8>>) -> Option<
    Seq<u8>,
> {
    if i + 1 < entries.len() {
        Some(separator(entries, i + 1))
    } else {
        hi
    }
}

/// The leftmost leaf below `page`, which stands `height` levels above the
/// leaves.
pub open spec fn leftmost(file: Seq<u8>, page: nat, height: nat) -> nat
    decreases height,
{
    if height == 0 {
        page
    } else {
        leftmost(
            file,
            child_page(entries_of(page_bytes(file, page)), 0),
            (height - 1) as nat,
        )
    }
}

/// The sibling that the last leaf below the `i`-th child has to name: the
/// leftmost leaf below the next child, and `link` behind the last child.
pub open spec fn child_link(
    file: Seq<u8>,
    entries: Seq<EntryView>,
    i: int,
    height: nat,
    link: nat,
) -> nat {
    if i + 1 < entries.len() {
        leftmost(file, child_page(entries, i + 1), height)
    } else {
        link
    }
}

/// A well-formed tree below `page`, `height` levels above the leaves, for
/// the keys from `lo` to `hi`.
///
/// A leaf is well formed for the range and names `link` as its sibling. A
/// routing page has entries that all decode, and one at least. Its first
/// separator does not exceed `lo`, the others lie between `lo` and `hi` and
/// are strictly ascending. Each child is a well-formed tree one level lower
/// for the keys from its separator to the next one, and the last leaf below
/// it names the leftmost leaf below the next child as its sibling.
pub open spec fn tree_ok(
    file: Seq<u8>,
    page: nat,
    height: nat,
    lo: Seq<u8>,
    hi: Option<Seq<u8>>,
    link: nat,
) -> bool
    decreases height,
{
    let bytes = page_bytes(file, page);
    let entries = entries_of(bytes);
    &&& page < page_count(file)
    &&& if height == 0 {
        leaf_ok(bytes, lo, hi) && next_of(bytes) == link
    } else {
        &&& decode_header(bytes) matches Ok(h) && is_routing(h)
        &&& all_entries(bytes) is Ok
        &&& entries.len() >= 1
        &&& lex_le(separator(entries, 0), lo)
        &&& forall|i: int|
            1 <= i < entries.len() ==> within(#[trigger] separator(entries, i), lo, None)
        &&& forall|i: int|
            1 <= i < entries.len() && hi is Some ==> lex_le(
                #[trigger] separator(entries, i),
                hi->Some_0,
            )
        &&& forall|i: int, j: int|
            0 <= i < j < entries.len() ==> lex_lt(
                #[trigger] separator(entries, i),
                #[trigger] separator(entries, j),
            )
        &&& forall|i: int|
            #![trigger child_page(entries, i)]
            0 <= i < entries.len() ==> tree_ok(
                file,
                child_page(entries, i),
                (height - 1) as nat,
                child_lo(entries, i, lo),
                child_hi(entries, i, hi),
                child_link(file, entries, i, (height - 1) as nat, link),
            )
    }
}

/// The pairs of the tree below `page`, leaf by leaf from left to right.
pub open spec fn tree_pairs(file: Seq<u8>, page: nat, height: nat) -> Seq<Pair>
    decreases height, 0nat,
{
    if height == 0 {
        leaf_pairs(page_bytes(file, page))
    } else {
        let entries = entries_of(page_bytes(file, page));
        children_pairs(file, entries, entries.len(), (height - 1) as nat)
    }
}

/// The pairs of the trees below the first `n` children of a routing page.
pub open spec fn children_pairs(
    file: Seq<u8>,
    entries: Seq<EntryView>,
    n: nat,
    height: nat,
) -> Seq<Pair>
    decreases height, n + 1,
{
    if n == 0 {
        Seq::empty()
    } else {
        children_pairs(file, entries, (n - 1) as nat, height) + tree_pairs(
            file,
            child_page(entries, n - 1),
            height,
        )
    }
}

/// The number of leaves of the tree below `page`.
pub open spec fn leaf_total(file: Seq<u8>, page: nat, height: nat) -> nat
    decreases height, 0nat,
{
    if height == 0 {
        1
    } else {
        let entries = entries_of(page_bytes(file, page));
        children_leaves(file, entries, entries.len(), (height - 1) as nat)
    }
}

/// The number of leaves below the first `n` children of a routing page.
pub open spec fn children_leaves(
    file: Seq<u8>,
    entries: Seq<EntryView>,
    n: nat,
    height: nat,
) -> nat
    decreases height, n + 1,
{
    if n == 0 {
        0
    } else {
        children_leaves(file, entries, (n - 1) as nat, height) + leaf_total(
            file,
            child_page(entries, n - 1),
            height,
        )
    }
}

/// Every entry of a routing page leads to a child.
proof fn lemma_routing_entries(page: Seq<u8>)
    requires
        decode_header(page) matches Ok(h) && is_routing(h),
        all_entries(page) is Ok,
    ensures
        forall|i: int|
            0 <= i < entries_of(page).len() ==> child_of(#[trigger] entries_of(page)[i]) is Some,
{
    lemma_all_entries_index(page);
    assert forall|i: int| 0 <= i < entries_of(page).len() implies child_of(
        #[trigger] entries_of(page)[i],
    ) is Some by {
        assert(entry_at(page, i as nat) == Ok::<Option<EntryView>, Error>(
            Some(entries_of(page)[i]),
        ));
    }
}

/// A tree has a leaf.
proof fn lemma_leaf_total_positive(
    file: Seq<u8>,
    page: nat,
    height: nat,
    lo: Seq<u8>,
    hi: Option<Seq<u8>>,
    link: nat,
)
    requires
        tree_ok(file, page, height, lo, hi, link),
    ensures
        leaf_total(file, page, height) >= 1,
    decreases height,
{
    if height > 0 {
        let entries = entries_of(page_bytes(file, page));
        let last = entries.len() - 1;
        assert(tree_ok(
            file,
            child_page(entries, last),
            (height - 1) as nat,
            child_lo(entries, last, lo),
            child_hi(entries, last, hi),
            child_link(file, entries, last, (height - 1) as nat, link),
        ));
        lemma_leaf_total_positive(
            file,
            child_page(entries, last),
            (height - 1) as nat,
            child_lo(entries, last, lo),
            child_hi(entries, last, hi),
            child_link(file, entries, last, (height - 1) as nat, link),
        );
    }
}

/// The leftmost leaf below a well-formed tree is a leaf of the file.
proof fn lemma_leftmost_is_leaf(
    file: Seq<u8>,
    page: nat,
    height: nat,
    lo: Seq<u8>,
    hi: Option<Seq<u8>>,
    link: nat,
)
    requires
        tree_ok(file, page, height, lo, hi, link),
    ensures
        leftmost(file, page, height) < page_count(file),
        header_at(file, leftmost(file, page, height)) matches Ok(h) && h.is_leaf(),
    decreases height,
{
    if height > 0 {
        let entries = entries_of(page_bytes(file, page));
        assert(tree_ok(
            file,
            child_page(entries, 0),
            (height - 1) as nat,
            child_lo(entries, 0, lo),
            child_hi(entries, 0, hi),
            child_link(file, entries, 0, (height - 1) as nat, link),
        ));
        lemma_leftmost_is_leaf(
            file,
            child_page(entries, 0),
            (height - 1) as nat,
            child_lo(entries, 0, lo),
            child_hi(entries, 0, hi),
            child_link(file, entries, 0, (height - 1) as nat, link),
        );
    }
}

/// From the top of a well-formed tree the walk moves down to its leftmost
/// leaf, with one page change for each level.
proof fn lemma_settle_tree(
    file: Seq<u8>,
    page: nat,
    height: nat,
    lo: Seq<u8>,
    hi: Option<Seq<u8>>,
    link: nat,
    budget: nat,
)
    requires
        tree_ok(file, page, height, lo, hi, link),
        budget >= height,
    ensures
        settle(file, Cursor { page, entry: 0, budget }) == Ok::<Cursor, Error>(
            Cursor {
                page: leftmost(file, page, height),
                entry: 0,
                budget: (budget - height) as nat,
            },
        ),
    decreases height,
{
    if height > 0 {
        let bytes = page_bytes(file, page);
        let entries = entries_of(bytes);
        lemma_all_entries_index(bytes);
        lemma_routing_entries(bytes);
        assert(entry_at(bytes, 0) == Ok::<Option<EntryView>, Error>(Some(entries[0])));
        assert(child_of(entries[0]) is Some);
        assert(first_child(bytes) == Ok::<u32, Error>(child_of(entries[0])->Some_0));
        assert(tree_ok(
            file,
            child_page(entries, 0),
            (height - 1) as nat,
            child_lo(entries, 0, lo),
            child_hi(entries, 0, hi),
            child_link(file, entries, 0, (height - 1) as nat, link),
        ));
        lemma_settle_tree(
            file,
            child_page(entries, 0),
            (height - 1) as nat,
            child_lo(entries, 0, lo),
            child_hi(entries, 0, hi),
            child_link(file, entries, 0, (height - 1) as nat, link),
            (budget - 1) as nat,
        );
    }
}

/// Each child of a routing page of a well-formed tree is a well-formed tree.
proof fn lemma_child_ok(
    file: Seq<u8>,
    page: nat,
    height: nat,
    lo: Seq<u8>,
    hi: Option<Seq<u8>>,
    link: nat,
    i: int,
)
    requires
        tree_ok(file, page, height, lo, hi, link),
        height > 0,
        0 <= i < entries_of(page_bytes(file, page)).len(),
    ensures
        tree_ok(
            file,
            child_page(entries_of(page_bytes(file, page)), i),
            (height - 1) as nat,
            child_lo(entries_of(page_bytes(file, page)), i, lo),
            child_hi(entries_of(page_bytes(file, page)), i, hi),
            child_link(file, entries_of(page_bytes(file, page)), i, (height - 1) as nat, link),
        ),
{
    let entries = entries_of(page_bytes(file, page));
    assert(tree_ok(
        file,
        child_page(entries, i),
        (height - 1) as nat,
        child_lo(entries, i, lo),
        child_hi(entries, i, hi),
        child_link(file, entries, i, (height - 1) as nat, link),
    ));
}

/// The pairs of a well-formed tree are strictly ascending by key, and their
/// keys lie in the range of the tree.
pub proof fn lemma_tree_sorted(
    file: Seq<u8>,
    page: nat,
    height: nat,
    lo: Seq<u8>,
    hi: Option<Seq<u8>>,
    link: nat,
)
    requires
        tree_ok(file, page, height, lo, hi, link),
    ensures
        ascending(tree_pairs(file, page, height)),
        keys_within(tree_pairs(file, page, height), lo, hi),
    decreases height, entries_of(page_bytes(file, page)).len() + 1,
{
    let bytes = page_bytes(file, page);
    let entries = entries_of(bytes);
    if height == 0 {
        let pairs = leaf_pairs(bytes);
        assert forall|i: int, j: int| 0 <= i < j < pairs.len() implies lex_lt(
            #[trigger] pairs[i].0,
            #[trigger] pairs[j].0,
        ) by {
            assert(lex_lt(key_at(entries, i), key_at(entries, j)));
        }
        assert forall|i: int| 0 <= i < pairs.len() implies within(
            #[trigger] pairs[i].0,
            lo,
            hi,
        ) by {
            assert(within(key_at(entries, i), lo, hi));
        }
    } else {
        lemma_children_sorted(file, page, height, lo, hi, link, entries.len());
    }
}

/// The pairs below the first `m` children of a routing page of a well-formed
/// tree are strictly ascending by key, and their keys lie between the lower
/// end of the page's range and the upper end of the last of these children.
proof fn lemma_children_sorted(
    file: Seq<u8>,
    page: nat,
    height: nat,
    lo: Seq<u8>,
    hi: Option<Seq<u8>>,
    link: nat,
    m: nat,
)
    requires
        tree_ok(file, page, height, lo, hi, link),
        height > 0,
        1 <= m <= entries_of(page_bytes(file, page)).len(),
    ensures
        ascending(
            children_pairs(file, entries_of(page_bytes(file, page)), m, (height - 1) as nat),
        ),
        keys_within(
            children_pairs(file, entries_of(page_bytes(file, page)), m, (height - 1) as nat),
            lo,
            child_hi(entries_of(page_bytes(file, page)), m - 1, hi),
        ),
    decreases height, m,
{
    let entries = entries_of(page_bytes(file, page));
    let below = (height - 1) as nat;
    let last = m - 1;
    let own = tree_pairs(file, child_page(entries, last), below);
    lemma_child_ok(file, page, height, lo, hi, link, last);
    lemma_tree_sorted(
        file,
        child_page(entries, last),
        below,
        child_lo(entries, last, lo),
        child_hi(entries, last, hi),
        child_link(file, entries, last, below, link),
    );
    if m == 1 {
        assert(children_pairs(file, entries, 0, below) =~= Seq::<Pair>::empty());
        assert(children_pairs(file, entries, 1, below) =~= own);
    } else {
        lemma_children_sorted(file, page, height, lo, hi, link, (m - 1) as nat);
        let before = children_pairs(file, entries, (m - 1) as nat, below);
        let all = children_pairs(file, entries, m, below);
        let sep = separator(entries, last);
        let top = child_hi(entries, last, hi);
        assert(all == before + own);
        assert(within(sep, lo, None));
        assert forall|i: int| 0 <= i < before.len() implies lex_lt(
            (#[trigger] before[i]).0,
            sep,
        ) && within(before[i].0, lo, top) by {
            assert(within(before[i].0, lo, child_hi(entries, last - 1, hi)));
            if top is Some {
                if last + 1 < entries.len() {
                    assert(lex_lt(sep, separator(entries, last + 1)));
                    lemma_lex_lt_le(sep, separator(entries, last + 1));
                } else {
                    assert(lex_le(separator(entries, last), hi->Some_0));
                }
                lemma_lex_lt_then_le(before[i].0, sep, top->Some_0);
            }
        }
        assert forall|i: int| 0 <= i < own.len() implies lex_le(sep, (#[trigger] own[i]).0)
            && within(own[i].0, lo, top) by {
            assert(within(own[i].0, child_lo(entries, last, lo), top));
            lemma_lex_transitive(lo, sep, own[i].0);
        }
        assert forall|i: int| 0 <= i < all.len() implies within((#[trigger] all[i]).0, lo, top) by {
            if i < before.len() {
                assert(all[i] == before[i]);
            } else {
                assert(all[i] == own[i - before.len()]);
            }
        }
        assert forall|i: int, j: int| 0 <= i < j < all.len() implies lex_lt(
            #[trigger] all[i].0,
            #[trigger] all[j].0,
        ) by {
            if j < before.len() {
                assert(all[i] == before[i] && all[j] == before[j]);
            } else if i >= before.len() {
                assert(all[i] == own[i - before.len()] && all[j] == own[j - before.len()]);
            } else {
                assert(all[i] == before[i] && all[j] == own[j - before.len()]);
                lemma_lex_lt_then_le(before[i].0, sep, own[j - before.len()].0);
            }
        }
    }
}

/// From the leftmost leaf of a well-formed tree the walk yields the pairs of
/// the tree and then goes on behind the sibling link of its last leaf. It
/// changes pages once between each two leaves.
pub proof fn lemma_scan_tree(
    file: Seq<u8>,
    page: nat,
    height: nat,
    lo: Seq<u8>,
    hi: Option<Seq<u8>>,
    link: nat,
    budget: nat,
)
    requires
        header_at(file, 0) matches Ok(h) && h is Metadata,
        tree_ok(file, page, height, lo, hi, link),
        budget + 1 >= leaf_total(file, page, height),
    ensures
        scan_from(file, Cursor { page: leftmost(file, page, height), entry: 0, budget })
            == followed_by(
            tree_pairs(file, page, height),
            resume(file, link, budget + 1 - leaf_total(file, page, height)),
        ),
    decreases height, entries_of(page_bytes(file, page)).len() + 1,
{
    let bytes = page_bytes(file, page);
    let entries = entries_of(bytes);
    if height == 0 {
        lemma_scan_leaf(file, page, lo, hi, 0, budget);
        let pairs = leaf_pairs(bytes);
        assert(pairs.subrange(0, pair_total(entries)) =~= pairs);
    } else {
        lemma_scan_children(file, page, height, lo, hi, link, budget, entries.len());
    }
}

/// From the leftmost leaf below a routing page of a well-formed tree the
/// walk yields the pairs below the first `m` children and then goes on
/// behind the sibling link of the last leaf below them.
proof fn lemma_scan_children(
    file: Seq<u8>,
    page: nat,
    height: nat,
    lo: Seq<u8>,
    hi: Option<Seq<u8>>,
    link: nat,
    budget: nat,
    m: nat,
)
    requires
        header_at(file, 0) matches Ok(h) && h is Metadata,
        tree_ok(file, page, height, lo, hi, link),
        height > 0,
        1 <= m <= entries_of(page_bytes(file, page)).len(),
        budget + 1 >= children_leaves(
            file,
            entries_of(page_bytes(file, page)),
            m,
            (height - 1) as nat,
        ),
    ensures
        scan_from(
            file,
            Cursor {
                page: leftmost(
                    file,
                    child_page(entries_of(page_bytes(file, page)), 0),
                    (height - 1) as nat,
                ),
                entry: 0,
                budget,
            },
        ) == followed_by(
            children_pairs(file, entries_of(page_bytes(file, page)), m, (height - 1) as nat),
            resume(
                file,
                child_link(
                    file,
                    entries_of(page_bytes(file, page)),
                    m - 1,
                    (height - 1) as nat,
                    link,
                ),
                budget + 1 - children_leaves(
                    file,
                    entries_of(page_bytes(file, page)),
                    m,
                    (height - 1) as nat,
                ),
            ),
        ),
    decreases height, m,
{
    let entries = entries_of(page_bytes(file, page));
    let below = (height - 1) as nat;
    let last = m - 1;
    let child = child_page(entries, last);
    let own = tree_pairs(file, child, below);
    lemma_child_ok(file, page, height, lo, hi, link, last);
    if m == 1 {
        assert(children_leaves(file, entries, 0, below) == 0);
        assert(children_pairs(file, entries, 0, below) =~= Seq::<Pair>::empty());
        assert(children_pairs(file, entries, 1, below) =~= own);
        lemma_scan_tree(
            file,
            child,
            below,
            child_lo(entries, last, lo),
            child_hi(entries, last, hi),
            child_link(file, entries, last, below, link),
            budget,
        );
    } else {
        lemma_scan_children(file, page, height, lo, hi, link, budget, (m - 1) as nat);
        let before = children_pairs(file, entries, (m - 1) as nat, below);
        let left: int = budget + 1 - children_leaves(file, entries, (m - 1) as nat, below);
        assert(child_link(file, entries, last - 1, below, link) == leftmost(file, child, below));
        lemma_resume_tree(
            file,
            child,
            below,
            child_lo(entries, last, lo),
            child_hi(entries, last, hi),
            child_link(file, entries, last, below, link),
            left,
        );
        lemma_followed_by_twice(
            before,
            own,
            resume(
                file,
                child_link(file, entries, last, below, link),
                left - leaf_total(file, child, below),
            ),
        );
    }
}

/// Where the walk goes on behind a sibling link that leads to the leftmost
/// leaf of a well-formed tree, it yields the pairs of that tree next.
proof fn lemma_resume_tree(
    file: Seq<u8>,
    page: nat,
    height: nat,
    lo: Seq<u8>,
    hi: Option<Seq<u8>>,
    link: nat,
    left: int,
)
    requires
        header_at(file, 0) matches Ok(h) && h is Metadata,
        tree_ok(file, page, height, lo, hi, link),
        left >= leaf_total(file, page, height),
    ensures
        resume(file, leftmost(file, page, height), left) == followed_by(
            tree_pairs(file, page, height),
            resume(file, link, left - leaf_total(file, page, height)),
        ),
    decreases height, entries_of(page_bytes(file, page)).len() + 2,
{
    let first = leftmost(file, page, height);
    lemma_leaf_total_positive(file, page, height, lo, hi, link);
    lemma_leftmost_is_leaf(file, page, height, lo, hi, link);
    assert(first != 0);
    let c = Cursor { page: first, entry: 0, budget: (left - 1) as nat };
    lemma_settled_on_leaf(file, c);
    assert(resume(file, first, left) == scan_from(file, c));
    lemma_scan_tree(file, page, height, lo, hi, link, (left - 1) as nat);
}

/// The index of the last of the first `n` entries whose separator does not
/// exceed the key; -1 where there is none.
pub open spec fn route_index(entries: Seq<EntryView>, key: Seq<u8>, n: nat) -> int
    decreases n,
{
    if n == 0 {
        -1
    } else if lex_le(separator(entries, n - 1), key) {
        n - 1
    } else {
        route_index(entries, key, (n - 1) as nat)
    }
}

/// Routing picks the child of the last entry whose separator does not exceed
/// the key.
proof fn lemma_route_index(entries: Seq<EntryView>, key: Seq<u8>, n: nat)
    requires
        n <= entries.len(),
        forall|i: int| 0 <= i < entries.len() ==> child_of(#[trigger] entries[i]) is Some,
    ensures
        -1 <= route_index(entries, key, n) < n,
        route_index(entries, key, n) >= 0 ==> lex_le(
            separator(entries, route_index(entries, key, n)),
            key,
        ),
        forall|j: int|
            route_index(entries, key, n) < j < n ==> lex_lt(key, #[trigger] separator(entries, j)),
        last_child_le(entries, key, n) == (if route_index(entries, key, n) < 0 {
            None
        } else {
            child_of(entries[route_index(entries, key, n)])
        }),
    decreases n,
{
    if n > 0 {
        lemma_route_index(entries, key, (n - 1) as nat);
        assert(child_of(entries[n - 1]) is Some);
    }
}

/// Among the pairs below the first `m` children of a routing page, a key is
/// found only below the child to which the page routes it.
proof fn lemma_children_value(
    file: Seq<u8>,
    page: nat,
    height: nat,
    lo: Seq<u8>,
    hi: Option<Seq<u8>>,
    link: nat,
    key: Seq<u8>,
    to: int,
    m: nat,
)
    requires
        tree_ok(file, page, height, lo, hi, link),
        height > 0,
        0 <= to < entries_of(page_bytes(file, page)).len(),
        m <= entries_of(page_bytes(file, page)).len(),
        to >= 1 ==> lex_le(separator(entries_of(page_bytes(file, page)), to), key),
        forall|j: int|
            to < j < entries_of(page_bytes(file, page)).len() ==> lex_lt(
                key,
                #[trigger] separator(entries_of(page_bytes(file, page)), j),
            ),
    ensures
        value_of(
            children_pairs(file, entries_of(page_bytes(file, page)), m, (height - 1) as nat),
            key,
        ) == (if to < m {
            value_of(
                tree_pairs(
                    file,
                    child_page(entries_of(page_bytes(file, page)), to),
                    (height - 1) as nat,
                ),
                key,
            )
        } else {
            None
        }),
    decreases m,
{
    let entries = entries_of(page_bytes(file, page));
    let below = (height - 1) as nat;
    if m > 0 {
        let last = m - 1;
        let own = tree_pairs(file, child_page(entries, last), below);
        let before = children_pairs(file, entries, (m - 1) as nat, below);
        lemma_children_value(file, page, height, lo, hi, link, key, to, (m - 1) as nat);
        lemma_child_ok(file, page, height, lo, hi, link, last);
        lemma_tree_sorted(
            file,
            child_page(entries, last),
            below,
            child_lo(entries, last, lo),
            child_hi(entries, last, hi),
            child_link(file, entries, last, below, link),
        );
        lemma_value_of_concat(before, own, key);
        if last < to {
            let next = separator(entries, last + 1);
            if last + 1 < to {
                assert(lex_lt(next, separator(entries, to)));
                lemma_lex_lt_le(next, separator(entries, to));
                lemma_lex_transitive(next, separator(entries, to), key);
            }
            assert(lex_le(next, key));
            lemma_value_of_outside(
                own,
                child_lo(entries, last, lo),
                child_hi(entries, last, hi),
                key,
            );
        } else if last > to {
            assert(lex_lt(key, separator(entries, last)));
            lemma_value_of_outside(
                own,
                child_lo(entries, last, lo),
                child_hi(entries, last, hi),
                key,
            );
        }
    }
}

/// On a well-formed tree the lookup of a key of the tree's range returns the
/// value of the pair with the key, and nothing where the tree has no such
/// pair. It follows one child link for each level.
pub proof fn lemma_lookup_tree(
    file: Seq<u8>,
    key: Seq<u8>,
    page: nat,
    height: nat,
    lo: Seq<u8>,
    hi: Option<Seq<u8>>,
    link: nat,
    fuel: nat,
)
    requires
        tree_ok(file, page, height, lo, hi, link),
        within(key, lo, hi),
        fuel >= height,
    ensures
        lookup_from(file, key, page, fuel) == Ok::<Option<Seq<u8>>, Error>(
            value_of(tree_pairs(file, page, height), key),
        ),
    decreases height,
{
    let bytes = page_bytes(file, page);
    let entries = entries_of(bytes);
    if height == 0 {
        lemma_leaf_lookup(bytes, lo, hi, key);
    } else {
        let below = (height - 1) as nat;
        lemma_all_entries_index(bytes);
        lemma_routing_entries(bytes);
        lemma_route_index(entries, key, entries.len());
        let to = route_index(entries, key, entries.len());
        lemma_lex_transitive(separator(entries, 0), lo, key);
        if to < 0 {
            assert(lex_lt(key, separator(entries, 0)));
        }
        assert(route(bytes, key) == Ok::<Option<u32>, Error>(child_of(entries[to])));
        lemma_child_ok(file, page, height, lo, hi, link, to);
        if to + 1 < entries.len() {
            assert(lex_lt(key, separator(entries, to + 1)));
        }
        lemma_lookup_tree(
            file,
            key,
            child_page(entries, to),
            below,
            child_lo(entries, to, lo),
            child_hi(entries, to, hi),
            child_link(file, entries, to, below, link),
            (fuel - 1) as nat,
        );
        lemma_children_value(file, page, height, lo, hi, link, key, to, entries.len());
    }
}

/// The step from a routing page to its first child.
pub open spec fn step_down(file: Seq<u8>) -> spec_fn(nat) -> Option<nat> {
    |page: nat|
        if page < page_count(file) && (header_at(file, page) matches Ok(h) && is_routing(h)) {
            Some(child_page(entries_of(page_bytes(file, page)), 0))
        } else {
            None
        }
}

/// The step from a leaf to the sibling that it names.
pub open spec fn step_sideways(file: Seq<u8>) -> spec_fn(nat) -> Option<nat> {
    |page: nat|
        if page < page_count(file) && (header_at(file, page) matches Ok(h) && h.is_leaf())
            && next_of(page_bytes(file, page)) != 0 {
            Some(next_of(page_bytes(file, page)))
        } else {
            None
        }
}

/// From the top of a well-formed tree, one step down for each level leads to
/// the leftmost leaf, and no further.
proof fn lemma_spine(
    file: Seq<u8>,
    page: nat,
    height: nat,
    lo: Seq<u8>,
    hi: Option<Seq<u8>>,
    link: nat,
)
    requires
        tree_ok(file, page, height, lo, hi, link),
    ensures
        iterate(step_down(file), page, height) == Some(leftmost(file, page, height)),
        iterate(step_down(file), page, height + 1) is None,
    decreases height,
{
    let down = step_down(file);
    if height > 0 {
        let entries = entries_of(page_bytes(file, page));
        lemma_child_ok(file, page, height, lo, hi, link, 0);
        lemma_spine(
            file,
            child_page(entries, 0),
            (height - 1) as nat,
            child_lo(entries, 0, lo),
            child_hi(entries, 0, hi),
            child_link(file, entries, 0, (height - 1) as nat, link),
        );
        assert(down(page) == Some(child_page(entries, 0)));
    } else {
        assert(down(page) is None);
        assert(iterate(down, page, 1) is None);
    }
}

/// Where a way of sibling links ends after `n` steps.
pub open spec fn link_end(link: nat) -> Option<nat> {
    if link != 0 {
        Some(link)
    } else {
        None
    }
}

/// From the leftmost leaf of a well-formed tree, one step sideways for each
/// leaf leads through the leaves of the tree to the sibling of the last one.
proof fn lemma_chain(
    file: Seq<u8>,
    page: nat,
    height: nat,
    lo: Seq<u8>,
    hi: Option<Seq<u8>>,
    link: nat,
)
    requires
        header_at(file, 0) matches Ok(h) && h is Metadata,
        tree_ok(file, page, height, lo, hi, link),
    ensures
        leaf_total(file, page, height) >= 1,
        iterate(
            step_sideways(file),
            leftmost(file, page, height),
            (leaf_total(file, page, height) - 1) as nat,
        ) is Some,
        iterate(
            step_sideways(file),
            leftmost(file, page, height),
            leaf_total(file, page, height),
        ) == link_end(link),
    decreases height, entries_of(page_bytes(file, page)).len() + 1,
{
    let sideways = step_sideways(file);
    let entries = entries_of(page_bytes(file, page));
    if height == 0 {
        assert(sideways(page) == link_end(link));
        assert(iterate(sideways, page, 1) == link_end(link)) by {
            if let Some(next) = sideways(page) {
                assert(iterate(sideways, next, 0) == Some(next));
            }
        }
    } else {
        lemma_chain_children(file, page, height, lo, hi, link, entries.len());
    }
}

/// From the leftmost leaf below a routing page of a well-formed tree, one
/// step sideways for each leaf below the first `m` children leads to the
/// sibling of the last of these leaves.
proof fn lemma_chain_children(
    file: Seq<u8>,
    page: nat,
    height: nat,
    lo: Seq<u8>,
    hi: Option<Seq<u8>>,
    link: nat,
    m: nat,
)
    requires
        header_at(file, 0) matches Ok(h) && h is Metadata,
        tree_ok(file, page, height, lo, hi, link),
        height > 0,
        1 <= m <= entries_of(page_bytes(file, page)).len(),
    ensures
        children_leaves(file, entries_of(page_bytes(file, page)), m, (height - 1) as nat) >= 1,
        iterate(
            step_sideways(file),
            leftmost(file, child_page(entries_of(page_bytes(file, page)), 0), (height - 1) as nat),
            (children_leaves(file, entries_of(page_bytes(file, page)), m, (height - 1) as nat)
                - 1) as nat,
        ) is Some,
        iterate(
            step_sideways(file),
            leftmost(file, child_page(entries_of(page_bytes(file, page)), 0), (height - 1) as nat),
            children_leaves(file, entries_of(page_bytes(file, page)), m, (height - 1) as nat),
        ) == link_end(
            child_link(
                file,
                entries_of(page_bytes(file, page)),
                m - 1,
                (height - 1) as nat,
                link,
            ),
        ),
    decreases height, m,
{
    let sideways = step_sideways(file);
    let entries = entries_of(page_bytes(file, page));
    let below = (height - 1) as nat;
    let last = m - 1;
    let child = child_page(entries, last);
    let first = leftmost(file, child_page(entries, 0), below);
    lemma_child_ok(file, page, height, lo, hi, link, last);
    lemma_chain(
        file,
        child,
        below,
        child_lo(entries, last, lo),
        child_hi(entries, last, hi),
        child_link(file, entries, last, below, link),
    );
    if m == 1 {
        assert(children_leaves(file, entries, 0, below) == 0);
    } else {
        lemma_chain_children(file, page, height, lo, hi, link, (m - 1) as nat);
        let before = children_leaves(file, entries, (m - 1) as nat, below);
        let own = leaf_total(file, child, below);
        lemma_leftmost_is_leaf(
            file,
            child,
            below,
            child_lo(entries, last, lo),
            child_hi(entries, last, hi),
            child_link(file, entries, last, below, link),
        );
        assert(child_link(file, entries, last - 1, below, link) == leftmost(file, child, below));
        assert(iterate(sideways, first, before) == Some(leftmost(file, child, below)));
        lemma_iterate_split(sideways, first, before, own);
        lemma_iterate_split(sideways, first, before, (own - 1) as nat);
    }
}

/// A well-formed tree below a metadata page 0, whose last leaf names no
/// sibling, has fewer levels above its leaves than the file has pages, and no
/// more leaves than the file has pages: on the way down and on the way along
/// the leaves no page comes twice.
pub proof fn lemma_tree_fits(
    file: Seq<u8>,
    page: nat,
    height: nat,
    lo: Seq<u8>,
    hi: Option<Seq<u8>>,
)
    requires
        header_at(file, 0) matches Ok(h) && h is Metadata,
        tree_ok(file, page, height, lo, hi, 0),
    ensures
        height < page_count(file),
        1 <= leaf_total(file, page, height) <= page_count(file),
{
    let count = page_count(file);
    let down = step_down(file);
    let sideways = step_sideways(file);
    let number = |p: nat| p - 1;
    let most = (count - 1) as nat;
    let leaves = leaf_total(file, page, height);
    let first = leftmost(file, page, height);
    assert(count >= 1);
    assert forall|p: nat| down(p) is Some implies 0 <= #[trigger] number(p) < most by {}
    assert forall|p: nat| sideways(p) is Some implies 0 <= #[trigger] number(p) < most by {}
    lemma_spine(file, page, height, lo, hi, 0);
    if height >= count {
        lemma_iterate_split(down, page, count, (height - count) as nat);
        lemma_long_way_for_ever(down, number, page, most, height + 1);
    }
    lemma_chain(file, page, height, lo, hi, 0);
    if leaves > count {
        lemma_iterate_split(sideways, first, count, (leaves - 1 - count) as nat);
        lemma_long_way_for_ever(sideways, number, first, most, leaves);
    }
}

/// The root page that page 0 names, where page 0 is a metadata page.
pub open spec fn root_of(file: Seq<u8>) -> nat {
    match header_at(file, 0) {
        Ok(HeaderView::Metadata { root, .. }) => root as nat,
        _ => 0,
    }
}

/// A well-formed database whose tree stands `height` levels above its
/// leaves.
///
/// The file is made of whole pages and page 0 is its metadata page. Below
/// the root that it names stands a well-formed tree for all keys, whose last
/// leaf names no sibling.
pub open spec fn well_formed(file: Seq<u8>, height: nat) -> bool {
    &&& whole_pages(file)
    &&& header_at(file, 0) matches Ok(h) && h is Metadata
    &&& tree_ok(file, root_of(file), height, Seq::empty(), None, 0)
}

/// The pairs that a well-formed database holds, in the order of its leaves.
pub open spec fn table(file: Seq<u8>, height: nat) -> Seq<Pair> {
    tree_pairs(file, root_of(file), height)
}

/// The walk over a well-formed database yields the pairs of its tree, leaf
/// by leaf, and ends without failure behind the last leaf.
pub proof fn lemma_scan_is_table(file: Seq<u8>, height: nat)
    requires
        well_formed(file, height),
    ensures
        scan(file) == Ok::<Seq<Pair>, Error>(table(file, height)),
{
    let root = root_of(file);
    let count = page_count(file);
    let empty = Seq::<u8>::empty();
    lemma_tree_fits(file, root, height, empty, None);
    lemma_settle_tree(file, root, height, empty, None, 0, (2 * count - 1) as nat);
    lemma_leftmost_is_leaf(file, root, height, empty, None, 0);
    let leaf = Cursor {
        page: leftmost(file, root, height),
        entry: 0,
        budget: (2 * count - 1 - height) as nat,
    };
    assert(settle(file, start(file)) == Ok::<Cursor, Error>(leaf)) by {
        assert(way_down(header_at(file, 0)->Ok_0, page_bytes(file, 0)) == Ok::<
            Option<u32>,
            Error,
        >(Some(root as u32)));
    }
    lemma_settled_on_leaf(file, leaf);
    assert(scan_from(file, start(file)) == scan_from(file, leaf));
    lemma_scan_tree(file, root, height, empty, None, 0, leaf.budget);
    assert(table(file, height) + Seq::<Pair>::empty() =~= table(file, height));
}

/// Sorted order: the walk over a well-formed database yields its pairs in
/// strictly ascending order of their keys, so that no key comes twice.
pub proof fn lemma_scan_ascending(file: Seq<u8>, height: nat)
    requires
        well_formed(file, height),
    ensures
        scan(file) matches Ok(pairs) && ascending(pairs),
{
    lemma_scan_is_table(file, height);
    lemma_tree_sorted(file, root_of(file), height, Seq::empty(), None, 0);
}

/// Lookup and walk agree: on a well-formed database the lookup of any key
/// returns what a search for the key among the pairs of the walk finds: the
/// value of the pair with that key, and nothing for a key that the walk does
/// not yield, be it smaller than all keys, larger, or between two of them.
pub proof fn lemma_lookup_matches_scan(file: Seq<u8>, height: nat, key: Seq<u8>)
    requires
        well_formed(file, height),
    ensures
        scan(file) matches Ok(pairs) && lookup(file, key) == Ok::<Option<Seq<u8>>, Error>(
            value_of(pairs, key),
        ),
{
    lemma_scan_is_table(file, height);
    lemma_tree_fits(file, root_of(file), height, Seq::empty(), None);
    assert(find_root(file, 0) == Ok::<u32, Error>(root_of(file) as u32));
    lemma_lookup_tree(
        file,
        key,
        root_of(file),
        height,
        Seq::empty(),
        None,
        0,
        page_count(file),
    );
}

/// Every pair that the walk over a well-formed database yields is found by
/// the lookup of its key.
pub proof fn lemma_lookup_finds_scanned(file: Seq<u8>, height: nat, i: int)
    requires
        well_formed(file, height),
        scan(file) is Ok,
        0 <= i < scan(file)->Ok_0.len(),
    ensures
        lookup(file, scan(file)->Ok_0[i].0) == Ok::<Option<Seq<u8>>, Error>(
            Some(scan(file)->Ok_0[i].1),
        ),
{
    let pairs = scan(file)->Ok_0;
    let key = pairs[i].0;
    lemma_scan_ascending(file, height);
    lemma_lookup_matches_scan(file, height, key);
    assert forall|j: int| 0 <= j < i implies (#[trigger] pairs[j]).0 != key by {
        assert(lex_lt(pairs[j].0, pairs[i].0));
        lemma_lex_lt_le(pairs[j].0, pairs[i].0);
    }
    lemma_value_of_first(pairs, key, i);
}

/// A key that the walk over a well-formed database does not yield is not
/// found by the lookup.
pub proof fn lemma_lookup_misses_unscanned(file: Seq<u8>, height: nat, key: Seq<u8>)
    requires
        well_formed(file, height),
        scan(file) is Ok,
        forall|i: int|
            0 <= i < scan(file)->Ok_0.len() ==> (#[trigger] scan(file)->Ok_0[i]).0 != key,
    ensures
        lookup(file, key) == Ok::<Option<Seq<u8>>, Error>(None),
{
    lemma_lookup_matches_scan(file, height, key);
    lemma_value_of_absent(scan(file)->Ok_0, key);
}

} // verus!
