//! Why the lookup and the walk may be cut off: a lookup that follows more
//! child links than the file has pages, and a walk that changes pages more
//! than twice as often, never end.

use vstd::prelude::*;
use crate::database::{header_at, is_routing, lookup_from, page_bytes, page_count, route};
use crate::error::Error;
use crate::entry::EntryView;
use crate::page::{entry_count, HeaderView};
use crate::steps::{iterate, lemma_iterate_end, lemma_long_way_for_ever};
use crate::walk::{
    advance, followed_by, hop, lemma_followed_by_twice, lemma_settled_on_leaf, pair_at, scan,
    scan_from, settle, step, way_down, Cursor, Pair,
};

verus! {

/// The child to which the lookup of `key` goes on from `page`; `None` where
/// the lookup ends at `page`, with a value, without one, or with a failure.
pub open spec fn descent(file: Seq<u8>, key: Seq<u8>, page: nat) -> Option<nat> {
    if page >= page_count(file) {
        None
    } else {
        match header_at(file, page) {
            Err(_) => None,
            Ok(h) => if is_routing(h) {
                match route(page_bytes(file, page), key) {
                    Ok(Some(child)) => Some(child as nat),
                    _ => None,
                }
            } else {
                None
            },
        }
    }
}

/// The step of the lookup of `key` from a page to the child that it goes on
/// to.
pub open spec fn descents(file: Seq<u8>, key: Seq<u8>) -> spec_fn(nat) -> Option<nat> {
    |page: nat| descent(file, key, page)
}

/// A lookup that has fuel for the whole of its way returns what the page at
/// the end of the way gives.
proof fn lemma_lookup_ends(file: Seq<u8>, key: Seq<u8>, page: nat, n: nat, fuel: nat)
    requires
        iterate(descents(file, key), page, n) matches Some(end) && descent(file, key, end)
            is None,
        n <= fuel,
    ensures
        lookup_from(file, key, page, fuel) == lookup_from(
            file,
            key,
            iterate(descents(file, key), page, n)->Some_0,
            0,
        ),
    decreases n,
{
    if n > 0 {
        let child = descent(file, key, page)->Some_0;
        lemma_lookup_ends(file, key, child, (n - 1) as nat, (fuel - 1) as nat);
    }
}

/// A lookup whose way is longer than its fuel is cut off.
proof fn lemma_lookup_cut_off(file: Seq<u8>, key: Seq<u8>, page: nat, fuel: nat)
    requires
        iterate(descents(file, key), page, fuel + 1) is Some,
    ensures
        lookup_from(file, key, page, fuel) == Err::<Option<Seq<u8>>, Error>(
            Error::TraversalError,
        ),
    decreases fuel,
{
    if fuel > 0 {
        let child = descent(file, key, page)->Some_0;
        lemma_lookup_cut_off(file, key, child, (fuel - 1) as nat);
    }
}

/// More fuel than the file has pages changes no lookup: whatever is cut off
/// after as many child links as the file has pages would be cut off after
/// any number of them, and whatever ends within that many links ends as it
/// would with more.
pub proof fn lemma_lookup_fuel_suffices(file: Seq<u8>, key: Seq<u8>, page: nat, fuel: nat)
    requires
        fuel >= page_count(file),
    ensures
        lookup_from(file, key, page, fuel) == lookup_from(file, key, page, page_count(file)),
{
    let count = page_count(file);
    let next = descents(file, key);
    if iterate(next, page, count + 1) is Some {
        let number = |p: nat| p as int;
        assert forall|p: nat| next(p) is Some implies 0 <= #[trigger] number(p) < count by {}
        lemma_long_way_for_ever(next, number, page, count, fuel + 1);
        lemma_lookup_cut_off(file, key, page, fuel);
        lemma_lookup_cut_off(file, key, page, count);
    } else {
        let n = lemma_iterate_end(next, page, count + 1);
        lemma_lookup_ends(file, key, page, n, fuel);
        lemma_lookup_ends(file, key, page, n, count);
    }
}

/// A page as the walk comes to it: from above, on its way down to a leaf,
/// or from the left, along a sibling link.
pub struct Arrival {
    pub page: nat,
    pub down: bool,
}

/// How the walk leaves a page: at its end, with a failure, or for another
/// page.
pub enum Leaving {
    End,
    Fail(Error),
    Change(Arrival),
}

/// What the walk does between two page changes: the pairs that it yields on
/// the page, and how it leaves the page.
pub struct Leg {
    pub pairs: Seq<Pair>,
    pub leaving: Leaving,
}

/// The leg with one more pair in front.
pub open spec fn after_pair(pair: Pair, leg: Leg) -> Leg {
    Leg { pairs: seq![pair] + leg.pairs, leaving: leg.leaving }
}

/// How the walk leaves a page along its sibling link.
pub open spec fn leave_sideways(h: HeaderView) -> Leaving {
    match h.sibling() {
        None => Leaving::End,
        Some(next) => Leaving::Change(Arrival { page: next as nat, down: false }),
    }
}

/// How the walk leaves a page that is no leaf on its way down.
pub open spec fn leave_down(h: HeaderView, page: Seq<u8>) -> Leaving {
    match way_down(h, page) {
        Err(e) => Leaving::Fail(e),
        Ok(Some(next)) => Leaving::Change(Arrival { page: next as nat, down: true }),
        Ok(None) => Leaving::End,
    }
}

/// The rest of an entry count behind the entry index `2 * i`.
pub open spec fn entries_left(page: Seq<u8>, i: nat) -> nat {
    if 2 * i <= entry_count(page) {
        (entry_count(page) - 2 * i) as nat
    } else {
        0
    }
}

/// The leg of the walk on a leaf from its `i`-th pair on.
pub open spec fn leaf_leg(h: HeaderView, page: Seq<u8>, i: nat) -> Leg
    decreases entries_left(page, i),
{
    match pair_at(page, 2 * i) {
        Err(e) => Leg { pairs: Seq::empty(), leaving: Leaving::Fail(e) },
        Ok(None) => Leg { pairs: Seq::empty(), leaving: leave_sideways(h) },
        Ok(Some((k, v))) => after_pair((k.data(), v.data()), leaf_leg(h, page, i + 1)),
    }
}

/// The leg of the walk on the page to which it has come.
///
/// On a leaf it yields the pairs of the leaf and leaves along the sibling
/// link. Another page that it comes to from above it leaves on the way down.
/// Of another page that it comes to from the left it yields the first two
/// entries as a pair and leaves on the way down; where the page has no such
/// pair, it leaves along the sibling link.
pub open spec fn leg(file: Seq<u8>, at: Arrival) -> Leg {
    let page = page_bytes(file, at.page);
    if at.page >= page_count(file) {
        Leg { pairs: Seq::empty(), leaving: Leaving::Fail(Error::TraversalError) }
    } else {
        match header_at(file, at.page) {
            Err(e) => Leg { pairs: Seq::empty(), leaving: Leaving::Fail(e) },
            Ok(h) => if way_down(h, page) == Ok::<Option<u32>, Error>(None) {
                leaf_leg(h, page, 0)
            } else if at.down {
                Leg { pairs: Seq::empty(), leaving: leave_down(h, page) }
            } else {
                match pair_at(page, 0) {
                    Err(e) => Leg { pairs: Seq::empty(), leaving: Leaving::Fail(e) },
                    Ok(None) => Leg { pairs: Seq::empty(), leaving: leave_sideways(h) },
                    Ok(Some((k, v))) => Leg {
                        pairs: seq![(k.data(), v.data())],
                        leaving: leave_down(h, page),
                    },
                }
            },
        }
    }
}

/// The page to which the walk goes on from the page that it has come to.
pub open spec fn onward(file: Seq<u8>, at: Arrival) -> Option<Arrival> {
    match leg(file, at).leaving {
        Leaving::Change(next) => Some(next),
        _ => None,
    }
}

/// The step of the walk from a page to the page that it goes on to.
pub open spec fn changes(file: Seq<u8>) -> spec_fn(Arrival) -> Option<Arrival> {
    |at: Arrival| onward(file, at)
}

/// What the walk yields from the middle of a leg on, with `budget` page
/// changes to spend: the pairs of the rest of the leg, and behind a page
/// change those of the legs that follow.
pub open spec fn finish(file: Seq<u8>, rest: Leg, budget: nat) -> Result<Seq<Pair>, Error>
    decreases budget, 0nat,
{
    match rest.leaving {
        Leaving::End => Ok(rest.pairs),
        Leaving::Fail(e) => Err(e),
        Leaving::Change(next) => if budget == 0 {
            Err(Error::TraversalError)
        } else {
            followed_by(rest.pairs, run(file, next, (budget - 1) as nat))
        },
    }
}

/// What the walk yields from a page on, leg by leg, with `budget` page
/// changes to spend.
pub open spec fn run(file: Seq<u8>, at: Arrival, budget: nat) -> Result<Seq<Pair>, Error>
    decreases budget, 1nat,
{
    finish(file, leg(file, at), budget)
}

/// A pair in front of a leg is a pair in front of what the leg comes to.
proof fn lemma_finish_after_pair(file: Seq<u8>, pair: Pair, rest: Leg, budget: nat)
    ensures
        finish(file, after_pair(pair, rest), budget) == followed_by(
            seq![pair],
            finish(file, rest, budget),
        ),
{
    if let Leaving::Change(next) = rest.leaving {
        if budget > 0 {
            lemma_followed_by_twice(
                seq![pair],
                rest.pairs,
                run(file, next, (budget - 1) as nat),
            );
        }
    }
}

/// Nothing in front changes nothing.
proof fn lemma_followed_by_nothing(rest: Result<Seq<Pair>, Error>)
    ensures
        followed_by(Seq::empty(), rest) == rest,
{
    if let Ok(pairs) = rest {
        assert(Seq::<Pair>::empty() + pairs =~= pairs);
    }
}

/// Two cursors from which the walk takes the same step yield the same.
proof fn lemma_same_step(file: Seq<u8>, a: Cursor, b: Cursor)
    requires
        step(file, a) == step(file, b),
    ensures
        scan_from(file, a) == scan_from(file, b),
{
}

/// From the `i`-th pair of a leaf on, the walk yields what is left of the
/// leg on the leaf, and then what it yields from the sibling on.
proof fn lemma_run_leaf(file: Seq<u8>, page: nat, i: nat, budget: nat)
    requires
        page < page_count(file),
        header_at(file, page) matches Ok(h) && h.is_leaf(),
    ensures
        scan_from(file, Cursor { page, entry: 2 * i, budget }) == finish(
            file,
            leaf_leg(header_at(file, page)->Ok_0, page_bytes(file, page), i),
            budget,
        ),
    decreases budget, entries_left(page_bytes(file, page), i), 0nat,
{
    let h = header_at(file, page)->Ok_0;
    let bytes = page_bytes(file, page);
    let c = Cursor { page, entry: 2 * i, budget };
    lemma_settled_on_leaf(file, c);
    match pair_at(bytes, 2 * i) {
        Err(e) => {},
        Ok(None) => {
            if let Some(next) = h.sibling() {
                if budget > 0 {
                    let there = Cursor { page: next as nat, entry: 0, budget: (budget - 1) as nat };
                    assert(advance(file, c) == advance(file, there));
                    lemma_run_sideways(file, next as nat, (budget - 1) as nat);
                    lemma_followed_by_nothing(
                        run(
                            file,
                            Arrival { page: next as nat, down: false },
                            (budget - 1) as nat,
                        ),
                    );
                }
            }
        },
        Ok(Some((k, v))) => {
            let next = Cursor { page, entry: 2 * (i + 1), budget };
            assert(advance(file, c) == Ok::<Option<(EntryView, EntryView, Cursor)>, Error>(
                Some((k, v, next)),
            ));
            lemma_run_leaf(file, page, i + 1, budget);
            lemma_finish_after_pair(file, (k.data(), v.data()), leaf_leg(h, bytes, i + 1), budget);
        },
    }
}

/// From a page that it has come to from above, the walk yields what its legs
/// yield.
proof fn lemma_run_down(file: Seq<u8>, page: nat, budget: nat)
    ensures
        scan_from(file, Cursor { page, entry: 0, budget }) == run(
            file,
            Arrival { page, down: true },
            budget,
        ),
    decreases budget, entry_count(page_bytes(file, page)) + 1, 1nat,
{
    let c = Cursor { page, entry: 0, budget };
    let bytes = page_bytes(file, page);
    if page < page_count(file) {
        if let Ok(h) = header_at(file, page) {
            match way_down(h, bytes) {
                Err(e) => {},
                Ok(None) => {
                    lemma_run_leaf(file, page, 0, budget);
                },
                Ok(Some(next)) => {
                    if budget > 0 {
                        let there = Cursor {
                            page: next as nat,
                            entry: 0,
                            budget: (budget - 1) as nat,
                        };
                        assert(settle(file, c) == settle(file, there));
                        lemma_same_step(file, c, there);
                        lemma_run_down(file, next as nat, (budget - 1) as nat);
                        lemma_followed_by_nothing(
                            run(
                                file,
                                Arrival { page: next as nat, down: true },
                                (budget - 1) as nat,
                            ),
                        );
                    }
                },
            }
        }
    }
}

/// From a page that it has come to from the left, the walk yields what its
/// legs yield.
proof fn lemma_run_sideways(file: Seq<u8>, page: nat, budget: nat)
    ensures
        hop(file, Cursor { page, entry: 0, budget }) == run(
            file,
            Arrival { page, down: false },
            budget,
        ),
    decreases budget, entry_count(page_bytes(file, page)) + 1, 1nat,
{
    let c = Cursor { page, entry: 0, budget };
    let bytes = page_bytes(file, page);
    if page < page_count(file) {
        if let Ok(h) = header_at(file, page) {
            if way_down(h, bytes) == Ok::<Option<u32>, Error>(None) {
                lemma_settled_on_leaf(file, c);
                lemma_run_leaf(file, page, 0, budget);
            } else {
                match pair_at(bytes, 0) {
                    Err(e) => {},
                    Ok(None) => {
                        if let Some(next) = h.sibling() {
                            if budget > 0 {
                                let there = Cursor {
                                    page: next as nat,
                                    entry: 0,
                                    budget: (budget - 1) as nat,
                                };
                                assert(advance(file, c) == advance(file, there));
                                lemma_run_sideways(file, next as nat, (budget - 1) as nat);
                                lemma_followed_by_nothing(
                                    run(
                                        file,
                                        Arrival { page: next as nat, down: false },
                                        (budget - 1) as nat,
                                    ),
                                );
                            }
                        }
                    },
                    Ok(Some((k, v))) => {
                        let behind = Cursor { page, entry: 2, budget };
                        assert(advance(file, c) == Ok::<
                            Option<(EntryView, EntryView, Cursor)>,
                            Error,
                        >(Some((k, v, behind))));
                        if let Ok(Some(next)) = way_down(h, bytes) {
                            if budget > 0 {
                                let there = Cursor {
                                    page: next as nat,
                                    entry: 0,
                                    budget: (budget - 1) as nat,
                                };
                                assert(settle(file, behind) == settle(file, there));
                                lemma_same_step(file, behind, there);
                                lemma_run_down(file, next as nat, (budget - 1) as nat);
                            }
                        }
                    },
                }
            }
        }
    }
}

/// A walk that has budget for all of its page changes yields the same with
/// any budget that is no less.
proof fn lemma_run_ends(file: Seq<u8>, at: Arrival, n: nat, budget: nat, other: nat)
    requires
        iterate(changes(file), at, n) matches Some(end) && onward(file, end) is None,
        n <= budget,
        n <= other,
    ensures
        run(file, at, budget) == run(file, at, other),
    decreases n,
{
    if n > 0 {
        let next = onward(file, at)->Some_0;
        lemma_run_ends(file, next, (n - 1) as nat, (budget - 1) as nat, (other - 1) as nat);
    }
}

/// A walk that changes pages more often than its budget allows is cut off.
proof fn lemma_run_cut_off(file: Seq<u8>, at: Arrival, budget: nat)
    requires
        iterate(changes(file), at, budget + 1) is Some,
    ensures
        run(file, at, budget) == Err::<Seq<Pair>, Error>(Error::TraversalError),
    decreases budget,
{
    if budget > 0 {
        let next = onward(file, at)->Some_0;
        lemma_run_cut_off(file, next, (budget - 1) as nat);
    }
}

/// The number of an arrival at a page from which the walk goes on: twice the
/// page number, and one more for an arrival from above.
pub open spec fn arrival_number(at: Arrival) -> int {
    2 * at.page + (if at.down {
        1int
    } else {
        0int
    })
}

/// More budget than two page changes for each page of the file changes no
/// walk: whatever is cut off after that many page changes would be cut off
/// after any number of them, and whatever ends within that many ends as it
/// would with more.
pub proof fn lemma_walk_budget_suffices(file: Seq<u8>, budget: nat)
    requires
        budget >= 2 * page_count(file),
    ensures
        scan_from(file, Cursor { page: 0, entry: 0, budget }) == scan(file),
{
    let most = 2 * page_count(file);
    let next = changes(file);
    let at = Arrival { page: 0, down: true };
    lemma_run_down(file, 0, budget);
    lemma_run_down(file, 0, most);
    if iterate(next, at, most + 1) is Some {
        let number = |a: Arrival| arrival_number(a);
        assert forall|a: Arrival| next(a) is Some implies 0 <= #[trigger] number(a) < most by {
            assert(a.page < page_count(file));
        }
        assert forall|a: Arrival, b: Arrival| #[trigger]
            number(a) == #[trigger] number(b) implies a == b by {
            assert(a.page == b.page && a.down == b.down);
        }
        lemma_long_way_for_ever(next, number, at, most, budget + 1);
        lemma_run_cut_off(file, at, budget);
        lemma_run_cut_off(file, at, most);
    } else {
        let n = lemma_iterate_end(next, at, most + 1);
        lemma_run_ends(file, at, n, budget, most);
    }
}

} // verus!
