//! Ways made of steps: where a step leads on from a place or ends there, and
//! why a way that is longer than there are places never ends.

use vstd::prelude::*;
use vstd::assert_by_contradiction;
use vstd::set_lib::{lemma_int_range, lemma_len_subset, set_int_range};

verus! {

/// Where `n` steps lead from `from`; `None` where the steps have come to an
/// end before.
pub open spec fn iterate<S>(next: spec_fn(S) -> Option<S>, from: S, n: nat) -> Option<S>
    decreases n,
{
    if n == 0 {
        Some(from)
    } else {
        match next(from) {
            Some(then) => iterate(next, then, (n - 1) as nat),
            None => None,
        }
    }
}

/// A way of `a + b` steps is a way of `a` steps followed by one of `b`.
pub(crate) proof fn lemma_iterate_split<S>(next: spec_fn(S) -> Option<S>, from: S, a: nat, b: nat)
    ensures
        iterate(next, from, a + b) == (match iterate(next, from, a) {
            Some(mid) => iterate(next, mid, b),
            None => None,
        }),
    decreases a,
{
    if a > 0 {
        if let Some(then) = next(from) {
            lemma_iterate_split(next, then, (a - 1) as nat, b);
        }
    }
}

/// A way that has come to an end has a last place: the first one from which
/// no step leads on.
pub(crate) proof fn lemma_iterate_end<S>(next: spec_fn(S) -> Option<S>, from: S, m: nat) -> (n: nat)
    requires
        iterate(next, from, m) is None,
    ensures
        n < m,
        iterate(next, from, n) matches Some(end) && next(end) is None,
    decreases m,
{
    match next(from) {
        None => 0,
        Some(then) => {
            let rest = lemma_iterate_end(next, then, (m - 1) as nat);
            rest + 1
        },
    }
}

/// A way that comes to one place twice goes on for ever.
proof fn lemma_iterate_for_ever<S>(
    next: spec_fn(S) -> Option<S>,
    from: S,
    i: nat,
    j: nat,
    n: nat,
)
    requires
        i < j,
        iterate(next, from, j) is Some,
        iterate(next, from, i) == iterate(next, from, j),
    ensures
        iterate(next, from, n) is Some,
    decreases n,
{
    if n <= j {
        lemma_iterate_split(next, from, n, (j - n) as nat);
    } else {
        let back = (n - (j - i)) as nat;
        lemma_iterate_for_ever(next, from, i, j, back);
        lemma_iterate_split(next, from, j, (n - j) as nat);
        lemma_iterate_split(next, from, i, (n - j) as nat);
    }
}

/// Among more numbers than `m`, all below `m`, one comes twice.
proof fn lemma_one_comes_twice(s: Seq<int>, m: nat) -> (found: (int, int))
    requires
        s.len() > m,
        forall|k: int| 0 <= k < s.len() ==> 0 <= #[trigger] s[k] < m,
    ensures
        0 <= found.0 < found.1 < s.len(),
        s[found.0] == s[found.1],
{
    assert_by_contradiction!(!s.no_duplicates(), {
        let below = set_int_range(0, m as int);
        s.unique_seq_to_set();
        lemma_int_range(0, m as int);
        assert forall|x: int| s.to_set().contains(x) implies below.contains(x) by {
            let k = choose|k: int| 0 <= k < s.len() && s[k] == x;
            assert(0 <= s[k] < m);
        }
        lemma_len_subset(s.to_set(), below);
    });
    let (i, j) = choose|i: int, j: int|
        0 <= i < s.len() && 0 <= j < s.len() && i != j && s[i] == s[j];
    if i < j {
        (i, j)
    } else {
        (j, i)
    }
}

/// Where steps lead on only from places that are numbered below `m`, each
/// with a number of its own, a way of more than `m` steps never ends.
pub(crate) proof fn lemma_long_way_for_ever<S>(
    next: spec_fn(S) -> Option<S>,
    number: spec_fn(S) -> int,
    from: S,
    m: nat,
    n: nat,
)
    requires
        iterate(next, from, m + 1) is Some,
        forall|s: S| next(s) is Some ==> 0 <= #[trigger] number(s) < m,
        forall|s: S, t: S| #[trigger] number(s) == #[trigger] number(t) ==> s == t,
    ensures
        iterate(next, from, n) is Some,
{
    let places = Seq::new(m + 1, |k: int| number(iterate(next, from, k as nat)->Some_0));
    assert forall|k: int| 0 <= k < places.len() implies 0 <= #[trigger] places[k] < m by {
        lemma_iterate_split(next, from, k as nat, 1);
        lemma_iterate_split(next, from, (k + 1) as nat, (m - k) as nat);
        let here = iterate(next, from, k as nat)->Some_0;
        assert(iterate(next, here, 1) is Some);
        assert(next(here) is Some);
    }
    let (i, j) = lemma_one_comes_twice(places, m);
    lemma_iterate_split(next, from, i as nat, (m + 1 - i) as nat);
    lemma_iterate_split(next, from, j as nat, (m + 1 - j) as nat);
    assert(number(iterate(next, from, i as nat)->Some_0) == number(
        iterate(next, from, j as nat)->Some_0,
    ));
    lemma_iterate_for_ever(next, from, i as nat, j as nat, n);
}

} // verus!
