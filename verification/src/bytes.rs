//! Little-endian integers and the byte-lexicographic order on byte strings.

use vstd::prelude::*;

verus! {

/// The unsigned integer that the two bytes of `s` starting at `at` hold,
/// least significant byte first.
pub open spec fn le_u16(s: Seq<u8>, at: int) -> int {
    s[at] as int + 256 * (s[at + 1] as int)
}

/// The unsigned integer that the four bytes of `s` starting at `at` hold,
/// least significant byte first.
pub open spec fn le_u32(s: Seq<u8>, at: int) -> int {
    le_u16(s, at) + 65536 * le_u16(s, at + 2)
}

/// The unsigned integer that the eight bytes of `s` starting at `at` hold,
/// least significant byte first.
pub open spec fn le_u64(s: Seq<u8>, at: int) -> int {
    le_u32(s, at) + 4294967296 * le_u32(s, at + 4)
}

/// The unsigned integer that the sixteen bytes of `s` starting at `at` hold,
/// least significant byte first.
pub open spec fn le_u128(s: Seq<u8>, at: int) -> int {
    le_u64(s, at) + 18446744073709551616 * le_u64(s, at + 8)
}

/// Reads a little-endian `u16` at byte offset `at`.
pub(crate) fn read_u16(data: &[u8], at: usize) -> (r: u16)
    requires
        at + 2 <= data.len(),
    ensures
        r == le_u16(data@, at as int),
{
    let lo: u16 = data[at] as u16;
    let hi: u16 = data[at + 1] as u16;
    lo + 256 * hi
}

/// Reads a little-endian `u32` at byte offset `at`.
pub(crate) fn read_u32(data: &[u8], at: usize) -> (r: u32)
    requires
        at + 4 <= data.len(),
    ensures
        r == le_u32(data@, at as int),
{
    let lo: u32 = read_u16(data, at) as u32;
    let hi: u32 = read_u16(data, at + 2) as u32;
    lo + 65536 * hi
}

/// Reads a little-endian `u64` at byte offset `at`.
pub(crate) fn read_u64(data: &[u8], at: usize) -> (r: u64)
    requires
        at + 8 <= data.len(),
    ensures
        r == le_u64(data@, at as int),
{
    let lo: u64 = read_u32(data, at) as u64;
    let hi: u64 = read_u32(data, at + 4) as u64;
    lo + 4294967296 * hi
}

/// Reads a little-endian `u128` at byte offset `at`.
pub(crate) fn read_u128(data: &[u8], at: usize) -> (r: u128)
    requires
        at + 16 <= data.len(),
    ensures
        r == le_u128(data@, at as int),
{
    let lo: u128 = read_u64(data, at) as u128;
    let hi: u128 = read_u64(data, at + 8) as u128;
    lo + 18446744073709551616 * hi
}

/// The `width` bytes that hold `value`, least significant byte first.
pub open spec fn le_bytes(value: int, width: nat) -> Seq<u8>
    decreases width,
{
    if width == 0 {
        Seq::empty()
    } else {
        seq![(value % 256) as u8] + le_bytes(value / 256, (width - 1) as nat)
    }
}

/// 256 to the power of `width`: the number of values that `width` bytes hold.
pub open spec fn byte_range(width: nat) -> int
    decreases width,
{
    if width == 0 {
        1
    } else {
        256 * byte_range((width - 1) as nat)
    }
}

/// The bytes of a value are those of its low part, followed by those of its
/// high part.
proof fn lemma_le_bytes_split(lo: int, hi: int, width: nat, more: nat)
    requires
        0 <= lo < byte_range(width),
    ensures
        le_bytes(lo + byte_range(width) * hi, width + more) == le_bytes(lo, width) + le_bytes(
            hi,
            more,
        ),
    decreases width,
{
    if width == 0 {
        assert(le_bytes(lo, 0) + le_bytes(hi, more) =~= le_bytes(hi, more));
    } else {
        let below = (width - 1) as nat;
        let rest = byte_range(below) * hi;
        assert(byte_range(width) * hi == 256 * rest) by (nonlinear_arith)
            requires
                byte_range(width) == 256 * byte_range(below),
                rest == byte_range(below) * hi,
        ;
        lemma_le_bytes_split(lo / 256, hi, below, more);
        assert((lo + 256 * rest) % 256 == lo % 256);
        assert((lo + 256 * rest) / 256 == lo / 256 + rest);
        assert(le_bytes(lo + byte_range(width) * hi, width + more) =~= le_bytes(lo, width)
            + le_bytes(hi, more));
    }
}

/// The two bytes that a decoded `u16` encodes are the bytes it was decoded
/// from.
pub proof fn lemma_le_bytes_u16(s: Seq<u8>, at: int)
    requires
        0 <= at,
        at + 2 <= s.len(),
    ensures
        0 <= le_u16(s, at) < byte_range(2),
        le_bytes(le_u16(s, at), 2) == s.subrange(at, at + 2),
{
    reveal_with_fuel(le_bytes, 3);
    reveal_with_fuel(byte_range, 3);
    assert(le_bytes(le_u16(s, at), 2) =~= s.subrange(at, at + 2));
}

/// The four bytes that a decoded `u32` encodes are the bytes it was decoded
/// from.
pub proof fn lemma_le_bytes_u32(s: Seq<u8>, at: int)
    requires
        0 <= at,
        at + 4 <= s.len(),
    ensures
        0 <= le_u32(s, at) < byte_range(4),
        le_bytes(le_u32(s, at), 4) == s.subrange(at, at + 4),
{
    reveal_with_fuel(byte_range, 5);
    lemma_le_bytes_u16(s, at);
    lemma_le_bytes_u16(s, at + 2);
    lemma_le_bytes_split(le_u16(s, at), le_u16(s, at + 2), 2, 2);
    assert(s.subrange(at, at + 2) + s.subrange(at + 2, at + 4) =~= s.subrange(at, at + 4));
}

/// The eight bytes that a decoded `u64` encodes are the bytes it was decoded
/// from.
pub proof fn lemma_le_bytes_u64(s: Seq<u8>, at: int)
    requires
        0 <= at,
        at + 8 <= s.len(),
    ensures
        0 <= le_u64(s, at) < byte_range(8),
        le_bytes(le_u64(s, at), 8) == s.subrange(at, at + 8),
{
    reveal_with_fuel(byte_range, 9);
    lemma_le_bytes_u32(s, at);
    lemma_le_bytes_u32(s, at + 4);
    lemma_le_bytes_split(le_u32(s, at), le_u32(s, at + 4), 4, 4);
    assert(s.subrange(at, at + 4) + s.subrange(at + 4, at + 8) =~= s.subrange(at, at + 8));
}

/// The sixteen bytes that a decoded `u128` encodes are the bytes it was
/// decoded from.
pub proof fn lemma_le_bytes_u128(s: Seq<u8>, at: int)
    requires
        0 <= at,
        at + 16 <= s.len(),
    ensures
        0 <= le_u128(s, at) < byte_range(16),
        le_bytes(le_u128(s, at), 16) == s.subrange(at, at + 16),
{
    reveal_with_fuel(byte_range, 17);
    lemma_le_bytes_u64(s, at);
    lemma_le_bytes_u64(s, at + 8);
    lemma_le_bytes_split(le_u64(s, at), le_u64(s, at + 8), 8, 8);
    assert(s.subrange(at, at + 8) + s.subrange(at + 8, at + 16) =~= s.subrange(at, at + 16));
}

/// Whether the suffix of `a` from index `i` on comes before the suffix of `b`
/// from `i` on, or equals it, in byte-lexicographic order.
pub open spec fn lex_le_from(a: Seq<u8>, b: Seq<u8>, i: int) -> bool
    decreases a.len() - i,
{
    if i >= a.len() {
        true
    } else if i >= b.len() {
        false
    } else if a[i] != b[i] {
        a[i] < b[i]
    } else {
        lex_le_from(a, b, i + 1)
    }
}

/// Byte-lexicographic order: `a` comes before `b` or equals it. The first
/// byte in which the two differ decides; if there is none, the shorter one
/// comes first.
pub open spec fn lex_le(a: Seq<u8>, b: Seq<u8>) -> bool {
    lex_le_from(a, b, 0)
}

/// Strict byte-lexicographic order: `a` comes before `b`.
pub open spec fn lex_lt(a: Seq<u8>, b: Seq<u8>) -> bool {
    !lex_le(b, a)
}

proof fn lemma_lex_total_from(a: Seq<u8>, b: Seq<u8>, i: int)
    requires
        0 <= i,
    ensures
        lex_le_from(a, b, i) || lex_le_from(b, a, i),
    decreases a.len() - i,
{
    if i < a.len() && i < b.len() && a[i] == b[i] {
        lemma_lex_total_from(a, b, i + 1);
    }
}

proof fn lemma_lex_transitive_from(a: Seq<u8>, b: Seq<u8>, c: Seq<u8>, i: int)
    requires
        0 <= i,
        lex_le_from(a, b, i),
        lex_le_from(b, c, i),
    ensures
        lex_le_from(a, c, i),
    decreases a.len() - i,
{
    if i < a.len() && a[i] == b[i] && b[i] == c[i] {
        lemma_lex_transitive_from(a, b, c, i + 1);
    }
}

proof fn lemma_lex_reflexive_from(a: Seq<u8>, i: int)
    requires
        0 <= i,
    ensures
        lex_le_from(a, a, i),
    decreases a.len() - i,
{
    if i < a.len() {
        lemma_lex_reflexive_from(a, i + 1);
    }
}

/// Every byte string comes before itself or equals it.
pub proof fn lemma_lex_reflexive(a: Seq<u8>)
    ensures
        lex_le(a, a),
{
    lemma_lex_reflexive_from(a, 0);
}

/// Of two byte strings one comes before the other, or they are equal.
pub proof fn lemma_lex_total(a: Seq<u8>, b: Seq<u8>)
    ensures
        lex_le(a, b) || lex_le(b, a),
{
    lemma_lex_total_from(a, b, 0);
}

/// The byte-lexicographic order is transitive.
pub proof fn lemma_lex_transitive(a: Seq<u8>, b: Seq<u8>, c: Seq<u8>)
    requires
        lex_le(a, b),
        lex_le(b, c),
    ensures
        lex_le(a, c),
{
    lemma_lex_transitive_from(a, b, c, 0);
}

/// What comes strictly before also comes before or equals.
pub proof fn lemma_lex_lt_le(a: Seq<u8>, b: Seq<u8>)
    requires
        lex_lt(a, b),
    ensures
        lex_le(a, b),
        a != b,
{
    lemma_lex_total(a, b);
    lemma_lex_reflexive(a);
}

/// What comes strictly before something that comes before or equals a third
/// comes strictly before the third.
pub proof fn lemma_lex_lt_then_le(a: Seq<u8>, b: Seq<u8>, c: Seq<u8>)
    requires
        lex_lt(a, b),
        lex_le(b, c),
    ensures
        lex_lt(a, c),
{
    if lex_le(c, a) {
        lemma_lex_transitive(b, c, a);
    }
}

/// Whether `a` comes before `b` or equals it in byte-lexicographic order.
pub fn bytes_le(a: &[u8], b: &[u8]) -> (r: bool)
    ensures
        r == lex_le(a@, b@),
{
    let mut i: usize = 0;
    while i < a.len() && i < b.len()
        invariant
            i <= a.len(),
            i <= b.len(),
            lex_le(a@, b@) == lex_le_from(a@, b@, i as int),
        decreases a.len() - i,
    {
        if a[i] != b[i] {
            return a[i] < b[i];
        }
        i += 1;
    }
    a.len() <= b.len()
}

/// Whether `a` and `b` hold the same bytes.
pub fn bytes_eq(a: &[u8], b: &[u8]) -> (r: bool)
    ensures
        r == (a@ == b@),
{
    if a.len() != b.len() {
        return false;
    }
    let mut i: usize = 0;
    while i < a.len()
        invariant
            i <= a.len(),
            a.len() == b.len(),
            forall|j: int| 0 <= j < i ==> a@[j] == b@[j],
        decreases a.len() - i,
    {
        if a[i] != b[i] {
            return false;
        }
        i += 1;
    }
    assert(a@ =~= b@);
    true
}

} // verus!
