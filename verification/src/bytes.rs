//! Positions of single bytes in a byte sequence.
use vstd::prelude::*;

verus! {

/// Ends a record.
pub const CHR_NL: u8 = 10;

/// Separates the station from its temperature.
pub const CHR_CM: u8 = 59;

/// The position of the first `c` in `s` at or after `from`; `s.len()` if there is none.
pub open spec fn next_at(s: Seq<u8>, c: u8, from: int) -> int
    decreases s.len() - from,
{
    if from >= s.len() {
        s.len() as int
    } else if s[from] == c {
        from
    } else {
        next_at(s, c, from + 1)
    }
}

/// What `next_at` returns is the first match, and nothing before it matches.
pub proof fn lemma_next_at(s: Seq<u8>, c: u8, from: int)
    requires
        0 <= from <= s.len(),
    ensures
        from <= next_at(s, c, from) <= s.len(),
        next_at(s, c, from) < s.len() ==> s[next_at(s, c, from)] == c,
        forall|j: int| from <= j < next_at(s, c, from) ==> #[trigger] s[j] != c,
    decreases s.len() - from,
{
    if from < s.len() && s[from] != c {
        lemma_next_at(s, c, from + 1);
        assert forall|j: int| from <= j < next_at(s, c, from) implies #[trigger] s[j] != c by {
            if j > from {
                assert(s[j] != c);
            }
        }
    }
}

/// A match with no earlier match is what `next_at` returns.
pub proof fn lemma_next_at_is(s: Seq<u8>, c: u8, from: int, i: int)
    requires
        0 <= from <= i <= s.len(),
        i < s.len() ==> s[i] == c,
        forall|j: int| from <= j < i ==> #[trigger] s[j] != c,
    ensures
        next_at(s, c, from) == i,
{
    lemma_next_at(s, c, from);
    let n = next_at(s, c, from);
    if n < i {
        assert(s[n] != c);
    } else if i < n {
        assert(s[i] == c);
    }
}

/// Bytes that do not match may be skipped.
pub proof fn lemma_next_at_skip(s: Seq<u8>, c: u8, from: int, to: int)
    requires
        0 <= from <= to <= s.len(),
        forall|j: int| from <= j < to ==> #[trigger] s[j] != c,
    ensures
        next_at(s, c, from) == next_at(s, c, to),
{
    lemma_next_at(s, c, to);
    assert forall|j: int| from <= j < next_at(s, c, to) implies #[trigger] s[j] != c by {
        if j >= to {
            assert(s[j] != c);
        }
    }
    lemma_next_at_is(s, c, from, next_at(s, c, to));
}

/// Looking in a part of a sequence finds what looking in the whole finds, if that lies in
/// the part.
pub proof fn lemma_next_at_sub(s: Seq<u8>, c: u8, lo: int, hi: int, from: int)
    requires
        0 <= lo <= hi <= s.len(),
        0 <= from <= hi - lo,
    ensures
        next_at(s.subrange(lo, hi), c, from) == (if next_at(s, c, lo + from) < hi {
            next_at(s, c, lo + from) - lo
        } else {
            hi - lo
        }),
{
    let t = s.subrange(lo, hi);
    lemma_next_at(s, c, lo + from);
    let n = next_at(s, c, lo + from);
    let r = if n < hi {
        n - lo
    } else {
        hi - lo
    };
    assert forall|j: int| from <= j < r implies #[trigger] t[j] != c by {
        assert(s[lo + j] != c);
    }
    lemma_next_at_is(t, c, from, r);
}

} // verus!
