//! Decimal text as bytes.
use vstd::prelude::*;
use crate::bytes;

verus! {

/// `,`.
pub const CHR_SEP: u8 = 44;

/// `.`.
pub const CHR_DOT: u8 = 46;

/// `-`.
pub const CHR_NEG: u8 = 45;

/// `0`.
pub const CHR_ZERO: u8 = 48;

/// `n` in decimal.
pub open spec fn dec(n: nat) -> Seq<u8>
    decreases n,
{
    if n < 10 {
        seq![(48 + n) as u8]
    } else {
        dec(n / 10).push((48 + n % 10) as u8)
    }
}

/// Appends `n` in decimal.
pub fn push_dec(out: &mut Vec<u8>, n: u64)
    ensures
        final(out)@ == old(out)@ + dec(n as nat),
    decreases n,
{
    if n < 10 {
        out.push(48 + n as u8);
        assert(out@ =~= old(out)@ + dec(n as nat));
    } else {
        push_dec(out, n / 10);
        out.push(48 + (n % 10) as u8);
        assert(out@ =~= old(out)@ + dec(n as nat));
    }
}

/// The length of a decimal is at least one, and all its bytes are digits.
pub proof fn lemma_dec(n: nat)
    ensures
        dec(n).len() >= 1,
        forall|i: int| 0 <= i < dec(n).len() ==> 48 <= #[trigger] dec(n)[i] <= 57,
    decreases n,
{
    if n >= 10 {
        lemma_dec(n / 10);
    }
}

/// `a` tenths, with one digit after the dot.
pub open spec fn fixed1(neg: bool, a: nat) -> Seq<u8> {
    (if neg {
        seq![CHR_NEG]
    } else {
        seq![]
    }) + dec(a / 10) + seq![CHR_DOT, (48 + a % 10) as u8]
}

/// Appends `a` tenths, with one digit after the dot.
pub fn push_fixed1(out: &mut Vec<u8>, neg: bool, a: u64)
    ensures
        final(out)@ == old(out)@ + fixed1(neg, a as nat),
{
    if neg {
        out.push(CHR_NEG);
    }
    push_dec(out, a / 10);
    out.push(CHR_DOT);
    out.push(48 + (a % 10) as u8);
    assert(out@ =~= old(out)@ + fixed1(neg, a as nat));
}

/// `a` tenths as a number is shown: no dot where no digit stands behind it.
pub open spec fn shown_tenths(neg: bool, a: nat) -> Seq<u8> {
    (if neg {
        seq![CHR_NEG]
    } else {
        seq![]
    }) + dec(a / 10) + (if a % 10 == 0 {
        seq![]
    } else {
        seq![CHR_DOT, (48 + a % 10) as u8]
    })
}

/// Appends `a` tenths as a number is shown.
pub fn push_shown_tenths(out: &mut Vec<u8>, neg: bool, a: u64)
    ensures
        final(out)@ == old(out)@ + shown_tenths(neg, a as nat),
{
    if neg {
        out.push(CHR_NEG);
    }
    push_dec(out, a / 10);
    if a % 10 != 0 {
        out.push(CHR_DOT);
        out.push(48 + (a % 10) as u8);
    }
    assert(out@ =~= old(out)@ + shown_tenths(neg, a as nat));
}

/// Separators between groups of three, counted from the end.
pub open spec fn grouped(s: Seq<u8>) -> Seq<u8>
    decreases s.len(),
{
    if s.len() <= 3 {
        s
    } else {
        grouped(s.take(s.len() - 3)).push(CHR_SEP) + s.skip(s.len() - 3)
    }
}

/// What stands before the first dot.
pub open spec fn whole_part(s: Seq<u8>) -> Seq<u8> {
    s.take(bytes::next_at(s, CHR_DOT, 0))
}

/// There is a dot.
pub open spec fn has_fraction(s: Seq<u8>) -> bool {
    bytes::next_at(s, CHR_DOT, 0) < s.len()
}

/// What stands between the first dot and the next, or the end.
pub open spec fn fraction_part(s: Seq<u8>) -> Seq<u8> {
    let i = bytes::next_at(s, CHR_DOT, 0);
    s.subrange(i + 1, bytes::next_at(s, CHR_DOT, i + 1))
}

/// Cut to `decimal` digits, or filled up to them with zeros.
pub open spec fn fitted(s: Seq<u8>, decimal: nat) -> Seq<u8> {
    Seq::new(decimal, |i: int| if i < s.len() { s[i] } else { CHR_ZERO })
}

/// The position of the first `c` at or after `from`, by looking at each byte.
pub fn index_of(data: &[u8], c: u8, from: usize) -> (i: usize)
    requires
        from <= data.len(),
    ensures
        i == bytes::next_at(data@, c, from as int),
        from <= i <= data.len(),
{
    let mut i: usize = from;
    while i < data.len() && data[i] != c
        invariant
            from <= i <= data.len(),
            forall|j: int| from <= j < i ==> #[trigger] data@[j] != c,
        decreases data.len() - i,
    {
        i = i + 1;
    }
    proof {
        bytes::lemma_next_at_is(data@, c, from as int, i as int);
    }
    i
}

/// Appends a part of `data`.
pub fn push_range(out: &mut Vec<u8>, data: &[u8], from: usize, to: usize)
    requires
        from <= to <= data.len(),
    ensures
        final(out)@ == old(out)@ + data@.subrange(from as int, to as int),
{
    let mut i: usize = from;
    while i < to
        invariant
            from <= i <= to <= data.len(),
            out@ =~= old(out)@ + data@.subrange(from as int, i as int),
        decreases to - i,
    {
        out.push(data[i]);
        i = i + 1;
    }
}

/// Appends the bytes of `text` with separators between groups of three, counted from the end.
pub fn push_grouped(out: &mut Vec<u8>, text: &[u8], to: usize)
    requires
        to <= text.len(),
    ensures
        final(out)@ == old(out)@ + grouped(text@.take(to as int)),
{
    let mut i: usize = to % 3;
    push_range(out, text, 0, i);
    assert(text@.subrange(0, i as int) =~= text@.take(i as int));
    while to - i >= 3
        invariant
            i <= to <= text.len(),
            (to - i) % 3 == 0,
            out@ =~= old(out)@ + grouped(text@.take(i as int)),
        decreases to - i,
    {
        if i != 0 {
            out.push(CHR_SEP);
        }
        push_range(out, text, i, i + 3);
        proof {
            let t = text@.take(i + 3);
            assert(t.take(i as int) =~= text@.take(i as int));
            assert(t.skip(i as int) =~= text@.subrange(i as int, i + 3));
            if i == 0 {
                assert(t =~= text@.subrange(0, 3));
            }
        }
        i = i + 3;
    }
}

/// Appends the digits of `data` in a range, cut to `decimal` or filled up with zeros.
pub fn push_fitted(out: &mut Vec<u8>, data: &[u8], from: usize, to: usize, decimal: usize)
    requires
        from <= to <= data.len(),
    ensures
        final(out)@ == old(out)@ + fitted(data@.subrange(from as int, to as int), decimal as nat),
{
    let ghost f = data@.subrange(from as int, to as int);
    let mut i: usize = 0;
    while i < decimal
        invariant
            from <= to <= data.len(),
            f == data@.subrange(from as int, to as int),
            i <= decimal,
            out@ =~= old(out)@ + fitted(f, i as nat),
        decreases decimal - i,
    {
        if i < to - from {
            out.push(data[from + i]);
        } else {
            out.push(CHR_ZERO);
        }
        i = i + 1;
    }
}

proof fn lemma_filter_all(s: Seq<u8>, keep: spec_fn(u8) -> bool)
    requires
        forall|i: int| 0 <= i < s.len() ==> #[trigger] keep(s[i]),
    ensures
        s.filter(keep) == s,
    decreases s.len(),
{
    reveal(Seq::filter);
    if s.len() > 0 {
        assert forall|i: int| 0 <= i < s.drop_last().len() implies #[trigger] keep(
            s.drop_last()[i],
        ) by {
            assert(keep(s[i]));
        }
        lemma_filter_all(s.drop_last(), keep);
        assert(keep(s[s.len() - 1]));
        assert(s.drop_last().push(s.last()) =~= s);
    }
}

/// Whatever is grouped reads the same once the separators are taken out again.
pub proof fn law_grouped_keeps_digits(s: Seq<u8>)
    requires
        forall|i: int| 0 <= i < s.len() ==> #[trigger] s[i] != CHR_SEP,
    ensures
        grouped(s).filter(|b: u8| b != CHR_SEP) == s,
    decreases s.len(),
{
    let keep = |b: u8| b != CHR_SEP;
    if s.len() > 3 {
        let head = s.take(s.len() - 3);
        let tail = s.skip(s.len() - 3);
        assert forall|i: int| 0 <= i < tail.len() implies #[trigger] keep(tail[i]) by {
            assert(s[s.len() - 3 + i] != CHR_SEP);
        }
        law_grouped_keeps_digits(head);
        let g = grouped(head).push(CHR_SEP);
        Seq::filter_distributes_over_add(g, tail, keep);
        lemma_filter_all(tail, keep);
        assert(g.filter(keep) == grouped(head).filter(keep)) by {
            reveal(Seq::filter);
            assert(g.drop_last() =~= grouped(head));
        }
        assert(head + tail =~= s);
    } else {
        lemma_filter_all(s, keep);
    }
}

/// A byte that is a decimal digit.
pub open spec fn is_digit(b: u8) -> bool {
    48 <= b <= 57
}

/// The number that digits stand for: each place counts ten times the next.
pub open spec fn value_of(d: Seq<u8>) -> int
    decreases d.len(),
{
    if d.len() == 0 {
        0
    } else {
        10 * value_of(d.drop_last()) + (d.last() - 48)
    }
}

/// A decimal is made of digits, stands for its number, and has no zero in front.
pub proof fn law_dec_reads_back(n: nat)
    ensures
        value_of(dec(n)) == n,
        dec(n).len() >= 1,
        forall|i: int| 0 <= i < dec(n).len() ==> is_digit(#[trigger] dec(n)[i]),
        dec(n).len() > 1 ==> dec(n)[0] != 48,
        n > 0 ==> dec(n)[0] != 48,
    decreases n,
{
    let d = dec(n);
    if n < 10 {
        reveal_with_fuel(value_of, 2);
        assert(d.drop_last() =~= seq![]);
    } else {
        law_dec_reads_back(n / 10);
        assert(d.drop_last() =~= dec(n / 10));
    }
}

/// `d` shows `a` tenths: digits without a zero in front of others, a dot, and one digit.
pub open spec fn shows_tenths(d: Seq<u8>, a: nat) -> bool {
    &&& d.len() >= 3
    &&& d[d.len() - 2] == 46
    &&& forall|i: int| 0 <= i < d.len() && i != d.len() - 2 ==> is_digit(#[trigger] d[i])
    &&& d.len() > 3 ==> d[0] != 48
    &&& 10 * value_of(d.take(d.len() - 2)) + (d[d.len() - 1] - 48) == a
}

/// `s` shows `a` tenths, with a sign in front if they are negative.
pub open spec fn shows(s: Seq<u8>, neg: bool, a: nat) -> bool {
    if neg {
        s.len() > 0 && s[0] == 45 && shows_tenths(s.skip(1), a)
    } else {
        shows_tenths(s, a)
    }
}

/// `s` shows `t` tenths.
pub open spec fn shows_signed(s: Seq<u8>, t: int) -> bool {
    &&& t < 0 ==> shows(s, true, (-t) as nat)
    &&& t >= 0 ==> shows(s, false, t as nat)
}

/// What is written with one digit after the dot shows what it was made of.
pub proof fn law_fixed1_shows(neg: bool, a: nat)
    ensures
        shows(fixed1(neg, a), neg, a),
{
    let s = fixed1(neg, a);
    let w = dec(a / 10);
    law_dec_reads_back(a / 10);
    let d = w + seq![46u8, (48 + a % 10) as u8];
    if neg {
        assert(s.skip(1) =~= d);
    } else {
        assert(s =~= d);
    }
    assert(d.take(d.len() - 2) =~= w);
    assert(d[0] == w[0]);
    assert forall|i: int| 0 <= i < d.len() && i != d.len() - 2 implies is_digit(
        #[trigger] d[i],
    ) by {
        if i < w.len() {
            assert(d[i] == w[i]);
        }
    }
    assert(a == 10 * (a / 10) + a % 10);
}

/// Of two numbers of tenths that one text shows, one is the other.
pub proof fn law_shows_one(s: Seq<u8>, m: bool, a: nat, n: bool, b: nat)
    requires
        shows(s, m, a),
        shows(s, n, b),
    ensures
        m == n,
        a == b,
{
    if m != n {
        assert(s[0] == 45);
        assert(is_digit(s[0]));
    }
}

/// Counted from the end, every fourth byte of what is grouped is a separator, and the others are what
/// was grouped, in its order.
pub proof fn law_grouped_places(s: Seq<u8>)
    ensures
        s.len() == 0 ==> grouped(s).len() == 0,
        s.len() > 0 ==> grouped(s).len() == s.len() + (s.len() - 1) / 3,
        forall|j: int|
            0 <= j < grouped(s).len() ==> #[trigger] grouped(s)[grouped(s).len() - 1 - j] == (if j % 4
                == 3 {
                44
            } else {
                s[s.len() - 1 - (j - j / 4)]
            }),
    decreases s.len(),
{
    let g = grouped(s);
    if s.len() > 3 {
        let head = s.take(s.len() - 3);
        let h = grouped(head);
        law_grouped_places(head);
        assert forall|j: int| 0 <= j < g.len() implies #[trigger] g[g.len() - 1 - j] == (if j % 4
            == 3 {
            44
        } else {
            s[s.len() - 1 - (j - j / 4)]
        }) by {
            if j >= 4 {
                let i = j - 4;
                assert(g[g.len() - 1 - j] == h[h.len() - 1 - i]);
            }
        }
    }
}

/// A text with a dot in it is cut there, and at the next dot.
pub proof fn lemma_parts(w: Seq<u8>, f: Seq<u8>)
    requires
        forall|i: int| 0 <= i < w.len() ==> #[trigger] w[i] != 46,
        forall|i: int| 0 <= i < f.len() ==> #[trigger] f[i] != 46,
    ensures
        whole_part(w) == w,
        !has_fraction(w),
        whole_part(w + seq![46u8] + f) == w,
        has_fraction(w + seq![46u8] + f),
        fraction_part(w + seq![46u8] + f) == f,
{
    let n = w.len() as int;
    bytes::lemma_next_at_is(w, CHR_DOT, 0, n);
    assert(w.take(n) =~= w);
    let s = w + seq![46u8] + f;
    assert forall|i: int| 0 <= i < n implies #[trigger] s[i] != CHR_DOT by {
        assert(s[i] == w[i]);
    }
    bytes::lemma_next_at_is(s, CHR_DOT, 0, n);
    assert(s.take(n) =~= w);
    assert forall|i: int| n + 1 <= i < s.len() implies #[trigger] s[i] != CHR_DOT by {
        assert(s[i] == f[i - n - 1]);
    }
    bytes::lemma_next_at_is(s, CHR_DOT, n + 1, s.len() as int);
    assert(s.subrange(n + 1, s.len() as int) =~= f);
}

} // verus!
