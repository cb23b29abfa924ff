//! Numbers with separators between thousands.
use vstd::prelude::*;
use crate::text;

verus! {

/// The text of a number, with separators and exactly `decimal` digits after the dot.
pub open spec fn formatted(s: Seq<u8>, decimal: nat) -> Seq<u8> {
    text::grouped(text::whole_part(s)) + (if decimal > 0 {
        seq![text::CHR_DOT] + text::fitted(
            if text::has_fraction(s) {
                text::fraction_part(s)
            } else {
                seq![]
            },
            decimal,
        )
    } else {
        seq![]
    })
}

/// What can be shown with separators between thousands.
pub trait ThousandSep {
    /// The text that is shown without them.
    spec fn shown(&self) -> Seq<u8>;

    fn format(&self, decimal: usize) -> (r: Vec<u8>)
        ensures
            r@ == formatted(self.shown(), decimal as nat),
    ;
}

/// The text of a number as it stands.
impl ThousandSep for [u8] {
    open spec fn shown(&self) -> Seq<u8> {
        self@
    }

    fn format(&self, decimal: usize) -> (r: Vec<u8>) {
        let mut r: Vec<u8> = Vec::new();
        let dot: usize = text::index_of(self, text::CHR_DOT, 0);
        text::push_grouped(&mut r, self, dot);
        if decimal > 0 {
            r.push(text::CHR_DOT);
            if dot < self.len() {
                let end: usize = text::index_of(self, text::CHR_DOT, dot + 1);
                text::push_fitted(&mut r, self, dot + 1, end, decimal);
            } else {
                text::push_fitted(&mut r, self, dot, dot, decimal);
                assert(self@.subrange(dot as int, dot as int) =~= seq![]);
            }
        }
        assert(r@ =~= formatted(self@, decimal as nat));
        r
    }
}

/// A count in decimal.
impl ThousandSep for u64 {
    open spec fn shown(&self) -> Seq<u8> {
        text::dec(*self as nat)
    }

    fn format(&self, decimal: usize) -> (r: Vec<u8>) {
        let mut digits: Vec<u8> = Vec::new();
        text::push_dec(&mut digits, *self);
        assert(digits@ =~= text::dec(*self as nat));
        digits.as_slice().format(decimal)
    }
}

/// A count in decimal.
impl ThousandSep for usize {
    open spec fn shown(&self) -> Seq<u8> {
        text::dec(*self as nat)
    }

    fn format(&self, decimal: usize) -> (r: Vec<u8>) {
        (*self as u64).format(decimal)
    }
}

/// A number is shown with separators before the dot and as many digits behind it as are asked for: its
/// own, then zeros.
pub proof fn law_formatted(w: Seq<u8>, f: Seq<u8>, decimal: nat)
    requires
        forall|i: int| 0 <= i < w.len() ==> #[trigger] w[i] != 46,
        forall|i: int| 0 <= i < f.len() ==> #[trigger] f[i] != 46,
    ensures
        formatted(w, 0) == text::grouped(w),
        formatted(w + seq![46u8] + f, 0) == text::grouped(w),
        decimal > 0 ==> formatted(w, decimal) == text::grouped(w) + seq![46u8] + Seq::new(
            decimal,
            |i: int| 48u8,
        ),
        decimal > 0 ==> formatted(w + seq![46u8] + f, decimal) == text::grouped(w) + seq![46u8]
            + Seq::new(decimal, |i: int| if i < f.len() { f[i] } else { 48u8 }),
{
    text::lemma_parts(w, f);
    assert(formatted(w, 0) =~= text::grouped(w));
    assert(formatted(w + seq![46u8] + f, 0) =~= text::grouped(w));
    if decimal > 0 {
        assert(formatted(w, decimal) =~= text::grouped(w) + seq![46u8] + Seq::new(
            decimal,
            |i: int| 48u8,
        ));
        assert(formatted(w + seq![46u8] + f, decimal) =~= text::grouped(w) + seq![46u8] + Seq::new(
            decimal,
            |i: int| if i < f.len() { f[i] } else { 48u8 },
        ));
    }
}

/// A count is shown as its digits, in groups.
pub proof fn law_count_reads_back(n: usize) -> (d: Seq<u8>)
    ensures
        text::value_of(d) == n,
        forall|i: int| 0 <= i < d.len() ==> text::is_digit(#[trigger] d[i]),
        d.len() > 1 ==> d[0] != 48,
        d.len() >= 1,
        formatted(n.shown(), 0) == text::grouped(d),
{
    let d = text::dec(n as nat);
    text::law_dec_reads_back(n as nat);
    let none: Seq<u8> = seq![];
    law_formatted(d, none, 0);
    d
}

/// So is a count of records.
pub proof fn law_total_reads_back(n: u64) -> (d: Seq<u8>)
    ensures
        text::value_of(d) == n,
        forall|i: int| 0 <= i < d.len() ==> text::is_digit(#[trigger] d[i]),
        d.len() > 1 ==> d[0] != 48,
        d.len() >= 1,
        formatted(n.shown(), 0) == text::grouped(d),
{
    let d = text::dec(n as nat);
    text::law_dec_reads_back(n as nat);
    let none: Seq<u8> = seq![];
    law_formatted(d, none, 0);
    d
}

} // verus!
