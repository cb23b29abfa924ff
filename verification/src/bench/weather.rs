//! What is known of one station.
use vstd::prelude::*;
use crate::bench::city::Fingerprint;
use crate::bench::thousands::ThousandSep;
use crate::bench::number::Temperature;
use crate::bench::thousands;
use crate::stats;
use crate::stats::Stats;
use crate::table::Tally;
use crate::text;

verus! {

/// Count and sum can be held.
pub open spec fn fits(s: Stats) -> bool {
    &&& 0 <= s.cnt <= u32::MAX
    &&& i32::MIN <= s.sum <= i32::MAX
}

/// `t` tenths of a degree, with one digit after the dot.
pub open spec fn degrees(t: int) -> Seq<u8> {
    thousands::formatted(
        text::shown_tenths(
            t < 0,
            if t < 0 {
                -t
            } else {
                t
            } as nat,
        ),
        1,
    )
}

/// The aggregate of one station's temperatures, with the fingerprint of its name.
#[derive(Clone, Copy)]
pub struct Weather {
    pub cnt: u32,
    pub sum: i32,
    pub min: Temperature,
    pub max: Temperature,
    pub fp: Fingerprint,
}

impl View for Weather {
    type V = Stats;

    open spec fn view(&self) -> Stats {
        Stats {
            cnt: self.cnt as int,
            sum: self.sum as int,
            min: self.min as int,
            max: self.max as int,
        }
    }
}

/// Appends `t` tenths of a degree.
fn push_degrees(buf: &mut Vec<u8>, t: i32)
    ensures
        final(buf)@ == old(buf)@ + degrees(t as int),
{
    let neg: bool = t < 0;
    let a: u64 = if neg {
        (-(t as i64)) as u64
    } else {
        t as u64
    };
    let mut shown: Vec<u8> = Vec::new();
    text::push_shown_tenths(&mut shown, neg, a);
    let mut r: Vec<u8> = shown.as_slice().format(1);
    assert(shown@ =~= text::shown_tenths(neg, a as nat));
    buf.append(&mut r);
}

/// The mean in whole tenths.
fn rounded_mean(sum: i32, cnt: u32) -> (m: i32)
    requires
        cnt > 0,
    ensures
        m == stats::mean(sum as int, cnt as int),
{
    let a: u64 = if sum < 0 {
        (-(sum as i64)) as u64
    } else {
        sum as u64
    };
    let q: u64 = (2 * a + cnt as u64) / (2 * cnt as u64);
    assert(q <= 0x8000_0000) by (nonlinear_arith)
        requires
            q == (2 * a + cnt) / (2 * cnt as int),
            0 <= a <= 0x8000_0000,
            cnt > 0,
    ;
    assert(sum >= 0 ==> q <= 0x7fff_ffff) by (nonlinear_arith)
        requires
            q == (2 * a + cnt) / (2 * cnt as int),
            0 <= a,
            cnt > 0,
            sum >= 0 ==> a <= 0x7fff_ffff,
    ;
    if sum < 0 {
        (-(q as i64)) as i32
    } else {
        q as i32
    }
}

impl Weather {
    /// One temperature of the station with this fingerprint.
    pub fn new(value: (Fingerprint, Temperature)) -> (w: Self)
        ensures
            w@ == Stats::of(value.1 as int),
            w.fp == value.0,
    {
        Weather { fp: value.0, min: value.1, max: value.1, sum: value.1, cnt: 1 }
    }

    /// Appends lowest, mean and highest temperature, with slashes between them.
    pub fn write(&self, buf: &mut Vec<u8>)
        requires
            self.cnt > 0,
        ensures
            final(buf)@ == old(buf)@ + stats_text(self@),
    {
        let avg: i32 = rounded_mean(self.sum, self.cnt);
        push_degrees(buf, self.min);
        buf.push(47);
        push_degrees(buf, avg);
        buf.push(47);
        push_degrees(buf, self.max);
        assert(buf@ =~= old(buf)@ + stats_text(self@));
    }

    /// Takes in the aggregate of more temperatures of the station.
    pub fn add_assign(&mut self, other: Weather)
        requires
            fits(old(self)@.plus(other@)),
        ensures
            final(self)@ == old(self)@.plus(other@),
            final(self).fp == old(self).fp,
    {
        self.sum = self.sum + other.sum;
        self.cnt = self.cnt + other.cnt;
        if self.max < other.max {
            self.max = other.max;
        }
        if self.min > other.min {
            self.min = other.min;
        }
    }

    /// Takes in one more temperature.
    pub fn add_value(&mut self, value: Temperature)
        requires
            fits(old(self)@.plus(Stats::of(value as int))),
        ensures
            final(self)@ == old(self)@.plus(Stats::of(value as int)),
            final(self).fp == old(self).fp,
    {
        self.sum = self.sum + value;
        self.cnt = self.cnt + 1;
        if self.max < value {
            self.max = value;
        }
        if self.min > value {
            self.min = value;
        }
    }
}

/// Lowest, mean and highest, with slashes between them.
pub open spec fn stats_text(s: Stats) -> Seq<u8> {
    degrees(s.min) + seq![47u8] + degrees(stats::mean(s.sum, s.cnt)) + seq![47u8] + degrees(s.max)
}

impl Tally for Weather {
    open spec fn stats(&self) -> Stats {
        self@
    }

    open spec fn fits(s: Stats) -> bool {
        fits(s)
    }

    fn absorb(&mut self, other: Self) {
        self.add_assign(other);
    }

    fn can_absorb(&self, other: &Self) -> (b: bool) {
        self.cnt.checked_add(other.cnt).is_some() && self.sum.checked_add(other.sum).is_some()
    }
}

impl From<(Fingerprint, Temperature)> for Weather {
    fn from(value: (Fingerprint, Temperature)) -> (w: Self) {
        Weather { fp: value.0, min: value.1, max: value.1, sum: value.1, cnt: 1 }
    }
}

impl vstd::std_specs::convert::FromSpecImpl<(Fingerprint, Temperature)> for Weather {
    open spec fn obeys_from_spec() -> bool {
        true
    }

    open spec fn from_spec(value: (Fingerprint, Temperature)) -> Weather {
        Weather { fp: value.0, min: value.1, max: value.1, sum: value.1, cnt: 1 }
    }
}

/// `s` is how `t` tenths of a degree are shown: a sign below zero, digits, a dot and one digit, with
/// separators between groups of three of what stands before the dot.
pub open spec fn shown_as(s: Seq<u8>, t: int) -> bool {
    exists|u: Seq<u8>| #[trigger]
        text::shows_signed(u, t) && s == text::grouped(u.take(u.len() - 2)) + u.skip(u.len() - 2)
}

/// A temperature is shown as what it is; up to three bytes before the dot there is no separator.
pub proof fn law_degrees_read_back(t: int) -> (u: Seq<u8>)
    ensures
        text::shows_signed(u, t),
        degrees(t) == text::grouped(u.take(u.len() - 2)) + u.skip(u.len() - 2),
        shown_as(degrees(t), t),
        u.len() <= 5 ==> degrees(t) == u,
        forall|i: int| 0 <= i < degrees(t).len() ==> #[trigger] degrees(t)[i] != 47,
{
    let neg = t < 0;
    let a: nat = if t < 0 {
        (-t) as nat
    } else {
        t as nat
    };
    let u = text::fixed1(neg, a);
    text::law_fixed1_shows(neg, a);
    let w = (if neg {
        seq![45u8]
    } else {
        seq![]
    }) + text::dec(a / 10);
    let d = (48 + a % 10) as u8;
    text::law_dec_reads_back(a / 10);
    assert forall|i: int| 0 <= i < w.len() implies #[trigger] w[i] != 46 && w[i] != 47 by {
        if !neg {
            assert(w[i] == text::dec(a / 10)[i]);
        } else if i > 0 {
            assert(w[i] == text::dec(a / 10)[i - 1]);
        }
    }
    let f = seq![d];
    text::lemma_parts(w, f);
    let shown = text::shown_tenths(neg, a);
    if a % 10 == 0 {
        assert(shown =~= w);
        let none: Seq<u8> = seq![];
        assert(text::fitted(none, 1) =~= f);
    } else {
        assert(shown =~= w + seq![46u8] + f);
        assert(text::fitted(f, 1) =~= f);
    }
    assert(u.take(u.len() - 2) =~= w);
    assert(u.skip(u.len() - 2) =~= seq![46u8] + f);
    assert(degrees(t) =~= text::grouped(w) + (seq![46u8] + f));
    if u.len() <= 5 {
        assert(degrees(t) =~= u);
    }
    let g = text::grouped(w);
    text::law_grouped_places(w);
    assert forall|i: int| 0 <= i < degrees(t).len() implies #[trigger] degrees(t)[i] != 47 by {
        if i < g.len() {
            let j = g.len() - 1 - i;
            assert(g[g.len() - 1 - j] == g[i]);
        }
    }
    assert(text::shows_signed(u, t));
    assert(degrees(t) == text::grouped(u.take(u.len() - 2)) + u.skip(u.len() - 2));
    u
}

/// What is shown of a station are three temperatures with slashes between them: the lowest, the mean to
/// the nearest tenth, and the highest.
pub proof fn law_stats_read_back(s: Stats) -> (r: (Seq<u8>, Seq<u8>, Seq<u8>, int))
    requires
        s.cnt > 0,
    ensures
        stats_text(s) == r.0 + seq![47u8] + r.1 + seq![47u8] + r.2,
        forall|i: int| 0 <= i < r.0.len() ==> #[trigger] r.0[i] != 47,
        forall|i: int| 0 <= i < r.1.len() ==> #[trigger] r.1[i] != 47,
        forall|i: int| 0 <= i < r.2.len() ==> #[trigger] r.2[i] != 47,
        shown_as(r.0, s.min),
        shown_as(r.1, r.3),
        shown_as(r.2, s.max),
        -s.cnt <= 2 * (r.3 * s.cnt - s.sum) <= s.cnt,
        s.sum >= 0 ==> r.3 >= 0 && -s.cnt < 2 * (r.3 * s.cnt - s.sum),
        s.sum <= 0 ==> r.3 <= 0 && 2 * (r.3 * s.cnt - s.sum) < s.cnt,
{
    let m = stats::mean(s.sum, s.cnt);
    law_degrees_read_back(s.min);
    law_degrees_read_back(m);
    law_degrees_read_back(s.max);
    stats::law_mean_nearest(s.sum, s.cnt);
    (degrees(s.min), degrees(m), degrees(s.max), m)
}

} // verus!
