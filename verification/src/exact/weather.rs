//! What is known of one station.
use vstd::prelude::*;
use crate::stats;
use crate::stats::Stats;
use crate::table::Tally;
use crate::text;

verus! {

/// Count and sum can be held.
pub open spec fn fits(s: Stats) -> bool {
    &&& 0 <= s.cnt <= u32::MAX
    &&& i64::MIN <= s.sum <= i64::MAX
}

/// The aggregate of one station's temperatures.
#[derive(Clone, Copy)]
pub struct Weather {
    pub min: i16,
    pub max: i16,
    pub sum: i64,
    pub count: u32,
}

impl View for Weather {
    type V = Stats;

    open spec fn view(&self) -> Stats {
        Stats {
            cnt: self.count as int,
            sum: self.sum as int,
            min: self.min as int,
            max: self.max as int,
        }
    }
}

/// The absolute value.
pub open spec fn magnitude(t: int) -> nat {
    if t < 0 {
        (-t) as nat
    } else {
        t as nat
    }
}

/// `t` tenths of a degree, with one digit after the dot.
pub open spec fn degrees(t: int) -> Seq<u8> {
    text::fixed1(t < 0, magnitude(t))
}

/// Lowest, mean and highest, with slashes between them. A mean below zero keeps its sign, also
/// where it is shown as zero.
pub open spec fn stats_text(s: Stats) -> Seq<u8> {
    degrees(s.min) + seq![47u8] + text::fixed1(s.sum < 0, magnitude(stats::mean(s.sum, s.cnt)))
        + seq![47u8] + degrees(s.max)
}

fn push_degrees(buf: &mut Vec<u8>, t: i16)
    ensures
        final(buf)@ == old(buf)@ + degrees(t as int),
{
    let a: u64 = if t < 0 {
        (-(t as i64)) as u64
    } else {
        t as u64
    };
    text::push_fixed1(buf, t < 0, a);
}

/// The absolute value of the mean in whole tenths.
fn rounded_mean(sum: i64, cnt: u32) -> (m: u64)
    requires
        cnt > 0,
    ensures
        m == magnitude(stats::mean(sum as int, cnt as int)),
{
    let a: u128 = if sum < 0 {
        (-(sum as i128)) as u128
    } else {
        sum as u128
    };
    let q: u128 = (2 * a + cnt as u128) / (2 * cnt as u128);
    assert(q <= 0x8000_0000_0000_0000) by (nonlinear_arith)
        requires
            q == (2 * a + cnt) / (2 * cnt as int),
            0 <= a <= 0x8000_0000_0000_0000,
            cnt > 0,
    ;
    q as u64
}

impl Weather {
    /// One temperature.
    pub fn new(value: i16) -> (w: Self)
        ensures
            w@ == Stats::of(value as int),
    {
        Weather { min: value, max: value, sum: value as i64, count: 1 }
    }

    /// Appends lowest, mean and highest temperature, with slashes between them.
    pub fn write(&self, buf: &mut Vec<u8>)
        requires
            self.count > 0,
        ensures
            final(buf)@ == old(buf)@ + stats_text(self@),
    {
        push_degrees(buf, self.min);
        buf.push(47);
        text::push_fixed1(buf, self.sum < 0, rounded_mean(self.sum, self.count));
        buf.push(47);
        push_degrees(buf, self.max);
        assert(buf@ =~= old(buf)@ + stats_text(self@));
    }

    /// Takes in the aggregate of more temperatures.
    pub fn add_assign(&mut self, rhs: Weather)
        requires
            fits(old(self)@.plus(rhs@)),
        ensures
            final(self)@ == old(self)@.plus(rhs@),
    {
        self.sum = self.sum + rhs.sum;
        self.count = self.count + rhs.count;
        if rhs.max > self.max {
            self.max = rhs.max;
        }
        if rhs.min < self.min {
            self.min = rhs.min;
        }
    }

    /// Takes in one more temperature.
    pub fn add_value(&mut self, value: i16)
        requires
            old(self).min <= old(self).max,
            fits(old(self)@.plus(Stats::of(value as int))),
        ensures
            final(self)@ == old(self)@.plus(Stats::of(value as int)),
    {
        self.count = self.count + 1;
        self.sum = self.sum + value as i64;
        if value > self.max {
            self.max = value;
        } else if value < self.min {
            self.min = value;
        }
    }
}

impl Tally for Weather {
    open spec fn stats(&self) -> Stats {
        self@
    }

    open spec fn fits(s: Stats) -> bool {
        fits(s)
    }

    fn absorb(&mut self, other: Self) {
        self.add_assign(other);
    }

    fn can_absorb(&self, other: &Self) -> (b: bool) {
        self.count.checked_add(other.count).is_some() && self.sum.checked_add(other.sum).is_some()
    }
}

impl From<i16> for Weather {
    fn from(value: i16) -> (w: Self) {
        Weather { min: value, max: value, sum: value as i64, count: 1 }
    }
}

impl vstd::std_specs::convert::FromSpecImpl<i16> for Weather {
    open spec fn obeys_from_spec() -> bool {
        true
    }

    open spec fn from_spec(value: i16) -> Weather {
        Weather { min: value, max: value, sum: value as i64, count: 1 }
    }
}

/// What shows tenths holds no slash.
proof fn lemma_no_slash(s: Seq<u8>, neg: bool, a: nat)
    requires
        text::shows(s, neg, a),
    ensures
        forall|i: int| 0 <= i < s.len() ==> #[trigger] s[i] != 47,
{
    assert forall|i: int| 0 <= i < s.len() implies #[trigger] s[i] != 47 by {
        if neg && i > 0 {
            assert(s[i] == s.skip(1)[i - 1]);
        }
    }
}

/// What is shown of a station are three temperatures with slashes between them: the lowest, the mean to
/// the nearest tenth with the sign of the sum, and the highest.
pub proof fn law_stats_read_back(s: Stats) -> (r: (Seq<u8>, Seq<u8>, Seq<u8>, nat))
    requires
        s.cnt > 0,
    ensures
        stats_text(s) == r.0 + seq![47u8] + r.1 + seq![47u8] + r.2,
        forall|i: int| 0 <= i < r.0.len() ==> #[trigger] r.0[i] != 47,
        forall|i: int| 0 <= i < r.1.len() ==> #[trigger] r.1[i] != 47,
        forall|i: int| 0 <= i < r.2.len() ==> #[trigger] r.2[i] != 47,
        text::shows_signed(r.0, s.min),
        text::shows(r.1, s.sum < 0, r.3),
        text::shows_signed(r.2, s.max),
        s.sum >= 0 ==> -s.cnt < 2 * (r.3 * s.cnt - s.sum) <= s.cnt,
        s.sum < 0 ==> -s.cnt < 2 * (r.3 * s.cnt + s.sum) <= s.cnt,
{
    let m = stats::mean(s.sum, s.cnt);
    let a = magnitude(m);
    text::law_fixed1_shows(s.min < 0, magnitude(s.min));
    text::law_fixed1_shows(s.sum < 0, a);
    text::law_fixed1_shows(s.max < 0, magnitude(s.max));
    lemma_no_slash(degrees(s.min), s.min < 0, magnitude(s.min));
    lemma_no_slash(text::fixed1(s.sum < 0, a), s.sum < 0, a);
    lemma_no_slash(degrees(s.max), s.max < 0, magnitude(s.max));
    stats::law_mean_nearest(s.sum, s.cnt);
    assert((-m) * s.cnt == -(m * s.cnt)) by (nonlinear_arith);
    (degrees(s.min), text::fixed1(s.sum < 0, a), degrees(s.max), a)
}

} // verus!
