//! What is known of a number of temperatures.
use vstd::prelude::*;

verus! {

/// How many temperatures there were, their sum, the lowest and the highest.
pub struct Stats {
    pub cnt: int,
    pub sum: int,
    pub min: int,
    pub max: int,
}

impl Stats {
    /// One temperature.
    pub open spec fn of(v: int) -> Stats {
        Stats { cnt: 1, sum: v, min: v, max: v }
    }

    /// Two lots of temperatures taken together.
    pub open spec fn plus(self, other: Stats) -> Stats {
        Stats {
            cnt: self.cnt + other.cnt,
            sum: self.sum + other.sum,
            min: if other.min < self.min {
                other.min
            } else {
                self.min
            },
            max: if other.max > self.max {
                other.max
            } else {
                self.max
            },
        }
    }
}

/// The mean, rounded to whole tenths, halves away from zero.
pub open spec fn mean(sum: int, cnt: int) -> int {
    if sum < 0 {
        -((2 * -sum + cnt) / (2 * cnt))
    } else {
        (2 * sum + cnt) / (2 * cnt)
    }
}

/// In which order lots of temperatures are taken together makes no difference.
pub proof fn law_stats_plus(a: Stats, b: Stats, c: Stats)
    ensures
        a.plus(b) == b.plus(a),
        a.plus(b).plus(c) == a.plus(b.plus(c)),
{
}

/// The mean lies between the lowest and the highest of the temperatures.
pub proof fn law_mean_between(s: Stats)
    requires
        s.cnt > 0,
        s.min * s.cnt <= s.sum <= s.max * s.cnt,
    ensures
        s.min <= mean(s.sum, s.cnt) <= s.max,
{
    let c = s.cnt;
    assert(2 * (s.min * c) == (2 * c) * s.min) by (nonlinear_arith);
    assert(2 * (s.max * c) == (2 * c) * s.max) by (nonlinear_arith);
    if s.sum >= 0 {
        let n = 2 * s.sum + c;
        let q = n / (2 * c);
        lemma_quotient(n, 2 * c);
        assert(q >= s.min) by (nonlinear_arith)
            requires
                (2 * c) * s.min <= n,
                n < (2 * c) * (q + 1),
                c > 0,
        ;
        assert(q <= s.max) by (nonlinear_arith)
            requires
                n <= (2 * c) * s.max + c,
                (2 * c) * q <= n,
                c > 0,
        ;
    } else {
        let n = 2 * -s.sum + c;
        let q = n / (2 * c);
        lemma_quotient(n, 2 * c);
        assert(q >= -s.max) by (nonlinear_arith)
            requires
                -((2 * c) * s.max) <= n,
                n < (2 * c) * (q + 1),
                c > 0,
        ;
        assert(q <= -s.min) by (nonlinear_arith)
            requires
                n <= -((2 * c) * s.min) + c,
                (2 * c) * q <= n,
                c > 0,
        ;
    }
}

/// The mean is the whole number nearest to sum by count: it is half a tenth off at most, and where two
/// are as near, the one further from zero. It has the sign of the sum.
pub proof fn law_mean_nearest(sum: int, cnt: int)
    requires
        cnt > 0,
    ensures
        -cnt <= 2 * (mean(sum, cnt) * cnt - sum) <= cnt,
        sum >= 0 ==> mean(sum, cnt) >= 0 && -cnt < 2 * (mean(sum, cnt) * cnt - sum),
        sum <= 0 ==> mean(sum, cnt) <= 0 && 2 * (mean(sum, cnt) * cnt - sum) < cnt,
{
    let m = mean(sum, cnt);
    let a = if sum < 0 {
        -sum
    } else {
        sum
    };
    let q = (2 * a + cnt) / (2 * cnt);
    lemma_quotient(2 * a + cnt, 2 * cnt);
    assert((2 * cnt) * q == 2 * (q * cnt)) by (nonlinear_arith);
    assert((2 * cnt) * (q + 1) == 2 * (q * cnt) + 2 * cnt) by (nonlinear_arith);
    assert((-q) * cnt == -(q * cnt)) by (nonlinear_arith);
    assert(q >= 0) by (nonlinear_arith)
        requires
            2 * a + cnt < (2 * cnt) * (q + 1),
            a >= 0,
            cnt > 0,
    ;
    assert(a == 0 ==> q <= 0) by (nonlinear_arith)
        requires
            (2 * cnt) * q <= 2 * a + cnt,
            cnt > 0,
    ;
}

/// Taken together, lots of temperatures are as many as both, their sum is both sums, and the lowest and
/// highest are those of both.
pub proof fn law_taken_together(a: Stats, b: Stats, v: int)
    ensures
        a.plus(b).cnt == a.cnt + b.cnt,
        a.plus(b).sum == a.sum + b.sum,
        a.plus(b).min <= a.min && a.plus(b).min <= b.min,
        a.plus(b).min == a.min || a.plus(b).min == b.min,
        a.plus(b).max >= a.max && a.plus(b).max >= b.max,
        a.plus(b).max == a.max || a.plus(b).max == b.max,
        Stats::of(v).cnt == 1,
        Stats::of(v).sum == v,
        Stats::of(v).min == v,
        Stats::of(v).max == v,
{
}

proof fn lemma_quotient(n: int, d: int)
    requires
        d > 0,
    ensures
        d * (n / d) <= n,
        n < d * (n / d + 1),
{
    vstd::arithmetic::div_mod::lemma_fundamental_div_mod(n, d);
    vstd::arithmetic::div_mod::lemma_mod_bound(n, d);
    assert(d * (n / d + 1) == d * (n / d) + d) by (nonlinear_arith);
}

} // verus!
