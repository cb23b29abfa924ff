//! Stations in order, each with what is known of it.
use vstd::prelude::*;
use crate::stats::Stats;

verus! {

/// Byte strings in the order of a dictionary.
pub open spec fn lex_lt(a: Seq<u8>, b: Seq<u8>) -> bool
    decreases a.len(),
{
    if b.len() == 0 {
        false
    } else if a.len() == 0 {
        true
    } else if a[0] != b[0] {
        a[0] < b[0]
    } else {
        lex_lt(a.drop_first(), b.drop_first())
    }
}

/// Of two byte strings one comes first, or they are the same.
pub proof fn lemma_lex_total(a: Seq<u8>, b: Seq<u8>)
    ensures
        lex_lt(a, b) || lex_lt(b, a) || a == b,
        !(lex_lt(a, b) && lex_lt(b, a)),
        a == b ==> !lex_lt(a, b),
    decreases a.len(),
{
    if a.len() > 0 && b.len() > 0 && a[0] == b[0] {
        lemma_lex_total(a.drop_first(), b.drop_first());
        if a.drop_first() == b.drop_first() {
            assert(a =~= seq![a[0]] + a.drop_first());
            assert(b =~= seq![b[0]] + b.drop_first());
        }
    } else if a.len() == 0 && b.len() == 0 {
        assert(a =~= b);
    }
}

/// What comes before something that comes before a third comes before the third.
pub proof fn lemma_lex_trans(a: Seq<u8>, b: Seq<u8>, c: Seq<u8>)
    requires
        lex_lt(a, b),
        lex_lt(b, c),
    ensures
        lex_lt(a, c),
    decreases a.len(),
{
    if a.len() > 0 && b.len() > 0 && c.len() > 0 && a[0] == b[0] && b[0] == c[0] {
        lemma_lex_trans(a.drop_first(), b.drop_first(), c.drop_first());
    }
}

/// `a` and `b` are the same before `p`, where `a` ends or has the lower byte.
pub open spec fn lower_at(a: Seq<u8>, b: Seq<u8>, p: int) -> bool {
    &&& 0 <= p <= a.len()
    &&& p < b.len()
    &&& forall|i: int| 0 <= i < p ==> #[trigger] a[i] == b[i]
    &&& p == a.len() || a[p] < b[p]
}

/// `a` is lower than `b` where they first differ, or a start of it.
pub open spec fn lower(a: Seq<u8>, b: Seq<u8>) -> bool {
    exists|p: int| lower_at(a, b, p)
}

/// In the order of a dictionary, what is lower where two byte strings first differ comes first, and a
/// start of another comes before it.
pub proof fn law_lex(a: Seq<u8>, b: Seq<u8>)
    ensures
        lex_lt(a, b) <==> lower(a, b),
    decreases a.len(),
{
    if b.len() > 0 && a.len() == 0 {
        assert(lower_at(a, b, 0));
    } else if b.len() > 0 && a[0] != b[0] {
        if a[0] < b[0] {
            assert(lower_at(a, b, 0));
        }
        if exists|p: int| lower_at(a, b, p) {
            let p = choose|p: int| lower_at(a, b, p);
            if p > 0 {
                assert(a[0] == b[0]);
            }
        }
    } else if b.len() > 0 {
        let x = a.drop_first();
        let y = b.drop_first();
        law_lex(x, y);
        if lex_lt(a, b) {
            let p = choose|p: int| lower_at(x, y, p);
            let q = p + 1;
            assert forall|i: int| 0 <= i < q implies #[trigger] a[i] == b[i] by {
                if i > 0 {
                    assert(x[i - 1] == y[i - 1]);
                }
            }
            assert(lower_at(a, b, q));
        }
        if exists|p: int| lower_at(a, b, p) {
            let p = choose|p: int| lower_at(a, b, p);
            let q = p - 1;
            assert forall|i: int| 0 <= i < q implies #[trigger] x[i] == y[i] by {
                assert(a[i + 1] == b[i + 1]);
            }
            assert(lower_at(x, y, q));
        }
    }
}

/// Whether `a` comes before `b` in the order of a dictionary.
pub fn bytes_before(a: &[u8], b: &[u8]) -> (r: bool)
    ensures
        r == lex_lt(a@, b@),
{
    let mut i: usize = 0;
    assert(a@.skip(0) =~= a@);
    assert(b@.skip(0) =~= b@);
    while i < a.len() && i < b.len()
        invariant
            i <= a.len(),
            i <= b.len(),
            lex_lt(a@, b@) == lex_lt(a@.skip(i as int), b@.skip(i as int)),
        decreases a.len() - i,
    {
        assert(a@.skip(i as int).drop_first() =~= a@.skip(i + 1));
        assert(b@.skip(i as int).drop_first() =~= b@.skip(i + 1));
        if a[i] != b[i] {
            return a[i] < b[i];
        }
        i = i + 1;
    }
    i < b.len()
}

/// What a table is ordered by.
pub trait Ranked: Sized + Copy {
    /// What is compared.
    type K;

    spec fn key(&self) -> Self::K;

    /// `a` stands before `b`.
    spec fn lt(a: Self::K, b: Self::K) -> bool;

    proof fn lt_total(a: Self::K, b: Self::K)
        ensures
            Self::lt(a, b) || Self::lt(b, a) || a == b,
            !(Self::lt(a, b) && Self::lt(b, a)),
            a == b ==> !Self::lt(a, b),
    ;

    proof fn lt_trans(a: Self::K, b: Self::K, c: Self::K)
        requires
            Self::lt(a, b),
            Self::lt(b, c),
        ensures
            Self::lt(a, c),
    ;

    fn before(&self, other: &Self) -> (r: bool)
        ensures
            r == Self::lt(self.key(), other.key()),
    ;
}

/// What a table holds of each station.
pub trait Tally: Sized + Copy {
    spec fn stats(&self) -> Stats;

    /// So much can be held.
    spec fn fits(s: Stats) -> bool;

    fn absorb(&mut self, other: Self)
        requires
            Self::fits(old(self).stats().plus(other.stats())),
        ensures
            final(self).stats() == old(self).stats().plus(other.stats()),
    ;

    /// Whether both together can be held.
    fn can_absorb(&self, other: &Self) -> (b: bool)
        ensures
            b == Self::fits(self.stats().plus(other.stats())),
    ;
}

/// The keys of the first `n` rows, with what is known of them.
pub open spec fn rows_map<C: Ranked, W: Tally>(cities: Seq<C>, tallies: Seq<W>, n: int) -> Map<
    C::K,
    Stats,
> {
    Map::new(
        |k: C::K| exists|i: int| row_at(cities, n, k, i),
        |k: C::K| tallies[choose|i: int| row_at(cities, n, k, i)].stats(),
    )
}

/// Row `i`, one of the first `n`, has the key `k`.
pub open spec fn row_at<C: Ranked>(cities: Seq<C>, n: int, k: C::K, i: int) -> bool {
    0 <= i < n && (#[trigger] cities[i]).key() == k
}

/// The rows stand in order, and no key occurs twice.
pub open spec fn in_order<C: Ranked>(cities: Seq<C>) -> bool {
    forall|i: int, j: int|
        0 <= i < j < cities.len() ==> C::lt(
            (#[trigger] cities[i]).key(),
            (#[trigger] cities[j]).key(),
        )
}

/// A table after what is known of one more station, or more of one.
pub open spec fn with_row<K>(m: Map<K, Stats>, k: K, s: Stats) -> Map<K, Stats> {
    m.insert(
        k,
        if m.contains_key(k) {
            m[k].plus(s)
        } else {
            s
        },
    )
}

/// Two tables in one: what both know of a station is taken together.
pub open spec fn merged<K>(a: Map<K, Stats>, b: Map<K, Stats>) -> Map<K, Stats> {
    Map::new(
        |k: K| a.contains_key(k) || b.contains_key(k),
        |k: K|
            if a.contains_key(k) && b.contains_key(k) {
                a[k].plus(b[k])
            } else if a.contains_key(k) {
                a[k]
            } else {
                b[k]
            },
    )
}

/// What both tables know of any one station can be held together.
pub open spec fn mergeable<W: Tally, K>(a: Map<K, Stats>, b: Map<K, Stats>) -> bool {
    forall|k: K|
        a.contains_key(k) && #[trigger] b.contains_key(k) ==> W::fits(a[k].plus(b[k]))
}

/// In which order tables are merged makes no difference.
pub proof fn law_merged<K>(a: Map<K, Stats>, b: Map<K, Stats>, c: Map<K, Stats>)
    ensures
        merged(a, b) == merged(b, a),
        merged(merged(a, b), c) == merged(a, merged(b, c)),
        merged(a, Map::<K, Stats>::empty()) == a,
{
    assert(merged(a, b) =~= merged(b, a));
    assert(merged(merged(a, b), c) =~= merged(a, merged(b, c)));
    assert(merged(a, Map::<K, Stats>::empty()) =~= a);
}

/// The key of a row leads to that row.
pub proof fn lemma_row<C: Ranked, W: Tally>(cities: Seq<C>, tallies: Seq<W>, n: int, i: int)
    requires
        in_order(cities),
        0 <= i < n <= cities.len(),
    ensures
        rows_map(cities, tallies, n).contains_key(cities[i].key()),
        rows_map(cities, tallies, n)[cities[i].key()] == tallies[i].stats(),
{
    let k = cities[i].key();
    assert(row_at(cities, n, k, i));
    let p = choose|p: int| row_at(cities, n, k, p);
    assert(row_at(cities, n, k, p));
    C::lt_total(cities[p].key(), cities[i].key());
    if p < i {
        assert(C::lt(cities[p].key(), cities[i].key()));
    } else if i < p {
        assert(C::lt(cities[i].key(), cities[p].key()));
    }
}

/// `rows` lists the contents `m` in order.
pub open spec fn lists<C: Ranked>(rows: Seq<(C::K, Stats)>, m: Map<C::K, Stats>) -> bool {
    &&& forall|i: int, j: int|
        0 <= i < j < rows.len() ==> C::lt((#[trigger] rows[i]).0, (#[trigger] rows[j]).0)
    &&& forall|k: C::K| #[trigger]
        m.contains_key(k) <==> exists|i: int| 0 <= i < rows.len() && (#[trigger] rows[i]).0 == k
    &&& forall|i: int| 0 <= i < rows.len() ==> m[(#[trigger] rows[i]).0] == rows[i].1
}

/// The first `i` rows of a listing are those of any other.
proof fn lemma_same_rows<C: Ranked>(
    a: Seq<(C::K, Stats)>,
    b: Seq<(C::K, Stats)>,
    m: Map<C::K, Stats>,
    i: int,
)
    requires
        lists::<C>(a, m),
        lists::<C>(b, m),
        0 <= i <= a.len(),
    ensures
        i <= b.len(),
        forall|j: int| 0 <= j < i ==> #[trigger] a[j] == b[j],
    decreases i,
{
    if i > 0 {
        lemma_same_rows::<C>(a, b, m, i - 1);
        let k = a[i - 1].0;
        assert(m.contains_key(k));
        let j = choose|j: int| 0 <= j < b.len() && (#[trigger] b[j]).0 == k;
        C::lt_total(k, k);
        if j < i - 1 {
            assert(a[j] == b[j]);
            assert(C::lt(a[j].0, a[i - 1].0));
        }
        let q = b[i - 1].0;
        if j > i - 1 {
            assert(C::lt(b[i - 1].0, b[j].0));
            assert(m.contains_key(q));
            let p = choose|p: int| 0 <= p < a.len() && (#[trigger] a[p]).0 == q;
            C::lt_total(q, k);
            C::lt_total(q, q);
            if p < i - 1 {
                assert(a[p] == b[p]);
                assert(C::lt(b[p].0, b[i - 1].0));
            } else if p > i - 1 {
                assert(C::lt(a[i - 1].0, a[p].0));
            }
        }
        assert(m[a[i - 1].0] == a[i - 1].1);
        assert(m[b[i - 1].0] == b[i - 1].1);
    }
}

/// Contents can be listed in one way only.
pub proof fn law_one_listing<C: Ranked>(
    a: Seq<(C::K, Stats)>,
    b: Seq<(C::K, Stats)>,
    m: Map<C::K, Stats>,
)
    requires
        lists::<C>(a, m),
        lists::<C>(b, m),
    ensures
        a == b,
{
    lemma_same_rows::<C>(a, b, m, a.len() as int);
    lemma_same_rows::<C>(b, a, m, b.len() as int);
    assert(a =~= b);
}

/// Stations in order, each with what is known of it.
pub struct Table<C: Ranked, W: Tally> {
    cities: Vec<C>,
    tallies: Vec<W>,
}

impl<C: Ranked, W: Tally> View for Table<C, W> {
    type V = Map<C::K, Stats>;

    closed spec fn view(&self) -> Map<C::K, Stats> {
        rows_map(self.cities@, self.tallies@, self.cities@.len() as int)
    }
}

impl<C: Ranked, W: Tally> Table<C, W> {
    /// Every station has one row, which says what is known of it, and there are no other rows.
    pub proof fn law_rows_complete(&self)
        requires
            self.wf(),
        ensures
            self@.dom().finite(),
            self.rows().len() == self@.len(),
            forall|k: C::K| #[trigger]
                self@.contains_key(k) ==> exists|i: int|
                    0 <= i < self.rows().len() && #[trigger] self.rows()[i] == (k, self@[k]),
            forall|i: int|
                0 <= i < self.rows().len() ==> self@.contains_key((#[trigger] self.rows()[i]).0)
                    && self@[self.rows()[i].0] == self.rows()[i].1,
            forall|i: int, j: int|
                0 <= i < j < self.rows().len() ==> (#[trigger] self.rows()[i]).0 != (
                #[trigger] self.rows()[j]).0,
    {
        self.lemma_rows();
        let rows = self.rows();
        let keys = rows.map_values(|r: (C::K, Stats)| r.0);
        assert forall|i: int, j: int| 0 <= i < j < rows.len() implies (#[trigger] rows[i]).0 != (
        #[trigger] rows[j]).0 by {
            C::lt_total(rows[i].0, rows[j].0);
        }
        assert forall|i: int, j: int|
            0 <= i < keys.len() && 0 <= j < keys.len() && i != j implies keys[i] != keys[j] by {
            if i < j {
                assert(rows[i].0 != rows[j].0);
            } else {
                assert(rows[j].0 != rows[i].0);
            }
        }
        keys.unique_seq_to_set();
        vstd::seq_lib::seq_to_set_is_finite(keys);
        assert forall|k: C::K| #[trigger]
            keys.to_set().contains(k) <==> self@.dom().contains(k) by {
            if keys.to_set().contains(k) {
                let i = choose|i: int| 0 <= i < keys.len() && keys[i] == k;
                assert(rows[i].0 == k);
            }
            if self@.contains_key(k) {
                let i = choose|i: int| 0 <= i < rows.len() && (#[trigger] rows[i]).0 == k;
                assert(keys[i] == k);
            }
        }
        assert(keys.to_set() =~= self@.dom());
        assert forall|k: C::K| #[trigger] self@.contains_key(k) implies exists|i: int|
            0 <= i < rows.len() && #[trigger] rows[i] == (k, self@[k]) by {
            let i = choose|i: int| 0 <= i < rows.len() && (#[trigger] rows[i]).0 == k;
            assert(rows[i] == (k, self@[k]));
        }
    }

    pub closed spec fn wf(&self) -> bool {
        &&& self.cities@.len() == self.tallies@.len()
        &&& in_order(self.cities@)
    }

    /// The stations, in order.
    pub closed spec fn cities(&self) -> Seq<C> {
        self.cities@
    }

    /// What is known of each of them.
    pub closed spec fn tallies(&self) -> Seq<W> {
        self.tallies@
    }

    /// The stations in order, each with what is known of it.
    pub open spec fn rows(&self) -> Seq<(C::K, Stats)> {
        Seq::new(
            self.cities().len(),
            |i: int| (self.cities()[i].key(), self.tallies()[i].stats()),
        )
    }

    /// The rows list the contents.
    pub proof fn lemma_rows(&self)
        requires
            self.wf(),
        ensures
            lists::<C>(self.rows(), self@),
    {
        let rows = self.rows();
        let n = self.cities@.len() as int;
        assert forall|i: int, j: int| 0 <= i < j < rows.len() implies C::lt(
            (#[trigger] rows[i]).0,
            (#[trigger] rows[j]).0,
        ) by {
            assert(C::lt(self.cities@[i].key(), self.cities@[j].key()));
        }
        assert forall|k: C::K| #[trigger]
            self@.contains_key(k) <==> exists|i: int|
                0 <= i < rows.len() && (#[trigger] rows[i]).0 == k by {
            if self@.contains_key(k) {
                let i = choose|i: int| row_at(self.cities@, n, k, i);
                assert(row_at(self.cities@, n, k, i));
                assert(rows[i].0 == k);
            }
            if exists|i: int| 0 <= i < rows.len() && (#[trigger] rows[i]).0 == k {
                let i = choose|i: int| 0 <= i < rows.len() && (#[trigger] rows[i]).0 == k;
                assert(row_at(self.cities@, n, k, i));
            }
        }
        assert forall|i: int| 0 <= i < rows.len() implies self@[(#[trigger] rows[i]).0]
            == rows[i].1 by {
            lemma_row(self.cities@, self.tallies@, n, i);
        }
    }

    /// A table of no stations.
    pub fn new() -> (t: Self)
        ensures
            t.wf(),
            t@ == Map::<C::K, Stats>::empty(),
    {
        let t = Table { cities: Vec::new(), tallies: Vec::new() };
        assert forall|k: C::K| !t@.contains_key(k) by {
            assert(forall|i: int| !row_at(t.cities@, 0, k, i));
        }
        assert(t@ =~= Map::empty());
        t
    }

    /// The number of stations.
    pub fn len(&self) -> (n: usize)
        requires
            self.wf(),
        ensures
            n == self.cities().len(),
            self@.dom().finite(),
            n == self@.len(),
    {
        proof {
            let keys = self.cities@.map_values(|c: C| c.key());
            assert forall|i: int, j: int|
                0 <= i < keys.len() && 0 <= j < keys.len() && i != j implies keys[i]
                != keys[j] by {
                if i < j {
                    assert(C::lt(self.cities@[i].key(), self.cities@[j].key()));
                } else {
                    assert(C::lt(self.cities@[j].key(), self.cities@[i].key()));
                }
                C::lt_total(keys[i], keys[j]);
            }
            keys.unique_seq_to_set();
            assert forall|k: C::K| keys.to_set().contains(k) <==> self@.dom().contains(k) by {
                if keys.to_set().contains(k) {
                    let i = choose|i: int| 0 <= i < keys.len() && keys[i] == k;
                    assert(row_at(self.cities@, self.cities@.len() as int, k, i));
                }
                if self@.dom().contains(k) {
                    let i = choose|i: int| row_at(self.cities@, self.cities@.len() as int, k, i);
                    assert(keys[i] == k);
                }
            }
            assert(keys.to_set() =~= self@.dom());
        }
        self.cities.len()
    }

    /// The station of row `i`.
    pub fn city_at(&self, i: usize) -> (c: C)
        requires
            self.wf(),
            i < self.cities().len(),
        ensures
            c == self.cities()[i as int],
    {
        self.cities[i]
    }

    /// What is known of the station of row `i`.
    pub fn tally_at(&self, i: usize) -> (w: W)
        requires
            self.wf(),
            i < self.cities().len(),
        ensures
            w == self.tallies()[i as int],
    {
        self.tallies[i]
    }

    /// The row of a station, or the row before which it belongs.
    fn place(&self, c: &C) -> (r: (usize, bool))
        requires
            self.wf(),
        ensures
            r.0 <= self.cities@.len(),
            forall|j: int| 0 <= j < r.0 ==> C::lt((#[trigger] self.cities@[j]).key(), c.key()),
            r.1 ==> r.0 < self.cities@.len() && self.cities@[r.0 as int].key() == c.key(),
            !r.1 && r.0 < self.cities@.len() ==> C::lt(c.key(), self.cities@[r.0 as int].key()),
    {
        let mut lo: usize = 0;
        let mut hi: usize = self.cities.len();
        while lo < hi
            invariant
                self.wf(),
                lo <= hi <= self.cities@.len(),
                forall|j: int| 0 <= j < lo ==> C::lt((#[trigger] self.cities@[j]).key(), c.key()),
                forall|j: int|
                    hi <= j < self.cities@.len() ==> !C::lt(
                        (#[trigger] self.cities@[j]).key(),
                        c.key(),
                    ),
            decreases hi - lo,
        {
            let mid: usize = lo + (hi - lo) / 2;
            if self.cities[mid].before(c) {
                proof {
                    assert forall|j: int| 0 <= j < mid + 1 implies C::lt(
                        (#[trigger] self.cities@[j]).key(),
                        c.key(),
                    ) by {
                        if j < mid {
                            assert(C::lt(self.cities@[j].key(), self.cities@[mid as int].key()));
                            C::lt_trans(
                                self.cities@[j].key(),
                                self.cities@[mid as int].key(),
                                c.key(),
                            );
                        }
                    }
                }
                lo = mid + 1;
            } else {
                proof {
                    assert forall|j: int| mid <= j < self.cities@.len() implies !C::lt(
                        (#[trigger] self.cities@[j]).key(),
                        c.key(),
                    ) by {
                        if mid < j && C::lt(self.cities@[j].key(), c.key()) {
                            assert(C::lt(self.cities@[mid as int].key(), self.cities@[j].key()));
                            C::lt_trans(
                                self.cities@[mid as int].key(),
                                self.cities@[j].key(),
                                c.key(),
                            );
                        }
                    }
                }
                hi = mid;
            }
        }
        if lo == self.cities.len() {
            return (lo, false);
        }
        let later: bool = c.before(&self.cities[lo]);
        proof {
            C::lt_total(c.key(), self.cities@[lo as int].key());
        }
        (lo, !later)
    }

    /// A station that belongs before row `i` has no row.
    proof fn lemma_no_row(&self, k: C::K, i: int)
        requires
            self.wf(),
            0 <= i <= self.cities@.len(),
            forall|j: int| 0 <= j < i ==> C::lt((#[trigger] self.cities@[j]).key(), k),
            i < self.cities@.len() ==> C::lt(k, self.cities@[i].key()),
        ensures
            !self@.contains_key(k),
            forall|j: int| i <= j < self.cities@.len() ==> C::lt(k, (#[trigger] self.cities@[j]).key()),
    {
        assert forall|j: int| i <= j < self.cities@.len() implies C::lt(
            k,
            (#[trigger] self.cities@[j]).key(),
        ) by {
            if i < j {
                assert(C::lt(self.cities@[i].key(), self.cities@[j].key()));
                C::lt_trans(k, self.cities@[i].key(), self.cities@[j].key());
            }
        }
        if self@.contains_key(k) {
            let p = choose|p: int| row_at(self.cities@, self.cities@.len() as int, k, p);
            assert(row_at(self.cities@, self.cities@.len() as int, k, p));
            C::lt_total(k, self.cities@[p].key());
        }
    }

    /// What is known of a station, if it has a row.
    pub fn get(&self, c: &C) -> (r: Option<W>)
        requires
            self.wf(),
        ensures
            r is Some <==> self@.contains_key(c.key()),
            r matches Some(w) ==> w.stats() == self@[c.key()],
    {
        let (i, found) = self.place(c);
        if found {
            proof {
                lemma_row(self.cities@, self.tallies@, self.cities@.len() as int, i as int);
            }
            Some(self.tallies[i])
        } else {
            proof {
                self.lemma_no_row(c.key(), i as int);
            }
            None
        }
    }

    /// Takes in what is known of a station, or more of one.
    pub fn add_row(&mut self, c: C, w: W)
        requires
            old(self).wf(),
            old(self)@.contains_key(c.key()) ==> W::fits(old(self)@[c.key()].plus(w.stats())),
        ensures
            final(self).wf(),
            final(self)@ == with_row(old(self)@, c.key(), w.stats()),
    {
        let (i, found) = self.place(&c);
        let ghost n = self.cities@.len() as int;
        let ghost k = c.key();
        if found {
            proof {
                lemma_row(self.cities@, self.tallies@, n, i as int);
            }
            let mut t: W = self.tallies[i];
            t.absorb(w);
            self.tallies.set(i, t);
            proof {
                let a = old(self)@;
                let b = self@;
                assert forall|q: C::K| b.contains_key(q) <==> a.contains_key(q) by {}
                assert forall|q: C::K| b.contains_key(q) implies b[q] == with_row(
                    a,
                    k,
                    w.stats(),
                )[q] by {
                    let p = choose|p: int| row_at(self.cities@, n, q, p);
                    assert(row_at(self.cities@, n, q, p));
                    lemma_row(self.cities@, self.tallies@, n, p);
                    lemma_row(old(self).cities@, old(self).tallies@, n, p);
                    if p != i {
                        C::lt_total(self.cities@[p].key(), self.cities@[i as int].key());
                        if p < i {
                            assert(C::lt(self.cities@[p].key(), self.cities@[i as int].key()));
                        } else {
                            assert(C::lt(self.cities@[i as int].key(), self.cities@[p].key()));
                        }
                    }
                }
                assert(b =~= with_row(a, k, w.stats()));
            }
        } else {
            proof {
                self.lemma_no_row(k, i as int);
            }
            self.cities.insert(i, c);
            self.tallies.insert(i, w);
            proof {
                old(self).lemma_inserted(*self, i as int, c, w);
            }
        }
    }

    proof fn lemma_inserted(&self, post: Self, i: int, c: C, w: W)
        requires
            self.wf(),
            0 <= i <= self.cities@.len(),
            !self@.contains_key(c.key()),
            forall|j: int| 0 <= j < i ==> C::lt((#[trigger] self.cities@[j]).key(), c.key()),
            forall|j: int|
                i <= j < self.cities@.len() ==> C::lt(c.key(), (#[trigger] self.cities@[j]).key()),
            post.cities@ == self.cities@.insert(i, c),
            post.tallies@ == self.tallies@.insert(i, w),
        ensures
            post.wf(),
            post@ == with_row(self@, c.key(), w.stats()),
    {
        let n = self.cities@.len() as int;
        let n1 = n + 1;
        let old_row = |j: int|
            if j < i {
                j
            } else {
                j - 1
            };
        assert forall|j: int| 0 <= j < n + 1 && j != i implies #[trigger] post.cities@[j]
            == self.cities@[old_row(j)] && post.tallies@[j] == self.tallies@[old_row(j)] by {}
        assert forall|a: int, b: int| 0 <= a < b < n + 1 implies C::lt(
            (#[trigger] post.cities@[a]).key(),
            (#[trigger] post.cities@[b]).key(),
        ) by {
            if a == i {
                assert(C::lt(c.key(), self.cities@[old_row(b)].key()));
            } else if b == i {
                assert(C::lt(self.cities@[old_row(a)].key(), c.key()));
            } else {
                assert(C::lt(self.cities@[old_row(a)].key(), self.cities@[old_row(b)].key()));
            }
        }
        assert(in_order(post.cities@));
        let m = with_row(self@, c.key(), w.stats());
        assert forall|k: C::K| post@.contains_key(k) <==> m.contains_key(k) by {
            if post@.contains_key(k) {
                let p = choose|p: int| row_at(post.cities@, n1, k, p);
                assert(row_at(post.cities@, n1, k, p));
                if p != i {
                    lemma_row(self.cities@, self.tallies@, n, old_row(p));
                }
            }
            if m.contains_key(k) {
                if k == c.key() {
                    lemma_row(post.cities@, post.tallies@, n1, i);
                } else {
                    let p = choose|p: int| row_at(self.cities@, n, k, p);
                    assert(row_at(self.cities@, n, k, p));
                    let q = if p < i {
                        p
                    } else {
                        p + 1
                    };
                    assert(old_row(q) == p);
                    lemma_row(post.cities@, post.tallies@, n1, q);
                }
            }
        }
        assert forall|k: C::K| post@.contains_key(k) implies post@[k] == m[k] by {
            let p = choose|p: int| row_at(post.cities@, n1, k, p);
            assert(row_at(post.cities@, n1, k, p));
            lemma_row(post.cities@, post.tallies@, n1, p);
            if p != i {
                lemma_row(self.cities@, self.tallies@, n, old_row(p));
            }
        }
        assert(post@ =~= m);
    }

    /// Takes in another table.
    pub fn merge(&mut self, other: &Self)
        requires
            old(self).wf(),
            other.wf(),
            mergeable::<W, C::K>(old(self)@, other@),
        ensures
            final(self).wf(),
            final(self)@ == merged(old(self)@, other@),
    {
        let ghost a = self@;
        let ghost cs = other.cities@;
        let ghost ts = other.tallies@;
        let mut i: usize = 0;
        proof {
            let none = rows_map(cs, ts, 0);
            assert forall|k: C::K| !none.contains_key(k) by {
                assert(forall|i: int| !row_at(cs, 0, k, i));
            }
            assert(merged(a, none) =~= a);
        }
        while i < other.cities.len()
            invariant
                self.wf(),
                other.wf(),
                cs == other.cities@,
                ts == other.tallies@,
                a == old(self)@,
                mergeable::<W, C::K>(a, other@),
                i <= cs.len(),
                self@ == merged(a, rows_map(cs, ts, i as int)),
            decreases cs.len() - i,
        {
            let c: C = other.cities[i];
            let w: W = other.tallies[i];
            proof {
                lemma_more_rows(cs, ts, i as int);
                lemma_row(cs, ts, cs.len() as int, i as int);
                assert(other@.contains_key(c.key()));
                let b = rows_map(cs, ts, i as int);
                let b1 = rows_map(cs, ts, i + 1);
                assert(merged(a, b1) =~= with_row(merged(a, b), c.key(), w.stats()));
            }
            self.add_row(c, w);
            i = i + 1;
        }
    }

    /// Whether another table can be taken in.
    pub fn can_merge(&self, other: &Self) -> (b: bool)
        requires
            self.wf(),
            other.wf(),
        ensures
            b == mergeable::<W, C::K>(self@, other@),
    {
        let ghost cs = other.cities@;
        let ghost ts = other.tallies@;
        let ghost n = cs.len() as int;
        let mut i: usize = 0;
        while i < other.cities.len()
            invariant
                self.wf(),
                other.wf(),
                cs == other.cities@,
                ts == other.tallies@,
                n == cs.len(),
                i <= n,
                forall|j: int|
                    0 <= j < i ==> (self@.contains_key((#[trigger] cs[j]).key()) ==> W::fits(
                        self@[cs[j].key()].plus(ts[j].stats()),
                    )),
            decreases n - i,
        {
            let c: C = other.cities[i];
            proof {
                lemma_row(cs, ts, n, i as int);
            }
            match self.get(&c) {
                Some(w) => {
                    if !w.can_absorb(&other.tallies[i]) {
                        assert(other@.contains_key(c.key()));
                        return false;
                    }
                },
                None => {},
            }
            i = i + 1;
        }
        proof {
            assert forall|k: C::K|
                self@.contains_key(k) && #[trigger] other@.contains_key(k) implies W::fits(
                self@[k].plus(other@[k]),
            ) by {
                let p = choose|p: int| row_at(cs, n, k, p);
                assert(row_at(cs, n, k, p));
                lemma_row(cs, ts, n, p);
                assert(cs[p].key() == k);
            }
        }
        true
    }
}

/// One row more.
proof fn lemma_more_rows<C: Ranked, W: Tally>(cs: Seq<C>, ts: Seq<W>, i: int)
    requires
        in_order(cs),
        0 <= i < cs.len(),
    ensures
        !rows_map(cs, ts, i).contains_key(cs[i].key()),
        rows_map(cs, ts, i + 1) == rows_map(cs, ts, i).insert(cs[i].key(), ts[i].stats()),
{
    let n = i + 1;
    let a = rows_map(cs, ts, i);
    let b = rows_map(cs, ts, i + 1);
    let c = a.insert(cs[i].key(), ts[i].stats());
    if a.contains_key(cs[i].key()) {
        let p = choose|p: int| row_at(cs, i, cs[i].key(), p);
        assert(row_at(cs, i, cs[i].key(), p));
        assert(C::lt(cs[p].key(), cs[i].key()));
        C::lt_total(cs[p].key(), cs[i].key());
    }
    assert forall|k: C::K| b.contains_key(k) <==> c.contains_key(k) by {
        if b.contains_key(k) {
            let p = choose|p: int| row_at(cs, n, k, p);
            assert(row_at(cs, n, k, p));
            if p < i {
                assert(row_at(cs, i, k, p));
            }
        }
        if c.contains_key(k) {
            if k == cs[i].key() {
                assert(row_at(cs, n, k, i));
            } else {
                let p = choose|p: int| row_at(cs, i, k, p);
                assert(row_at(cs, n, k, p));
            }
        }
    }
    assert forall|k: C::K| b.contains_key(k) implies b[k] == c[k] by {
        let p = choose|p: int| row_at(cs, n, k, p);
        assert(row_at(cs, n, k, p));
        lemma_row(cs, ts, i + 1, p);
        if p < i {
            lemma_row(cs, ts, i, p);
        }
    }
    assert(b =~= c);
}

} // verus!
