//! What a table of stations holds, and what putting records into it does.
use vstd::prelude::*;
use crate::bench::city::Fingerprint;
use crate::bench::weather;
use crate::stats;
use crate::stats::Stats;
use crate::table;

verus! {

/// The number of slots of a table.
pub const HASH_SIZE: usize = 32768;

/// A record as it is put into a table.
pub struct Entry {
    pub fp: Fingerprint,
    pub name: Seq<u8>,
    pub temp: int,
}

/// A fingerprint with a name.
pub type Key = (Fingerprint, Seq<u8>);

impl Entry {
    /// The station.
    pub open spec fn key(self) -> Key {
        (self.fp, self.name)
    }
}

/// For each fingerprint the name that came with it first, and what is known of it.
pub type Stations = Map<Fingerprint, (Seq<u8>, Stats)>;

/// The table after one more record.
pub open spec fn put_one(m: Stations, e: Entry) -> Stations {
    if m.contains_key(e.fp) {
        m.insert(e.fp, (m[e.fp].0, m[e.fp].1.plus(Stats::of(e.temp))))
    } else {
        m.insert(e.fp, (e.name, Stats::of(e.temp)))
    }
}

/// The table has room for one more record: the station is known and its count and sum can
/// take it, or there is a free slot.
pub open spec fn can_put(m: Stations, e: Entry) -> bool {
    if m.contains_key(e.fp) {
        weather::fits(m[e.fp].1.plus(Stats::of(e.temp)))
    } else {
        m.len() < HASH_SIZE
    }
}

/// The table after the records `es`, in turn.
pub open spec fn put_all(m: Stations, es: Seq<Entry>) -> Stations
    decreases es.len(),
{
    if es.len() == 0 {
        m
    } else {
        put_all(put_one(m, es[0]), es.drop_first())
    }
}

/// The table has room for each of the records `es` in turn.
pub open spec fn can_put_all(m: Stations, es: Seq<Entry>) -> bool
    decreases es.len(),
{
    es.len() > 0 ==> can_put(m, es[0]) && can_put_all(put_one(m, es[0]), es.drop_first())
}

/// The stations of a table in order, each with what is known of it.
pub open spec fn stations_table(m: Stations) -> Map<Key, Stats> {
    Map::new(
        |k: Key| m.contains_key(k.0) && m[k.0].0 == k.1,
        |k: Key| m[k.0].1,
    )
}

/// What is known of each station once the records `es` have been read.
pub open spec fn tally(es: Seq<Entry>) -> Map<Key, Stats>
    decreases es.len(),
{
    if es.len() == 0 {
        Map::empty()
    } else {
        table::with_row(tally(es.drop_last()), es.last().key(), Stats::of(es.last().temp))
    }
}

/// No two names share a fingerprint.
pub open spec fn distinct(es: Seq<Entry>) -> bool {
    forall|i: int, j: int|
        0 <= i < es.len() && 0 <= j < es.len() && (#[trigger] es[i]).fp == (#[trigger] es[j]).fp
            ==> es[i].name == es[j].name
}

/// Records that follow others are put after them.
pub proof fn law_put_all_joins(m: Stations, a: Seq<Entry>, b: Seq<Entry>)
    ensures
        put_all(m, a + b) == put_all(put_all(m, a), b),
        can_put_all(m, a + b) <==> can_put_all(m, a) && can_put_all(put_all(m, a), b),
    decreases a.len(),
{
    if a.len() == 0 {
        assert(a + b =~= b);
    } else {
        assert((a + b).drop_first() =~= a.drop_first() + b);
        law_put_all_joins(put_one(m, a[0]), a.drop_first(), b);
    }
}

/// The last of the records is put last.
pub proof fn lemma_put_last(m: Stations, es: Seq<Entry>)
    requires
        es.len() > 0,
    ensures
        put_all(m, es) == put_one(put_all(m, es.drop_last()), es.last()),
    decreases es.len(),
{
    if es.len() > 1 {
        lemma_put_last(put_one(m, es[0]), es.drop_first());
        assert(es.drop_first().drop_last() =~= es.drop_last().drop_first());
        assert(es.drop_first().last() == es.last());
        assert(es.drop_last()[0] == es[0]);
    } else {
        reveal_with_fuel(put_all, 2);
        assert(es.drop_first() =~= seq![]);
        assert(es.drop_last() =~= seq![]);
    }
}

/// Which fingerprints are known after reading, and under which name.
proof fn lemma_known(es: Seq<Entry>, fp: Fingerprint)
    requires
        distinct(es),
    ensures
        ({
            let m = put_all(Map::empty(), es);
            &&& m.contains_key(fp) <==> exists|i: int| 0 <= i < es.len() && (#[trigger] es[i]).fp
                == fp
            &&& forall|i: int|
                0 <= i < es.len() && (#[trigger] es[i]).fp == fp ==> m[fp].0 == es[i].name
        }),
    decreases es.len(),
{
    if es.len() > 0 {
        let some = es.drop_last();
        let e = es.last();
        let n = some.len() as int;
        assert(distinct(some)) by {
            assert forall|i: int, j: int|
                0 <= i < some.len() && 0 <= j < some.len() && (#[trigger] some[i]).fp == (
                #[trigger] some[j]).fp implies some[i].name == some[j].name by {
                assert(es[i].fp == es[j].fp);
            }
        }
        lemma_known(some, fp);
        lemma_put_last(Map::empty(), es);
        let before = put_all(Map::empty(), some);
        let m = put_all(Map::empty(), es);
        if m.contains_key(fp) {
            if e.fp == fp {
                assert(es[n].fp == fp);
            } else {
                let i = choose|i: int| 0 <= i < some.len() && (#[trigger] some[i]).fp == fp;
                assert(es[i].fp == fp);
            }
        }
        if exists|i: int| 0 <= i < es.len() && (#[trigger] es[i]).fp == fp {
            let i = choose|i: int| 0 <= i < es.len() && (#[trigger] es[i]).fp == fp;
            if i < n {
                assert(some[i].fp == fp);
            }
        }
        assert forall|i: int| 0 <= i < es.len() && (#[trigger] es[i]).fp == fp implies m[fp].0
            == es[i].name by {
            if before.contains_key(fp) {
                let j = choose|j: int| 0 <= j < some.len() && (#[trigger] some[j]).fp == fp;
                assert(before[fp].0 == some[j].name);
                assert(es[j].fp == es[i].fp);
            } else if i < n {
                assert(some[i].fp == fp);
            }
        }
    }
}

/// Where no two names share a fingerprint, the table holds what is known of each name.
pub proof fn law_table_tallies(es: Seq<Entry>)
    requires
        distinct(es),
    ensures
        stations_table(put_all(Map::empty(), es)) == tally(es),
    decreases es.len(),
{
    let m = put_all(Map::empty(), es);
    if es.len() == 0 {
        assert(stations_table(m) =~= tally(es));
    } else {
        let some = es.drop_last();
        let e = es.last();
        assert(distinct(some)) by {
            assert forall|i: int, j: int|
                0 <= i < some.len() && 0 <= j < some.len() && (#[trigger] some[i]).fp == (
                #[trigger] some[j]).fp implies some[i].name == some[j].name by {
                assert(es[i].fp == es[j].fp);
            }
        }
        law_table_tallies(some);
        lemma_put_last(Map::empty(), es);
        lemma_known(es, e.fp);
        assert(es[es.len() - 1] == e);
        assert(m[e.fp].0 == e.name);
        let before = put_all(Map::empty(), some);
        assert(stations_table(m) =~= table::with_row(
            stations_table(before),
            e.key(),
            Stats::of(e.temp),
        )) by {
            lemma_known(some, e.fp);
        }
    }
}

/// Two lots of records: what is known of both is what is known of each, taken together.
pub proof fn law_tally_add(a: Seq<Entry>, b: Seq<Entry>)
    ensures
        tally(a + b) == table::merged(tally(a), tally(b)),
    decreases b.len(),
{
    if b.len() == 0 {
        assert(a + b =~= a);
        assert(table::merged(tally(a), tally(b)) =~= tally(a));
    } else {
        law_tally_add(a, b.drop_last());
        assert((a + b).drop_last() =~= a + b.drop_last());
        let e = b.last();
        let x = tally(a);
        let y = tally(b.drop_last());
        assert(table::with_row(table::merged(x, y), e.key(), Stats::of(e.temp)) =~= table::merged(
            x,
            table::with_row(y, e.key(), Stats::of(e.temp)),
        ));
    }
}

/// In which order two lots of records come makes no difference to what is known.
pub proof fn law_tally_order(a: Seq<Entry>, b: Seq<Entry>)
    ensures
        tally(a + b) == tally(b + a),
{
    law_tally_add(a, b);
    law_tally_add(b, a);
    table::law_merged(tally(a), tally(b), tally(a));
}

/// The records of one station.
pub open spec fn of_station(es: Seq<Entry>, k: Key) -> Seq<Entry> {
    es.filter(|e: Entry| e.key() == k)
}

/// The sum of the temperatures.
pub open spec fn sum_temps(es: Seq<Entry>) -> int
    decreases es.len(),
{
    if es.len() == 0 {
        0
    } else {
        sum_temps(es.drop_last()) + es.last().temp
    }
}

/// A station is known if it has a record; its count is the number of its records, its sum the sum of
/// their temperatures.
pub proof fn law_tally_counts(es: Seq<Entry>, k: Key)
    ensures
        tally(es).contains_key(k) <==> of_station(es, k).len() > 0,
        tally(es).contains_key(k) ==> tally(es)[k].cnt == of_station(es, k).len(),
        tally(es).contains_key(k) ==> tally(es)[k].sum == sum_temps(of_station(es, k)),
    decreases es.len(),
{
    reveal(Seq::filter);
    if es.len() > 0 {
        law_tally_counts(es.drop_last(), k);
        let some = of_station(es.drop_last(), k);
        if es.last().key() == k {
            assert(of_station(es, k) =~= some.push(es.last()));
            assert(some.push(es.last()).drop_last() =~= some);
            assert(sum_temps(some.push(es.last())) == sum_temps(some) + es.last().temp);
        } else {
            assert(of_station(es, k) =~= some);
        }
        if some.len() == 0 {
            assert(some =~= seq![]);
        }
    }
}

/// What is known of a station are its temperatures: lowest and highest occur, none lies
/// outside them, and neither does the mean.
pub proof fn law_tally_bounds(es: Seq<Entry>, k: Key)
    requires
        tally(es).contains_key(k),
    ensures
        ({
            let s = tally(es)[k];
            &&& 0 < s.cnt <= es.len()
            &&& s.min * s.cnt <= s.sum <= s.max * s.cnt
            &&& s.min <= stats::mean(s.sum, s.cnt) <= s.max
            &&& forall|i: int|
                0 <= i < es.len() && (#[trigger] es[i]).key() == k ==> s.min <= es[i].temp <= s.max
            &&& exists|i: int|
                0 <= i < es.len() && (#[trigger] es[i]).key() == k && es[i].temp == s.min
            &&& exists|i: int|
                0 <= i < es.len() && (#[trigger] es[i]).key() == k && es[i].temp == s.max
        }),
    decreases es.len(),
{
    let s = tally(es)[k];
    let some = es.drop_last();
    let e = es.last();
    let n = es.len() - 1;
    assert(es[n] == e);
    let t = tally(some);
    if t.contains_key(k) {
        law_tally_bounds(some, k);
        let r = t[k];
        let lo = choose|i: int|
            0 <= i < some.len() && (#[trigger] some[i]).key() == k && some[i].temp == r.min;
        let hi = choose|i: int|
            0 <= i < some.len() && (#[trigger] some[i]).key() == k && some[i].temp == r.max;
        assert(es[lo].key() == k && es[lo].temp == r.min);
        assert(es[hi].key() == k && es[hi].temp == r.max);
        assert forall|i: int| 0 <= i < es.len() && (#[trigger] es[i]).key() == k implies s.min
            <= es[i].temp <= s.max by {
            if i < n {
                assert(some[i].key() == k);
            }
        }
        if e.key() == k {
            assert(s.min * s.cnt <= s.sum <= s.max * s.cnt) by (nonlinear_arith)
                requires
                    s.cnt == r.cnt + 1,
                    r.cnt > 0,
                    s.sum == r.sum + e.temp,
                    r.min * r.cnt <= r.sum <= r.max * r.cnt,
                    s.min <= r.min,
                    s.min <= e.temp,
                    r.max <= s.max,
                    e.temp <= s.max,
            ;
            assert(e.temp == s.min || r.min == s.min);
            assert(e.temp == s.max || r.max == s.max);
        }
    } else {
        assert(e.key() == k);
        assert(s == Stats::of(e.temp));
        assert(s.min * s.cnt <= s.sum <= s.max * s.cnt) by (nonlinear_arith)
            requires
                s.cnt == 1,
                s.min == s.sum,
                s.max == s.sum,
        ;
        assert forall|i: int| 0 <= i < es.len() && (#[trigger] es[i]).key() == k implies i == n by {
            if i < n {
                lemma_tallied(some, i);
            }
        }
    }
    stats::law_mean_between(s);
}

/// The fingerprints of the records.
pub open spec fn fps(es: Seq<Entry>) -> Set<Fingerprint> {
    es.map_values(|e: Entry| e.fp).to_set()
}

/// How many records have this fingerprint.
pub open spec fn count_of(es: Seq<Entry>, fp: Fingerprint) -> int
    decreases es.len(),
{
    if es.len() == 0 {
        0
    } else {
        count_of(es.drop_last(), fp) + (if es.last().fp == fp {
            1int
        } else {
            0
        })
    }
}

/// Records that follow others are counted with them.
pub proof fn lemma_count_add(a: Seq<Entry>, b: Seq<Entry>, fp: Fingerprint)
    ensures
        count_of(a + b, fp) == count_of(a, fp) + count_of(b, fp),
        0 <= count_of(a, fp) <= a.len(),
        0 <= count_of(b, fp) <= b.len(),
    decreases a.len() + b.len(),
{
    if b.len() == 0 {
        assert(a + b =~= a);
        if a.len() > 0 {
            lemma_count_add(a.drop_last(), b, fp);
            assert(a.drop_last() + b =~= a.drop_last());
        }
    } else {
        lemma_count_add(a, b.drop_last(), fp);
        assert((a + b).drop_last() =~= a + b.drop_last());
    }
}

/// The most records of one station whose sum can be held whatever their temperatures.
pub open spec fn most_of_one() -> int {
    2099202
}

/// The records can be taken into one table: not of more stations than there are slots, and not too
/// many of any one.
pub open spec fn roomy(es: Seq<Entry>) -> bool {
    &&& fps(es).len() <= HASH_SIZE
    &&& forall|fp: Fingerprint| #[trigger] count_of(es, fp) <= most_of_one()
}

proof fn lemma_room(m: Stations, es: Seq<Entry>)
    requires
        m.dom().finite(),
        (m.dom() + fps(es)).len() <= HASH_SIZE,
        forall|i: int| 0 <= i < es.len() ==> -1023 <= (#[trigger] es[i]).temp <= 1023,
        forall|fp: Fingerprint| #[trigger]
            m.contains_key(fp) ==> within(m[fp].1, most_of_one() - count_of(es, fp)),
        forall|fp: Fingerprint| #[trigger] count_of(es, fp) <= most_of_one(),
    ensures
        can_put_all(m, es),
    decreases es.len(),
{
    if es.len() > 0 {
        let e = es[0];
        let rest = es.drop_first();
        let all = es.map_values(|e: Entry| e.fp);
        let some = rest.map_values(|e: Entry| e.fp);
        let next = put_one(m, e);
        assert(es =~= seq![e] + rest);
        assert forall|fp: Fingerprint| #[trigger]
            count_of(rest, fp) == count_of(es, fp) - (if e.fp == fp {
                1int
            } else {
                0
            }) && count_of(rest, fp) >= 0 by {
            lemma_count_add(seq![e], rest, fp);
            reveal_with_fuel(count_of, 2);
            assert(seq![e].drop_last() =~= seq![]);
        }
        assert(all[0] == e.fp);
        assert(fps(es).contains(e.fp));
        assert(m.dom() + fps(es) =~= next.dom() + fps(rest)) by {
            assert forall|x: Fingerprint| #[trigger]
                fps(es).contains(x) <==> x == e.fp || fps(rest).contains(x) by {
                if fps(es).contains(x) {
                    let i = choose|i: int| 0 <= i < all.len() && all[i] == x;
                    if i > 0 {
                        assert(some[i - 1] == x);
                    }
                }
                if fps(rest).contains(x) {
                    let i = choose|i: int| 0 <= i < some.len() && some[i] == x;
                    assert(all[i + 1] == x);
                }
            }
        }
        assert(count_of(rest, e.fp) >= 0);
        if !m.contains_key(e.fp) {
            let both = m.dom() + fps(es);
            vstd::seq_lib::seq_to_set_is_finite(all);
            assert(m.dom().subset_of(both.remove(e.fp)));
            vstd::set_lib::lemma_len_subset(m.dom(), both.remove(e.fp));
        } else {
            assert(within(m[e.fp].1, most_of_one() - count_of(es, e.fp)));
        }
        assert forall|i: int| 0 <= i < rest.len() implies -1023 <= (#[trigger] rest[i]).temp
            <= 1023 by {
            assert(rest[i] == es[i + 1]);
        }
        assert forall|fp: Fingerprint| #[trigger] next.contains_key(fp) implies within(
            next[fp].1,
            most_of_one() - count_of(rest, fp),
        ) by {
            assert(count_of(rest, fp) >= 0);
            if m.contains_key(fp) {
                assert(within(m[fp].1, most_of_one() - count_of(es, fp)));
            }
        }
        assert forall|fp: Fingerprint| #[trigger] count_of(rest, fp) <= most_of_one() by {
            assert(count_of(es, fp) <= most_of_one());
        }
        lemma_room(next, rest);
    }
}

/// What `n` temperatures can make of count and sum.
pub open spec fn within(s: Stats, n: int) -> bool {
    0 <= s.cnt <= n && -1023 * n <= s.sum <= 1023 * n
}

/// What is known of a station is within what its records can make.
pub proof fn lemma_within(es: Seq<Entry>, fp: Fingerprint)
    requires
        forall|i: int| 0 <= i < es.len() ==> -1023 <= (#[trigger] es[i]).temp <= 1023,
        put_all(Map::empty(), es).contains_key(fp),
    ensures
        within(put_all(Map::empty(), es)[fp].1, count_of(es, fp)),
    decreases es.len(),
{
    let some = es.drop_last();
    lemma_put_last(Map::empty(), es);
    lemma_count_add(some, some, fp);
    assert(-1023 <= es[es.len() - 1].temp <= 1023);
    if put_all(Map::empty(), some).contains_key(fp) {
        assert forall|i: int| 0 <= i < some.len() implies -1023 <= (#[trigger] some[i]).temp
            <= 1023 by {
            assert(some[i] == es[i]);
        }
        lemma_within(some, fp);
    }
}

/// An empty table has room for two million records of each station, whatever their temperatures, if
/// there are not more stations than slots.
pub proof fn law_room(es: Seq<Entry>)
    requires
        roomy(es),
        forall|i: int| 0 <= i < es.len() ==> -1023 <= (#[trigger] es[i]).temp <= 1023,
    ensures
        can_put_all(Map::empty(), es),
{
    let m: Stations = Map::empty();
    assert(m.dom() + fps(es) =~= fps(es));
    lemma_room(m, es);
}

/// Every record is tallied.
proof fn lemma_tallied(es: Seq<Entry>, i: int)
    requires
        0 <= i < es.len(),
    ensures
        tally(es).contains_key(es[i].key()),
    decreases es.len(),
{
    if i < es.len() - 1 {
        lemma_tallied(es.drop_last(), i);
    }
}

/// The records with one fingerprint.
pub open spec fn of_fp(es: Seq<Entry>, fp: Fingerprint) -> Seq<Entry> {
    es.filter(|e: Entry| e.fp == fp)
}

/// A table has a row for each fingerprint that has a record, under the name that came first: its count is
/// the number of those records, its sum the sum of their temperatures, and of those the lowest and the
/// highest are its own.
pub proof fn law_rows_by_fingerprint(es: Seq<Entry>, fp: Fingerprint)
    ensures
        ({
            let m = put_all(Map::empty(), es);
            let mine = of_fp(es, fp);
            &&& m.contains_key(fp) <==> mine.len() > 0
            &&& mine.len() > 0 ==> {
                &&& m[fp].0 == mine[0].name
                &&& m[fp].1.cnt == mine.len()
                &&& m[fp].1.sum == sum_temps(mine)
                &&& forall|i: int|
                    0 <= i < mine.len() ==> m[fp].1.min <= (#[trigger] mine[i]).temp <= m[fp].1.max
                &&& exists|i: int| 0 <= i < mine.len() && (#[trigger] mine[i]).temp == m[fp].1.min
                &&& exists|i: int| 0 <= i < mine.len() && (#[trigger] mine[i]).temp == m[fp].1.max
            }
        }),
    decreases es.len(),
{
    reveal(Seq::filter);
    let m = put_all(Map::empty(), es);
    let mine = of_fp(es, fp);
    if es.len() > 0 {
        let some = of_fp(es.drop_last(), fp);
        let e = es.last();
        let before = put_all(Map::empty(), es.drop_last());
        lemma_put_last(Map::empty(), es);
        law_rows_by_fingerprint(es.drop_last(), fp);
        if e.fp == fp {
            assert(mine =~= some.push(e));
            assert(mine.drop_last() =~= some);
            assert(mine[some.len() as int] == e);
            if some.len() > 0 {
                let lo = choose|i: int|
                    0 <= i < some.len() && (#[trigger] some[i]).temp == before[fp].1.min;
                let hi = choose|i: int|
                    0 <= i < some.len() && (#[trigger] some[i]).temp == before[fp].1.max;
                assert(mine[lo] == some[lo] && mine[hi] == some[hi]);
                assert forall|i: int| 0 <= i < mine.len() implies m[fp].1.min <= (
                #[trigger] mine[i]).temp <= m[fp].1.max by {
                    if i < some.len() {
                        assert(mine[i] == some[i]);
                    }
                }
                assert(mine[0] == some[0]);
                let s = m[fp].1;
                let r = before[fp].1;
                assert(s == r.plus(Stats::of(e.temp)));
                assert(mine[if r.min <= e.temp {
                    lo
                } else {
                    some.len() as int
                }].temp == s.min);
                assert(mine[if r.max >= e.temp {
                    hi
                } else {
                    some.len() as int
                }].temp == s.max);
            } else {
                assert(some =~= seq![]);
                assert(mine[0] == e);
                assert(m[fp] == (e.name, Stats::of(e.temp)));
                assert(sum_temps(mine) == sum_temps(mine.drop_last()) + e.temp);
                assert(sum_temps(some) == 0);
            }
        } else {
            assert(mine == some);
            assert(m.contains_key(fp) == before.contains_key(fp));
            assert(m.contains_key(fp) ==> m[fp] == before[fp]);
        }
    } else {
        assert(mine =~= seq![]);
    }
}

/// Two tables know the same of `k`.
pub open spec fn same_at(a: Map<Key, Stats>, b: Map<Key, Stats>, k: Key) -> bool {
    &&& a.contains_key(k) <==> b.contains_key(k)
    &&& a.contains_key(k) ==> a[k] == b[k]
}

/// No other name has the fingerprint of `k`.
pub open spec fn alone(es: Seq<Entry>, k: Key) -> bool {
    forall|i: int| 0 <= i < es.len() && (#[trigger] es[i]).fp == k.0 ==> es[i].name == k.1
}

/// A station with a fingerprint of its own has a row of its own, whatever other stations share.
pub proof fn law_own_row(es: Seq<Entry>, k: Key)
    requires
        alone(es, k),
    ensures
        same_at(stations_table(put_all(Map::empty(), es)), tally(es), k),
        put_all(Map::empty(), es).contains_key(k.0) ==> put_all(Map::empty(), es)[k.0].0 == k.1,
    decreases es.len(),
{
    if es.len() > 0 {
        let some = es.drop_last();
        let e = es.last();
        assert(es[es.len() - 1] == e);
        assert(alone(some, k)) by {
            assert forall|i: int| 0 <= i < some.len() && (#[trigger] some[i]).fp == k.0 implies some[i].name
                == k.1 by {
                assert(es[i].fp == k.0);
            }
        }
        law_own_row(some, k);
        lemma_put_last(Map::empty(), es);
    }
}

/// There is room for a record as long as count and sum of its station can be held in 32 bits; for one of
/// a new station, as long as there are fewer than 32768.
pub proof fn law_room_for_one(m: Stations, e: Entry)
    ensures
        m.contains_key(e.fp) ==> (can_put(m, e) <==> {
            &&& 0 <= m[e.fp].1.cnt + 1 <= 0xffff_ffff
            &&& -0x8000_0000 <= m[e.fp].1.sum + e.temp <= 0x7fff_ffff
        }),
        !m.contains_key(e.fp) ==> (can_put(m, e) <==> m.len() < 32768),
{
}

/// A record changes what is known of its own station, and nothing else.
pub proof fn law_put_one(m: Stations, e: Entry, fp: Fingerprint)
    ensures
        put_one(m, e).contains_key(e.fp),
        !m.contains_key(e.fp) ==> put_one(m, e)[e.fp].0 == e.name && put_one(m, e)[e.fp].1.cnt == 1,
        m.contains_key(e.fp) ==> put_one(m, e)[e.fp].0 == m[e.fp].0 && put_one(m, e)[e.fp].1.cnt
            == m[e.fp].1.cnt + 1 && put_one(m, e)[e.fp].1.sum == m[e.fp].1.sum + e.temp,
        fp != e.fp ==> (put_one(m, e).contains_key(fp) <==> m.contains_key(fp)),
        fp != e.fp && m.contains_key(fp) ==> put_one(m, e)[fp] == m[fp],
{
}

/// The stations of a table are its fingerprints with the names they came with, and what is known of them.
pub proof fn law_stations_table(m: Stations, k: Key)
    ensures
        stations_table(m).contains_key(k) <==> m.contains_key(k.0) && m[k.0].0 == k.1,
        stations_table(m).contains_key(k) ==> stations_table(m)[k] == m[k.0].1,
{
}

} // verus!
