//! What a table of stations holds, and what putting records into it does.
use vstd::prelude::*;
use crate::exact::weather;
use crate::stats;
use crate::stats::Stats;
use crate::table;

verus! {

/// The number of slots of a table.
pub const SLOTS: usize = 131072;

/// A record as it is put into a table.
pub struct Entry {
    pub name: Seq<u8>,
    pub temp: int,
}

/// For each name what is known of it.
pub type Stations = Map<Seq<u8>, Stats>;

/// The table after one more record.
pub open spec fn put_one(m: Stations, e: Entry) -> Stations {
    table::with_row(m, e.name, Stats::of(e.temp))
}

/// The table has room for one more record: the station is known and its count and sum can take it,
/// or there is a free slot.
pub open spec fn can_put(m: Stations, e: Entry) -> bool {
    if m.contains_key(e.name) {
        weather::fits(m[e.name].plus(Stats::of(e.temp)))
    } else {
        m.len() < SLOTS
    }
}

/// The table after the records `es`, in turn.
pub open spec fn put_all(m: Stations, es: Seq<Entry>) -> Stations
    decreases es.len(),
{
    if es.len() == 0 {
        m
    } else {
        put_all(put_one(m, es[0]), es.drop_first())
    }
}

/// The table has room for each of the records `es` in turn.
pub open spec fn can_put_all(m: Stations, es: Seq<Entry>) -> bool
    decreases es.len(),
{
    es.len() > 0 ==> can_put(m, es[0]) && can_put_all(put_one(m, es[0]), es.drop_first())
}

/// Records that follow others are put after them.
pub proof fn law_put_all_joins(m: Stations, a: Seq<Entry>, b: Seq<Entry>)
    ensures
        put_all(m, a + b) == put_all(put_all(m, a), b),
        can_put_all(m, a + b) <==> can_put_all(m, a) && can_put_all(put_all(m, a), b),
    decreases a.len(),
{
    if a.len() == 0 {
        assert(a + b =~= b);
    } else {
        assert((a + b).drop_first() =~= a.drop_first() + b);
        law_put_all_joins(put_one(m, a[0]), a.drop_first(), b);
    }
}

/// The last of the records is put last.
pub proof fn lemma_put_last(m: Stations, es: Seq<Entry>)
    requires
        es.len() > 0,
    ensures
        put_all(m, es) == put_one(put_all(m, es.drop_last()), es.last()),
    decreases es.len(),
{
    if es.len() > 1 {
        lemma_put_last(put_one(m, es[0]), es.drop_first());
        assert(es.drop_first().drop_last() =~= es.drop_last().drop_first());
        assert(es.drop_first().last() == es.last());
        assert(es.drop_last()[0] == es[0]);
    } else {
        reveal_with_fuel(put_all, 2);
        assert(es.drop_first() =~= seq![]);
        assert(es.drop_last() =~= seq![]);
    }
}

/// Two lots of records: what is known of both is what is known of each, taken together.
pub proof fn law_put_all_merges(a: Seq<Entry>, b: Seq<Entry>)
    ensures
        put_all(Map::empty(), a + b) == table::merged(
            put_all(Map::empty(), a),
            put_all(Map::empty(), b),
        ),
    decreases b.len(),
{
    let x = put_all(Map::empty(), a);
    if b.len() == 0 {
        assert(a + b =~= a);
        assert(table::merged(x, Map::empty()) =~= x);
    } else {
        law_put_all_merges(a, b.drop_last());
        assert((a + b).drop_last() =~= a + b.drop_last());
        lemma_put_last(Map::empty(), a + b);
        lemma_put_last(Map::empty(), b);
        let e = b.last();
        let y = put_all(Map::empty(), b.drop_last());
        assert(put_one(table::merged(x, y), e) =~= table::merged(x, put_one(y, e)));
    }
}

/// In which order two lots of records come makes no difference to what is known.
pub proof fn law_put_all_order(a: Seq<Entry>, b: Seq<Entry>)
    ensures
        put_all(Map::empty(), a + b) == put_all(Map::empty(), b + a),
{
    law_put_all_merges(a, b);
    law_put_all_merges(b, a);
    let x = put_all(Map::empty(), a);
    table::law_merged(x, put_all(Map::empty(), b), x);
}

/// The names in the records.
pub open spec fn names(es: Seq<Entry>) -> Set<Seq<u8>> {
    es.map_values(|e: Entry| e.name).to_set()
}

/// How many records are of this station.
pub open spec fn count_of(es: Seq<Entry>, name: Seq<u8>) -> int
    decreases es.len(),
{
    if es.len() == 0 {
        0
    } else {
        count_of(es.drop_last(), name) + (if es.last().name == name {
            1int
        } else {
            0
        })
    }
}

/// Records that follow others are counted with them.
pub proof fn lemma_count_add(a: Seq<Entry>, b: Seq<Entry>, name: Seq<u8>)
    ensures
        count_of(a + b, name) == count_of(a, name) + count_of(b, name),
        0 <= count_of(a, name) <= a.len(),
        0 <= count_of(b, name) <= b.len(),
    decreases a.len() + b.len(),
{
    if b.len() == 0 {
        assert(a + b =~= a);
        if a.len() > 0 {
            lemma_count_add(a.drop_last(), b, name);
            assert(a.drop_last() + b =~= a.drop_last());
        }
    } else {
        lemma_count_add(a, b.drop_last(), name);
        assert((a + b).drop_last() =~= a + b.drop_last());
    }
}

/// The most records of one station whose count can be held.
pub open spec fn most_of_one() -> int {
    u32::MAX as int
}

/// The records can be taken into one table: not of more stations than there are slots, and not too
/// many of any one.
pub open spec fn roomy(es: Seq<Entry>) -> bool {
    &&& names(es).len() <= SLOTS
    &&& forall|name: Seq<u8>| #[trigger] count_of(es, name) <= most_of_one()
}

proof fn lemma_room(m: Stations, es: Seq<Entry>)
    requires
        m.dom().finite(),
        (m.dom() + names(es)).len() <= SLOTS,
        forall|i: int| 0 <= i < es.len() ==> -1665 <= (#[trigger] es[i]).temp <= 1665,
        forall|name: Seq<u8>| #[trigger]
            m.contains_key(name) ==> within(m[name], most_of_one() - count_of(es, name)),
        forall|name: Seq<u8>| #[trigger] count_of(es, name) <= most_of_one(),
    ensures
        can_put_all(m, es),
    decreases es.len(),
{
    if es.len() > 0 {
        let e = es[0];
        let rest = es.drop_first();
        let all = es.map_values(|e: Entry| e.name);
        let some = rest.map_values(|e: Entry| e.name);
        let next = put_one(m, e);
        assert(es =~= seq![e] + rest);
        assert forall|name: Seq<u8>| #[trigger]
            count_of(rest, name) == count_of(es, name) - (if e.name == name {
                1int
            } else {
                0
            }) && count_of(rest, name) >= 0 by {
            lemma_count_add(seq![e], rest, name);
            reveal_with_fuel(count_of, 2);
            assert(seq![e].drop_last() =~= seq![]);
        }
        assert(all[0] == e.name);
        assert(names(es).contains(e.name));
        assert(m.dom() + names(es) =~= next.dom() + names(rest)) by {
            assert forall|x: Seq<u8>| #[trigger]
                names(es).contains(x) <==> x == e.name || names(rest).contains(x) by {
                if names(es).contains(x) {
                    let i = choose|i: int| 0 <= i < all.len() && all[i] == x;
                    if i > 0 {
                        assert(some[i - 1] == x);
                    }
                }
                if names(rest).contains(x) {
                    let i = choose|i: int| 0 <= i < some.len() && some[i] == x;
                    assert(all[i + 1] == x);
                }
            }
        }
        assert(count_of(rest, e.name) >= 0);
        if !m.contains_key(e.name) {
            let both = m.dom() + names(es);
            vstd::seq_lib::seq_to_set_is_finite(all);
            assert(m.dom().subset_of(both.remove(e.name)));
            vstd::set_lib::lemma_len_subset(m.dom(), both.remove(e.name));
        } else {
            assert(within(m[e.name], most_of_one() - count_of(es, e.name)));
        }
        assert forall|i: int| 0 <= i < rest.len() implies -1665 <= (#[trigger] rest[i]).temp
            <= 1665 by {
            assert(rest[i] == es[i + 1]);
        }
        assert forall|name: Seq<u8>| #[trigger] next.contains_key(name) implies within(
            next[name],
            most_of_one() - count_of(rest, name),
        ) by {
            assert(count_of(rest, name) >= 0);
            if m.contains_key(name) {
                assert(within(m[name], most_of_one() - count_of(es, name)));
            }
        }
        assert forall|name: Seq<u8>| #[trigger] count_of(rest, name) <= most_of_one() by {
            assert(count_of(es, name) <= most_of_one());
        }
        lemma_room(next, rest);
    }
}

/// What `n` temperatures can make of count and sum.
pub open spec fn within(s: Stats, n: int) -> bool {
    0 <= s.cnt <= n && -1665 * n <= s.sum <= 1665 * n
}

/// What is known of a station is within what its records can make.
pub proof fn lemma_within(es: Seq<Entry>, name: Seq<u8>)
    requires
        forall|i: int| 0 <= i < es.len() ==> -1665 <= (#[trigger] es[i]).temp <= 1665,
        put_all(Map::empty(), es).contains_key(name),
    ensures
        within(put_all(Map::empty(), es)[name], count_of(es, name)),
    decreases es.len(),
{
    let some = es.drop_last();
    lemma_put_last(Map::empty(), es);
    lemma_count_add(some, some, name);
    assert(-1665 <= es[es.len() - 1].temp <= 1665);
    if put_all(Map::empty(), some).contains_key(name) {
        assert forall|i: int| 0 <= i < some.len() implies -1665 <= (#[trigger] some[i]).temp
            <= 1665 by {
            assert(some[i] == es[i]);
        }
        lemma_within(some, name);
    }
}

/// An empty table has room for four billion records of each station, whatever their temperatures, if
/// there are not more stations than slots.
pub proof fn law_room(es: Seq<Entry>)
    requires
        roomy(es),
        forall|i: int| 0 <= i < es.len() ==> -1665 <= (#[trigger] es[i]).temp <= 1665,
    ensures
        can_put_all(Map::empty(), es),
{
    let m: Stations = Map::empty();
    assert(m.dom() + names(es) =~= names(es));
    lemma_room(m, es);
}

/// Every record is known of.
proof fn lemma_known(es: Seq<Entry>, i: int)
    requires
        0 <= i < es.len(),
    ensures
        put_all(Map::empty(), es).contains_key(es[i].name),
    decreases es.len(),
{
    lemma_put_last(Map::empty(), es);
    if i < es.len() - 1 {
        lemma_known(es.drop_last(), i);
    }
}

/// The records of one station.
pub open spec fn of_station(es: Seq<Entry>, k: Seq<u8>) -> Seq<Entry> {
    es.filter(|e: Entry| e.name == k)
}

/// The sum of the temperatures.
pub open spec fn sum_temps(es: Seq<Entry>) -> int
    decreases es.len(),
{
    if es.len() == 0 {
        0
    } else {
        sum_temps(es.drop_last()) + es.last().temp
    }
}

/// A station is known if it has a record; its count is the number of its records, its sum the sum of
/// their temperatures.
pub proof fn law_counts(es: Seq<Entry>, k: Seq<u8>)
    ensures
        put_all(Map::empty(), es).contains_key(k) <==> of_station(es, k).len() > 0,
        put_all(Map::empty(), es).contains_key(k) ==> put_all(Map::empty(), es)[k].cnt == of_station(es, k).len(),
        put_all(Map::empty(), es).contains_key(k) ==> put_all(Map::empty(), es)[k].sum == sum_temps(
            of_station(es, k),
        ),
    decreases es.len(),
{
    reveal(Seq::filter);
    if es.len() > 0 {
        lemma_put_last(Map::empty(), es);
        law_counts(es.drop_last(), k);
        let some = of_station(es.drop_last(), k);
        if es.last().name == k {
            assert(of_station(es, k) =~= some.push(es.last()));
            assert(some.push(es.last()).drop_last() =~= some);
            assert(sum_temps(some.push(es.last())) == sum_temps(some) + es.last().temp);
        } else {
            assert(of_station(es, k) =~= some);
        }
        if some.len() == 0 {
            assert(some =~= seq![]);
        }
    }
}

/// What is known of a station are its temperatures: lowest and highest occur, none lies outside
/// them, and neither does the mean.
pub proof fn law_bounds(es: Seq<Entry>, k: Seq<u8>)
    requires
        put_all(Map::empty(), es).contains_key(k),
    ensures
        ({
            let s = put_all(Map::empty(), es)[k];
            &&& 0 < s.cnt <= es.len()
            &&& s.min * s.cnt <= s.sum <= s.max * s.cnt
            &&& s.min <= stats::mean(s.sum, s.cnt) <= s.max
            &&& forall|i: int|
                0 <= i < es.len() && (#[trigger] es[i]).name == k ==> s.min <= es[i].temp <= s.max
            &&& exists|i: int|
                0 <= i < es.len() && (#[trigger] es[i]).name == k && es[i].temp == s.min
            &&& exists|i: int|
                0 <= i < es.len() && (#[trigger] es[i]).name == k && es[i].temp == s.max
        }),
    decreases es.len(),
{
    let s = put_all(Map::empty(), es)[k];
    let some = es.drop_last();
    let e = es.last();
    let n = es.len() - 1;
    lemma_put_last(Map::empty(), es);
    assert(es[n] == e);
    let t = put_all(Map::empty(), some);
    if t.contains_key(k) {
        law_bounds(some, k);
        let r = t[k];
        let lo = choose|i: int|
            0 <= i < some.len() && (#[trigger] some[i]).name == k && some[i].temp == r.min;
        let hi = choose|i: int|
            0 <= i < some.len() && (#[trigger] some[i]).name == k && some[i].temp == r.max;
        assert(es[lo].name == k && es[lo].temp == r.min);
        assert(es[hi].name == k && es[hi].temp == r.max);
        assert forall|i: int| 0 <= i < es.len() && (#[trigger] es[i]).name == k implies s.min
            <= es[i].temp <= s.max by {
            if i < n {
                assert(some[i].name == k);
            }
        }
        if e.name == k {
            assert(s.min * s.cnt <= s.sum <= s.max * s.cnt) by (nonlinear_arith)
                requires
                    s.cnt == r.cnt + 1,
                    r.cnt > 0,
                    s.sum == r.sum + e.temp,
                    r.min * r.cnt <= r.sum <= r.max * r.cnt,
                    s.min <= r.min,
                    s.min <= e.temp,
                    r.max <= s.max,
                    e.temp <= s.max,
            ;
            assert(e.temp == s.min || r.min == s.min);
            assert(e.temp == s.max || r.max == s.max);
        }
    } else {
        assert(e.name == k);
        assert(s == Stats::of(e.temp));
        assert(s.min * s.cnt <= s.sum <= s.max * s.cnt) by (nonlinear_arith)
            requires
                s.cnt == 1,
                s.min == s.sum,
                s.max == s.sum,
        ;
        assert forall|i: int| 0 <= i < es.len() && (#[trigger] es[i]).name == k implies i == n by {
            if i < n {
                lemma_known(some, i);
            }
        }
    }
    stats::law_mean_between(s);
}

/// There is room for a record as long as the count of its station can be held in 32 bits and its sum in
/// 64; for one of a new station, as long as there are fewer than 131072.
pub proof fn law_room_for_one(m: Stations, e: Entry)
    ensures
        m.contains_key(e.name) ==> (can_put(m, e) <==> {
            &&& 0 <= m[e.name].cnt + 1 <= 0xffff_ffff
            &&& -0x8000_0000_0000_0000 <= m[e.name].sum + e.temp <= 0x7fff_ffff_ffff_ffff
        }),
        !m.contains_key(e.name) ==> (can_put(m, e) <==> m.len() < 131072),
{
}

/// A record changes what is known of its own station, and nothing else.
pub proof fn law_put_one(m: Stations, e: Entry, name: Seq<u8>)
    ensures
        put_one(m, e).contains_key(e.name),
        !m.contains_key(e.name) ==> put_one(m, e)[e.name].cnt == 1 && put_one(m, e)[e.name].sum == e.temp,
        m.contains_key(e.name) ==> put_one(m, e)[e.name].cnt == m[e.name].cnt + 1 && put_one(
            m,
            e,
        )[e.name].sum == m[e.name].sum + e.temp,
        name != e.name ==> (put_one(m, e).contains_key(name) <==> m.contains_key(name)),
        name != e.name && m.contains_key(name) ==> put_one(m, e)[name] == m[name],
{
}

} // verus!
