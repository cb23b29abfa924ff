//! The table that records are put into: slots found by the hash of the name.
use vstd::prelude::*;
use rapidhash::fast::RandomState;
use crate::exact::city::City;
use crate::exact::hash;
use crate::exact::model;
use crate::exact::model::Entry;
use crate::exact::slots;
use crate::exact::slots::{MyWeatherNode, Search, Slots, BITS_MASK};
use crate::exact::weather::Weather;
use crate::stats::Stats;
use crate::table::{Ranked, Table};

verus! {

/// Stations by name.
pub struct MyWeatherMap<'a> {
    inner: Slots<'a>,
    hasher: RandomState,
}

pub type WeatherMap<'a> = MyWeatherMap<'a>;

impl<'a> View for MyWeatherMap<'a> {
    type V = model::Stations;

    closed spec fn view(&self) -> model::Stations {
        self.inner@
    }
}

impl<'a> MyWeatherMap<'a> {
    pub closed spec fn wf(&self) -> bool {
        self.inner.wf()
    }

    /// Which station each slot holds.
    pub closed spec fn layout(&self) -> slots::Layout {
        self.inner.layout()
    }

    /// The highest slot that was used, where there are stations.
    pub closed spec fn mask(&self) -> usize {
        self.inner.mask()
    }

    /// The hasher.
    pub closed spec fn hasher(&self) -> RandomState {
        self.hasher
    }
}

/// The search for a station may start at this slot: the hasher may give a hash that leads there.
pub open spec fn may_start(state: RandomState, name: Seq<u8>, mask: usize, home: int) -> bool {
    exists|h: u64| #[trigger]
        hash::may_hash(state, name, h) && home == slots::home_of_hash(h, mask)
}

/// These searches may have been made for the records, one for each.
pub open spec fn searched(state: RandomState, es: Seq<Entry>, mask: usize, ws: Seq<Search>) -> bool {
    &&& ws.len() == es.len()
    &&& forall|i: int|
        0 <= i < ws.len() ==> (#[trigger] ws[i]).name == es[i].name && may_start(
            state,
            ws[i].name,
            mask,
            ws[i].home,
        )
}

impl<'a> Default for MyWeatherMap<'a> {
    /// An empty table, with a hash of its own.
    fn default() -> (m: Self)
        ensures
            m.wf(),
            m@ == Map::<Seq<u8>, Stats>::empty(),
            m.layout() == slots::no_stations(),
    {
        MyWeatherMap { inner: Slots::new(), hasher: hash::new_state() }
    }
}

/// A record as it is put into the table.
pub open spec fn entry_of(key: City, value: i16) -> Entry {
    Entry { name: key.name@, temp: value as int }
}

impl<'a> MyWeatherMap<'a> {
    /// Forgets everything.
    pub fn reset(&mut self) -> (r: &mut Self)
        requires
            old(self).wf(),
        ensures
            r.wf(),
            r@ == Map::<Seq<u8>, Stats>::empty(),
            r.layout() == slots::no_stations(),
            r.hasher() == old(self).hasher(),
            *final(self) == *final(r),
    {
        self.inner.clear();
        self
    }

    /// The number of stations.
    pub fn len(&self) -> (n: usize)
        requires
            self.wf(),
        ensures
            self@.dom().finite(),
            n == self@.len(),
    {
        self.inner.len()
    }

    /// What is known of a station.
    pub fn get(&self, city: &City) -> (r: Option<Weather>)
        requires
            self.wf(),
        ensures
            r is Some <==> self@.contains_key(city.name@),
            r matches Some(w) ==> w@ == self@[city.name@],
    {
        self.inner.get(city)
    }

    /// Takes in one temperature of a station, with a search over the slots up to `MASK`. Returns how
    /// many slots with other stations were passed.
    pub fn put<const MASK: usize>(&mut self, key: City<'a>, value: i16) -> (miss: usize)
        requires
            slots::is_mask(MASK),
            old(self).wf(),
            old(self)@.len() == 0 || old(self).mask() == MASK,
            model::can_put(old(self)@, entry_of(key, value)),
            old(self)@.contains_key(key.name@) || old(self)@.len() <= MASK,
        ensures
            final(self).wf(),
            final(self).mask() == MASK,
            final(self).hasher() == old(self).hasher(),
            final(self)@ == model::put_one(old(self)@, entry_of(key, value)),
            exists|home: int| #[trigger]
                may_start(old(self).hasher(), key.name@, MASK, home) && slots::found(
                    old(self).layout(),
                    key.name@,
                    home,
                    MASK + 1,
                ) && miss == slots::distance(old(self).layout(), key.name@, home, MASK + 1)
                    && final(self).layout() == slots::placed(
                    old(self).layout(),
                    key.name@,
                    home,
                    MASK + 1,
                ),
            miss <= old(self)@.len(),
    {
        let h: u64 = hash::hash_name(&self.hasher, key.name);
        let home: usize = slots::home_slot(h, MASK);
        let miss: usize = self.inner.put_at(key, value, home, MASK);
        proof {
            assert(hash::may_hash(self.hasher, key.name@, h));
            assert(may_start(old(self).hasher(), key.name@, MASK, home as int));
        }
        miss
    }

    /// Whether there is room for one more temperature of this station.
    pub fn accepts(&self, key: &City<'a>, value: i16) -> (b: bool)
        requires
            self.wf(),
        ensures
            b == model::can_put(self@, entry_of(*key, value)),
    {
        let home: usize = slots::home_slot(hash::hash_name(&self.hasher, key.name), BITS_MASK);
        match self.inner.find_at(key, home) {
            Some(w) => w.count < u32::MAX && w.sum.checked_add(value as i64).is_some(),
            None => self.len() < model::SLOTS,
        }
    }

    /// Every station has one temperature at least.
    pub proof fn lemma_counted(&self, name: Seq<u8>)
        requires
            self.wf(),
            self@.contains_key(name),
        ensures
            self@[name].cnt > 0,
    {
        self.inner.lemma_counted(name);
    }

    /// The slots hold the stations that are known, and no others.
    pub proof fn law_layout(&self, name: Seq<u8>)
        requires
            self.wf(),
        ensures
            self.layout().len() == model::SLOTS,
            slots::known(self.layout(), name) <==> self@.contains_key(name),
    {
        self.inner.law_layout(name);
    }

    /// The stations one by one.
    pub fn iter(self) -> (it: WeatherIter<'a>)
        requires
            self.wf(),
        ensures
            gives(it.rest(), self@),
    {
        let inner: Vec<MyWeatherNode<'a>> = self.inner.into_nodes();
        proof {
            let rest = items(inner@, 0);
            assert forall|i: int, j: int| 0 <= i < j < rest.len() implies (#[trigger] rest[i]).0
                != (#[trigger] rest[j]).0 by {
                lemma_items_distinct(inner@, 0, i, j);
            }
            assert forall|name: Seq<u8>| #[trigger]
                self@.contains_key(name) <==> exists|i: int|
                    0 <= i < rest.len() && (#[trigger] rest[i]).0 == name by {
                if self@.contains_key(name) {
                    let s = choose|s: int| slots::holds(inner@, name, s);
                    assert(slots::holds(inner@, name, s));
                    let i = lemma_slot_item(inner@, 0, s);
                    assert(rest[i].0 == name);
                }
                if exists|i: int| 0 <= i < rest.len() && (#[trigger] rest[i]).0 == name {
                    let i = choose|i: int| 0 <= i < rest.len() && (#[trigger] rest[i]).0 == name;
                    let s = lemma_item_slot(inner@, 0, i);
                    assert(slots::holds(inner@, name, s));
                }
            }
            assert forall|i: int| 0 <= i < rest.len() implies self@[(#[trigger] rest[i]).0]
                == rest[i].1 by {
                let s = lemma_item_slot(inner@, 0, i);
                assert(slots::holds(inner@, rest[i].0, s));
            }
        }
        WeatherIter { pos: 0, inner }
    }

    /// The stations in order.
    pub fn into_table(self) -> (t: Table<City<'a>, Weather>)
        requires
            self.wf(),
        ensures
            t.wf(),
            t@ == self@,
    {
        let ghost m = self@;
        let mut t: Table<City<'a>, Weather> = Table::new();
        let mut it: WeatherIter<'a> = self.iter();
        loop
            invariant
                t.wf(),
                forall|i: int, j: int|
                    0 <= i < j < it.rest().len() ==> (#[trigger] it.rest()[i]).0 != (
                    #[trigger] it.rest()[j]).0,
                forall|i: int|
                    0 <= i < it.rest().len() ==> {
                        &&& m.contains_key((#[trigger] it.rest()[i]).0)
                        &&& m[it.rest()[i].0] == it.rest()[i].1
                        &&& !t@.contains_key(it.rest()[i].0)
                    },
                forall|k: Seq<u8>| #[trigger]
                    m.contains_key(k) ==> t@.contains_key(k) || exists|i: int|
                        0 <= i < it.rest().len() && (#[trigger] it.rest()[i]).0 == k,
                forall|k: Seq<u8>| #[trigger]
                    t@.contains_key(k) ==> m.contains_key(k) && t@[k] == m[k],
            ensures
                t.wf(),
                t@ == m,
            decreases it.rest().len(),
        {
            let ghost rest = it.rest();
            let ghost before = t@;
            match it.next() {
                Some((city, weather)) => {
                    let ghost now = it.rest();
                    proof {
                        assert(rest[0] == (city.key(), weather@));
                        assert forall|i: int| 0 <= i < now.len() implies #[trigger] now[i]
                            == rest[i + 1] by {}
                    }
                    t.add_row(city, weather);
                    proof {
                        assert forall|k: Seq<u8>| #[trigger] m.contains_key(k) implies t@.contains_key(
                            k,
                        ) || exists|i: int| 0 <= i < now.len() && (#[trigger] now[i]).0 == k by {
                            if !before.contains_key(k) {
                                let i = choose|i: int|
                                    0 <= i < rest.len() && (#[trigger] rest[i]).0 == k;
                                if i > 0 {
                                    assert(now[i - 1].0 == k);
                                }
                            }
                        }
                    }
                },
                None => {
                    proof {
                        assert(t@ =~= m);
                    }
                    break;
                },
            }
        }
        t
    }
}

/// The station in a slot, with what is known of it.
pub open spec fn node_item(node: MyWeatherNode) -> (Seq<u8>, Stats) {
    (node->Value_0.0.name@, node->Value_0.1@)
}

/// The stations in the slots from `from` on.
pub open spec fn items(nodes: Seq<MyWeatherNode>, from: int) -> Seq<(Seq<u8>, Stats)>
    decreases nodes.len() - from,
{
    if 0 <= from < nodes.len() {
        (if nodes[from] is Value {
            seq![node_item(nodes[from])]
        } else {
            seq![]
        }) + items(nodes, from + 1)
    } else {
        seq![]
    }
}

/// `rest` gives what a table holds: every station once, in no particular order.
pub open spec fn gives(rest: Seq<(Seq<u8>, Stats)>, m: model::Stations) -> bool {
    &&& forall|i: int, j: int|
        0 <= i < j < rest.len() ==> (#[trigger] rest[i]).0 != (#[trigger] rest[j]).0
    &&& forall|name: Seq<u8>| #[trigger]
        m.contains_key(name) <==> exists|i: int|
            0 <= i < rest.len() && (#[trigger] rest[i]).0 == name
    &&& forall|i: int| 0 <= i < rest.len() ==> m[(#[trigger] rest[i]).0] == rest[i].1
}

/// Every item stands in a slot.
proof fn lemma_item_slot(nodes: Seq<MyWeatherNode>, from: int, i: int) -> (s: int)
    requires
        0 <= from <= nodes.len(),
        0 <= i < items(nodes, from).len(),
    ensures
        from <= s < nodes.len(),
        nodes[s] is Value,
        items(nodes, from)[i] == node_item(nodes[s]),
    decreases nodes.len() - from,
{
    if nodes[from] is Value {
        if i == 0 {
            from
        } else {
            lemma_item_slot(nodes, from + 1, i - 1)
        }
    } else {
        lemma_item_slot(nodes, from + 1, i)
    }
}

/// Every slot that is taken gives an item.
proof fn lemma_slot_item(nodes: Seq<MyWeatherNode>, from: int, s: int) -> (i: int)
    requires
        0 <= from <= s < nodes.len(),
        nodes[s] is Value,
    ensures
        0 <= i < items(nodes, from).len(),
        items(nodes, from)[i] == node_item(nodes[s]),
    decreases nodes.len() - from,
{
    if s == from {
        0
    } else {
        let i = lemma_slot_item(nodes, from + 1, s);
        if nodes[from] is Value {
            i + 1
        } else {
            i
        }
    }
}

/// No two items are of the same station, where no two slots are.
proof fn lemma_items_distinct(nodes: Seq<MyWeatherNode>, from: int, i: int, j: int)
    requires
        0 <= from <= nodes.len(),
        0 <= i < j < items(nodes, from).len(),
        forall|name: Seq<u8>, s: int, t: int| #[trigger]
            slots::holds(nodes, name, s) && #[trigger] slots::holds(nodes, name, t) ==> s == t,
    ensures
        items(nodes, from)[i].0 != items(nodes, from)[j].0,
    decreases nodes.len() - from,
{
    if nodes[from] is Value {
        if i == 0 {
            let s = lemma_item_slot(nodes, from + 1, j - 1);
            let name = nodes[from]->Value_0.0.name@;
            assert(slots::holds(nodes, name, from));
            if nodes[s]->Value_0.0.name@ == name {
                assert(slots::holds(nodes, name, s));
            }
        } else {
            lemma_items_distinct(nodes, from + 1, i - 1, j - 1);
        }
    } else {
        lemma_items_distinct(nodes, from + 1, i, j);
    }
}

/// Hands out the stations of a table one by one.
pub struct WeatherIter<'a> {
    pos: usize,
    inner: Vec<MyWeatherNode<'a>>,
}

impl<'a> WeatherIter<'a> {
    /// What has not been handed out yet.
    pub closed spec fn rest(&self) -> Seq<(Seq<u8>, Stats)> {
        items(self.inner@, self.pos as int)
    }

    /// The next station, as long as there is one.
    pub fn next(&mut self) -> (r: Option<(City<'a>, Weather)>)
        ensures
            match r {
                Some((city, weather)) => {
                    old(self).rest() == seq![(city.name@, weather@)] + final(self).rest()
                },
                None => old(self).rest().len() == 0 && final(self).rest().len() == 0,
            },
    {
        while self.pos < self.inner.len()
            invariant
                self.inner == old(self).inner,
                items(self.inner@, self.pos as int) == old(self).rest(),
            decreases self.inner@.len() - self.pos,
        {
            let node: MyWeatherNode<'a> = self.inner[self.pos];
            self.pos = self.pos + 1;
            match node {
                MyWeatherNode::Value(x) => {
                    return Some(x);
                },
                MyWeatherNode::Empty => {
                    assert(items(self.inner@, self.pos - 1) =~= items(self.inner@, self.pos as int));
                },
            }
        }
        None
    }
}

/// A record is put as it is: under the name of its station, with its temperature.
pub proof fn law_entry_of(key: City, value: i16)
    ensures
        entry_of(key, value).name == key.name@,
        entry_of(key, value).temp == value,
{
}

} // verus!
