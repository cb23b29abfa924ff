//! The table that records are put into: slots found by fingerprint, entries in the order in
//! which the stations came.
use vstd::prelude::*;
use crate::bench::city::{City, Fingerprint};
use crate::bench::model;
use crate::bench::model::HASH_SIZE;
use crate::bench::number::Temperature;
use crate::bench::weather::Weather;
use crate::probe;
use crate::stats::Stats;
use crate::table::{Ranked, Table};

verus! {

const SIZE_MASK: usize = 32767;

const STRIDE: usize = 31;

/// An entry of `index` that stands for a free slot.
const FREE: u16 = 65535;

/// Stations by fingerprint.
pub struct MyWeatherMap<'a> {
    index: Vec<u16>,
    weather: Vec<Weather>,
    city: Vec<City<'a>>,
}

pub type WeatherMap<'a> = MyWeatherMap<'a>;

/// The slot at which the search for this hash starts.
pub open spec fn home_slot(index: u64) -> int {
    let half = (index ^ (index >> 30u64)) as u32;
    ((half ^ (half >> 15u32)) & 32767) as int
}

fn hash2index(index: u64) -> (slot: usize)
    ensures
        slot == home_slot(index),
        slot < HASH_SIZE,
{
    let half: u32 = (index ^ (index >> 30u64)) as u32;
    let slot: u32 = (half ^ (half >> 15u32)) & 32767;
    assert((half ^ (half >> 15u32)) & 32767 < 32768) by (bit_vector);
    slot as usize
}

/// Step `k` of the search for `fp`.
pub open spec fn slot_of(fp: Fingerprint, k: int) -> int {
    probe::probe(home_slot(fp.1 >> 4u64), 31, 32768, k)
}

/// The mask takes a step back into the slots.
proof fn lemma_stride(slot: usize)
    requires
        slot < 32768,
    ensures
        (slot + 31) as usize & 32767 == (slot + 31) % 32768,
{
    assert((slot + 31) as usize & 32767 == (slot + 31) % 32768) by (bit_vector)
        requires
            slot < 32768,
    ;
}

proof fn lemma_slot_of(fp: Fingerprint, k: int)
    ensures
        0 <= slot_of(fp, k) < HASH_SIZE,
{
    vstd::arithmetic::div_mod::lemma_mod_bound(home_slot(fp.1 >> 4u64) + 31 * k, 32768);
}

impl<'a> MyWeatherMap<'a> {
    /// Entry `i` is found at step `k`: no slot on the way to it is free.
    spec fn seated(&self, i: int, k: int) -> bool {
        &&& 0 <= k < HASH_SIZE
        &&& self.index@[slot_of(self.weather@[i].fp, k)] == i
        &&& forall|j: int|
            0 <= j < k ==> self.index@[#[trigger] slot_of(self.weather@[i].fp, j)] != FREE
    }

    /// Entry `i` is found.
    spec fn has_seat(&self, i: int) -> bool {
        exists|k: int| self.seated(i, k)
    }

    /// Every entry has one slot and can be found from its fingerprint, which no other entry has.
    pub closed spec fn wf(&self) -> bool {
        &&& self.index@.len() == HASH_SIZE
        &&& self.weather@.len() == self.city@.len()
        &&& self.weather@.len() <= HASH_SIZE
        &&& forall|s: int|
            0 <= s < HASH_SIZE ==> #[trigger] self.index@[s] == FREE || self.index@[s]
                < self.weather@.len()
        &&& forall|s: int, t: int|
            0 <= s < t < HASH_SIZE && #[trigger] self.index@[s] != FREE ==> self.index@[s]
                != #[trigger] self.index@[t]
        &&& forall|i: int|
            0 <= i < self.weather@.len() ==> (#[trigger] self.weather@[i]).fp == self.city@[i].fp
        &&& forall|i: int, j: int|
            0 <= i < j < self.weather@.len() ==> (#[trigger] self.weather@[i]).fp != (
            #[trigger] self.weather@[j]).fp
        &&& forall|i: int| 0 <= i < self.weather@.len() ==> #[trigger] self.has_seat(i)
        &&& forall|i: int| 0 <= i < self.weather@.len() ==> (#[trigger] self.weather@[i]).cnt > 0
    }

    /// Entry `i` has this fingerprint.
    spec fn at(&self, fp: Fingerprint, i: int) -> bool {
        0 <= i < self.weather@.len() && self.weather@[i].fp == fp
    }

    /// The entry with this fingerprint.
    spec fn pos(&self, fp: Fingerprint) -> int {
        choose|i: int| self.at(fp, i)
    }
}

impl<'a> View for MyWeatherMap<'a> {
    type V = model::Stations;

    closed spec fn view(&self) -> model::Stations {
        Map::new(
            |fp: Fingerprint| exists|i: int| self.at(fp, i),
            |fp: Fingerprint| (self.city@[self.pos(fp)].name@, self.weather@[self.pos(fp)]@),
        )
    }
}

impl<'a> Default for MyWeatherMap<'a> {
    /// An empty table.
    fn default() -> (m: Self)
        ensures
            m.wf(),
            m@ == Map::<Fingerprint, (Seq<u8>, Stats)>::empty(),
    {
        let m = MyWeatherMap {
            index: vec![FREE; HASH_SIZE],
            weather: Vec::new(),
            city: Vec::new(),
        };
        assert forall|fp: Fingerprint| !m@.contains_key(fp) by {
            assert(forall|i: int| !m.at(fp, i));
        }
        assert(m@ =~= Map::empty());
        m
    }
}

impl<'a> MyWeatherMap<'a> {
    proof fn lemma_entry(&self, i: int)
        requires
            self.wf(),
            0 <= i < self.weather@.len(),
        ensures
            self@.contains_key(self.weather@[i].fp),
            self@[self.weather@[i].fp] == (self.city@[i].name@, self.weather@[i]@),
            self.pos(self.weather@[i].fp) == i,
    {
        let fp = self.weather@[i].fp;
        assert(self.at(fp, i));
        let p = self.pos(fp);
        assert(self.at(fp, p));
        if p < i {
            assert(self.weather@[p].fp != self.weather@[i].fp);
        } else if i < p {
            assert(self.weather@[i].fp != self.weather@[p].fp);
        }
    }

    /// The map has as many keys as there are entries.
    proof fn lemma_len(&self)
        requires
            self.wf(),
        ensures
            self@.dom().finite(),
            self@.len() == self.weather@.len(),
    {
        let fps = self.weather@.map_values(|w: Weather| w.fp);
        assert(fps.no_duplicates()) by {
            assert forall|i: int, j: int|
                0 <= i < fps.len() && 0 <= j < fps.len() && i != j implies fps[i] != fps[j] by {
                if i < j {
                    assert(self.weather@[i].fp != self.weather@[j].fp);
                } else {
                    assert(self.weather@[j].fp != self.weather@[i].fp);
                }
            }
        }
        fps.unique_seq_to_set();
        assert(fps.to_set() =~= self@.dom()) by {
            assert forall|fp: Fingerprint| fps.to_set().contains(fp) implies self@.dom().contains(
                fp,
            ) by {
                let i = choose|i: int| 0 <= i < fps.len() && fps[i] == fp;
                self.lemma_entry(i);
            }
            assert forall|fp: Fingerprint| self@.dom().contains(fp) implies fps.to_set().contains(
                fp,
            ) by {
                let i = self.pos(fp);
                assert(self.at(fp, i));
                assert(fps[i] == fp);
            }
        }
    }

    /// A search that passed only other entries and came to a free slot shows that there is
    /// no entry with this fingerprint.
    proof fn lemma_absent(&self, fp: Fingerprint, k: int)
        requires
            self.wf(),
            0 <= k < HASH_SIZE,
            self.index@[slot_of(fp, k)] == FREE,
            forall|j: int|
                0 <= j < k ==> self.index@[#[trigger] slot_of(fp, j)] != FREE
                    && self.weather@[self.index@[slot_of(fp, j)] as int].fp != fp,
        ensures
            !self@.contains_key(fp),
    {
        if self@.contains_key(fp) {
            let i = self.pos(fp);
            assert(self.at(fp, i));
            assert(self.weather@[i].fp == fp);
            assert(self.has_seat(i));
            let n = choose|n: int| self.seated(i, n);
            assert(self.seated(i, n));
            if n < k {
                assert(self.index@[slot_of(fp, n)] == i);
            } else if k < n {
                assert(self.index@[slot_of(fp, k)] != FREE);
            }
        }
    }

    /// A search that passed other entries in all slots shows that there is no entry with
    /// this fingerprint, and no free slot.
    proof fn lemma_full(&self, fp: Fingerprint)
        requires
            self.wf(),
            forall|j: int|
                0 <= j < HASH_SIZE ==> self.index@[#[trigger] slot_of(fp, j)] != FREE
                    && self.weather@[self.index@[slot_of(fp, j)] as int].fp != fp,
        ensures
            !self@.contains_key(fp),
            self@.len() >= HASH_SIZE,
    {
        if self@.contains_key(fp) {
            let i = self.pos(fp);
            assert(self.at(fp, i));
            assert(self.weather@[i].fp == fp);
            assert(self.has_seat(i));
            let n = choose|n: int| self.seated(i, n);
            assert(self.seated(i, n));
            assert(self.index@[slot_of(fp, n)] == i);
        }
        let taken = Seq::new(HASH_SIZE as nat, |s: int| self.index@[s] as int);
        assert forall|s: int| 0 <= s < HASH_SIZE implies 0 <= #[trigger] taken[s]
            < self.weather@.len() by {
            let k = probe::lemma_probe_covers(home_slot(fp.1 >> 4u64), 31, 32768, 31711, s);
            assert(slot_of(fp, k) == s);
            assert(self.index@[s] != FREE);
        }
        assert(taken.no_duplicates()) by {
            assert forall|s: int, t: int|
                0 <= s < taken.len() && 0 <= t < taken.len() && s != t implies taken[s]
                != taken[t] by {
                assert(taken[s] < self.weather@.len() && taken[t] < self.weather@.len());
                if s < t {
                    assert(self.index@[s] != self.index@[t]);
                } else {
                    assert(self.index@[t] != self.index@[s]);
                }
            }
        }
        probe::lemma_pigeonhole(taken, self.weather@.len() as int);
        self.lemma_len();
    }

    /// The number of stations.
    pub fn len(&self) -> (n: usize)
        requires
            self.wf(),
        ensures
            self@.dom().finite(),
            n == self@.len(),
    {
        proof {
            self.lemma_len();
        }
        self.city.len()
    }

    /// Forgets everything.
    pub fn reset(&mut self) -> (r: &mut Self)
        ensures
            r.wf(),
            r@ == Map::<Fingerprint, (Seq<u8>, Stats)>::empty(),
            *final(self) == *final(r),
    {
        *self = Self::default();
        self
    }

    /// What is known of a station.
    pub fn get(&self, city: &City) -> (r: Option<Weather>)
        requires
            self.wf(),
        ensures
            r is Some <==> self@.contains_key(city.fp),
            r matches Some(w) ==> w@ == self@[city.fp].1 && w.fp == city.fp,
    {
        let mut i: usize = 0;
        while i < self.city.len()
            invariant
                self.wf(),
                i <= self.city@.len(),
                forall|j: int| 0 <= j < i ==> (#[trigger] self.city@[j]).fp != city.fp,
            decreases self.city@.len() - i,
        {
            if self.city[i].fp.0 == city.fp.0 && self.city[i].fp.1 == city.fp.1 {
                proof {
                    self.lemma_entry(i as int);
                }
                return Some(self.weather[i]);
            }
            i = i + 1;
        }
        proof {
            if self@.contains_key(city.fp) {
                let p = self.pos(city.fp);
                assert(self.at(city.fp, p));
                assert(self.weather@[p].fp == self.city@[p].fp);
            }
        }
        None
    }

    /// Takes in one temperature of a station.
    pub fn put(&mut self, record: (City<'a>, Temperature))
        requires
            old(self).wf(),
            model::can_put(old(self)@, entry_of(record)),
        ensures
            final(self).wf(),
            final(self)@ == model::put_one(old(self)@, entry_of(record)),
    {
        let (city, value) = record;
        let ghost fp = city.fp;
        let mut miss: usize = 0;
        let mut slot: usize = hash2index(city.hash() >> 4u64);
        assert(slot == slot_of(fp, 0)) by {
            vstd::arithmetic::div_mod::lemma_small_mod(slot as nat, 32768);
        }
        loop
            invariant
                *self == *old(self),
                self.wf(),
                model::can_put(self@, entry_of(record)),
                fp == city.fp,
                record == (city, value),
                miss < HASH_SIZE,
                slot < HASH_SIZE,
                slot == slot_of(fp, miss as int),
                forall|j: int|
                    0 <= j < miss ==> self.index@[#[trigger] slot_of(fp, j)] != FREE
                        && self.weather@[self.index@[slot_of(fp, j)] as int].fp != fp,
            decreases HASH_SIZE - miss,
        {
            let at: u16 = self.index[slot];
            if at == FREE {
                proof {
                    self.lemma_absent(fp, miss as int);
                    self.lemma_len();
                }
                let i: usize = self.weather.len();
                self.index.set(slot, i as u16);
                self.weather.push(Weather::new((city.fp, value)));
                self.city.push(city);
                proof {
                    old(self).lemma_pushed(*self, record, slot as int, miss as int);
                }
                return ;
            }
            let hit: usize = at as usize;
            if city.fp.0 == self.weather[hit].fp.0 && city.fp.1 == self.weather[hit].fp.1 {
                proof {
                    self.lemma_entry(hit as int);
                }
                let mut w: Weather = self.weather[hit];
                w.add_value(value);
                self.weather.set(hit, w);
                proof {
                    old(self).lemma_updated(*self, record, hit as int);
                }
                return ;
            }
            proof {
                if miss == SIZE_MASK {
                    self.lemma_full(fp);
                }
                probe::lemma_probe_next(home_slot(fp.1 >> 4u64), 31, 32768, miss as int);
                lemma_stride(slot);
            }
            miss = miss + 1;
            slot = (slot + STRIDE) & SIZE_MASK;
        }
    }
}

impl<'a> MyWeatherMap<'a> {
    /// What is known of a station, by the slots.
    fn find(&self, city: &City<'a>) -> (r: Option<Weather>)
        requires
            self.wf(),
        ensures
            r is Some <==> self@.contains_key(city.fp),
            r matches Some(w) ==> w@ == self@[city.fp].1,
    {
        let ghost fp = city.fp;
        let mut miss: usize = 0;
        let mut slot: usize = hash2index(city.hash() >> 4u64);
        assert(slot == slot_of(fp, 0)) by {
            vstd::arithmetic::div_mod::lemma_small_mod(slot as nat, 32768);
        }
        while miss < HASH_SIZE
            invariant
                self.wf(),
                fp == city.fp,
                miss <= HASH_SIZE,
                slot < HASH_SIZE,
                slot == slot_of(fp, miss as int),
                forall|j: int|
                    0 <= j < miss ==> self.index@[#[trigger] slot_of(fp, j)] != FREE
                        && self.weather@[self.index@[slot_of(fp, j)] as int].fp != fp,
            decreases HASH_SIZE - miss,
        {
            let at: u16 = self.index[slot];
            if at == FREE {
                proof {
                    self.lemma_absent(fp, miss as int);
                }
                return None;
            }
            let hit: usize = at as usize;
            if city.fp.0 == self.weather[hit].fp.0 && city.fp.1 == self.weather[hit].fp.1 {
                proof {
                    self.lemma_entry(hit as int);
                }
                return Some(self.weather[hit]);
            }
            proof {
                probe::lemma_probe_next(home_slot(fp.1 >> 4u64), 31, 32768, miss as int);
                lemma_stride(slot);
            }
            miss = miss + 1;
            slot = (slot + STRIDE) & SIZE_MASK;
        }
        proof {
            self.lemma_full(fp);
        }
        None
    }

    /// Whether there is room for one more temperature of this station.
    pub fn accepts(&self, city: &City<'a>, value: Temperature) -> (b: bool)
        requires
            self.wf(),
        ensures
            b == model::can_put(self@, entry_of((*city, value))),
    {
        match self.find(city) {
            Some(w) => w.cnt < u32::MAX && w.sum.checked_add(value).is_some(),
            None => self.len() < HASH_SIZE,
        }
    }

    /// Every station has one temperature at least.
    pub proof fn lemma_counted(&self, fp: Fingerprint)
        requires
            self.wf(),
            self@.contains_key(fp),
        ensures
            self@[fp].1.cnt > 0,
    {
        let i = self.pos(fp);
        assert(self.at(fp, i));
        self.lemma_entry(i);
        assert(self.weather@[i].cnt > 0);
    }

    /// The stations in order.
    pub fn into_table(self) -> (t: Table<City<'a>, Weather>)
        requires
            self.wf(),
        ensures
            t.wf(),
            t@ == model::stations_table(self@),
    {
        let mut t: Table<City<'a>, Weather> = Table::new();
        let mut i: usize = 0;
        while i < self.city.len()
            invariant
                self.wf(),
                t.wf(),
                i <= self.city@.len(),
                forall|k: (Fingerprint, Seq<u8>)| #[trigger]
                    t@.contains_key(k) <==> exists|j: int| self.row_of(i as int, k, j),
                forall|k: (Fingerprint, Seq<u8>), j: int| #[trigger]
                    self.row_of(i as int, k, j) ==> t@[k] == self.weather@[j]@,
            decreases self.city@.len() - i,
        {
            let city: City<'a> = self.city[i];
            let ghost before = t@;
            let ghost n = i as int;
            let ghost n1 = i + 1;
            proof {
                if t@.contains_key(city.key()) {
                    let j = choose|j: int| self.row_of(n, city.key(), j);
                    assert(self.row_of(n, city.key(), j));
                    assert(self.weather@[j].fp != self.weather@[n].fp);
                    assert(self.weather@[j].fp == self.city@[j].fp);
                }
            }
            t.add_row(city, self.weather[i]);
            proof {
                assert forall|k: (Fingerprint, Seq<u8>)| #[trigger]
                    t@.contains_key(k) <==> exists|j: int| self.row_of(n1, k, j) by {
                    if t@.contains_key(k) {
                        if k == city.key() {
                            assert(self.row_of(n1, k, n));
                        } else {
                            assert(before.contains_key(k));
                            let j = choose|j: int| self.row_of(n, k, j);
                            assert(self.row_of(n1, k, j));
                        }
                    }
                    if exists|j: int| self.row_of(n1, k, j) {
                        let j = choose|j: int| self.row_of(n1, k, j);
                        assert(self.row_of(n1, k, j));
                        if j < n {
                            assert(self.row_of(n, k, j));
                            assert(before.contains_key(k));
                        }
                    }
                }
                assert forall|k: (Fingerprint, Seq<u8>), j: int| #[trigger]
                    self.row_of(n1, k, j) implies t@[k] == self.weather@[j]@ by {
                    if j < n {
                        assert(self.row_of(n, k, j));
                        assert(before.contains_key(k));
                        assert(self.weather@[j].fp != self.weather@[n].fp);
                    }
                }
            }
            i = i + 1;
        }
        proof {
            let n = self.city@.len() as int;
            let m = model::stations_table(self@);
            assert forall|k: (Fingerprint, Seq<u8>)| #[trigger]
                t@.contains_key(k) <==> m.contains_key(k) by {
                if t@.contains_key(k) {
                    let j = choose|j: int| self.row_of(n, k, j);
                    assert(self.row_of(n, k, j));
                    assert(self.weather@[j].fp == self.city@[j].fp);
                    self.lemma_entry(j);
                }
                if m.contains_key(k) {
                    let j = self.pos(k.0);
                    assert(self.at(k.0, j));
                    self.lemma_entry(j);
                    assert(self.weather@[j].fp == self.city@[j].fp);
                    assert(self.row_of(n, k, j));
                }
            }
            assert forall|k: (Fingerprint, Seq<u8>)| #[trigger] t@.contains_key(k) implies t@[k]
                == m[k] by {
                let j = choose|j: int| self.row_of(n, k, j);
                assert(self.row_of(n, k, j));
                assert(self.weather@[j].fp == self.city@[j].fp);
                self.lemma_entry(j);
            }
            assert(t@ =~= m);
        }
        t
    }

    /// Entry `j`, one of the first `n`, is that of the station `k`.
    spec fn row_of(&self, n: int, k: (Fingerprint, Seq<u8>), j: int) -> bool {
        0 <= j < n && self.city@[j].key() == k
    }
}

/// A record as it is put into the table.
pub open spec fn entry_of(record: (City, Temperature)) -> model::Entry {
    model::Entry { fp: record.0.fp, name: record.0.name@, temp: record.1 as int }
}

impl<'a> MyWeatherMap<'a> {
    proof fn lemma_pushed(&self, post: Self, record: (City<'a>, Temperature), slot: int, k: int)
        requires
            self.wf(),
            !self@.contains_key(record.0.fp),
            self.weather@.len() < HASH_SIZE,
            0 <= k < HASH_SIZE,
            0 <= slot < HASH_SIZE,
            slot == slot_of(record.0.fp, k),
            self.index@[slot] == FREE,
            forall|j: int|
                0 <= j < k ==> self.index@[#[trigger] slot_of(record.0.fp, j)] != FREE,
            post.index@ == self.index@.update(slot, self.weather@.len() as u16),
            post.city@ == self.city@.push(record.0),
            post.weather@.len() == self.weather@.len() + 1,
            forall|i: int|
                0 <= i < self.weather@.len() ==> #[trigger] post.weather@[i] == self.weather@[i],
            post.weather@.last()@ == Stats::of(record.1 as int),
            post.weather@.last().fp == record.0.fp,
        ensures
            post.wf(),
            post@ == model::put_one(self@, entry_of(record)),
    {
        let fp = record.0.fp;
        let n = self.weather@.len() as int;
        assert forall|i: int| 0 <= i < n implies self.weather@[i].fp != fp by {
            self.lemma_entry(i);
        }
        assert forall|i: int| 0 <= i < post.weather@.len() implies #[trigger] post.has_seat(i) by {
            if i < n {
                assert(self.weather@[i] == post.weather@[i]);
                assert(self.has_seat(i));
                let m = choose|m: int| self.seated(i, m);
                assert(self.seated(i, m));
                assert forall|j: int| 0 <= j < m implies post.index@[#[trigger] slot_of(
                    post.weather@[i].fp,
                    j,
                )] != FREE by {
                    lemma_slot_of(post.weather@[i].fp, j);
                }
                lemma_slot_of(post.weather@[i].fp, m);
                assert(post.seated(i, m));
            } else {
                assert forall|j: int| 0 <= j < k implies post.index@[#[trigger] slot_of(fp, j)]
                    != FREE by {
                    lemma_slot_of(fp, j);
                }
                assert(post.seated(i, k));
            }
        }
        assert(post.weather@[n]@.cnt == 1);
        assert forall|i: int, j: int| 0 <= i < j < post.weather@.len() implies (
        #[trigger] post.weather@[i]).fp != (#[trigger] post.weather@[j]).fp by {
            if j < n {
                assert(self.weather@[i].fp != self.weather@[j].fp);
            }
        }
        assert forall|i: int| 0 <= i < post.weather@.len() implies (#[trigger] post.weather@[i]).fp
            == post.city@[i].fp by {
            if i < n {
                assert(self.weather@[i].fp == self.city@[i].fp);
            }
        }
        assert forall|i: int| 0 <= i < post.weather@.len() implies (#[trigger] post.weather@[i]).cnt
            > 0 by {
            if i < n {
                assert(self.weather@[i].cnt > 0);
            }
        }
        assert(post.wf());
        let spec_map = model::put_one(self@, entry_of(record));
        assert forall|f: Fingerprint| post@.contains_key(f) <==> spec_map.contains_key(f) by {
            if post@.contains_key(f) {
                let p = post.pos(f);
                assert(post.at(f, p));
                if p < n {
                    assert(self.weather@[p] == post.weather@[p]);
                    self.lemma_entry(p);
                }
            }
            if spec_map.contains_key(f) {
                if f == fp {
                    post.lemma_entry(n);
                } else {
                    let p = self.pos(f);
                    assert(self.at(f, p));
                    assert(post.weather@[p] == self.weather@[p]);
                    post.lemma_entry(p);
                }
            }
        }
        assert forall|f: Fingerprint| post@.contains_key(f) implies post@[f] == spec_map[f] by {
            let p = post.pos(f);
            assert(post.at(f, p));
            post.lemma_entry(p);
            if p < n {
                assert(self.weather@[p] == post.weather@[p]);
                self.lemma_entry(p);
            }
        }
        assert(post@ =~= spec_map);
    }

    proof fn lemma_updated(&self, post: Self, record: (City<'a>, Temperature), hit: int)
        requires
            self.wf(),
            0 <= hit < self.weather@.len(),
            self.weather@[hit].fp == record.0.fp,
            post.index@ == self.index@,
            post.city@ == self.city@,
            post.weather@ == self.weather@.update(hit, post.weather@[hit]),
            post.weather@[hit]@ == self.weather@[hit]@.plus(Stats::of(record.1 as int)),
            post.weather@[hit].fp == record.0.fp,
        ensures
            post.wf(),
            post@ == model::put_one(self@, entry_of(record)),
    {
        let n = self.weather@.len() as int;
        assert forall|i: int| 0 <= i < n implies (#[trigger] post.weather@[i]).fp
            == self.weather@[i].fp by {}
        assert forall|i: int| 0 <= i < n implies #[trigger] post.has_seat(i) by {
            assert(post.weather@[i].fp == self.weather@[i].fp);
            assert(self.has_seat(i));
            let m = choose|m: int| self.seated(i, m);
            assert(self.seated(i, m));
            assert(post.seated(i, m));
        }
        assert(self.weather@[hit].cnt > 0);
        assert(post.weather@[hit]@.cnt > 0);
        assert forall|i: int, j: int| 0 <= i < j < post.weather@.len() implies (
        #[trigger] post.weather@[i]).fp != (#[trigger] post.weather@[j]).fp by {
            assert(self.weather@[i].fp != self.weather@[j].fp);
        }
        assert forall|i: int| 0 <= i < post.weather@.len() implies (#[trigger] post.weather@[i]).cnt
            > 0 by {
            assert(self.weather@[i].cnt > 0);
        }
        assert forall|i: int| 0 <= i < post.weather@.len() implies (#[trigger] post.weather@[i]).fp
            == post.city@[i].fp by {
            assert(self.weather@[i].fp == self.city@[i].fp);
        }
        assert(post.wf());
        let spec_map = model::put_one(self@, entry_of(record));
        self.lemma_entry(hit);
        assert forall|f: Fingerprint| post@.contains_key(f) <==> spec_map.contains_key(f) by {
            if post@.contains_key(f) {
                let p = post.pos(f);
                assert(post.at(f, p));
                assert(post.weather@[p].fp == self.weather@[p].fp);
                self.lemma_entry(p);
            }
            if spec_map.contains_key(f) {
                let p = self.pos(f);
                assert(self.at(f, p));
                assert(post.weather@[p].fp == self.weather@[p].fp);
                post.lemma_entry(p);
            }
        }
        assert forall|f: Fingerprint| post@.contains_key(f) implies post@[f] == spec_map[f] by {
            let p = post.pos(f);
            assert(post.at(f, p));
            assert(post.weather@[p].fp == self.weather@[p].fp);
            post.lemma_entry(p);
            self.lemma_entry(p);
        }
        assert(post@ =~= spec_map);
    }
}

/// A record is put as it is: under the fingerprint and the name of its station, with its temperature.
pub proof fn law_entry_of(record: (City, Temperature))
    ensures
        entry_of(record).fp == record.0.fp,
        entry_of(record).name == record.0.name@,
        entry_of(record).temp == record.1,
{
}

} // verus!
