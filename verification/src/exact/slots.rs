//! Slots that hold a station each, walked with a fixed stride.
use vstd::prelude::*;
use crate::exact::city::City;
use crate::exact::model;
use crate::exact::model::{Entry, SLOTS};
use crate::exact::weather::Weather;
use crate::probe;
use crate::stats::Stats;

verus! {

/// The highest slot.
pub const BITS_MASK: usize = 131071;

const STRIDE: usize = 97;

/// The mask keeps the lowest bits of a number, no more of them than the number of a slot has.
pub open spec fn is_mask(mask: usize) -> bool {
    exists|k: nat| k <= 17 && #[trigger] vstd::bits::low_bits_mask(k) == mask
}

/// All slots can be used.
pub proof fn lemma_full_mask()
    ensures
        is_mask(BITS_MASK),
{
    vstd::bits::lemma_low_bits_mask_values();
    assert(vstd::bits::low_bits_mask(17) == BITS_MASK);
}

/// The slot at which the search for this hash starts: all its bits, folded.
pub open spec fn home_of_hash(h: u64, mask: usize) -> int {
    ((((h >> 4u64) | (h << 60u64)) ^ (h >> 51u64) ^ (h >> 34u64) ^ (h >> 17u64) ^ h) & (
    mask as u64)) as int
}

/// The slot at which the search for this hash starts, where the slots up to `mask` are used.
pub fn home_slot(h: u64, mask: usize) -> (slot: usize)
    ensures
        slot == home_of_hash(h, mask),
        slot <= mask,
{
    let x: u64 = ((h >> 4u64) | (h << 60u64)) ^ (h >> 51u64) ^ (h >> 34u64) ^ (h >> 17u64) ^ h;
    let m: u64 = mask as u64;
    assert(x & m <= m) by (bit_vector);
    (x & m) as usize
}

/// A slot.
#[derive(Clone, Copy)]
pub enum MyWeatherNode<'a> {
    Value((City<'a>, Weather)),
    Empty,
}

/// Slot `s` holds the station `name`.
pub open spec fn holds(nodes: Seq<MyWeatherNode>, name: Seq<u8>, s: int) -> bool {
    0 <= s < nodes.len() && (nodes[s] matches MyWeatherNode::Value(v) && v.0.name@ == name)
}

/// The station in a slot.
pub open spec fn station_in(node: MyWeatherNode) -> Option<Seq<u8>> {
    match node {
        MyWeatherNode::Value(v) => Some(v.0.name@),
        MyWeatherNode::Empty => None,
    }
}

/// Slots, and which of them are taken, in the order in which they were.
pub struct Slots<'a> {
    inner: Vec<MyWeatherNode<'a>>,
    taken: Vec<usize>,
    mask: Ghost<usize>,
}

/// Which station each slot holds.
pub type Layout = Seq<Option<Seq<u8>>>;

/// No slot holds a station.
pub open spec fn no_stations() -> Layout {
    Seq::new(SLOTS as nat, |s: int| None)
}

/// The slot at step `k` of a walk from `home` over the first `size` slots.
pub open spec fn walk(home: int, size: int, k: int) -> int {
    probe::probe(home, 97, size, k)
}

/// The search for `name` ends at step `k` of the walk: at a free slot, or at the one that holds it.
pub open spec fn stops(l: Layout, name: Seq<u8>, home: int, size: int, k: int) -> bool {
    l[walk(home, size, k)] is None || l[walk(home, size, k)] == Some(name)
}

/// The search ends at step `k` and not before.
pub open spec fn ends(l: Layout, name: Seq<u8>, home: int, size: int, k: int) -> bool {
    &&& 0 <= k < size
    &&& stops(l, name, home, size, k)
    &&& forall|j: int| 0 <= j < k ==> !#[trigger] stops(l, name, home, size, j)
}

/// How many slots with other stations the search for `name` from `home` on passes.
pub open spec fn distance(l: Layout, name: Seq<u8>, home: int, size: int) -> int {
    choose|k: int| ends(l, name, home, size, k)
}

/// The search for `name` ends.
pub open spec fn found(l: Layout, name: Seq<u8>, home: int, size: int) -> bool {
    ends(l, name, home, size, distance(l, name, home, size))
}

/// Some slot holds the station.
pub open spec fn known(l: Layout, name: Seq<u8>) -> bool {
    exists|s: int| 0 <= s < l.len() && #[trigger] l[s] == Some(name)
}

/// The search for `name` ends at the slot that holds it.
pub open spec fn reached(l: Layout, name: Seq<u8>, home: int, size: int) -> bool {
    &&& found(l, name, home, size)
    &&& l[walk(home, size, distance(l, name, home, size))] == Some(name)
}

/// The slots after a put: a station that is new gets the free slot at which the search for it ends.
pub open spec fn placed(l: Layout, name: Seq<u8>, home: int, size: int) -> Layout {
    if known(l, name) {
        l
    } else {
        l.update(walk(home, size, distance(l, name, home, size)), Some(name))
    }
}

/// A search: for which station, and from which slot on.
pub struct Search {
    pub name: Seq<u8>,
    pub home: int,
}

/// The slots after puts of the stations searched for, in turn.
pub open spec fn laid(l: Layout, ws: Seq<Search>, size: int) -> Layout
    decreases ws.len(),
{
    if ws.len() == 0 {
        l
    } else {
        placed(laid(l, ws.drop_last(), size), ws.last().name, ws.last().home, size)
    }
}

/// How many slots with other stations the searches pass, in turn and all together.
pub open spec fn misses(l: Layout, ws: Seq<Search>, size: int) -> int
    decreases ws.len(),
{
    if ws.len() == 0 {
        0
    } else {
        misses(l, ws.drop_last(), size) + distance(
            laid(l, ws.drop_last(), size),
            ws.last().name,
            ws.last().home,
            size,
        )
    }
}

/// Each of the searches ends, in turn.
pub open spec fn all_found(l: Layout, ws: Seq<Search>, size: int) -> bool
    decreases ws.len(),
{
    ws.len() > 0 ==> {
        &&& all_found(l, ws.drop_last(), size)
        &&& found(laid(l, ws.drop_last(), size), ws.last().name, ws.last().home, size)
    }
}

/// One more search.
pub(crate) proof fn lemma_one_more(l: Layout, ws: Seq<Search>, w: Search, size: int)
    ensures
        laid(l, ws.push(w), size) == placed(laid(l, ws, size), w.name, w.home, size),
        misses(l, ws.push(w), size) == misses(l, ws, size) + distance(
            laid(l, ws, size),
            w.name,
            w.home,
            size,
        ),
        all_found(l, ws.push(w), size) <==> all_found(l, ws, size) && found(
            laid(l, ws, size),
            w.name,
            w.home,
            size,
        ),
{
    assert(ws.push(w).drop_last() =~= ws);
}

proof fn lemma_distance(l: Layout, name: Seq<u8>, home: int, size: int, k: int)
    requires
        ends(l, name, home, size, k),
    ensures
        distance(l, name, home, size) == k,
        found(l, name, home, size),
{
    let d = distance(l, name, home, size);
    assert(ends(l, name, home, size, d));
    if d < k {
        assert(!stops(l, name, home, size, d));
    } else if k < d {
        assert(!stops(l, name, home, size, k));
    }
}

/// Among no stations every search ends where it starts.
pub proof fn law_first_put(name: Seq<u8>, home: int, size: int)
    requires
        0 < size <= SLOTS,
    ensures
        found(no_stations(), name, home, size),
        distance(no_stations(), name, home, size) == 0,
{
    let l = no_stations();
    vstd::arithmetic::div_mod::lemma_mod_bound(home + 97 * 0, size);
    assert(l[walk(home, size, 0)] is None);
    assert(ends(l, name, home, size, 0));
    lemma_distance(l, name, home, size, 0);
}

/// A station that was put is reached from the slot it was put from, and the search for it passes as
/// many slots as when it was put.
pub proof fn law_put_is_reached(l: Layout, name: Seq<u8>, home: int, size: int)
    requires
        size <= l.len(),
        found(l, name, home, size),
        known(l, name) ==> reached(l, name, home, size),
    ensures
        reached(placed(l, name, home, size), name, home, size),
        distance(placed(l, name, home, size), name, home, size) == distance(l, name, home, size),
{
    if !known(l, name) {
        let d = distance(l, name, home, size);
        let p = placed(l, name, home, size);
        lemma_walk(home, size, d);
        assert forall|j: int| 0 <= j < d implies !#[trigger] stops(p, name, home, size, j) by {
            lemma_walk(home, size, j);
            assert(!stops(l, name, home, size, j));
        }
        assert(ends(p, name, home, size, d));
        lemma_distance(p, name, home, size, d);
    }
}

/// Where a station is reached, it stays so when another one is put, and the search for it passes as
/// many slots as before.
pub proof fn law_put_of_another(
    l: Layout,
    name: Seq<u8>,
    home: int,
    size: int,
    other: Seq<u8>,
    from: int,
)
    requires
        size <= l.len(),
        reached(l, name, home, size),
        other != name,
        found(l, other, from, size),
    ensures
        reached(placed(l, other, from, size), name, home, size),
        distance(placed(l, other, from, size), name, home, size) == distance(l, name, home, size),
{
    if !known(l, other) {
        let d = distance(l, name, home, size);
        let e = distance(l, other, from, size);
        let p = placed(l, other, from, size);
        lemma_walk(from, size, e);
        lemma_walk(home, size, d);
        assert(l[walk(from, size, e)] is None);
        assert forall|j: int| 0 <= j < d implies !#[trigger] stops(p, name, home, size, j) by {
            lemma_walk(home, size, j);
            assert(!stops(l, name, home, size, j));
        }
        assert(ends(p, name, home, size, d));
        lemma_distance(p, name, home, size, d);
    }
}

/// Where a station is reached, it stays so however many others are put, and the search for it passes
/// as many slots as before.
pub proof fn law_puts_of_others(
    l: Layout,
    name: Seq<u8>,
    home: int,
    size: int,
    others: Seq<Search>,
)
    requires
        size <= l.len(),
        reached(l, name, home, size),
        forall|i: int| 0 <= i < others.len() ==> (#[trigger] others[i]).name != name,
        all_found(l, others, size),
    ensures
        laid(l, others, size).len() == l.len(),
        reached(laid(l, others, size), name, home, size),
        distance(laid(l, others, size), name, home, size) == distance(l, name, home, size),
    decreases others.len(),
{
    if others.len() > 0 {
        let before = others.drop_last();
        assert forall|i: int| 0 <= i < before.len() implies (#[trigger] before[i]).name != name by {
            assert(before[i] == others[i]);
        }
        law_puts_of_others(l, name, home, size, before);
        let last = others[others.len() - 1];
        assert(last.name != name);
        law_put_of_another(laid(l, before, size), name, home, size, last.name, last.home);
    }
}

/// A station that is put again passes as many slots as when it was put, whatever others were put in
/// between.
pub proof fn law_same_again(
    l: Layout,
    name: Seq<u8>,
    home: int,
    size: int,
    others: Seq<Search>,
)
    requires
        size <= l.len(),
        found(l, name, home, size),
        known(l, name) ==> reached(l, name, home, size),
        forall|i: int| 0 <= i < others.len() ==> (#[trigger] others[i]).name != name,
        all_found(placed(l, name, home, size), others, size),
    ensures
        found(laid(placed(l, name, home, size), others, size), name, home, size),
        distance(laid(placed(l, name, home, size), others, size), name, home, size) == distance(
            l,
            name,
            home,
            size,
        ),
{
    law_put_is_reached(l, name, home, size);
    law_puts_of_others(placed(l, name, home, size), name, home, size, others);
}

proof fn lemma_walk(home: int, size: int, k: int)
    requires
        0 < size,
    ensures
        0 <= walk(home, size, k) < size,
{
    vstd::arithmetic::div_mod::lemma_mod_bound(home + 97 * k, size);
}

/// The mask takes a step back into the slots.
proof fn lemma_stride(slot: usize, mask: usize)
    requires
        is_mask(mask),
        slot <= mask,
    ensures
        mask <= BITS_MASK,
        (slot + 97) as usize & mask == (slot + 97) % (mask + 1),
{
    let k = choose|k: nat| k <= 17 && #[trigger] vstd::bits::low_bits_mask(k) == mask;
    lemma_mask(mask);
    let x: usize = (slot + 97) as usize;
    vstd::bits::lemma_usize_low_bits_mask_is_mod(x, k);
    vstd::arithmetic::power2::lemma_pow2_pos(k);
    assert(vstd::arithmetic::power2::pow2(k) == mask + 1);
}

/// A mask covers slots only, and the stride has an inverse among those it covers.
proof fn lemma_mask(mask: usize)
    requires
        is_mask(mask),
    ensures
        mask <= BITS_MASK,
        mask > 0 ==> (97 * 41889int) % (mask + 1) == 1,
{
    let k = choose|k: nat| k <= 17 && #[trigger] vstd::bits::low_bits_mask(k) == mask;
    let size = vstd::arithmetic::power2::pow2(k) as int;
    let times = vstd::arithmetic::power2::pow2((17 - k) as nat) as int;
    vstd::arithmetic::power2::lemma_pow2_pos(k);
    vstd::arithmetic::power2::lemma_pow2_pos((17 - k) as nat);
    vstd::arithmetic::power2::lemma_pow2_adds(k, (17 - k) as nat);
    vstd::arithmetic::power2::lemma2_to64();
    assert(size * times == 131072);
    assert(size == mask + 1);
    assert(size <= 131072) by (nonlinear_arith)
        requires
            size * times == 131072,
            size > 0,
            times > 0,
    ;
    if mask > 0 {
        let q = 31 * times;
        assert(97 * 41889int == q * size + 1) by (nonlinear_arith)
            requires
                size * times == 131072,
                q == 31 * times,
        ;
        vstd::arithmetic::div_mod::lemma_fundamental_div_mod_converse_mod(
            97 * 41889int,
            size,
            q,
            1,
        );
    }
}

impl<'a> View for Slots<'a> {
    type V = model::Stations;

    closed spec fn view(&self) -> model::Stations {
        Map::new(
            |name: Seq<u8>| exists|s: int| holds(self.inner@, name, s),
            |name: Seq<u8>| self.inner@[self.slot_of(name)]->Value_0.1@,
        )
    }
}

impl<'a> Slots<'a> {
    /// The slot that holds a station.
    spec fn slot_of(&self, name: Seq<u8>) -> int {
        choose|s: int| holds(self.inner@, name, s)
    }

    /// Which station each slot holds.
    pub closed spec fn layout(&self) -> Layout {
        self.inner@.map_values(|n: MyWeatherNode<'a>| station_in(n))
    }

    /// The highest slot that was used, where there are stations.
    pub closed spec fn mask(&self) -> usize {
        self.mask@
    }

    /// Every station stands in one slot, and every slot with a station is among the taken ones.
    pub closed spec fn wf(&self) -> bool {
        &&& self.inner@.len() == SLOTS
        &&& self.mask@ <= BITS_MASK
        &&& self.taken@.no_duplicates()
        &&& forall|i: int|
            0 <= i < self.taken@.len() ==> #[trigger] self.taken@[i] < SLOTS
                && self.taken@[i] <= self.mask@ && self.inner@[self.taken@[i] as int] is Value
        &&& forall|s: int|
            0 <= s < SLOTS && #[trigger] self.inner@[s] is Value ==> {
                &&& self.taken@.contains(s as usize)
                &&& self.inner@[s]->Value_0.1.count > 0
                &&& self.inner@[s]->Value_0.1.min <= self.inner@[s]->Value_0.1.max
            }
        &&& forall|s: int, t: int|
            0 <= s < t < SLOTS && #[trigger] self.inner@[s] is Value && #[trigger] self.inner@[t] is Value
                ==> self.inner@[s]->Value_0.0.name@ != self.inner@[t]->Value_0.0.name@
    }

    proof fn lemma_slot(&self, s: int)
        requires
            self.wf(),
            0 <= s < SLOTS,
            self.inner@[s] is Value,
        ensures
            ({
                let v = self.inner@[s]->Value_0;
                &&& holds(self.inner@, v.0.name@, s)
                &&& self@.contains_key(v.0.name@)
                &&& self@[v.0.name@] == v.1@
                &&& self.slot_of(v.0.name@) == s
            }),
    {
        let name = self.inner@[s]->Value_0.0.name@;
        assert(holds(self.inner@, name, s));
        let p = self.slot_of(name);
        assert(holds(self.inner@, name, p));
        if p < s {
            assert(self.inner@[p] is Value && self.inner@[s] is Value);
        } else if s < p {
            assert(self.inner@[s] is Value && self.inner@[p] is Value);
        }
    }

    /// There are as many stations as taken slots.
    proof fn lemma_len(&self)
        requires
            self.wf(),
        ensures
            self@.dom().finite(),
            self@.len() == self.taken@.len(),
            self.taken@.len() <= SLOTS,
    {
        let slots = self.taken@.map_values(|s: usize| s as int);
        assert forall|i: int| 0 <= i < slots.len() implies 0 <= #[trigger] slots[i] < SLOTS by {
            assert(self.taken@[i] < SLOTS);
        }
        probe::lemma_pigeonhole(slots, SLOTS as int);
        let names = self.taken@.map_values(|s: usize| self.inner@[s as int]->Value_0.0.name@);
        assert forall|i: int, j: int|
            0 <= i < names.len() && 0 <= j < names.len() && i != j implies names[i]
            != names[j] by {
            let s = self.taken@[i];
            let t = self.taken@[j];
            assert(s != t);
            assert(self.inner@[s as int] is Value && self.inner@[t as int] is Value);
        }
        names.unique_seq_to_set();
        assert forall|x: Seq<u8>| #[trigger]
            names.to_set().contains(x) <==> self@.dom().contains(x) by {
            if names.to_set().contains(x) {
                let i = choose|i: int| 0 <= i < names.len() && names[i] == x;
                assert(self.taken@[i] < SLOTS);
                assert(holds(self.inner@, x, self.taken@[i] as int));
            }
            if self@.dom().contains(x) {
                let s = choose|s: int| holds(self.inner@, x, s);
                assert(holds(self.inner@, x, s));
                assert(self.inner@[s] is Value);
                let i = choose|i: int| 0 <= i < self.taken@.len() && self.taken@[i] == s as usize;
                assert(names[i] == x);
            }
        }
        assert(names.to_set() =~= self@.dom());
    }

    /// Slots that are all free.
    pub fn new() -> (r: Self)
        ensures
            r.wf(),
            r@ == Map::<Seq<u8>, Stats>::empty(),
            r.layout() == no_stations(),
    {
        let r = Slots {
            inner: vec![MyWeatherNode::Empty; SLOTS],
            taken: Vec::new(),
            mask: Ghost(BITS_MASK),
        };
        assert forall|name: Seq<u8>| !r@.contains_key(name) by {
            assert(forall|s: int| !holds(r.inner@, name, s));
        }
        assert(r@ =~= Map::empty());
        r
    }

    /// Frees all slots.
    pub fn clear(&mut self)
        requires
            old(self).wf(),
        ensures
            final(self).wf(),
            final(self)@ == Map::<Seq<u8>, Stats>::empty(),
            final(self).layout() == no_stations(),
    {
        let mut i: usize = 0;
        while i < SLOTS
            invariant
                i <= SLOTS,
                self.inner@.len() == SLOTS,
                self.mask@ <= BITS_MASK,
                forall|s: int| 0 <= s < i ==> #[trigger] self.inner@[s] is Empty,
            decreases SLOTS - i,
        {
            let taken: bool = match self.inner[i] {
                MyWeatherNode::Value(_) => true,
                MyWeatherNode::Empty => false,
            };
            if taken {
                self.inner.set(i, MyWeatherNode::Empty);
            }
            i = i + 1;
        }
        self.taken = Vec::new();
        assert forall|name: Seq<u8>| !self@.contains_key(name) by {
            assert(forall|s: int| !holds(self.inner@, name, s));
        }
        assert(self@ =~= Map::empty());
    }

    /// The number of stations.
    pub fn len(&self) -> (n: usize)
        requires
            self.wf(),
        ensures
            self@.dom().finite(),
            n == self@.len(),
    {
        proof {
            self.lemma_len();
        }
        self.taken.len()
    }

    /// What is known of a station.
    pub fn get(&self, city: &City) -> (r: Option<Weather>)
        requires
            self.wf(),
        ensures
            r is Some <==> self@.contains_key(city.name@),
            r matches Some(w) ==> w@ == self@[city.name@],
    {
        let mut i: usize = 0;
        while i < SLOTS
            invariant
                self.wf(),
                i <= SLOTS,
                forall|s: int| 0 <= s < i ==> !#[trigger] holds(self.inner@, city.name@, s),
            decreases SLOTS - i,
        {
            match self.inner[i] {
                MyWeatherNode::Value(v) => {
                    if v.0 == *city {
                        proof {
                            self.lemma_slot(i as int);
                        }
                        return Some(v.1);
                    }
                },
                MyWeatherNode::Empty => {},
            }
            i = i + 1;
        }
        None
    }

    /// The slots themselves: every station stands in one of them.
    pub fn into_nodes(self) -> (nodes: Vec<MyWeatherNode<'a>>)
        requires
            self.wf(),
        ensures
            forall|name: Seq<u8>| #[trigger]
                self@.contains_key(name) <==> exists|s: int| holds(nodes@, name, s),
            forall|name: Seq<u8>, s: int| #[trigger]
                holds(nodes@, name, s) ==> self@[name] == nodes@[s]->Value_0.1@,
            forall|name: Seq<u8>, s: int, t: int| #[trigger]
                holds(nodes@, name, s) && #[trigger] holds(nodes@, name, t) ==> s == t,
    {
        proof {
            assert forall|name: Seq<u8>, s: int| #[trigger]
                holds(self.inner@, name, s) implies self@[name]
                == self.inner@[s]->Value_0.1@ by {
                self.lemma_slot(s);
            }
            assert forall|name: Seq<u8>, s: int, t: int| #[trigger]
                holds(self.inner@, name, s) && #[trigger] holds(self.inner@, name, t) implies s
                == t by {
                self.lemma_slot(s);
                self.lemma_slot(t);
            }
        }
        self.inner
    }

    /// Every station has one temperature at least.
    pub proof fn lemma_counted(&self, name: Seq<u8>)
        requires
            self.wf(),
            self@.contains_key(name),
        ensures
            self@[name].cnt > 0,
    {
        let s = self.slot_of(name);
        assert(holds(self.inner@, name, s));
        self.lemma_slot(s);
        assert(self.inner@[s] is Value);
    }

    /// The slots hold the stations that are known, and no others.
    pub proof fn law_layout(&self, name: Seq<u8>)
        requires
            self.wf(),
        ensures
            self.layout().len() == SLOTS,
            known(self.layout(), name) <==> self@.contains_key(name),
    {
        let l = self.layout();
        if self@.contains_key(name) {
            let s = self.slot_of(name);
            assert(holds(self.inner@, name, s));
            assert(l[s] == Some(name));
        }
        if known(l, name) {
            let s = choose|s: int| 0 <= s < l.len() && #[trigger] l[s] == Some(name);
            assert(station_in(self.inner@[s]) == Some(name));
            assert(holds(self.inner@, name, s));
        }
    }

    /// A search that passed other stations in `k` slots shows that there are so many.
    proof fn lemma_passed(&self, name: Seq<u8>, home: int, mask: usize, k: int)
        requires
            self.wf(),
            is_mask(mask),
            0 <= k <= mask + 1,
            forall|j: int|
                0 <= j < k ==> !#[trigger] stops(self.layout(), name, home, mask + 1, j),
        ensures
            k <= self@.len(),
    {
        self.lemma_len();
        lemma_mask(mask);
        let size = mask + 1;
        let slots = self.taken@.map_values(|s: usize| s as int);
        let passed = Seq::new(k as nat, |j: int| walk(home, size, j));
        assert forall|i: int, j: int| 0 <= i < j < passed.len() implies passed[i]
            != passed[j] by {
            probe::lemma_probe_distinct(home, 97, size, 41889, i, j);
        }
        assert(passed.no_duplicates());
        passed.unique_seq_to_set();
        assert(slots.no_duplicates());
        slots.unique_seq_to_set();
        vstd::seq_lib::seq_to_set_is_finite(slots);
        assert forall|s: int| passed.to_set().contains(s) implies #[trigger] slots.to_set().contains(
            s,
        ) by {
            let j = choose|j: int| 0 <= j < passed.len() && passed[j] == s;
            lemma_walk(home, size, j);
            assert(!stops(self.layout(), name, home, size, j));
            assert(self.layout()[s] == station_in(self.inner@[s]));
            assert(self.inner@[s] is Value);
            let i = choose|i: int| 0 <= i < self.taken@.len() && self.taken@[i] == s as usize;
            assert(slots[i] == s);
        }
        vstd::set_lib::lemma_len_subset(passed.to_set(), slots.to_set());
    }

    /// A search that passed other stations in all slots that are used shows that the station is not
    /// there.
    proof fn lemma_full(&self, name: Seq<u8>, home: int, mask: usize)
        requires
            self.wf(),
            is_mask(mask),
            self.taken@.len() > 0 ==> self.mask@ <= mask,
            forall|j: int|
                0 <= j < mask + 1 ==> !#[trigger] stops(self.layout(), name, home, mask + 1, j),
        ensures
            !self@.contains_key(name),
            self@.len() > mask,
    {
        self.lemma_passed(name, home, mask, mask + 1);
        lemma_mask(mask);
        if self@.contains_key(name) {
            let s = self.slot_of(name);
            assert(holds(self.inner@, name, s));
            assert(self.inner@[s] is Value);
            let i = choose|i: int| 0 <= i < self.taken@.len() && self.taken@[i] == s as usize;
            assert(self.taken@[i] <= self.mask@);
            let k = if mask > 0 {
                probe::lemma_probe_covers(home, 97, mask + 1, 41889, s)
            } else {
                lemma_walk(home, 1, 0);
                0
            };
            assert(walk(home, mask + 1, k) == s);
            assert(self.layout()[s] == station_in(self.inner@[s]));
            assert(!stops(self.layout(), name, home, mask + 1, k));
        }
    }

    /// The slot of a station, whatever its hash: by looking at all taken ones.
    fn seek(&self, city: &City) -> (r: Option<usize>)
        requires
            self.wf(),
        ensures
            r matches Some(s) ==> holds(self.inner@, city.name@, s as int),
            r is None ==> !self@.contains_key(city.name@),
    {
        let mut i: usize = 0;
        while i < self.taken.len()
            invariant
                self.wf(),
                i <= self.taken@.len(),
                forall|j: int|
                    0 <= j < i ==> !holds(
                        self.inner@,
                        city.name@,
                        #[trigger] self.taken@[j] as int,
                    ),
            decreases self.taken@.len() - i,
        {
            let s: usize = self.taken[i];
            match self.inner[s] {
                MyWeatherNode::Value(v) => {
                    if v.0 == *city {
                        return Some(s);
                    }
                },
                MyWeatherNode::Empty => {},
            }
            i = i + 1;
        }
        proof {
            if self@.contains_key(city.name@) {
                let s = self.slot_of(city.name@);
                assert(holds(self.inner@, city.name@, s));
                assert(self.inner@[s] is Value);
                let j = choose|j: int| 0 <= j < self.taken@.len() && self.taken@[j] == s as usize;
                assert(holds(self.inner@, city.name@, self.taken@[j] as int));
            }
        }
        None
    }

    /// Takes one more temperature into the slot of a station.
    fn update(&mut self, slot: usize, value: i16)
        requires
            old(self).wf(),
            slot < SLOTS,
            old(self).inner@[slot as int] is Value,
            model::can_put(
                old(self)@,
                (Entry {
                    name: old(self).inner@[slot as int]->Value_0.0.name@,
                    temp: value as int,
                }),
            ),
        ensures
            final(self).wf(),
            final(self)@ == model::put_one(
                old(self)@,
                (Entry {
                    name: old(self).inner@[slot as int]->Value_0.0.name@,
                    temp: value as int,
                }),
            ),
            final(self).layout() == old(self).layout(),
            final(self).mask == old(self).mask,
    {
        proof {
            self.lemma_slot(slot as int);
        }
        match self.inner[slot] {
            MyWeatherNode::Value(v) => {
                let mut w: Weather = v.1;
                w.add_value(value);
                self.inner.set(slot, MyWeatherNode::Value((v.0, w)));
                proof {
                    old(self).lemma_updated(*self, value as int, slot as int);
                    assert(self.layout() =~= old(self).layout());
                }
            },
            MyWeatherNode::Empty => {},
        }
    }

    /// What is known of a station, by a walk from `home`.
    pub fn find_at(&self, city: &City, home: usize) -> (r: Option<Weather>)
        requires
            self.wf(),
            home < SLOTS,
        ensures
            r is Some <==> self@.contains_key(city.name@),
            r matches Some(w) ==> w@ == self@[city.name@],
    {
        proof {
            lemma_full_mask();
        }
        let (slot, _) = self.walk_from(city, home, BITS_MASK);
        match slot {
            Some(s) => match self.inner[s] {
                MyWeatherNode::Value(v) => {
                    proof {
                        self.lemma_slot(s as int);
                    }
                    if v.0 == *city {
                        Some(v.1)
                    } else {
                        None
                    }
                },
                MyWeatherNode::Empty => None,
            },
            None => None,
        }
    }

    /// The slot of a station, or a free one if it has none; nothing if there is none free. Walks
    /// from `home` over the slots up to `mask` and returns how many with other stations it passed.
    fn walk_from(&self, city: &City, home: usize, mask: usize) -> (r: (Option<usize>, usize))
        requires
            self.wf(),
            is_mask(mask),
            home <= mask,
            self.taken@.len() > 0 ==> self.mask@ <= mask,
        ensures
            match r.0 {
                Some(s) => {
                    &&& s < SLOTS
                    &&& self.inner@[s as int] is Empty <==> !self@.contains_key(city.name@)
                    &&& self.inner@[s as int] is Value ==> holds(self.inner@, city.name@, s as int)
                    &&& self.inner@[s as int] is Empty ==> s == walk(
                        home as int,
                        mask + 1,
                        r.1 as int,
                    )
                    &&& ends(self.layout(), city.name@, home as int, mask + 1, r.1 as int)
                },
                None => !self@.contains_key(city.name@) && self@.len() > mask,
            },
    {
        let ghost name = city.name@;
        let ghost size = mask + 1;
        let ghost l = self.layout();
        let mut miss: usize = 0;
        let mut slot: usize = home;
        proof {
            lemma_mask(mask);
            vstd::arithmetic::div_mod::lemma_small_mod(slot as nat, size as nat);
        }
        while miss <= mask
            invariant
                self.wf(),
                is_mask(mask),
                mask <= BITS_MASK,
                size == mask + 1,
                l == self.layout(),
                name == city.name@,
                miss <= mask + 1,
                slot <= mask,
                slot == walk(home as int, size, miss as int),
                forall|j: int| 0 <= j < miss ==> !#[trigger] stops(l, name, home as int, size, j),
            decreases mask + 1 - miss,
        {
            assert(l[slot as int] == station_in(self.inner@[slot as int]));
            match self.inner[slot] {
                MyWeatherNode::Empty => {
                    assert(stops(l, name, home as int, size, miss as int));
                    return match self.seek(city) {
                        Some(s) => {
                            proof {
                                self.lemma_slot(s as int);
                            }
                            (Some(s), miss)
                        },
                        None => (Some(slot), miss),
                    };
                },
                MyWeatherNode::Value(v) => {
                    if v.0 == *city {
                        proof {
                            assert(stops(l, name, home as int, size, miss as int));
                            self.lemma_slot(slot as int);
                        }
                        return (Some(slot), miss);
                    }
                },
            }
            proof {
                assert(!stops(l, name, home as int, size, miss as int));
                probe::lemma_probe_next(home as int, 97, size, miss as int);
                lemma_stride(slot, mask);
            }
            miss = miss + 1;
            slot = (slot + STRIDE) & mask;
        }
        proof {
            self.lemma_full(name, home as int, mask);
        }
        (None, miss)
    }

    /// Takes in one temperature of a station, found by a walk from `home` over the slots up to
    /// `mask`; the first free slot on the walk is the one a new station gets. Returns how many slots
    /// with other stations were passed.
    pub fn put_at(&mut self, key: City<'a>, value: i16, home: usize, mask: usize) -> (miss: usize)
        requires
            old(self).wf(),
            is_mask(mask),
            home <= mask,
            old(self)@.len() == 0 || old(self).mask() == mask,
            model::can_put(old(self)@, (Entry { name: key.name@, temp: value as int })),
            old(self)@.contains_key(key.name@) || old(self)@.len() <= mask,
        ensures
            final(self).wf(),
            final(self).mask() == mask,
            final(self)@ == model::put_one(
                old(self)@,
                (Entry { name: key.name@, temp: value as int }),
            ),
            found(old(self).layout(), key.name@, home as int, mask + 1),
            miss == distance(old(self).layout(), key.name@, home as int, mask + 1),
            final(self).layout() == placed(
                old(self).layout(),
                key.name@,
                home as int,
                mask + 1,
            ),
            miss <= old(self)@.len(),
    {
        proof {
            self.lemma_len();
            self.law_layout(key.name@);
            lemma_mask(mask);
        }
        let (slot, miss) = self.walk_from(&key, home, mask);
        if let Some(s) = slot {
            proof {
                lemma_distance(self.layout(), key.name@, home as int, mask + 1, miss as int);
                self.lemma_passed(key.name@, home as int, mask, miss as int);
                lemma_walk(home as int, mask + 1, miss as int);
            }
            let free: bool = match self.inner[s] {
                MyWeatherNode::Value(_) => false,
                MyWeatherNode::Empty => true,
            };
            self.mask = Ghost(mask);
            if free {
                self.inner.set(s, MyWeatherNode::Value((key, Weather::new(value))));
                self.taken.push(s);
                proof {
                    old(self).lemma_taken(*self, key, value, s as int);
                    assert(self.layout() =~= old(self).layout().update(s as int, Some(key.name@)));
                }
            } else {
                self.update(s, value);
            }
        }
        miss
    }

    proof fn lemma_taken(&self, post: Self, key: City<'a>, value: i16, slot: int)
        requires
            self.wf(),
            !self@.contains_key(key.name@),
            0 <= slot < SLOTS,
            self.inner@[slot] is Empty,
            post.inner@.len() == SLOTS,
            forall|s: int|
                0 <= s < SLOTS && s != slot ==> #[trigger] post.inner@[s] == self.inner@[s],
            post.inner@[slot] is Value,
            post.inner@[slot]->Value_0.0 == key,
            post.inner@[slot]->Value_0.1@ == Stats::of(value as int),
            post.taken@ == self.taken@.push(slot as usize),
            slot <= post.mask@ <= BITS_MASK,
            self.taken@.len() > 0 ==> self.mask == post.mask,
        ensures
            post.wf(),
            post@ == model::put_one(self@, (Entry { name: key.name@, temp: value as int })),
    {
        let n = self.taken@.len() as int;
        assert forall|i: int| 0 <= i < n implies #[trigger] self.taken@[i] != slot by {
            assert(self.inner@[self.taken@[i] as int] is Value);
        }
        assert forall|i: int| 0 <= i < post.taken@.len() implies #[trigger] post.taken@[i] < SLOTS
            && post.taken@[i] <= post.mask@ && post.inner@[post.taken@[i] as int] is Value by {
            if i < n {
                assert(self.taken@[i] < SLOTS);
                assert(self.taken@[i] != slot);
            }
        }
        let name = key.name@;
        let e = Entry { name, temp: value as int };
        assert forall|s: int| 0 <= s < SLOTS && #[trigger] self.inner@[s] is Value implies
            self.inner@[s]->Value_0.0.name@ != name && s != slot by {
            self.lemma_slot(s);
        }
        assert forall|s: int, t: int|
            0 <= s < t < SLOTS && #[trigger] post.inner@[s] is Value
                && #[trigger] post.inner@[t] is Value implies post.inner@[s]->Value_0.0.name@
            != post.inner@[t]->Value_0.0.name@ by {
            if s != slot {
                assert(self.inner@[s] is Value);
            }
            if t != slot {
                assert(self.inner@[t] is Value);
            }
        }
        assert forall|s: int| 0 <= s < SLOTS && #[trigger] post.inner@[s] is Value implies {
            &&& post.taken@.contains(s as usize)
            &&& post.inner@[s]->Value_0.1.count > 0
            &&& post.inner@[s]->Value_0.1.min <= post.inner@[s]->Value_0.1.max
        } by {
            if s == slot {
                assert(post.taken@[n] == s as usize);
                assert(post.inner@[s]->Value_0.1@.cnt == 1);
            } else {
                assert(self.inner@[s] is Value);
                let i = choose|i: int| 0 <= i < self.taken@.len() && self.taken@[i] == s as usize;
                assert(post.taken@[i] == s as usize);
            }
        }
        assert(post.wf());
        let m = model::put_one(self@, e);
        assert forall|x: Seq<u8>| #[trigger] post@.contains_key(x) <==> m.contains_key(x) by {
            if post@.contains_key(x) {
                let s = post.slot_of(x);
                assert(holds(post.inner@, x, s));
                if s != slot {
                    assert(self.inner@[s] is Value);
                    self.lemma_slot(s);
                }
            }
            if m.contains_key(x) {
                if x == name {
                    post.lemma_slot(slot);
                } else {
                    let s = self.slot_of(x);
                    assert(holds(self.inner@, x, s));
                    assert(self.inner@[s] is Value);
                    assert(post.inner@[s] == self.inner@[s]);
                    post.lemma_slot(s);
                }
            }
        }
        assert forall|x: Seq<u8>| #[trigger] post@.contains_key(x) implies post@[x] == m[x] by {
            let s = post.slot_of(x);
            assert(holds(post.inner@, x, s));
            post.lemma_slot(s);
            if s != slot {
                assert(self.inner@[s] is Value);
                self.lemma_slot(s);
            }
        }
        assert(post@ =~= m);
    }

    proof fn lemma_updated(&self, post: Self, value: int, slot: int)
        requires
            self.wf(),
            0 <= slot < SLOTS,
            self.inner@[slot] is Value,
            post.inner@.len() == SLOTS,
            forall|s: int|
                0 <= s < SLOTS && s != slot ==> #[trigger] post.inner@[s] == self.inner@[s],
            post.inner@[slot] is Value,
            post.inner@[slot]->Value_0.0 == self.inner@[slot]->Value_0.0,
            post.inner@[slot]->Value_0.1@ == self.inner@[slot]->Value_0.1@.plus(Stats::of(value)),
            post.taken@ == self.taken@,
            post.mask == self.mask,
        ensures
            post.wf(),
            post@ == model::put_one(
                self@,
                (Entry { name: self.inner@[slot]->Value_0.0.name@, temp: value }),
            ),
    {
        let name = self.inner@[slot]->Value_0.0.name@;
        let e = Entry { name, temp: value };
        assert forall|s: int| 0 <= s < SLOTS implies (#[trigger] post.inner@[s] is Value
            <==> self.inner@[s] is Value) && post.inner@[s]->Value_0.0 == self.inner@[s]->Value_0.0
            && (post.inner@[s] is Empty <==> self.inner@[s] is Empty) by {}
        assert forall|s: int, t: int|
            0 <= s < t < SLOTS && #[trigger] post.inner@[s] is Value
                && #[trigger] post.inner@[t] is Value implies post.inner@[s]->Value_0.0.name@
            != post.inner@[t]->Value_0.0.name@ by {
            assert(self.inner@[s] is Value && self.inner@[t] is Value);
        }
        assert forall|i: int| 0 <= i < post.taken@.len() implies #[trigger] post.taken@[i] < SLOTS
            && post.taken@[i] <= post.mask@ && post.inner@[post.taken@[i] as int] is Value by {
            assert(self.taken@[i] < SLOTS);
        }
        assert forall|s: int| 0 <= s < SLOTS && #[trigger] post.inner@[s] is Value implies {
            &&& post.taken@.contains(s as usize)
            &&& post.inner@[s]->Value_0.1.count > 0
            &&& post.inner@[s]->Value_0.1.min <= post.inner@[s]->Value_0.1.max
        } by {
            assert(self.inner@[s] is Value);
            if s == slot {
                assert(self.inner@[s]->Value_0.1.count > 0);
                assert(post.inner@[s]->Value_0.1@.cnt > 0);
                assert(post.inner@[s]->Value_0.1@.min <= post.inner@[s]->Value_0.1@.max);
            }
        }
        assert(post.wf());
        self.lemma_slot(slot);
        let m = model::put_one(self@, e);
        assert forall|x: Seq<u8>| #[trigger] post@.contains_key(x) <==> m.contains_key(x) by {
            if post@.contains_key(x) {
                let s = post.slot_of(x);
                assert(holds(post.inner@, x, s));
                assert(post.inner@[s] is Value);
                self.lemma_slot(s);
            }
            if m.contains_key(x) {
                let s = self.slot_of(x);
                assert(holds(self.inner@, x, s));
                assert(post.inner@[s] is Value);
                post.lemma_slot(s);
            }
        }
        assert forall|x: Seq<u8>| #[trigger] post@.contains_key(x) implies post@[x] == m[x] by {
            let s = post.slot_of(x);
            assert(holds(post.inner@, x, s));
            assert(post.inner@[s] is Value);
            post.lemma_slot(s);
            self.lemma_slot(s);
        }
        assert(post@ =~= m);
    }
}

/// A search goes on 97 slots at a time, round the slots that are used.
pub proof fn law_walk(home: int, size: int, k: int)
    requires
        0 <= home < size,
    ensures
        walk(home, size, 0) == home,
        walk(home, size, k + 1) == (walk(home, size, k) + 97) % size,
{
    vstd::arithmetic::div_mod::lemma_small_mod(home as nat, size as nat);
    probe::lemma_probe_next(home, 97, size, k);
}

/// Every bit of a hash has a say in where the search starts, hashes below the number of slots start at
/// slots of their own, and a smaller mask keeps the lowest bits of that.
pub proof fn law_home(h: u64, g: u64, bit: u64, mask: usize)
    requires
        bit < 64,
    ensures
        home_of_hash(h, 131071) != home_of_hash(h ^ (1u64 << bit), 131071),
        h != g && h < 131072 && g < 131072 ==> home_of_hash(h, 131071) != home_of_hash(g, 131071),
        0 <= home_of_hash(h, mask) <= mask,
        mask <= 131071 ==> home_of_hash(h, mask) == (home_of_hash(h, 131071) as u64) & (mask as u64),
{
    let f = h ^ (1u64 << bit);
    let x = (((h >> 4u64) | (h << 60u64)) ^ (h >> 51u64) ^ (h >> 34u64) ^ (h >> 17u64) ^ h);
    let y = (((f >> 4u64) | (f << 60u64)) ^ (f >> 51u64) ^ (f >> 34u64) ^ (f >> 17u64) ^ f);
    let z = (((g >> 4u64) | (g << 60u64)) ^ (g >> 51u64) ^ (g >> 34u64) ^ (g >> 17u64) ^ g);
    let m = mask as u64;
    assert({
        &&& x & 131071 != y & 131071
        &&& h != g && h < 131072 && g < 131072 ==> x & 131071 != z & 131071
        &&& x & m <= m
        &&& m <= 131071 ==> x & m == (x & 131071) & m
    }) by (bit_vector)
        requires
            bit < 64,
            f == h ^ (1u64 << bit),
            x == (((h >> 4u64) | (h << 60u64)) ^ (h >> 51u64) ^ (h >> 34u64) ^ (h >> 17u64) ^ h),
            y == (((f >> 4u64) | (f << 60u64)) ^ (f >> 51u64) ^ (f >> 34u64) ^ (f >> 17u64) ^ f),
            z == (((g >> 4u64) | (g << 60u64)) ^ (g >> 51u64) ^ (g >> 34u64) ^ (g >> 17u64) ^ g),
    ;
}

/// The masks are 0, and from each below the highest slot the one with one more bit.
pub proof fn law_masks(mask: usize)
    ensures
        is_mask(0),
        is_mask(mask) && mask < 131071 ==> is_mask((2 * mask + 1) as usize),
        is_mask(mask) ==> mask <= 131071 && (mask == 0 || mask % 2 == 1 && is_mask((mask / 2) as usize)),
{
    vstd::bits::lemma_low_bits_mask_values();
    assert(vstd::bits::low_bits_mask(0) == 0);
    if is_mask(mask) {
        lemma_mask(mask);
        let k = choose|k: nat| k <= 17 && #[trigger] vstd::bits::low_bits_mask(k) == mask;
        if k < 17 {
            vstd::bits::lemma_low_bits_mask_unfold(k + 1);
            assert(vstd::bits::low_bits_mask(k + 1) == 2 * mask + 1);
        }
        if k > 0 {
            vstd::bits::lemma_low_bits_mask_unfold(k);
            let j = (k - 1) as nat;
            assert(vstd::bits::low_bits_mask(j) == mask / 2);
        }
    }
}

} // verus!
