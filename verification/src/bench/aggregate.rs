//! What the report of a data file says of each station, from the records in it to the result.
use vstd::prelude::*;
use crate::bench::city;
use crate::bench::city::Fingerprint;
use crate::bench::decode;
use crate::bench::model;
use crate::bench::model::Entry;
use crate::bench::records;
use crate::bench::reduce;
use crate::bench::roundtrip;
use crate::generate;
use crate::generate::Record;
use crate::scanner;

verus! {

/// The temperature in a record.
pub open spec fn temp_of(r: Record) -> int {
    if r.neg {
        -(r.tenths as int)
    } else {
        r.tenths as int
    }
}

/// The records of one station.
pub open spec fn of_name(rs: Seq<Record>, name: Seq<u8>) -> Seq<Record> {
    rs.filter(|r: Record| r.name == name)
}

/// The sum of the temperatures.
pub open spec fn total(rs: Seq<Record>) -> int
    decreases rs.len(),
{
    if rs.len() == 0 {
        0
    } else {
        total(rs.drop_last()) + temp_of(rs.last())
    }
}

/// Names with neither a semicolon nor a line feed, temperatures below a hundred degrees.
pub open spec fn sound(rs: Seq<Record>) -> bool {
    forall|i: int|
        0 <= i < rs.len() ==> {
            &&& (#[trigger] rs[i]).tenths < 1000
            &&& rs[i].name.len() <= u32::MAX
            &&& forall|j: int|
                0 <= j < rs[i].name.len() ==> #[trigger] rs[i].name[j] != 59 && rs[i].name[j] != 10
        }
}

/// No name is empty.
pub open spec fn named(rs: Seq<Record>) -> bool {
    forall|i: int| 0 <= i < rs.len() ==> (#[trigger] rs[i]).name.len() >= 1
}

/// All names are shorter than 64 bytes.
pub open spec fn brief(rs: Seq<Record>) -> bool {
    forall|i: int| 0 <= i < rs.len() ==> (#[trigger] rs[i]).name.len() < 64
}

/// The records of a station, as they are read, are its records.
proof fn lemma_of_station(rs: Seq<Record>, name: Seq<u8>)
    ensures
        ({
            let es = rs.map_values(|r: Record| roundtrip::read_of(r));
            let k = (city::fingerprint(name), name);
            &&& model::of_station(es, k).len() == of_name(rs, name).len()
            &&& model::sum_temps(model::of_station(es, k)) == total(of_name(rs, name))
        }),
    decreases rs.len(),
{
    reveal(Seq::filter);
    let es = rs.map_values(|r: Record| roundtrip::read_of(r));
    let k = (city::fingerprint(name), name);
    if rs.len() > 0 {
        let some = rs.drop_last();
        let r = rs.last();
        lemma_of_station(some, name);
        assert(es.drop_last() =~= some.map_values(|r: Record| roundtrip::read_of(r)));
        let a = model::of_station(es.drop_last(), k);
        let b = of_name(some, name);
        assert(es.last() == roundtrip::read_of(r));
        if r.name == name {
            assert(model::of_station(es, k) =~= a.push(es.last()));
            assert(a.push(es.last()).drop_last() =~= a);
            assert(of_name(rs, name) =~= b.push(r));
            assert(b.push(r).drop_last() =~= b);
        } else {
            assert(model::of_station(es, k) =~= a);
            assert(of_name(rs, name) =~= b);
        }
    } else {
        assert(model::of_station(es, k) =~= seq![]);
        assert(of_name(rs, name) =~= seq![]);
    }
}

proof fn lemma_file(rs: Seq<Record>)
    requires
        sound(rs),
        named(rs),
    ensures
        roundtrip::writable(rs),
        brief(rs) ==> roundtrip::short(rs),
        records::entries(generate::file_text(rs), 0) == rs.map_values(
            |r: Record| roundtrip::read_of(r),
        ),
        records::readable(generate::file_text(rs), 0),
        records::alternating(generate::file_text(rs), 0),
        records::finished(generate::file_text(rs), 0),
        brief(rs) ==> records::short_names(generate::file_text(rs), 0),
{
    assert forall|i: int| 0 <= i < rs.len() implies generate::plain((#[trigger] rs[i]).name)
        && rs[i].tenths < 1000 by {
        assert(rs[i].name.len() >= 1);
        assert forall|j: int| 0 <= j < rs[i].name.len() implies #[trigger] rs[i].name[j]
            != 59 && rs[i].name[j] != 10 by {}
    }
    roundtrip::law_reads_back(rs);
}

/// The result for a data file, however it is cut and read, has a row for a station if and only if a
/// record names it. Its count is the number of the station's records, its sum the sum of their
/// temperatures, its lowest and highest the lowest and highest of those. That holds of every station
/// whose name differs from each other name in its length or in a byte that fingerprints keep, whatever
/// other stations there are.
pub proof fn law_aggregate(rs: Seq<Record>, slice: int, mode: usize, name: Seq<u8>)
    requires
        0 <= slice,
        mode <= 2,
        sound(rs),
        named(rs),
        mode == 2 ==> brief(rs),
        1 <= name.len() <= u32::MAX,
        forall|i: int|
            0 <= i < rs.len() ==> (#[trigger] rs[i]).name == name || city::apart(rs[i].name, name),
    ensures
        ({
            let ps = scanner::pieces(generate::file_text(rs), 0, slice);
            let m = reduce::merged_parts(ps, false, mode);
            let k = (city::fingerprint(name), name);
            let mine = of_name(rs, name);
            &&& reduce::parts_total(ps, mode) == rs.len()
            &&& m.contains_key(k) <==> mine.len() > 0
            &&& mine.len() > 0 ==> {
                &&& m[k].cnt == mine.len()
                &&& m[k].sum == total(mine)
                &&& forall|i: int|
                    0 <= i < rs.len() && (#[trigger] rs[i]).name == name ==> m[k].min <= temp_of(rs[i])
                        <= m[k].max
                &&& exists|i: int|
                    0 <= i < rs.len() && (#[trigger] rs[i]).name == name && temp_of(rs[i]) == m[k].min
                &&& exists|i: int|
                    0 <= i < rs.len() && (#[trigger] rs[i]).name == name && temp_of(rs[i]) == m[k].max
            }
        }),
{
    let s = generate::file_text(rs);
    let es = rs.map_values(|r: Record| roundtrip::read_of(r));
    let k = (city::fingerprint(name), name);
    let m = reduce::merged_parts(scanner::pieces(s, 0, slice), false, mode);
    lemma_file(rs);
    assert(model::alone(es, k)) by {
        assert forall|i: int| 0 <= i < es.len() && (#[trigger] es[i]).fp == k.0 implies es[i].name
            == k.1 by {
            assert(es[i] == roundtrip::read_of(rs[i]));
            assert(rs[i].name.len() >= 1);
            city::law_names_apart(rs[i].name, name);
        }
    }
    reduce::law_station(s, slice, mode, k);
    model::law_tally_counts(es, k);
    lemma_of_station(rs, name);
    if of_name(rs, name).len() > 0 {
        model::law_tally_bounds(es, k);
        assert forall|i: int| 0 <= i < rs.len() && (#[trigger] rs[i]).name == name implies m[k].min
            <= temp_of(rs[i]) <= m[k].max by {
            assert(es[i] == roundtrip::read_of(rs[i]));
            assert(es[i].key() == k);
        }
        let lo = choose|i: int|
            0 <= i < es.len() && (#[trigger] es[i]).key() == k && es[i].temp == m[k].min;
        let hi = choose|i: int|
            0 <= i < es.len() && (#[trigger] es[i]).key() == k && es[i].temp == m[k].max;
        assert(es[lo] == roundtrip::read_of(rs[lo]) && es[hi] == roundtrip::read_of(rs[hi]));
        assert(rs[lo].name == name && temp_of(rs[lo]) == m[k].min);
        assert(rs[hi].name == name && temp_of(rs[hi]) == m[k].max);
    }
}

/// A data file of up to two million records and 32768 stations can be read however it is cut: in the
/// default mode if no name is as long as a block, in the others if none starts with a vertical tab.
pub proof fn law_can_be_read(rs: Seq<Record>, slice: int, dry_run: bool, mode: usize)
    requires
        0 <= slice,
        mode <= 2,
        sound(rs),
        named(rs),
        mode == 2 ==> brief(rs),
        mode < 2 ==> forall|i: int| 0 <= i < rs.len() ==> (#[trigger] rs[i]).name[0] != 11,
        dry_run || rs.len() <= 2000000 && rs.map_values(|r: Record| r.name).to_set().len() <= 32768,
    ensures
        reduce::parts_ok(
            Map::empty(),
            scanner::pieces(generate::file_text(rs), 0, slice),
            dry_run,
            mode,
        ),
{
    let s = generate::file_text(rs);
    let es = rs.map_values(|r: Record| roundtrip::read_of(r));
    lemma_file(rs);
    if mode < 2 {
        assert(10u8 ^ 1 == 11) by (bit_vector);
        roundtrip::law_written_is_scannable(rs);
    }
    if !dry_run {
        let names = rs.map_values(|r: Record| r.name);
        let fps = es.map_values(|e: Entry| e.fp);
        let f = |n: Seq<u8>| city::fingerprint(n);
        vstd::seq_lib::seq_to_set_is_finite(names);
        assert(names.to_set().map(f) =~= fps.to_set()) by {
            assert forall|x: Fingerprint| #[trigger]
                names.to_set().map(f).contains(x) <==> fps.to_set().contains(x) by {
                if names.to_set().map(f).contains(x) {
                    let n = choose|n: Seq<u8>| names.to_set().contains(n) && f(n) == x;
                    let i = choose|i: int| 0 <= i < names.len() && names[i] == n;
                    assert(fps[i] == x);
                }
                if fps.to_set().contains(x) {
                    let i = choose|i: int| 0 <= i < fps.len() && fps[i] == x;
                    assert(names.to_set().contains(names[i]));
                    assert(f(names[i]) == x);
                }
            }
        }
        vstd::set_lib::lemma_map_size_bound(names.to_set(), fps.to_set(), f);
        assert(model::roomy(es)) by {
            assert forall|fp: Fingerprint| #[trigger]
                model::count_of(es, fp) <= model::most_of_one() by {
                model::lemma_count_add(es, es, fp);
            }
        }
    }
    reduce::law_parts_ok(s, slice, dry_run, mode);
}

/// A dry run counts the records and knows of no station.
pub proof fn law_dry_run(rs: Seq<Record>, slice: int, mode: usize)
    requires
        0 <= slice,
        mode <= 2,
        sound(rs),
        named(rs),
        mode == 2 ==> brief(rs),
    ensures
        ({
            let ps = scanner::pieces(generate::file_text(rs), 0, slice);
            &&& reduce::parts_total(ps, mode) == rs.len()
            &&& forall|k: model::Key| !#[trigger] reduce::merged_parts(ps, true, mode).contains_key(k)
        }),
{
    let s = generate::file_text(rs);
    let ps = scanner::pieces(s, 0, slice);
    lemma_file(rs);
    reduce::lemma_total(s, slice, mode);
    lemma_dry(ps, mode);
}

proof fn lemma_dry(ps: Seq<Seq<u8>>, mode: usize)
    ensures
        forall|k: model::Key| !#[trigger] reduce::merged_parts(ps, true, mode).contains_key(k),
    decreases ps.len(),
{
    if ps.len() > 0 {
        lemma_dry(ps.drop_first(), mode);
        let t = reduce::part_table(ps[0], true, mode);
        assert(decode::after_reading(
            Map::empty(),
            reduce::part_entries(ps[0], mode),
            true,
        ) == Map::<Fingerprint, (Seq<u8>, crate::stats::Stats)>::empty());
        assert(t =~= Map::empty());
        assert(reduce::merged_parts(ps.drop_first(), true, mode) =~= Map::empty());
        assert(reduce::merged_parts(ps, true, mode) =~= Map::empty());
    }
}

} // verus!
