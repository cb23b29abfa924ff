//! What the report of a data file says of each station, from the records in it to the result.
use vstd::prelude::*;
use crate::bench::aggregate;
use crate::bench::records;
use crate::bench::roundtrip as lines;
use crate::exact::model;
use crate::exact::model::Entry;
use crate::exact::records as named;
use crate::exact::reduce;
use crate::exact::roundtrip;
use crate::generate;
use crate::generate::Record;
use crate::scanner;
use crate::stats::Stats;

verus! {

/// In a file, separators and line feeds take turns, and nothing follows its last record.
proof fn lemma_turns(rs: Seq<Record>)
    requires
        aggregate::sound(rs),
    ensures
        records::alternating(generate::file_text(rs), 0),
        records::whole(generate::file_text(rs), 0),
    decreases rs.len(),
{
    let s = generate::file_text(rs);
    if rs.len() > 0 {
        let r = rs[0];
        let rest = rs.drop_first();
        assert(aggregate::sound(rest)) by {
            assert forall|i: int| 0 <= i < rest.len() implies {
                &&& (#[trigger] rest[i]).tenths < 1000
                &&& rest[i].name.len() <= u32::MAX
                &&& forall|j: int|
                    0 <= j < rest[i].name.len() ==> #[trigger] rest[i].name[j] != 59
                        && rest[i].name[j] != 10
            } by {
                assert(rest[i] == rs[i + 1]);
            }
        }
        lemma_turns(rest);
        assert(r.tenths < 1000);
        let u = lines::law_line(r);
        assert forall|i: int| 0 <= i < u.len() implies #[trigger] u[i] != 59 && u[i] != 10 by {
            if r.neg && i > 0 {
                assert(u[i] == u.skip(1)[i - 1]);
            }
        }
        lines::law_first_record(r.name, u, generate::file_text(rest));
    } else {
        records::lemma_record(s, 0);
    }
}

/// The records of a station, as they are read, are its records.
proof fn lemma_of_station(rs: Seq<Record>, name: Seq<u8>)
    ensures
        ({
            let es = rs.map_values(|r: Record| roundtrip::read_of(r));
            &&& model::of_station(es, name).len() == aggregate::of_name(rs, name).len()
            &&& model::sum_temps(model::of_station(es, name)) == aggregate::total(
                aggregate::of_name(rs, name),
            )
        }),
    decreases rs.len(),
{
    reveal(Seq::filter);
    let es = rs.map_values(|r: Record| roundtrip::read_of(r));
    if rs.len() > 0 {
        let some = rs.drop_last();
        let r = rs.last();
        lemma_of_station(some, name);
        assert(es.drop_last() =~= some.map_values(|r: Record| roundtrip::read_of(r)));
        let a = model::of_station(es.drop_last(), name);
        let b = aggregate::of_name(some, name);
        assert(es.last() == roundtrip::read_of(r));
        if r.name == name {
            assert(model::of_station(es, name) =~= a.push(es.last()));
            assert(a.push(es.last()).drop_last() =~= a);
            assert(aggregate::of_name(rs, name) =~= b.push(r));
            assert(b.push(r).drop_last() =~= b);
        } else {
            assert(model::of_station(es, name) =~= a);
            assert(aggregate::of_name(rs, name) =~= b);
        }
    } else {
        assert(model::of_station(es, name) =~= seq![]);
        assert(aggregate::of_name(rs, name) =~= seq![]);
    }
}

proof fn lemma_file(rs: Seq<Record>)
    requires
        aggregate::sound(rs),
    ensures
        named::entries(generate::file_text(rs), 0) == rs.map_values(
            |r: Record| roundtrip::read_of(r),
        ),
        named::readable(generate::file_text(rs), 0),
        records::alternating(generate::file_text(rs), 0),
{
    assert(roundtrip::writable(rs)) by {
        assert forall|i: int| 0 <= i < rs.len() implies generate::undelimited(
            (#[trigger] rs[i]).name,
        ) && rs[i].tenths < 1000 by {
            assert forall|j: int| 0 <= j < rs[i].name.len() implies #[trigger] rs[i].name[j]
                != 59 && rs[i].name[j] != 10 by {}
        }
    }
    roundtrip::law_reads_back(rs);
    lemma_turns(rs);
}

/// The result for a data file, however it is cut, has a row for a station if and only if a record names
/// it. Its count is the number of the station's records, its sum the sum of their temperatures, its
/// lowest and highest the lowest and highest of those.
pub proof fn law_aggregate(rs: Seq<Record>, slice: int, name: Seq<u8>)
    requires
        0 <= slice,
        aggregate::sound(rs),
    ensures
        ({
            let ps = scanner::pieces(generate::file_text(rs), 0, slice);
            let m = reduce::merged_parts(ps, false);
            let mine = aggregate::of_name(rs, name);
            &&& reduce::parts_total(ps) == rs.len()
            &&& m.contains_key(name) <==> mine.len() > 0
            &&& mine.len() > 0 ==> {
                &&& m[name].cnt == mine.len()
                &&& m[name].sum == aggregate::total(mine)
                &&& forall|i: int|
                    0 <= i < rs.len() && (#[trigger] rs[i]).name == name ==> m[name].min
                        <= aggregate::temp_of(rs[i]) <= m[name].max
                &&& exists|i: int|
                    0 <= i < rs.len() && (#[trigger] rs[i]).name == name && aggregate::temp_of(rs[i])
                        == m[name].min
                &&& exists|i: int|
                    0 <= i < rs.len() && (#[trigger] rs[i]).name == name && aggregate::temp_of(rs[i])
                        == m[name].max
            }
        }),
{
    let s = generate::file_text(rs);
    let es = rs.map_values(|r: Record| roundtrip::read_of(r));
    let m = reduce::merged_parts(scanner::pieces(s, 0, slice), false);
    lemma_file(rs);
    reduce::law_reduce(s, slice);
    model::law_counts(es, name);
    lemma_of_station(rs, name);
    if aggregate::of_name(rs, name).len() > 0 {
        model::law_bounds(es, name);
        assert forall|i: int| 0 <= i < rs.len() && (#[trigger] rs[i]).name == name implies m[name].min
            <= aggregate::temp_of(rs[i]) <= m[name].max by {
            assert(es[i] == roundtrip::read_of(rs[i]));
            assert(es[i].name == name);
        }
        let lo = choose|i: int|
            0 <= i < es.len() && (#[trigger] es[i]).name == name && es[i].temp == m[name].min;
        let hi = choose|i: int|
            0 <= i < es.len() && (#[trigger] es[i]).name == name && es[i].temp == m[name].max;
        assert(es[lo] == roundtrip::read_of(rs[lo]) && es[hi] == roundtrip::read_of(rs[hi]));
        assert(rs[lo].name == name && aggregate::temp_of(rs[lo]) == m[name].min);
        assert(rs[hi].name == name && aggregate::temp_of(rs[hi]) == m[name].max);
    }
}

/// A data file of up to four billion records and 131072 stations can be read however it is cut; in a dry
/// run, any.
pub proof fn law_can_be_read(rs: Seq<Record>, slice: int, dry_run: bool)
    requires
        0 <= slice,
        aggregate::sound(rs),
        dry_run || rs.len() <= u32::MAX && rs.map_values(|r: Record| r.name).to_set().len() <= 131072,
    ensures
        reduce::parts_ok(
            Map::empty(),
            scanner::pieces(generate::file_text(rs), 0, slice),
            dry_run,
        ),
{
    let s = generate::file_text(rs);
    let es = rs.map_values(|r: Record| roundtrip::read_of(r));
    lemma_file(rs);
    if !dry_run {
        assert(es.map_values(|e: Entry| e.name) =~= rs.map_values(|r: Record| r.name));
        assert(model::roomy(es)) by {
            assert forall|n: Seq<u8>| #[trigger] model::count_of(es, n) <= model::most_of_one() by {
                model::lemma_count_add(es, es, n);
            }
        }
    }
    reduce::law_parts_ok(s, slice, dry_run);
}

/// A dry run counts the records and knows of no station.
pub proof fn law_dry_run(rs: Seq<Record>, slice: int)
    requires
        0 <= slice,
        aggregate::sound(rs),
    ensures
        ({
            let ps = scanner::pieces(generate::file_text(rs), 0, slice);
            &&& reduce::parts_total(ps) == rs.len()
            &&& reduce::merged_parts(ps, true) == Map::<Seq<u8>, Stats>::empty()
        }),
{
    let s = generate::file_text(rs);
    lemma_file(rs);
    reduce::law_reduce(s, slice);
    lemma_dry(scanner::pieces(s, 0, slice));
}

proof fn lemma_dry(ps: Seq<Seq<u8>>)
    ensures
        reduce::merged_parts(ps, true) == Map::<Seq<u8>, Stats>::empty(),
    decreases ps.len(),
{
    if ps.len() > 0 {
        lemma_dry(ps.drop_first());
        assert(reduce::merged_parts(ps, true) =~= Map::empty());
    }
}

} // verus!
