//! From the data to the report: pieces are read on their own, their tables merged.
use vstd::prelude::*;
use rapidhash::fast::RandomState;
use crate::bench::records;
use crate::bench::reduce::CACHE_SIZE;
use crate::bench::split;
use crate::exact::city::City;
use crate::exact::decode;
use crate::exact::model;
use crate::exact::records as named;
use crate::exact::slots;
use crate::exact::slots::{Search, BITS_MASK};
use crate::exact::weather;
use crate::exact::weather::Weather;
use crate::exact::weather_map;
use crate::exact::weather_map::WeatherMap;
use crate::scanner;
use crate::scanner::Scanner;
use crate::stats::Stats;
use crate::table;
use crate::table::{Ranked, Table};

verus! {

/// What is known of a processor.
#[derive(Clone, Copy)]
pub struct Cpu {
    /// The number of its cores.
    pub cpu_cores: Option<usize>,
    /// The size of its cache in bytes.
    pub cache_size: Option<usize>,
}

/// How many workers share the data: as many as are asked for, or as there are cores; one at least,
/// and one where no processor is known.
pub open spec fn cores_of(workers: Option<usize>, last: Option<Cpu>) -> int {
    match last {
        Some(cpu) => {
            let n = match workers {
                Some(w) => w,
                None => cpu.cpu_cores->0,
            };
            if n < 1 {
                1
            } else {
                n as int
            }
        },
        None => 1,
    }
}

/// The least size of a piece: what is asked for, or an even share of the data; a worker's share of
/// the cache at least.
pub open spec fn slice_of(len: int, slice: Option<usize>, cores: int, last: Option<Cpu>) -> int {
    let size = match slice {
        Some(s) => s as int,
        None => len / cores,
    };
    let cache = match last {
        Some(cpu) => cpu.cache_size->0 as int,
        None => CACHE_SIZE as int,
    };
    if size < cache / cores {
        cache / cores
    } else {
        size
    }
}

/// The last processor has what the plan needs.
pub open spec fn cpu_ok(last: Option<Cpu>) -> bool {
    last matches Some(cpu) ==> cpu.cpu_cores is Some && cpu.cache_size is Some
}

/// The number of workers and the least size of a piece.
pub fn plan(len: usize, slice: Option<usize>, workers: Option<usize>, last: Option<Cpu>) -> (r: (
    usize,
    usize,
))
    requires
        cpu_ok(last),
    ensures
        r.0 == cores_of(workers, last),
        r.0 >= 1,
        r.1 == slice_of(len as int, slice, r.0 as int, last),
{
    let (cores, cache): (usize, usize) = match last {
        Some(cpu) => {
            let n: usize = match workers {
                Some(w) => w,
                None => match cpu.cpu_cores {
                    Some(c) => c,
                    None => 1,
                },
            };
            (
                if n < 1 {
                    1
                } else {
                    n
                },
                match cpu.cache_size {
                    Some(c) => c,
                    None => 0,
                },
            )
        },
        None => (1, CACHE_SIZE),
    };
    let size: usize = match slice {
        Some(s) => s,
        None => len / cores,
    };
    let least: usize = cache / cores;
    (
        cores,
        if size < least {
            least
        } else {
            size
        },
    )
}

/// The piece can be read; in a dry run, where no temperature is read, any piece can.
pub open spec fn part_ok(p: Seq<u8>, dry_run: bool) -> bool {
    &&& dry_run || named::readable(p, 0)
    &&& decode::room_for(Map::empty(), named::entries(p, 0), dry_run)
}

/// The stations of a piece.
pub open spec fn part_table(p: Seq<u8>, dry_run: bool) -> model::Stations {
    decode::after_reading(Map::empty(), named::entries(p, 0), dry_run)
}

/// Every station has one temperature at least.
pub open spec fn counted(m: model::Stations) -> bool {
    forall|k: Seq<u8>| #[trigger] m.contains_key(k) ==> m[k].cnt > 0
}

/// What came of reading some of the data.
pub struct Part<'a> {
    /// The stations.
    pub table: Table<City<'a>, Weather>,
    /// How many records were read.
    pub total: usize,
}

impl<'a> Part<'a> {
    pub open spec fn wf(&self) -> bool {
        &&& self.table.wf()
        &&& counted(self.table@)
    }
}

/// So many slots with other stations the searches for the records of a piece may pass, from no
/// stations on; in a dry run, where nothing is searched for, none.
pub open spec fn part_misses(p: Seq<u8>, dry_run: bool, miss: int) -> bool {
    if dry_run {
        miss == 0
    } else {
        exists|state: RandomState, ws: Seq<Search>| #[trigger]
            weather_map::searched(state, named::entries(p, 0), BITS_MASK, ws) && slots::all_found(
                slots::no_stations(),
                ws,
                model::SLOTS as int,
            ) && miss == slots::misses(slots::no_stations(), ws, model::SLOTS as int)
    }
}

/// Reads a piece. Returns also how many slots with other stations were passed.
pub fn map_part<'a>(part: &'a [u8], dry_run: bool) -> (r: (Part<'a>, u128))
    requires
        part_ok(part@, dry_run),
    ensures
        r.0.wf(),
        r.0.table@ == part_table(part@, dry_run),
        r.0.total == named::entries(part@, 0).len(),
        r.1 <= BITS_MASK * r.0.total,
        part_misses(part@, dry_run, r.1 as int),
{
    let mut cities: WeatherMap<'a> = WeatherMap::default();
    let (total, miss) = decode::decode_lines(part, &mut cities, dry_run);
    proof {
        assert forall|k: Seq<u8>| #[trigger] cities@.contains_key(k) implies cities@[k].cnt
            > 0 by {
            cities.lemma_counted(k);
        }
    }
    (Part { table: cities.into_table(), total }, miss)
}

/// Takes two results together.
pub fn combine<'a>(result: Part<'a>, cities: Part<'a>) -> (r: Part<'a>)
    requires
        result.wf(),
        cities.wf(),
        table::mergeable::<Weather, Seq<u8>>(result.table@, cities.table@),
        result.total + cities.total <= usize::MAX,
    ensures
        r.wf(),
        r.table@ == table::merged(result.table@, cities.table@),
        r.total == result.total + cities.total,
{
    let mut merged: Table<City<'a>, Weather> = result.table;
    merged.merge(&cities.table);
    proof {
        let m = merged@;
        assert forall|k: Seq<u8>| #[trigger] m.contains_key(k) implies m[k].cnt > 0 by {
            if cities.table@.contains_key(k) && result.table@.contains_key(k) {
                assert(cities.table@[k].cnt > 0 && result.table@[k].cnt > 0);
            }
        }
    }
    Part { table: merged, total: result.total + cities.total }
}

/// Whether two results can be taken together.
pub fn can_combine<'a>(result: &Part<'a>, cities: &Part<'a>) -> (b: bool)
    requires
        result.wf(),
        cities.wf(),
    ensures
        b == (table::mergeable::<Weather, Seq<u8>>(result.table@, cities.table@) && result.total
            + cities.total <= usize::MAX),
{
    result.table.can_merge(&cities.table) && result.total.checked_add(cities.total).is_some()
}

/// The tables of the pieces `ps`, merged.
pub open spec fn merged_parts(ps: Seq<Seq<u8>>, dry_run: bool) -> model::Stations
    decreases ps.len(),
{
    if ps.len() == 0 {
        Map::empty()
    } else {
        table::merged(part_table(ps[0], dry_run), merged_parts(ps.drop_first(), dry_run))
    }
}

/// How many records the pieces `ps` hold.
pub open spec fn parts_total(ps: Seq<Seq<u8>>) -> int
    decreases ps.len(),
{
    if ps.len() == 0 {
        0
    } else {
        named::entries(ps[0], 0).len() + parts_total(ps.drop_first())
    }
}

/// The pieces `ps` can be read and their tables merged into `m`, one by one.
pub open spec fn parts_ok(m: model::Stations, ps: Seq<Seq<u8>>, dry_run: bool) -> bool
    decreases ps.len(),
{
    ps.len() > 0 ==> {
        &&& part_ok(ps[0], dry_run)
        &&& table::mergeable::<Weather, Seq<u8>>(m, part_table(ps[0], dry_run))
        &&& parts_ok(table::merged(m, part_table(ps[0], dry_run)), ps.drop_first(), dry_run)
    }
}

/// The result of reading all of the data.
pub struct Reduce<'a> {
    pub part: Part<'a>,
}

/// Reads all of the data, cut into pieces as planned, one after the other.
pub fn reduce<'a>(
    data: &'a [u8],
    slice: Option<usize>,
    workers: Option<usize>,
    dry_run: bool,
    last: Option<Cpu>,
) -> (r: Reduce<'a>)
    requires
        data.len() > 0,
        cpu_ok(last),
        parts_ok(
            Map::empty(),
            scanner::pieces(
                data@,
                0,
                slice_of(data.len() as int, slice, cores_of(workers, last), last),
            ),
            dry_run,
        ),
    ensures
        r.part.wf(),
        ({
            let ps = scanner::pieces(
                data@,
                0,
                slice_of(data.len() as int, slice, cores_of(workers, last), last),
            );
            &&& r.part.table@ == merged_parts(ps, dry_run)
            &&& r.part.total == parts_total(ps)
        }),
{
    let (_, size) = plan(data.len(), slice, workers, last);
    let ghost all = scanner::pieces(data@, 0, size as int);
    let mut scan: Scanner<'a> = Scanner::new(data, size);
    let mut result: Part<'a> = Part { table: Table::new(), total: 0 };
    let len: usize = data.len();
    proof {
        assert(table::merged(Map::empty(), merged_parts(all, dry_run)) =~= merged_parts(
            all,
            dry_run,
        ));
    }
    loop
        invariant
            size == slice_of(data@.len() as int, slice, cores_of(workers, last), last),
            scan.wf(),
            scan.bytes() == data@,
            scan.slice() == size,
            0 <= scan.off() <= data@.len(),
            len == data@.len(),
            all == scanner::pieces(data@, 0, size as int),
            result.wf(),
            result.total <= scan.off(),
            parts_ok(result.table@, scan.left(), dry_run),
            table::merged(result.table@, merged_parts(scan.left(), dry_run)) == merged_parts(
                all,
                dry_run,
            ),
            result.total + parts_total(scan.left()) == parts_total(all),
        decreases data@.len() - scan.off(),
    {
        let ghost left = scan.left();
        let ghost before = result.table@;
        match scan.next() {
            Some(part) => {
                proof {
                    assert(left[0] == part@);
                    assert(left.drop_first() =~= scan.left());
                    named::lemma_entries_len(part@, 0);
                    table::law_merged(
                        before,
                        part_table(part@, dry_run),
                        merged_parts(scan.left(), dry_run),
                    );
                }
                let (batch, _) = map_part(part, dry_run);
                result = combine(result, batch);
            },
            None => {
                proof {
                    assert(merged_parts(left, dry_run) =~= Map::empty());
                    table::law_merged(before, before, before);
                }
                return Reduce { part: result };
            },
        }
    }
}

proof fn lemma_parts(s: Seq<u8>, off: int, slice: int)
    requires
        0 <= off <= s.len(),
        0 <= slice,
        records::alternating(s, off),
    ensures
        merged_parts(scanner::pieces(s, off, slice), false) == named::merged_tables(
            scanner::pieces(s, off, slice),
        ),
        parts_total(scanner::pieces(s, off, slice)) == named::entries(s, off).len(),
    decreases s.len() - off,
{
    if off < s.len() {
        scanner::lemma_piece_end(s, off, slice);
        let end = scanner::piece_end(s, off, slice);
        named::lemma_entries_piece(s, off, end, off);
        split::lemma_entries_piece(s, off, end, off);
        lemma_parts(s, end, slice);
        let ps = scanner::pieces(s, off, slice);
        assert(ps.drop_first() =~= scanner::pieces(s, end, slice));
    } else {
        records::lemma_record(s, off);
    }
}

/// The result does not depend on how the data is cut: it is what is known of each station from all
/// its records.
pub proof fn law_reduce(s: Seq<u8>, slice: int)
    requires
        0 <= slice,
        records::alternating(s, 0),
    ensures
        merged_parts(scanner::pieces(s, 0, slice), false) == model::put_all(
            Map::empty(),
            named::entries(s, 0),
        ),
        parts_total(scanner::pieces(s, 0, slice)) == named::entries(s, 0).len(),
{
    lemma_parts(s, 0, slice);
    named::law_slices_agree(s, 0, slice);
}

/// Fewer records are of no more stations, and are no more of any.
proof fn lemma_fewer(a: Seq<model::Entry>, b: Seq<model::Entry>)
    requires
        model::roomy(a + b),
    ensures
        model::roomy(a),
        model::roomy(b),
{
    let x = a.map_values(|e: model::Entry| e.name);
    let y = b.map_values(|e: model::Entry| e.name);
    let z = (a + b).map_values(|e: model::Entry| e.name);
    vstd::seq_lib::seq_to_set_is_finite(z);
    assert forall|n: Seq<u8>| x.to_set().contains(n) implies z.to_set().contains(n) by {
        let i = choose|i: int| 0 <= i < x.len() && x[i] == n;
        assert(z[i] == n);
    }
    assert forall|n: Seq<u8>| y.to_set().contains(n) implies z.to_set().contains(n) by {
        let i = choose|i: int| 0 <= i < y.len() && y[i] == n;
        assert(z[a.len() + i] == n);
    }
    vstd::set_lib::lemma_len_subset(x.to_set(), z.to_set());
    vstd::set_lib::lemma_len_subset(y.to_set(), z.to_set());
    assert forall|n: Seq<u8>| #[trigger]
        model::count_of(a, n) <= model::most_of_one() by {
        model::lemma_count_add(a, b, n);
        assert(model::count_of(a + b, n) <= model::most_of_one());
    }
    assert forall|n: Seq<u8>| #[trigger]
        model::count_of(b, n) <= model::most_of_one() by {
        model::lemma_count_add(a, b, n);
        assert(model::count_of(a + b, n) <= model::most_of_one());
    }
}

/// What the records `done` can make of a table.
spec fn made_of(m: model::Stations, done: Seq<model::Entry>) -> bool {
    forall|k: Seq<u8>| #[trigger]
        m.contains_key(k) ==> model::within(m[k], model::count_of(done, k))
}

proof fn lemma_parts_ok(
    s: Seq<u8>,
    off: int,
    slice: int,
    dry_run: bool,
    m: model::Stations,
    done: Seq<model::Entry>,
)
    requires
        0 <= off <= s.len(),
        0 <= slice,
        records::alternating(s, off),
        dry_run || named::readable(s, off),
        dry_run || model::roomy(done + named::entries(s, off)),
        dry_run ==> m == Map::<Seq<u8>, Stats>::empty(),
        made_of(m, done),
    ensures
        parts_ok(m, scanner::pieces(s, off, slice), dry_run),
    decreases s.len() - off,
{
    if off < s.len() {
        scanner::lemma_piece_end(s, off, slice);
        let end = scanner::piece_end(s, off, slice);
        let p = s.subrange(off, end);
        let ps = scanner::pieces(s, off, slice);
        assert(ps.drop_first() =~= scanner::pieces(s, end, slice));
        split::lemma_entries_piece(s, off, end, off);
        named::lemma_entries_piece(s, off, end, off);
        let es = named::entries(p, 0);
        let rest = named::entries(s, end);
        let t = part_table(p, dry_run);
        let next = table::merged(m, t);
        if dry_run {
            assert(t =~= Map::empty());
            assert(next =~= Map::empty());
            decode::law_room_for(p, dry_run);
            lemma_parts_ok(s, end, slice, dry_run, next, done);
        } else {
            lemma_fewer(done, es + rest);
            lemma_fewer(es, rest);
            decode::law_room_for(p, dry_run);
            assert(done + (es + rest) =~= (done + es) + rest);
            assert forall|k: Seq<u8>| #[trigger] t.contains_key(k) implies model::within(
                t[k],
                model::count_of(es, k),
            ) by {
                named::law_entries_in_range(p, 0);
                model::lemma_within(es, k);
            }
            assert forall|k: Seq<u8>|
                m.contains_key(k) && #[trigger] t.contains_key(k) implies weather::fits(
                m[k].plus(t[k]),
            ) by {
                model::lemma_count_add(done, es, k);
                model::lemma_count_add(done + es, rest, k);
                assert(model::count_of((done + es) + rest, k) <= model::most_of_one());
            }
            assert(made_of(next, done + es)) by {
                assert forall|k: Seq<u8>| #[trigger] next.contains_key(k) implies model::within(
                    next[k],
                    model::count_of(done + es, k),
                ) by {
                    model::lemma_count_add(done, es, k);
                    if m.contains_key(k) {
                        assert(model::within(m[k], model::count_of(done, k)));
                    }
                    if t.contains_key(k) {
                        assert(model::within(t[k], model::count_of(es, k)));
                    }
                }
            }
            lemma_parts_ok(s, end, slice, dry_run, next, done + es);
        }
    }
}

/// Data that can be read can be read however it is cut: up to four billion records of each station, of
/// no more stations than there are slots; in a dry run, any number.
pub proof fn law_parts_ok(s: Seq<u8>, slice: int, dry_run: bool)
    requires
        0 <= slice,
        records::alternating(s, 0),
        dry_run || named::readable(s, 0),
        dry_run || model::roomy(named::entries(s, 0)),
    ensures
        parts_ok(Map::empty(), scanner::pieces(s, 0, slice), dry_run),
{
    let done: Seq<model::Entry> = seq![];
    assert(done + named::entries(s, 0) =~= named::entries(s, 0));
    lemma_parts_ok(s, 0, slice, dry_run, Map::empty(), done);
}

/// The rows before `n`, as the report shows them.
pub open spec fn rows_text(rows: Seq<(Seq<u8>, Stats)>, n: int) -> Seq<u8>
    decreases n,
{
    if n <= 0 {
        seq![]
    } else {
        rows_text(rows, n - 1) + (if n > 1 {
            seq![44u8, 32u8]
        } else {
            seq![]
        }) + rows[n - 1].0 + seq![61u8] + weather::stats_text(rows[n - 1].1)
    }
}

/// The report: all rows in braces, and a line feed.
pub open spec fn report(rows: Seq<(Seq<u8>, Stats)>) -> Seq<u8> {
    seq![123u8] + rows_text(rows, rows.len() as int) + seq![125u8, 10u8]
}

impl<'a> Reduce<'a> {
    /// Appends the report.
    pub fn write(&self, buf: &mut Vec<u8>)
        requires
            self.part.wf(),
        ensures
            final(buf)@ == old(buf)@ + report(self.part.table.rows()),
    {
        buf.push(123);
        let n: usize = self.part.table.len();
        let mut id: usize = 0;
        let ghost rows = self.part.table.rows();
        let ghost start = old(buf)@.push(123);
        assert(buf@ =~= start + rows_text(rows, 0));
        while id < n
            invariant
                self.part.wf(),
                n == self.part.table.cities().len(),
                rows == self.part.table.rows(),
                id <= n,
                buf@ == start + rows_text(rows, id as int),
            decreases n - id,
        {
            if id != 0 {
                buf.push(44);
                buf.push(32);
            }
            let city: City<'a> = self.part.table.city_at(id);
            let weather: Weather = self.part.table.tally_at(id);
            proof {
                self.part.table.lemma_rows();
                assert(rows[id as int] == (city.key(), weather@));
                assert(self.part.table@.contains_key(city.key()));
            }
            city.write(buf);
            buf.push(61);
            weather.write(buf);
            assert(buf@ =~= start + rows_text(rows, id + 1));
            id = id + 1;
        }
        buf.push(125);
        buf.push(10);
        assert(buf@ =~= old(buf)@ + report(rows));
    }
}

/// The rows before the last are shown as without it.
proof fn lemma_rows_text(rows: Seq<(Seq<u8>, Stats)>, r: (Seq<u8>, Stats), n: int)
    requires
        0 <= n <= rows.len(),
    ensures
        rows_text(rows.push(r), n) == rows_text(rows, n),
    decreases n,
{
    if n > 0 {
        lemma_rows_text(rows, r, n - 1);
        assert(rows.push(r)[n - 1] == rows[n - 1]);
    }
}

/// The report leaves no row out: without rows it is a pair of braces and a line feed, and with one row
/// more it has the name, an equals sign and what is shown of that station before the closing brace, with
/// a comma and a space in front if it is not the first.
pub proof fn law_report_grows(rows: Seq<(Seq<u8>, Stats)>, r: (Seq<u8>, Stats))
    ensures
        report(Seq::<(Seq<u8>, Stats)>::empty()) == seq![123u8, 125u8, 10u8],
        report(rows).len() >= 3,
        report(rows.push(r)) == report(rows).take(report(rows).len() - 2) + (if rows.len() > 0 {
            seq![44u8, 32u8]
        } else {
            seq![]
        }) + r.0 + seq![61u8] + weather::stats_text(r.1) + seq![125u8, 10u8],
{
    let n = rows.len() as int;
    let none = Seq::<(Seq<u8>, Stats)>::empty();
    assert(rows_text(none, 0) =~= seq![]);
    assert(report(none) =~= seq![123u8, 125u8, 10u8]);
    lemma_rows_text(rows, r, n);
    assert(rows.push(r)[n] == r);
    let a = report(rows);
    assert(a.take(a.len() - 2) =~= seq![123u8] + rows_text(rows, n));
    assert(report(rows.push(r)) =~= a.take(a.len() - 2) + (if n > 0 {
        seq![44u8, 32u8]
    } else {
        seq![]
    }) + r.0 + seq![61u8] + weather::stats_text(r.1) + seq![125u8, 10u8]);
}

/// The report has one row for each station, with what is known of it, in the order of a dictionary.
pub proof fn law_report_complete(x: Reduce)
    requires
        x.part.wf(),
    ensures
        x.part.table.rows().len() == x.part.table@.len(),
        forall|k: Seq<u8>| #[trigger]
            x.part.table@.contains_key(k) ==> exists|i: int|
                0 <= i < x.part.table.rows().len() && #[trigger] x.part.table.rows()[i] == (
                    k,
                    x.part.table@[k],
                ),
        forall|i: int|
            0 <= i < x.part.table.rows().len() ==> x.part.table@.contains_key(
                (#[trigger] x.part.table.rows()[i]).0,
            ) && x.part.table@[x.part.table.rows()[i].0] == x.part.table.rows()[i].1,
        forall|i: int, j: int|
            0 <= i < j < x.part.table.rows().len() ==> (#[trigger] x.part.table.rows()[i]).0 != (
            #[trigger] x.part.table.rows()[j]).0,
        forall|i: int, j: int|
            0 <= i < j < x.part.table.rows().len() ==> table::lower(
                (#[trigger] x.part.table.rows()[i]).0,
                (#[trigger] x.part.table.rows()[j]).0,
            ),
{
    x.part.table.law_rows_complete();
    x.part.table.lemma_rows();
    let rows = x.part.table.rows();
    assert forall|i: int, j: int| 0 <= i < j < rows.len() implies table::lower(
        (#[trigger] rows[i]).0,
        (#[trigger] rows[j]).0,
    ) by {
        table::law_lex(rows[i].0, rows[j].0);
    }
}

/// Results that know the same write the same report.
pub proof fn law_one_report(a: Reduce, b: Reduce)
    requires
        a.part.wf(),
        b.part.wf(),
        a.part.table@ == b.part.table@,
    ensures
        report(a.part.table.rows()) == report(b.part.table.rows()),
{
    a.part.table.lemma_rows();
    b.part.table.lemma_rows();
    table::law_one_listing::<City>(
        a.part.table.rows(),
        b.part.table.rows(),
        a.part.table@,
    );
}

/// The plan: as many workers as are asked for, or as there are processors, one at least; one where no
/// processor is known.
/// Without a size of its own, a piece is an even share of the data or of the cache, whichever is more;
/// with one, no piece is smaller than that share of the cache.
pub proof fn law_plan(len: int, slice: Option<usize>, workers: Option<usize>, last: Option<Cpu>)
    requires
        0 <= len,
        last matches Some(cpu) ==> cpu.cache_size is Some,
    ensures
        last is None ==> cores_of(workers, last) == 1,
        last is Some && workers is Some ==> cores_of(workers, last) == (if workers->0 >= 1 {
            workers->0
        } else {
            1
        }),
        last is Some && workers is None && last->0.cpu_cores is Some ==> cores_of(workers, last) == (if
        last->0.cpu_cores->0 >= 1 {
            last->0.cpu_cores->0
        } else {
            1
        }),
        ({
            let cores = cores_of(workers, last);
            let size = slice_of(len, slice, cores, last);
            let cache: int = match last {
                Some(cpu) => cpu.cache_size->0 as int,
                None => 1048576,
            };
            let most = if len > cache {
                len
            } else {
                cache
            };
            &&& cores >= 1
            &&& slice is None ==> size * cores <= most < (size + 1) * cores
            &&& slice matches Some(x) ==> size >= x && cache < (size + 1) * cores && (size == x || size
                * cores <= cache)
        }),
{
    let cores = cores_of(workers, last);
    let cache: int = match last {
        Some(cpu) => cpu.cache_size->0 as int,
        None => 1048576,
    };
    let size = slice_of(len, slice, cores, last);
    vstd::arithmetic::div_mod::lemma_fundamental_div_mod(len, cores);
    vstd::arithmetic::div_mod::lemma_mod_bound(len, cores);
    vstd::arithmetic::div_mod::lemma_fundamental_div_mod(cache, cores);
    vstd::arithmetic::div_mod::lemma_mod_bound(cache, cores);
    let a = len / cores;
    let b = cache / cores;
    assert(cores * a == a * cores && cores * b == b * cores) by (nonlinear_arith);
    assert((size + 1) * cores == size * cores + cores) by (nonlinear_arith);
    assert(a <= b ==> a * cores <= b * cores) by (nonlinear_arith)
        requires
            cores >= 1,
    ;
    assert(b <= a ==> b * cores <= a * cores) by (nonlinear_arith)
        requires
            cores >= 1,
    ;
    assert(b <= size ==> b * cores <= size * cores) by (nonlinear_arith)
        requires
            cores >= 1,
    ;
    assert(a < b ==> (a + 1) * cores <= b * cores) by (nonlinear_arith)
        requires
            cores >= 1,
    ;
    assert(b < a ==> (b + 1) * cores <= a * cores) by (nonlinear_arith)
        requires
            cores >= 1,
    ;
    assert((a + 1) * cores == a * cores + cores) by (nonlinear_arith);
    assert((b + 1) * cores == b * cores + cores) by (nonlinear_arith);
}

/// Data that is read in one piece, whatever it holds, gives what putting its records one by one gives.
pub proof fn law_one_piece(s: Seq<u8>, slice: int)
    requires
        0 < s.len() <= slice,
    ensures
        ({
            let ps = scanner::pieces(s, 0, slice);
            &&& merged_parts(ps, false) == model::put_all(Map::empty(), named::entries(s, 0))
            &&& parts_total(ps) == named::entries(s, 0).len()
        }),
{
    scanner::law_one_piece(s, slice);
    let ps = scanner::pieces(s, 0, slice);
    reveal_with_fuel(merged_parts, 2);
    reveal_with_fuel(parts_total, 2);
    assert(ps.drop_first() =~= seq![]);
    let t = part_table(s, false);
    assert(table::merged(t, Map::empty()) =~= t);
}

/// The plan can be made if no processor is known, or if the last one tells the number of its cores and
/// the size of its cache.
pub proof fn law_cpu_ok(cpu: Cpu)
    ensures
        cpu_ok(None),
        cpu_ok(Some(cpu)) <==> cpu.cpu_cores is Some && cpu.cache_size is Some,
{
}

} // verus!
