//! From the data to the report: pieces are read on their own, their tables merged.
use vstd::prelude::*;
use crate::bench::city::{City, Fingerprint};
use crate::bench::decode;
use crate::bench::model;
use crate::bench::records;
use crate::bench::split;
use crate::bench::weather;
use crate::bench::weather::Weather;
use crate::bench::weather_map::WeatherMap;
use crate::scanner;
use crate::scanner::Scanner;
use crate::stats::Stats;
use crate::table;
use crate::table::{Ranked, Table};

verus! {

/// What is known of a processor.
#[derive(Clone, Copy)]
pub struct Cpu {
    /// Its number, counted from 0.
    pub processor: Option<usize>,
    /// The size of its cache in bytes.
    pub cache_size: Option<usize>,
}

/// The cache that is reckoned with where no processor is known.
pub const CACHE_SIZE: usize = 1048576;

/// How many workers share the data: as many as are asked for, or as there are processors up
/// to the last one; one at least, and one where no processor is known.
pub open spec fn cores_of(workers: Option<usize>, last: Option<Cpu>) -> int {
    match last {
        Some(cpu) => {
            let n = match workers {
                Some(w) => w as int,
                None => match cpu.processor {
                    Some(p) => p + 1,
                    None => 1,
                },
            };
            if n < 1 {
                1
            } else {
                n
            }
        },
        None => 1,
    }
}

/// The least size of a piece: what is asked for, or an even share of the data; a worker's
/// share of the cache at least.
pub open spec fn slice_of(len: int, slice: Option<usize>, cores: int, last: Option<Cpu>) -> int {
    let size = match slice {
        Some(s) => s as int,
        None => len / cores,
    };
    let cache = match last {
        Some(cpu) => cpu.cache_size->0 as int,
        None => CACHE_SIZE as int,
    };
    if size < cache / cores {
        cache / cores
    } else {
        size
    }
}

/// The last processor has what the plan needs: a cache size, and a number that can be counted
/// if no number of workers is asked for.
pub open spec fn cpu_ok(workers: Option<usize>, last: Option<Cpu>) -> bool {
    last matches Some(cpu) ==> cpu.cache_size is Some && (workers is None && cpu.processor is Some
        ==> cpu.processor->0 < usize::MAX)
}

/// The number of workers and the least size of a piece.
pub fn plan(len: usize, slice: Option<usize>, workers: Option<usize>, last: Option<Cpu>) -> (r: (
    usize,
    usize,
))
    requires
        cpu_ok(workers, last),
    ensures
        r.0 == cores_of(workers, last),
        r.0 >= 1,
        r.1 == slice_of(len as int, slice, r.0 as int, last),
{
    let (cores, cache): (usize, usize) = match last {
        Some(cpu) => {
            let n: usize = match workers {
                Some(w) => w,
                None => match cpu.processor {
                    Some(p) => p + 1,
                    None => 1,
                },
            };
            (
                if n < 1 {
                    1
                } else {
                    n
                },
                match cpu.cache_size {
                    Some(c) => c,
                    None => 0,
                },
            )
        },
        None => (1, CACHE_SIZE),
    };
    let size: usize = match slice {
        Some(s) => s,
        None => len / cores,
    };
    let least: usize = cache / cores;
    (
        cores,
        if size < least {
            least
        } else {
            size
        },
    )
}

/// The records of a piece, as the reader of this mode sees them; there is none for other modes.
pub open spec fn part_entries(p: Seq<u8>, mode: usize) -> Seq<model::Entry> {
    if mode == 0 || mode == 1 {
        records::entries(p, 0)
    } else if mode == 2 {
        records::sequence_entries(p, 0)
    } else {
        seq![]
    }
}

/// The reader of this mode can read the piece.
pub open spec fn part_ok(p: Seq<u8>, dry_run: bool, mode: usize) -> bool {
    &&& mode == 0 || mode == 1 ==> records::scannable(p)
    &&& mode == 2 ==> records::readable(p, 0) && records::finished(p, 0)
    &&& decode::room_for(Map::empty(), part_entries(p, mode), dry_run)
}

/// The stations of a piece.
pub open spec fn part_table(p: Seq<u8>, dry_run: bool, mode: usize) -> Map<model::Key, Stats> {
    model::stations_table(decode::after_reading(Map::empty(), part_entries(p, mode), dry_run))
}

/// Every station has one temperature at least.
pub open spec fn counted(m: Map<model::Key, Stats>) -> bool {
    forall|k: model::Key| #[trigger] m.contains_key(k) ==> m[k].cnt > 0
}

/// What came of reading some of the data.
pub struct Part<'a> {
    /// The stations.
    pub table: Table<City<'a>, Weather>,
    /// How many records were read.
    pub total: u64,
    /// How many slots held another station.
    pub miss: usize,
}

impl<'a> Part<'a> {
    pub open spec fn wf(&self) -> bool {
        &&& self.table.wf()
        &&& counted(self.table@)
    }
}

/// Reads a piece: with the reader of this mode, or not at all if there is none.
pub fn map_part<'a>(part: &'a [u8], dry_run: bool, mode: usize) -> (r: Part<'a>)
    requires
        part_ok(part@, dry_run, mode),
    ensures
        r.wf(),
        r.table@ == part_table(part@, dry_run, mode),
        r.total == part_entries(part@, mode).len(),
        r.miss == 0,
{
    let mut cities: WeatherMap<'a> = WeatherMap::default();
    let total: u64 = if mode == 0 {
        decode::decode_lines_a(part, &mut cities, dry_run)
    } else if mode == 1 {
        decode::decode_lines_b(part, &mut cities, dry_run)
    } else if mode == 2 {
        decode::decode_lines_c(part, &mut cities, dry_run)
    } else {
        0
    };
    proof {
        let m = model::stations_table(cities@);
        assert forall|k: model::Key| #[trigger] m.contains_key(k) implies m[k].cnt > 0 by {
            cities.lemma_counted(k.0);
        }
    }
    Part { table: cities.into_table(), total, miss: 0 }
}

/// Takes two results together.
pub fn combine<'a>(result: Part<'a>, batch: Part<'a>) -> (r: Part<'a>)
    requires
        result.wf(),
        batch.wf(),
        table::mergeable::<Weather, model::Key>(result.table@, batch.table@),
        result.total + batch.total <= u64::MAX,
        result.miss + batch.miss <= usize::MAX,
    ensures
        r.wf(),
        r.table@ == table::merged(result.table@, batch.table@),
        r.total == result.total + batch.total,
        r.miss == result.miss + batch.miss,
{
    let mut merged: Table<City<'a>, Weather> = result.table;
    merged.merge(&batch.table);
    proof {
        let m = merged@;
        assert forall|k: model::Key| #[trigger] m.contains_key(k) implies m[k].cnt > 0 by {
            if batch.table@.contains_key(k) && result.table@.contains_key(k) {
                assert(batch.table@[k].cnt > 0 && result.table@[k].cnt > 0);
            }
        }
    }
    Part { table: merged, total: result.total + batch.total, miss: result.miss + batch.miss }
}

/// Whether two results can be taken together.
pub fn can_combine<'a>(result: &Part<'a>, batch: &Part<'a>) -> (b: bool)
    requires
        result.wf(),
        batch.wf(),
    ensures
        b == (table::mergeable::<Weather, model::Key>(result.table@, batch.table@) && result.total
            + batch.total <= u64::MAX && result.miss + batch.miss <= usize::MAX),
{
    result.table.can_merge(&batch.table) && result.total.checked_add(batch.total).is_some()
        && result.miss.checked_add(batch.miss).is_some()
}

/// The tables of the pieces `ps`, merged.
pub open spec fn merged_parts(ps: Seq<Seq<u8>>, dry_run: bool, mode: usize) -> Map<
    model::Key,
    Stats,
>
    decreases ps.len(),
{
    if ps.len() == 0 {
        Map::empty()
    } else {
        table::merged(
            part_table(ps[0], dry_run, mode),
            merged_parts(ps.drop_first(), dry_run, mode),
        )
    }
}

/// How many records the pieces `ps` hold.
pub open spec fn parts_total(ps: Seq<Seq<u8>>, mode: usize) -> int
    decreases ps.len(),
{
    if ps.len() == 0 {
        0
    } else {
        part_entries(ps[0], mode).len() + parts_total(ps.drop_first(), mode)
    }
}

/// The pieces `ps` can be read in this mode and their tables merged into `m`, one by one.
pub open spec fn parts_ok(
    m: Map<model::Key, Stats>,
    ps: Seq<Seq<u8>>,
    dry_run: bool,
    mode: usize,
) -> bool
    decreases ps.len(),
{
    ps.len() > 0 ==> {
        &&& part_ok(ps[0], dry_run, mode)
        &&& table::mergeable::<Weather, model::Key>(m, part_table(ps[0], dry_run, mode))
        &&& parts_ok(
            table::merged(m, part_table(ps[0], dry_run, mode)),
            ps.drop_first(),
            dry_run,
            mode,
        )
    }
}

/// A piece holds no more records than bytes.
proof fn lemma_entries_len(p: Seq<u8>, from: int)
    requires
        0 <= from <= p.len(),
    ensures
        records::entries(p, from).len() <= p.len() - from,
    decreases p.len() - from,
{
    if records::has_record(p, from) {
        records::lemma_record(p, from);
        lemma_entries_len(p, records::end_of(p, from) + 1);
    }
}

/// No more records are read from a piece than it has bytes.
pub proof fn lemma_part_len(p: Seq<u8>, mode: usize)
    ensures
        part_entries(p, mode).len() <= p.len(),
{
    lemma_entries_len(p, 0);
    records::law_readers_agree(p, 0);
}

/// The result, with the number of workers that shared the data.
pub struct Reduce<'a> {
    pub part: Part<'a>,
    pub cores: usize,
}

/// Reads all of the data, cut into pieces as planned.
pub fn reduce<'a>(
    data: &'a [u8],
    slice: Option<usize>,
    workers: Option<usize>,
    dry_run: bool,
    mode: usize,
    last: Option<Cpu>,
) -> (r: Reduce<'a>)
    requires
        data.len() > 0,
        cpu_ok(workers, last),
        parts_ok(
            Map::empty(),
            scanner::pieces(
                data@,
                0,
                slice_of(data.len() as int, slice, cores_of(workers, last), last),
            ),
            dry_run,
            mode,
        ),
    ensures
        r.part.wf(),
        r.cores == cores_of(workers, last),
        ({
            let ps = scanner::pieces(data@, 0, slice_of(data.len() as int, slice, r.cores as int, last));
            &&& r.part.table@ == merged_parts(ps, dry_run, mode)
            &&& r.part.total == parts_total(ps, mode)
            &&& r.part.miss == 0
        }),
{
    let (cores, size) = plan(data.len(), slice, workers, last);
    let ghost all = scanner::pieces(data@, 0, size as int);
    let mut scan: Scanner<'a> = Scanner::new(data, size);
    let mut result: Part<'a> = Part { table: Table::new(), total: 0, miss: 0 };
    let len: usize = data.len();
    proof {
        assert(table::merged(Map::empty(), merged_parts(all, dry_run, mode)) =~= merged_parts(
            all,
            dry_run,
            mode,
        ));
    }
    loop
        invariant
            cores == cores_of(workers, last),
            size == slice_of(data@.len() as int, slice, cores as int, last),
            scan.wf(),
            scan.bytes() == data@,
            scan.slice() == size,
            0 <= scan.off() <= data@.len(),
            len == data@.len(),
            all == scanner::pieces(data@, 0, size as int),
            result.wf(),
            result.miss == 0,
            result.total <= scan.off(),
            parts_ok(result.table@, scan.left(), dry_run, mode),
            table::merged(result.table@, merged_parts(scan.left(), dry_run, mode)) == merged_parts(
                all,
                dry_run,
                mode,
            ),
            result.total + parts_total(scan.left(), mode) == parts_total(all, mode),
        decreases data@.len() - scan.off(),
    {
        let ghost left = scan.left();
        let ghost before = result.table@;
        match scan.next() {
            Some(part) => {
                proof {
                    assert(left[0] == part@);
                    assert(left.drop_first() =~= scan.left());
                    lemma_part_len(part@, mode);
                    table::law_merged(
                        before,
                        part_table(part@, dry_run, mode),
                        merged_parts(scan.left(), dry_run, mode),
                    );
                }
                let batch: Part<'a> = map_part(part, dry_run, mode);
                result = combine(result, batch);
            },
            None => {
                proof {
                    assert(merged_parts(left, dry_run, mode) =~= Map::empty());
                    table::law_merged(before, before, before);
                }
                return Reduce { part: result, cores };
            },
        }
    }
}

/// In a piece that reads as it does in the whole, all readers see the same records.
proof fn lemma_part_entries(s: Seq<u8>, lo: int, hi: int, mode: usize)
    requires
        split::is_piece(s, lo, hi),
        records::alternating(s, lo),
        records::readable(s, lo),
        mode <= 2,
        mode == 2 ==> records::short_names(s, lo),
    ensures
        part_entries(s.subrange(lo, hi), mode) == records::entries(s.subrange(lo, hi), 0),
{
    split::lemma_entries_piece(s, lo, hi, lo);
    records::law_readers_agree(s.subrange(lo, hi), 0);
}

proof fn lemma_parts(s: Seq<u8>, off: int, slice: int, mode: usize)
    requires
        0 <= off <= s.len(),
        0 <= slice,
        records::alternating(s, off),
        records::readable(s, off),
        mode <= 2,
        mode == 2 ==> records::short_names(s, off),
    ensures
        merged_parts(scanner::pieces(s, off, slice), false, mode) == split::merged_tables(
            scanner::pieces(s, off, slice),
        ),
        parts_total(scanner::pieces(s, off, slice), mode) == records::entries(s, off).len(),
    decreases s.len() - off,
{
    if off < s.len() {
        scanner::lemma_piece_end(s, off, slice);
        let end = scanner::piece_end(s, off, slice);
        split::lemma_entries_piece(s, off, end, off);
        lemma_part_entries(s, off, end, mode);
        lemma_parts(s, end, slice, mode);
        let ps = scanner::pieces(s, off, slice);
        assert(ps.drop_first() =~= scanner::pieces(s, end, slice));
    } else {
        records::lemma_record(s, off);
    }
}

/// The result does not depend on how the data is cut nor on how it is read: it is what is
/// known of each station from all its records. No two names may share a fingerprint, and the
/// sequential reader needs names shorter than a block.
pub proof fn law_reduce(s: Seq<u8>, slice: int, mode: usize)
    requires
        0 <= slice,
        mode <= 2,
        records::alternating(s, 0),
        records::readable(s, 0),
        mode == 2 ==> records::short_names(s, 0),
        model::distinct(records::entries(s, 0)),
    ensures
        merged_parts(scanner::pieces(s, 0, slice), false, mode) == model::tally(
            records::entries(s, 0),
        ),
        parts_total(scanner::pieces(s, 0, slice), mode) == records::entries(s, 0).len(),
{
    lemma_parts(s, 0, slice, mode);
    split::law_slices_agree(s, slice);
    model::law_table_tallies(records::entries(s, 0));
}

/// Fewer records are of no more stations, and are no more of any.
proof fn lemma_fewer(a: Seq<model::Entry>, b: Seq<model::Entry>)
    requires
        model::roomy(a + b),
    ensures
        model::roomy(a),
        model::roomy(b),
{
    let x = a.map_values(|e: model::Entry| e.fp);
    let y = b.map_values(|e: model::Entry| e.fp);
    let z = (a + b).map_values(|e: model::Entry| e.fp);
    vstd::seq_lib::seq_to_set_is_finite(z);
    assert forall|fp: Fingerprint| x.to_set().contains(fp) implies z.to_set().contains(fp) by {
        let i = choose|i: int| 0 <= i < x.len() && x[i] == fp;
        assert(z[i] == fp);
    }
    assert forall|fp: Fingerprint| y.to_set().contains(fp) implies z.to_set().contains(fp) by {
        let i = choose|i: int| 0 <= i < y.len() && y[i] == fp;
        assert(z[a.len() + i] == fp);
    }
    vstd::set_lib::lemma_len_subset(x.to_set(), z.to_set());
    vstd::set_lib::lemma_len_subset(y.to_set(), z.to_set());
    assert forall|fp: Fingerprint| #[trigger]
        model::count_of(a, fp) <= model::most_of_one() by {
        model::lemma_count_add(a, b, fp);
        assert(model::count_of(a + b, fp) <= model::most_of_one());
    }
    assert forall|fp: Fingerprint| #[trigger]
        model::count_of(b, fp) <= model::most_of_one() by {
        model::lemma_count_add(a, b, fp);
        assert(model::count_of(a + b, fp) <= model::most_of_one());
    }
}

/// What the records `done` can make of a table.
spec fn made_of(m: Map<model::Key, Stats>, done: Seq<model::Entry>) -> bool {
    forall|k: model::Key| #[trigger]
        m.contains_key(k) ==> model::within(m[k], model::count_of(done, k.0))
}

proof fn lemma_parts_ok(
    s: Seq<u8>,
    off: int,
    slice: int,
    dry_run: bool,
    mode: usize,
    m: Map<model::Key, Stats>,
    done: Seq<model::Entry>,
)
    requires
        0 <= off <= s.len(),
        0 <= slice,
        mode <= 2,
        records::alternating(s, off),
        records::readable(s, off),
        mode < 2 ==> records::scannable(s),
        mode == 2 ==> records::short_names(s, off) && records::finished(s, off),
        dry_run || model::roomy(done + records::entries(s, off)),
        dry_run ==> m == Map::<model::Key, Stats>::empty(),
        made_of(m, done),
    ensures
        parts_ok(m, scanner::pieces(s, off, slice), dry_run, mode),
    decreases s.len() - off,
{
    if off < s.len() {
        scanner::lemma_piece_end(s, off, slice);
        let end = scanner::piece_end(s, off, slice);
        let p = s.subrange(off, end);
        let ps = scanner::pieces(s, off, slice);
        assert(ps.drop_first() =~= scanner::pieces(s, end, slice));
        split::lemma_entries_piece(s, off, end, off);
        lemma_part_entries(s, off, end, mode);
        if mode < 2 {
            split::law_piece_scannable(s, off, end);
        }
        let es = records::entries(p, 0);
        let rest = records::entries(s, end);
        let t = part_table(p, dry_run, mode);
        let next = table::merged(m, t);
        if dry_run {
            assert(t =~= Map::empty());
            assert(next =~= Map::empty());
            decode::law_room_for(p, dry_run);
            lemma_parts_ok(s, end, slice, dry_run, mode, next, done);
        } else {
            lemma_fewer(done, es + rest);
            lemma_fewer(es, rest);
            decode::law_room_for(p, dry_run);
            assert(done + (es + rest) =~= (done + es) + rest);
            assert forall|k: model::Key| #[trigger] t.contains_key(k) implies model::within(
                t[k],
                model::count_of(es, k.0),
            ) by {
                records::law_entries_in_range(p, 0);
                model::lemma_within(es, k.0);
            }
            assert forall|k: model::Key|
                m.contains_key(k) && #[trigger] t.contains_key(k) implies weather::fits(
                m[k].plus(t[k]),
            ) by {
                model::lemma_count_add(done, es, k.0);
                model::lemma_count_add(done + es, rest, k.0);
                assert(model::count_of((done + es) + rest, k.0) <= model::most_of_one());
            }
            assert(made_of(next, done + es)) by {
                assert forall|k: model::Key| #[trigger] next.contains_key(k) implies model::within(
                    next[k],
                    model::count_of(done + es, k.0),
                ) by {
                    model::lemma_count_add(done, es, k.0);
                    if m.contains_key(k) {
                        assert(model::within(m[k], model::count_of(done, k.0)));
                    }
                    if t.contains_key(k) {
                        assert(model::within(t[k], model::count_of(es, k.0)));
                    }
                }
            }
            lemma_parts_ok(s, end, slice, dry_run, mode, next, done + es);
        }
    }
}

/// Data that can be read can be read however it is cut: up to two million records of each station, of
/// no more stations than there are slots; in a dry run, any number. The sequential reader needs names
/// shorter than a block.
pub proof fn law_parts_ok(s: Seq<u8>, slice: int, dry_run: bool, mode: usize)
    requires
        0 <= slice,
        mode <= 2,
        records::alternating(s, 0),
        records::readable(s, 0),
        mode < 2 ==> records::scannable(s),
        mode == 2 ==> records::short_names(s, 0) && records::finished(s, 0),
        dry_run || model::roomy(records::entries(s, 0)),
    ensures
        parts_ok(Map::empty(), scanner::pieces(s, 0, slice), dry_run, mode),
{
    let done: Seq<model::Entry> = seq![];
    assert(done + records::entries(s, 0) =~= records::entries(s, 0));
    lemma_parts_ok(s, 0, slice, dry_run, mode, Map::empty(), done);
}

/// `, `.
pub open spec fn gap() -> Seq<u8> {
    seq![44u8, 32u8]
}

/// The rows before `n`, as the report shows them.
pub open spec fn rows_text(rows: Seq<(model::Key, Stats)>, n: int) -> Seq<u8>
    decreases n,
{
    if n <= 0 {
        seq![]
    } else {
        rows_text(rows, n - 1) + (if n > 1 {
            gap()
        } else {
            seq![]
        }) + rows[n - 1].0.1 + seq![61u8] + weather::stats_text(rows[n - 1].1)
    }
}

/// The report: all rows in braces, and a line feed.
pub open spec fn report(rows: Seq<(model::Key, Stats)>) -> Seq<u8> {
    seq![123u8] + rows_text(rows, rows.len() as int) + seq![125u8, 10u8]
}

impl<'a> Reduce<'a> {
    /// Appends the report.
    pub fn write(&self, buf: &mut Vec<u8>)
        requires
            self.part.wf(),
        ensures
            final(buf)@ == old(buf)@ + report(self.part.table.rows()),
    {
        buf.push(123);
        let n: usize = self.part.table.len();
        let mut id: usize = 0;
        let ghost rows = self.part.table.rows();
        let ghost start = old(buf)@.push(123);
        assert(buf@ =~= start + rows_text(rows, 0));
        while id < n
            invariant
                self.part.wf(),
                n == self.part.table.cities().len(),
                rows == self.part.table.rows(),
                id <= n,
                buf@ == start + rows_text(rows, id as int),
            decreases n - id,
        {
            let ghost before = buf@;
            if id != 0 {
                buf.push(44);
                buf.push(32);
            }
            let city: City<'a> = self.part.table.city_at(id);
            let weather: Weather = self.part.table.tally_at(id);
            proof {
                self.part.table.lemma_rows();
                assert(rows[id as int] == (city.key(), weather@));
                assert(self.part.table@.contains_key(city.key()));
            }
            city.write(buf);
            buf.push(61);
            weather.write(buf);
            assert(buf@ =~= start + rows_text(rows, id + 1));
            id = id + 1;
        }
        buf.push(125);
        buf.push(10);
        assert(buf@ =~= old(buf)@ + report(rows));
    }
}

/// The rows before the last are shown as without it.
proof fn lemma_rows_text(rows: Seq<(model::Key, Stats)>, r: (model::Key, Stats), n: int)
    requires
        0 <= n <= rows.len(),
    ensures
        rows_text(rows.push(r), n) == rows_text(rows, n),
    decreases n,
{
    if n > 0 {
        lemma_rows_text(rows, r, n - 1);
        assert(rows.push(r)[n - 1] == rows[n - 1]);
    }
}

/// The report leaves no row out: without rows it is a pair of braces and a line feed, and with one row
/// more it has the name, an equals sign and what is shown of that station before the closing brace, with
/// a comma and a space in front if it is not the first.
pub proof fn law_report_grows(rows: Seq<(model::Key, Stats)>, r: (model::Key, Stats))
    ensures
        report(Seq::<(model::Key, Stats)>::empty()) == seq![123u8, 125u8, 10u8],
        report(rows).len() >= 3,
        report(rows.push(r)) == report(rows).take(report(rows).len() - 2) + (if rows.len() > 0 {
            seq![44u8, 32u8]
        } else {
            seq![]
        }) + r.0.1 + seq![61u8] + weather::stats_text(r.1) + seq![125u8, 10u8],
{
    let n = rows.len() as int;
    let none = Seq::<(model::Key, Stats)>::empty();
    assert(rows_text(none, 0) =~= seq![]);
    assert(report(none) =~= seq![123u8, 125u8, 10u8]);
    lemma_rows_text(rows, r, n);
    assert(rows.push(r)[n] == r);
    let a = report(rows);
    assert(a.take(a.len() - 2) =~= seq![123u8] + rows_text(rows, n));
    assert(report(rows.push(r)) =~= a.take(a.len() - 2) + (if n > 0 {
        seq![44u8, 32u8]
    } else {
        seq![]
    }) + r.0.1 + seq![61u8] + weather::stats_text(r.1) + seq![125u8, 10u8]);
}

/// The report has one row for each station, with what is known of it, shorter names
/// first, names of one length by the word of their fingerprint, and where that is the same in the order
/// of a dictionary.
pub proof fn law_report_complete(x: Reduce)
    requires
        x.part.wf(),
    ensures
        x.part.table.rows().len() == x.part.table@.len(),
        forall|k: model::Key| #[trigger]
            x.part.table@.contains_key(k) ==> exists|i: int|
                0 <= i < x.part.table.rows().len() && #[trigger] x.part.table.rows()[i] == (
                    k,
                    x.part.table@[k],
                ),
        forall|i: int|
            0 <= i < x.part.table.rows().len() ==> x.part.table@.contains_key(
                (#[trigger] x.part.table.rows()[i]).0,
            ) && x.part.table@[x.part.table.rows()[i].0] == x.part.table.rows()[i].1,
        forall|i: int, j: int|
            0 <= i < j < x.part.table.rows().len() ==> (#[trigger] x.part.table.rows()[i]).0 != (
            #[trigger] x.part.table.rows()[j]).0,
        forall|i: int, j: int|
            0 <= i < j < x.part.table.rows().len() ==> {
                let a = (#[trigger] x.part.table.rows()[i]).0.0;
                let b = (#[trigger] x.part.table.rows()[j]).0.0;
                a.0 < b.0 || a.0 == b.0 && a.1 < b.1 || a == b && table::lower(
                    x.part.table.rows()[i].0.1,
                    x.part.table.rows()[j].0.1,
                )
            },
{
    x.part.table.law_rows_complete();
    x.part.table.lemma_rows();
    let rows = x.part.table.rows();
    assert forall|i: int, j: int| 0 <= i < j < rows.len() implies {
        let a = (#[trigger] rows[i]).0.0;
        let b = (#[trigger] rows[j]).0.0;
        a.0 < b.0 || a.0 == b.0 && a.1 < b.1 || a == b && table::lower(rows[i].0.1, rows[j].0.1)
    } by {
        table::law_lex(rows[i].0.1, rows[j].0.1);
    }
}

/// Results that know the same write the same report.
pub proof fn law_one_report(a: Reduce, b: Reduce)
    requires
        a.part.wf(),
        b.part.wf(),
        a.part.table@ == b.part.table@,
    ensures
        report(a.part.table.rows()) == report(b.part.table.rows()),
{
    a.part.table.lemma_rows();
    b.part.table.lemma_rows();
    table::law_one_listing::<City>(
        a.part.table.rows(),
        b.part.table.rows(),
        a.part.table@,
    );
}

/// The plan: as many workers as are asked for, or as there are processors, one at least; one where no
/// processor is known.
/// Without a size of its own, a piece is an even share of the data or of the cache, whichever is more;
/// with one, no piece is smaller than that share of the cache.
pub proof fn law_plan(len: int, slice: Option<usize>, workers: Option<usize>, last: Option<Cpu>)
    requires
        0 <= len,
        last matches Some(cpu) ==> cpu.cache_size is Some,
    ensures
        last is None ==> cores_of(workers, last) == 1,
        last is Some && workers is Some ==> cores_of(workers, last) == (if workers->0 >= 1 {
            workers->0
        } else {
            1
        }),
        last is Some && workers is None ==> (match last->0.processor {
            Some(p) => cores_of(workers, last) == p + 1,
            None => cores_of(workers, last) == 1,
        }),
        ({
            let cores = cores_of(workers, last);
            let size = slice_of(len, slice, cores, last);
            let cache: int = match last {
                Some(cpu) => cpu.cache_size->0 as int,
                None => 1048576,
            };
            let most = if len > cache {
                len
            } else {
                cache
            };
            &&& cores >= 1
            &&& slice is None ==> size * cores <= most < (size + 1) * cores
            &&& slice matches Some(x) ==> size >= x && cache < (size + 1) * cores && (size == x || size
                * cores <= cache)
        }),
{
    let cores = cores_of(workers, last);
    let cache: int = match last {
        Some(cpu) => cpu.cache_size->0 as int,
        None => 1048576,
    };
    let size = slice_of(len, slice, cores, last);
    vstd::arithmetic::div_mod::lemma_fundamental_div_mod(len, cores);
    vstd::arithmetic::div_mod::lemma_mod_bound(len, cores);
    vstd::arithmetic::div_mod::lemma_fundamental_div_mod(cache, cores);
    vstd::arithmetic::div_mod::lemma_mod_bound(cache, cores);
    let a = len / cores;
    let b = cache / cores;
    assert(cores * a == a * cores && cores * b == b * cores) by (nonlinear_arith);
    assert((size + 1) * cores == size * cores + cores) by (nonlinear_arith);
    assert(a <= b ==> a * cores <= b * cores) by (nonlinear_arith)
        requires
            cores >= 1,
    ;
    assert(b <= a ==> b * cores <= a * cores) by (nonlinear_arith)
        requires
            cores >= 1,
    ;
    assert(b <= size ==> b * cores <= size * cores) by (nonlinear_arith)
        requires
            cores >= 1,
    ;
    assert(a < b ==> (a + 1) * cores <= b * cores) by (nonlinear_arith)
        requires
            cores >= 1,
    ;
    assert(b < a ==> (b + 1) * cores <= a * cores) by (nonlinear_arith)
        requires
            cores >= 1,
    ;
    assert((a + 1) * cores == a * cores + cores) by (nonlinear_arith);
    assert((b + 1) * cores == b * cores + cores) by (nonlinear_arith);
}

/// However the data is cut and read, the result knows of a station with a fingerprint of its own what its
/// records say, whatever other stations share. The sequential reader needs names shorter than a block.
pub proof fn law_station(s: Seq<u8>, slice: int, mode: usize, k: model::Key)
    requires
        0 <= slice,
        mode <= 2,
        records::alternating(s, 0),
        records::readable(s, 0),
        mode == 2 ==> records::short_names(s, 0),
        model::alone(records::entries(s, 0), k),
    ensures
        model::same_at(
            merged_parts(scanner::pieces(s, 0, slice), false, mode),
            model::tally(records::entries(s, 0)),
            k,
        ),
        parts_total(scanner::pieces(s, 0, slice), mode) == records::entries(s, 0).len(),
{
    lemma_parts(s, 0, slice, mode);
    split::law_slices_keep_station(s, slice, k);
}

/// However the data is cut, as many records are read as there are.
pub proof fn lemma_total(s: Seq<u8>, slice: int, mode: usize)
    requires
        0 <= slice,
        mode <= 2,
        records::alternating(s, 0),
        records::readable(s, 0),
        mode == 2 ==> records::short_names(s, 0),
    ensures
        parts_total(scanner::pieces(s, 0, slice), mode) == records::entries(s, 0).len(),
{
    lemma_parts(s, 0, slice, mode);
}

/// Data that is read in one piece, whatever it holds, gives a row for each fingerprint among its records
/// with the name that came with it first.
pub proof fn law_one_piece(s: Seq<u8>, slice: int, mode: usize)
    requires
        0 < s.len() <= slice,
        mode <= 2,
    ensures
        ({
            let ps = scanner::pieces(s, 0, slice);
            let es = if mode == 2 {
                records::sequence_entries(s, 0)
            } else {
                records::entries(s, 0)
            };
            &&& merged_parts(ps, false, mode) == model::stations_table(
                model::put_all(Map::empty(), es),
            )
            &&& parts_total(ps, mode) == es.len()
        }),
{
    scanner::law_one_piece(s, slice);
    let ps = scanner::pieces(s, 0, slice);
    reveal_with_fuel(merged_parts, 2);
    reveal_with_fuel(parts_total, 2);
    assert(ps.drop_first() =~= seq![]);
    let t = part_table(s, false, mode);
    assert(table::merged(t, Map::empty()) =~= t);
}

/// The plan can be made if no processor is known, or if the last one tells the size of its cache and,
/// where no number of workers is asked for, has no number or one that can be counted.
pub proof fn law_cpu_ok(workers: Option<usize>, cpu: Cpu)
    ensures
        cpu_ok(workers, None),
        cpu_ok(workers, Some(cpu)) <==> cpu.cache_size is Some && (workers is Some || cpu.processor is None
            || cpu.processor->0 < usize::MAX),
{
}

} // verus!
