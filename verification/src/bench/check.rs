//! Whether a piece can be read, before it is.
use vstd::prelude::*;
use crate::bench::city::City;
use crate::bench::decode;
use crate::bench::model;
use crate::bench::number;
use crate::bench::number::{Temperature, CHR_MINUS};
use crate::bench::records;
use crate::bench::records::BLOCK_SIZE;
use crate::bench::reduce;
use crate::bench::reduce::{can_combine, combine, plan, Cpu, Part, Reduce};
use crate::bench::token;
use crate::bench::weather_map;
use crate::bench::weather_map::WeatherMap;
use crate::bytes;
use crate::bytes::{CHR_CM, CHR_NL};
use crate::scanner;
use crate::scanner::Scanner;
use crate::swar;
use crate::swar::FIND_SIZE;
use crate::table;
use crate::table::Table;
use crate::text;

verus! {

/// The delimiters of the record that starts at `from`, if a whole one does.
pub fn record_bounds(data: &[u8], from: usize) -> (r: Option<(usize, usize)>)
    requires
        from <= data.len(),
    ensures
        r is Some <==> records::has_record(data@, from as int),
        r matches Some((comma, newline)) ==> {
            &&& comma == records::comma_of(data@, from as int)
            &&& newline == records::end_of(data@, from as int)
            &&& from <= comma < newline < data.len()
        },
{
    proof {
        records::lemma_record(data@, from as int);
    }
    let comma: usize = text::index_of(data, CHR_CM, from);
    if comma == data.len() {
        return None;
    }
    let newline: usize = text::index_of(data, CHR_NL, comma + 1);
    if newline == data.len() {
        return None;
    }
    Some((comma, newline))
}

/// Whether `value` can be read as a temperature.
pub fn is_number(value: &[u8]) -> (b: bool)
    ensures
        b == number::number_ok(value@),
{
    let sign: usize = if value.len() > 0 && value[0] == CHR_MINUS {
        1
    } else {
        0
    };
    let len: usize = value.len() - sign;
    1 <= len && len <= 4
}

/// Whether every whole record has a name and a temperature that can be read.
pub fn is_readable(data: &[u8]) -> (b: bool)
    ensures
        b == records::readable(data@, 0),
{
    let mut from: usize = 0;
    loop
        invariant
            from <= data.len(),
            records::readable(data@, 0) == records::readable(data@, from as int),
        decreases data.len() - from,
    {
        match record_bounds(data, from) {
            None => {
                return true;
            },
            Some((comma, newline)) => {
                if comma == from || !is_number(&data[comma + 1..newline]) {
                    return false;
                }
                from = newline + 1;
            },
        }
    }
}

/// Whether separators and line feeds take turns.
pub fn is_alternating(data: &[u8]) -> (b: bool)
    ensures
        b == records::alternating(data@, 0),
{
    let mut from: usize = 0;
    loop
        invariant
            from <= data.len(),
            records::alternating(data@, 0) == records::alternating(data@, from as int),
        decreases data.len() - from,
    {
        let comma: usize = text::index_of(data, CHR_CM, from);
        if comma == data.len() {
            return true;
        }
        if text::index_of(data, CHR_NL, from) <= comma {
            return false;
        }
        match record_bounds(data, from) {
            None => {
                return true;
            },
            Some((_, newline)) => {
                if text::index_of(data, CHR_CM, comma + 1) <= newline {
                    return false;
                }
                from = newline + 1;
            },
        }
    }
}

/// Whether no `c` has its look-alike behind it.
pub fn has_no_look_alike(data: &[u8], c: u8) -> (b: bool)
    ensures
        b == swar::no_look_alike(data@, c),
{
    if data.len() == 0 {
        return true;
    }
    let mut i: usize = 0;
    let look_alike: u8 = c ^ 1;
    while i < data.len() - 1
        invariant
            data.len() > 0,
            i <= data.len() - 1,
            look_alike == c ^ 1,
            forall|j: int| 0 <= j < i && #[trigger] data@[j] == c ==> data@[j + 1] != c ^ 1,
        decreases data.len() - i,
    {
        if data[i] == c && data[i + 1] == look_alike {
            assert(data@[i as int] == c);
            return false;
        }
        i = i + 1;
    }
    true
}

/// Whether no four `c` in a row are crowded into sixteen bytes.
pub fn is_spread(data: &[u8], c: u8) -> (b: bool)
    ensures
        b == token::spread(data@, c),
{
    let len: usize = data.len();
    let mut p: usize = 0;
    while p < len
        invariant
            len == data@.len(),
            p <= len,
            forall|j: int|
                0 <= j < p && #[trigger] data@[j] == c ==> {
                    let q = token::third_after(data@, c, j);
                    q >= data@.len() || q - j >= FIND_SIZE
                },
        decreases len - p,
    {
        if data[p] == c {
            let second: usize = text::index_of(data, c, p + 1);
            if second < len {
                let third: usize = text::index_of(data, c, second + 1);
                if third < len {
                    let fourth: usize = text::index_of(data, c, third + 1);
                    if fourth < len && fourth - p < FIND_SIZE {
                        assert(data@[p as int] == c);
                        return false;
                    }
                }
            }
        }
        p = p + 1;
    }
    true
}

/// Whether the readers that look for both delimiters at once can read the data.
pub fn is_scannable(data: &[u8]) -> (b: bool)
    ensures
        b == records::scannable(data@),
{
    is_readable(data) && is_alternating(data) && has_no_look_alike(data, CHR_CM)
        && has_no_look_alike(data, CHR_NL) && is_spread(data, CHR_CM) && is_spread(data, CHR_NL)
}

/// Whether what follows the last whole record holds no separator in a whole block.
pub fn is_finished(data: &[u8]) -> (b: bool)
    ensures
        b == records::finished(data@, 0),
{
    let mut from: usize = 0;
    loop
        invariant
            from <= data.len(),
            records::finished(data@, 0) == records::finished(data@, from as int),
        decreases data.len() - from,
    {
        match record_bounds(data, from) {
            None => {
                let comma: usize = text::index_of(data, CHR_CM, from);
                return comma == data.len() || data.len() - block_of(from, comma) < BLOCK_SIZE;
            },
            Some((_, newline)) => {
                from = newline + 1;
            },
        }
    }
}

/// The block of the separator at `comma`, counted from the start of its record.
fn block_of(from: usize, comma: usize) -> (block: usize)
    requires
        from <= comma,
    ensures
        block == from + BLOCK_SIZE * ((comma - from) / BLOCK_SIZE as int),
        block <= comma,
{
    from + BLOCK_SIZE * ((comma - from) / BLOCK_SIZE)
}

/// The records from `from` on, as one of the readers sees them.
spec fn seen(s: Seq<u8>, from: int, sequence: bool) -> Seq<model::Entry> {
    if sequence {
        records::sequence_entries(s, from)
    } else {
        records::entries(s, from)
    }
}

/// The record that starts at `from`, as one of the readers sees it.
fn seen_record<'a>(
    data: &'a [u8],
    from: usize,
    comma: usize,
    newline: usize,
    sequence: bool,
) -> (r: (City<'a>, Temperature))
    requires
        from <= comma < newline < data.len(),
        records::has_record(data@, from as int),
        records::readable(data@, from as int),
        comma == records::comma_of(data@, from as int),
        newline == records::end_of(data@, from as int),
    ensures
        weather_map::entry_of(r) == (if sequence {
            records::sequence_entry_at(data@, from as int)
        } else {
            records::entry_at(data@, from as int)
        }),
{
    let (city, value) = decode::record_at(data, from, comma, newline);
    if !sequence {
        return (city, value);
    }
    let block: usize = block_of(from, comma);
    if data.len() - block < BLOCK_SIZE {
        proof {
            records::lemma_sequence_entry(data@, from as int);
        }
        return (city, value);
    }
    (City::new_ex(&data[from..comma], swar::word_at(data, block)), value)
}

/// Whether an empty table has room for the records, as one of the readers sees them.
fn has_room(data: &[u8], sequence: bool) -> (b: bool)
    requires
        records::readable(data@, 0),
    ensures
        b == model::can_put_all(Map::empty(), seen(data@, 0, sequence)),
{
    let mut cities: WeatherMap = WeatherMap::default();
    let mut from: usize = 0;
    let ghost all = model::can_put_all(Map::empty(), seen(data@, 0, sequence));
    loop
        invariant
            cities.wf(),
            from <= data.len(),
            records::readable(data@, from as int),
            all == model::can_put_all(Map::empty(), seen(data@, 0, sequence)),
            all == model::can_put_all(cities@, seen(data@, from as int, sequence)),
        decreases data.len() - from,
    {
        match record_bounds(data, from) {
            None => {
                return true;
            },
            Some((comma, newline)) => {
                let (city, value) = seen_record(data, from, comma, newline, sequence);
                proof {
                    let es = seen(data@, from as int, sequence);
                    assert(es[0] == weather_map::entry_of((city, value)));
                    assert(es.drop_first() =~= seen(data@, newline + 1, sequence));
                }
                if !cities.accepts(&city, value) {
                    return false;
                }
                cities.put((city, value));
                from = newline + 1;
            },
        }
    }
}

/// Whether the reader of this mode can read the piece.
pub fn check_part(part: &[u8], dry_run: bool, mode: usize) -> (b: bool)
    ensures
        b == reduce::part_ok(part@, dry_run, mode),
{
    if mode > 2 {
        assert(decode::room_for(Map::empty(), reduce::part_entries(part@, mode), dry_run));
        return true;
    }
    (if mode == 2 {
        is_readable(part) && is_finished(part)
    } else {
        is_scannable(part)
    }) && (dry_run || has_room(part, mode == 2))
}

/// Reads a piece, if the reader of this mode can.
pub fn map_checked<'a>(part: &'a [u8], dry_run: bool, mode: usize) -> (r: Option<Part<'a>>)
    ensures
        r is Some <==> reduce::part_ok(part@, dry_run, mode),
        r matches Some(p) ==> {
            &&& p.wf()
            &&& p.table@ == reduce::part_table(part@, dry_run, mode)
            &&& p.total == reduce::part_entries(part@, mode).len()
            &&& p.miss == 0
        },
{
    if check_part(part, dry_run, mode) {
        Some(reduce::map_part(part, dry_run, mode))
    } else {
        None
    }
}

/// Whether the plan can be made.
pub fn check_cpu(workers: Option<usize>, last: Option<Cpu>) -> (b: bool)
    ensures
        b == reduce::cpu_ok(workers, last),
{
    match last {
        None => true,
        Some(cpu) => cpu.cache_size.is_some() && (workers.is_some() || match cpu.processor {
            Some(p) => p < usize::MAX,
            None => true,
        }),
    }
}

/// Reads all of the data, cut into pieces as planned, if it can be read and counts and sums fit.
pub fn reduce_checked<'a>(
    data: &'a [u8],
    slice: Option<usize>,
    workers: Option<usize>,
    dry_run: bool,
    mode: usize,
    last: Option<Cpu>,
) -> (r: Option<Reduce<'a>>)
    ensures
        ({
            let cores = reduce::cores_of(workers, last);
            let ps = scanner::pieces(
                data@,
                0,
                reduce::slice_of(data.len() as int, slice, cores, last),
            );
            &&& r is Some <==> data.len() > 0 && reduce::cpu_ok(workers, last) && reduce::parts_ok(
                Map::empty(),
                ps,
                dry_run,
                mode,
            )
            &&& r matches Some(x) ==> {
                &&& x.part.wf()
                &&& x.cores == cores
                &&& x.part.table@ == reduce::merged_parts(ps, dry_run, mode)
                &&& x.part.total == reduce::parts_total(ps, mode)
                &&& x.part.miss == 0
            }
        }),
{
    if data.len() == 0 || !check_cpu(workers, last) {
        return None;
    }
    let (cores, size) = plan(data.len(), slice, workers, last);
    let ghost all = scanner::pieces(data@, 0, size as int);
    let ghost ok = reduce::parts_ok(Map::empty(), all, dry_run, mode);
    let mut scan: Scanner<'a> = Scanner::new(data, size);
    let mut result: Part<'a> = Part { table: Table::new(), total: 0, miss: 0 };
    let len: usize = data.len();
    proof {
        assert(table::merged(Map::empty(), reduce::merged_parts(all, dry_run, mode))
            =~= reduce::merged_parts(all, dry_run, mode));
    }
    loop
        invariant
            len > 0,
            len == data@.len(),
            reduce::cpu_ok(workers, last),
            cores == reduce::cores_of(workers, last),
            size == reduce::slice_of(data@.len() as int, slice, cores as int, last),
            scan.wf(),
            scan.bytes() == data@,
            scan.slice() == size,
            0 <= scan.off() <= data@.len(),
            all == scanner::pieces(data@, 0, size as int),
            ok == reduce::parts_ok(Map::empty(), all, dry_run, mode),
            ok == reduce::parts_ok(result.table@, scan.left(), dry_run, mode),
            result.wf(),
            result.miss == 0,
            result.total <= scan.off(),
            table::merged(result.table@, reduce::merged_parts(scan.left(), dry_run, mode))
                == reduce::merged_parts(all, dry_run, mode),
            result.total + reduce::parts_total(scan.left(), mode) == reduce::parts_total(all, mode),
        decreases data@.len() - scan.off(),
    {
        let ghost left = scan.left();
        let ghost before = result.table@;
        match scan.next() {
            Some(part) => {
                proof {
                    assert(left[0] == part@);
                    assert(left.drop_first() =~= scan.left());
                    reduce::lemma_part_len(part@, mode);
                    table::law_merged(
                        before,
                        reduce::part_table(part@, dry_run, mode),
                        reduce::merged_parts(scan.left(), dry_run, mode),
                    );
                }
                match map_checked(part, dry_run, mode) {
                    Some(batch) => {
                        if !can_combine(&result, &batch) {
                            return None;
                        }
                        result = combine(result, batch);
                    },
                    None => {
                        return None;
                    },
                }
            },
            None => {
                proof {
                    assert(reduce::merged_parts(left, dry_run, mode) =~= Map::empty());
                    table::law_merged(before, before, before);
                }
                return Some(Reduce { part: result, cores });
            },
        }
    }
}

} // verus!
