//! Whether a piece can be read, before it is.
use vstd::prelude::*;
use crate::bench::check::record_bounds;
use crate::exact::city::City;
use crate::exact::model;
use crate::exact::number;
use crate::exact::records as named;
use crate::exact::reduce;
use crate::exact::reduce::{can_combine, combine, plan, Cpu, Part, Reduce};
use crate::exact::slots;
use crate::exact::slots::BITS_MASK;
use crate::exact::weather_map;
use crate::exact::weather_map::WeatherMap;
use crate::scanner;
use crate::scanner::Scanner;
use crate::table;
use crate::table::Table;

verus! {

/// Whether `value` can be read as a temperature.
pub fn is_number(value: &[u8]) -> (b: bool)
    ensures
        b == number::number_ok(value@),
{
    let sign: usize = if value.len() > 0 && value[0] & 0x10 == 0 {
        1
    } else {
        0
    };
    let len: usize = value.len() - sign;
    1 <= len && len <= 4
}

/// Whether the piece can be read.
pub fn check_part(part: &[u8], dry_run: bool) -> (b: bool)
    ensures
        b == reduce::part_ok(part@, dry_run),
{
    if dry_run {
        return true;
    }
    let mut cities: WeatherMap = WeatherMap::default();
    let mut from: usize = 0;
    let ghost es = named::entries(part@, 0);
    proof {
        slots::lemma_full_mask();
    }
    loop
        invariant
            !dry_run,
            slots::is_mask(BITS_MASK),
            cities.wf(),
            cities@.len() == 0 || cities.mask() == BITS_MASK,
            from <= part.len(),
            es == named::entries(part@, 0),
            named::readable(part@, 0) == named::readable(part@, from as int),
            model::can_put_all(Map::empty(), es) == model::can_put_all(
                cities@,
                named::entries(part@, from as int),
            ),
        decreases part.len() - from,
    {
        match record_bounds(part, from) {
            None => {
                return true;
            },
            Some((comma, newline)) => {
                let value: &[u8] = &part[comma + 1..newline];
                if !is_number(value) {
                    return false;
                }
                let city: City = City::new(&part[from..comma]);
                let t: i16 = number::parse_number(value);
                proof {
                    let here = named::entries(part@, from as int);
                    assert(here[0] == weather_map::entry_of(city, t));
                    assert(here.drop_first() =~= named::entries(part@, newline + 1));
                }
                if !cities.accepts(&city, t) {
                    return false;
                }
                cities.put::<BITS_MASK>(city, t);
                from = newline + 1;
            },
        }
    }
}

/// Reads a piece, if it can be read.
pub fn map_checked<'a>(part: &'a [u8], dry_run: bool) -> (r: Option<(Part<'a>, u128)>)
    ensures
        r is Some <==> reduce::part_ok(part@, dry_run),
        r matches Some((p, miss)) ==> {
            &&& p.wf()
            &&& p.table@ == reduce::part_table(part@, dry_run)
            &&& p.total == named::entries(part@, 0).len()
            &&& miss <= BITS_MASK * p.total
            &&& reduce::part_misses(part@, dry_run, miss as int)
        },
{
    if check_part(part, dry_run) {
        Some(reduce::map_part(part, dry_run))
    } else {
        None
    }
}

/// Whether the plan can be made.
pub fn check_cpu(last: Option<Cpu>) -> (b: bool)
    ensures
        b == reduce::cpu_ok(last),
{
    match last {
        None => true,
        Some(cpu) => cpu.cpu_cores.is_some() && cpu.cache_size.is_some(),
    }
}

/// Reads all of the data, cut into pieces as planned, if it can be read and counts and sums fit.
pub fn reduce_checked<'a>(
    data: &'a [u8],
    slice: Option<usize>,
    workers: Option<usize>,
    dry_run: bool,
    last: Option<Cpu>,
) -> (r: Option<Reduce<'a>>)
    ensures
        ({
            let cores = reduce::cores_of(workers, last);
            let ps = scanner::pieces(
                data@,
                0,
                reduce::slice_of(data.len() as int, slice, cores, last),
            );
            &&& r is Some <==> data.len() > 0 && reduce::cpu_ok(last) && reduce::parts_ok(
                Map::empty(),
                ps,
                dry_run,
            )
            &&& r matches Some(x) ==> {
                &&& x.part.wf()
                &&& x.part.table@ == reduce::merged_parts(ps, dry_run)
                &&& x.part.total == reduce::parts_total(ps)
            }
        }),
{
    if data.len() == 0 || !check_cpu(last) {
        return None;
    }
    let (_, size) = plan(data.len(), slice, workers, last);
    let ghost all = scanner::pieces(data@, 0, size as int);
    let ghost ok = reduce::parts_ok(Map::empty(), all, dry_run);
    let mut scan: Scanner<'a> = Scanner::new(data, size);
    let mut result: Part<'a> = Part { table: Table::new(), total: 0 };
    let len: usize = data.len();
    proof {
        assert(table::merged(Map::empty(), reduce::merged_parts(all, dry_run))
            =~= reduce::merged_parts(all, dry_run));
    }
    loop
        invariant
            len > 0,
            len == data@.len(),
            reduce::cpu_ok(last),
            size == reduce::slice_of(
                data@.len() as int,
                slice,
                reduce::cores_of(workers, last),
                last,
            ),
            scan.wf(),
            scan.bytes() == data@,
            scan.slice() == size,
            0 <= scan.off() <= data@.len(),
            all == scanner::pieces(data@, 0, size as int),
            ok == reduce::parts_ok(Map::empty(), all, dry_run),
            ok == reduce::parts_ok(result.table@, scan.left(), dry_run),
            result.wf(),
            result.total <= scan.off(),
            table::merged(result.table@, reduce::merged_parts(scan.left(), dry_run))
                == reduce::merged_parts(all, dry_run),
            result.total + reduce::parts_total(scan.left()) == reduce::parts_total(all),
        decreases data@.len() - scan.off(),
    {
        let ghost left = scan.left();
        let ghost before = result.table@;
        match scan.next() {
            Some(part) => {
                proof {
                    assert(left[0] == part@);
                    assert(left.drop_first() =~= scan.left());
                    named::lemma_entries_len(part@, 0);
                    table::law_merged(
                        before,
                        reduce::part_table(part@, dry_run),
                        reduce::merged_parts(scan.left(), dry_run),
                    );
                }
                match map_checked(part, dry_run) {
                    Some((batch, _)) => {
                        if !can_combine(&result, &batch) {
                            return None;
                        }
                        result = combine(result, batch);
                    },
                    None => {
                        return None;
                    },
                }
            },
            None => {
                proof {
                    assert(reduce::merged_parts(left, dry_run) =~= Map::empty());
                    table::law_merged(before, before, before);
                }
                return Some(Reduce { part: result });
            },
        }
    }
}

} // verus!
