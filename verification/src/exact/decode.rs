//! Reads the records of a piece of the data file into a table.
use vstd::prelude::*;
use crate::bench::records;
use crate::bytes;
use crate::bytes::{CHR_CM, CHR_NL};
use crate::exact::city::City;
use crate::exact::find;
use crate::exact::model;
use crate::exact::number;
use crate::exact::records as named;
use crate::exact::slots;
use crate::exact::slots::{Search, BITS_MASK};
use crate::exact::weather_map;
use crate::exact::weather_map::WeatherMap;

verus! {

/// What reading leaves in the table: the records put into it, or, in a dry run, what it held.
pub open spec fn after_reading(
    m: model::Stations,
    es: Seq<model::Entry>,
    dry_run: bool,
) -> model::Stations {
    if dry_run {
        m
    } else {
        model::put_all(m, es)
    }
}

/// The table has room for the records, or it is a dry run.
pub open spec fn room_for(m: model::Stations, es: Seq<model::Entry>, dry_run: bool) -> bool {
    dry_run || model::can_put_all(m, es)
}

/// An empty table has room for four billion records of each station of a piece, if there are not more
/// stations than slots; in a dry run, for all.
pub proof fn law_room_for(s: Seq<u8>, dry_run: bool)
    requires
        dry_run || model::roomy(named::entries(s, 0)),
    ensures
        room_for(Map::empty(), named::entries(s, 0), dry_run),
{
    if !dry_run {
        named::law_entries_in_range(s, 0);
        model::law_room(named::entries(s, 0));
    }
}

/// Reading whole records and then others into one table is reading both in one go.
pub proof fn law_reads_join(m: model::Stations, a: Seq<u8>, b: Seq<u8>, dry_run: bool)
    requires
        records::whole(a, 0),
    ensures
        named::entries(a + b, 0).len() == named::entries(a, 0).len() + named::entries(b, 0).len(),
        named::readable(a + b, 0) <==> named::readable(a, 0) && named::readable(b, 0),
        ({
            let first = after_reading(m, named::entries(a, 0), dry_run);
            &&& room_for(m, named::entries(a + b, 0), dry_run) <==> room_for(
                m,
                named::entries(a, 0),
                dry_run,
            ) && room_for(first, named::entries(b, 0), dry_run)
            &&& after_reading(m, named::entries(a + b, 0), dry_run) == after_reading(
                first,
                named::entries(b, 0),
                dry_run,
            )
        }),
{
    named::law_records_join(a, b, 0);
    model::law_put_all_joins(m, named::entries(a, 0), named::entries(b, 0));
}

/// Reads all records. Returns how many there were, and how many slots with other stations were
/// passed.
pub fn decode_lines<'a>(data: &'a [u8], result: &mut WeatherMap<'a>, dry_run: bool) -> (r: (
    usize,
    u128,
))
    requires
        old(result).wf(),
        dry_run || named::readable(data@, 0),
        room_for(old(result)@, named::entries(data@, 0), dry_run),
        dry_run || old(result)@.len() == 0 || old(result).mask() == BITS_MASK,
    ensures
        final(result).wf(),
        final(result).hasher() == old(result).hasher(),
        dry_run || final(result)@.len() == 0 || final(result).mask() == BITS_MASK,
        r.0 == named::entries(data@, 0).len(),
        final(result)@ == after_reading(old(result)@, named::entries(data@, 0), dry_run),
        dry_run ==> {
            &&& r.1 == 0
            &&& final(result).layout() == old(result).layout()
            &&& final(result).mask() == old(result).mask()
        },
        !dry_run ==> exists|ws: Seq<Search>| #[trigger]
            weather_map::searched(
                old(result).hasher(),
                named::entries(data@, 0),
                BITS_MASK,
                ws,
            ) && slots::all_found(old(result).layout(), ws, model::SLOTS as int) && r.1
                == slots::misses(old(result).layout(), ws, model::SLOTS as int)
                && final(result).layout() == slots::laid(
                old(result).layout(),
                ws,
                model::SLOTS as int,
            ),
        r.1 <= BITS_MASK * r.0,
{
    let len: usize = data.len();
    let mut from: usize = 0;
    let mut total: usize = 0;
    let mut miss: u128 = 0;
    let ghost all = named::entries(data@, 0);
    let ghost before = result@;
    let ghost layout = result.layout();
    let ghost state = result.hasher();
    let ghost size = model::SLOTS as int;
    let ghost mut ws: Seq<Search> = seq![];
    proof {
        slots::lemma_full_mask();
        assert(all.skip(0) =~= all);
    }
    loop
        invariant
            len == data@.len(),
            from <= len,
            total <= from,
            miss <= BITS_MASK * total,
            dry_run ==> miss == 0,
            all == named::entries(data@, 0),
            before == old(result)@,
            layout == old(result).layout(),
            state == old(result).hasher(),
            size == model::SLOTS,
            slots::is_mask(BITS_MASK),
            result.wf(),
            result.hasher() == state,
            dry_run || result@.len() == 0 || result.mask() == BITS_MASK,
            dry_run ==> result.mask() == old(result).mask(),
            dry_run ==> result.layout() == layout,
            !dry_run ==> {
                &&& ws.len() == total
                &&& slots::all_found(layout, ws, size)
                &&& miss == slots::misses(layout, ws, size)
                &&& result.layout() == slots::laid(layout, ws, size)
            },
            forall|i: int|
                0 <= i < ws.len() ==> (#[trigger] ws[i]).name == all[i].name
                    && weather_map::may_start(state, ws[i].name, BITS_MASK, ws[i].home),
            all.skip(total as int) == named::entries(data@, from as int),
            dry_run || named::readable(data@, from as int),
            all.len() == total + named::entries(data@, from as int).len(),
            room_for(result@, named::entries(data@, from as int), dry_run),
            after_reading(before, all, dry_run) == after_reading(
                result@,
                named::entries(data@, from as int),
                dry_run,
            ),
        decreases len - from,
    {
        proof {
            records::lemma_record(data@, from as int);
            bytes::lemma_next_at_sub(data@, CHR_CM, from as int, len as int, 0);
        }
        let comma: usize = match find::find_comma_simd(&data[from..len]) {
            Some(i) => from + i,
            None => {
                assert(dry_run || weather_map::searched(state, all, BITS_MASK, ws));
                return (total, miss);
            },
        };
        let start: usize = comma + 1;
        proof {
            bytes::lemma_next_at_sub(data@, CHR_NL, start as int, len as int, 0);
        }
        let newline: usize = match find::find_newline(&data[start..len]) {
            Some(i) => start + i,
            None => {
                assert(dry_run || weather_map::searched(state, all, BITS_MASK, ws));
                return (total, miss);
            },
        };
        let city: &'a [u8] = &data[from..comma];
        let value: &[u8] = &data[start..newline];
        proof {
            let es = named::entries(data@, from as int);
            let rest = named::entries(data@, newline + 1);
            assert(es[0] == named::entry_at(data@, from as int));
            assert(es.drop_first() =~= rest);
            assert(all[total as int] == es[0]);
            assert(all.skip(total + 1) =~= rest);
            assert(city@ == records::name_at(data@, from as int));
            assert(value@ == records::value_at(data@, from as int));
        }
        if !dry_run {
            let ghost now = result.layout();
            let m: usize = result.put::<BITS_MASK>(City::new(city), number::parse_number(value));
            miss = miss + m as u128;
            proof {
                let home = choose|home: int| #[trigger]
                    weather_map::may_start(state, city@, BITS_MASK, home) && slots::found(
                        now,
                        city@,
                        home,
                        size,
                    ) && m == slots::distance(now, city@, home, size) && result.layout()
                        == slots::placed(now, city@, home, size);
                let w = Search { name: city@, home };
                slots::lemma_one_more(layout, ws, w, size);
                ws = ws.push(w);
            }
        }
        total = total + 1;
        from = newline + 1;
    }
}

} // verus!
