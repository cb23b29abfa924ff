//! Three ways to read the records of a piece of the data file into a table.
use vstd::prelude::*;
use crate::bench::city::City;
use crate::bench::model;
use crate::bench::number;
use crate::bench::number::Temperature;
use crate::bench::records;
use crate::bench::split;
use crate::bench::token;
use crate::bench::token::Tokenizer;
use crate::bench::weather_map::WeatherMap;
use crate::bytes;
use crate::swar;
use crate::swar::FIND_SIZE;
use crate::text;

verus! {

/// What reading leaves in the table: the records put into it, or, in a dry run, what it held.
pub open spec fn after_reading(
    m: model::Stations,
    es: Seq<model::Entry>,
    dry_run: bool,
) -> model::Stations {
    if dry_run {
        m
    } else {
        model::put_all(m, es)
    }
}

/// The table has room for the records, or it is a dry run.
pub open spec fn room_for(m: model::Stations, es: Seq<model::Entry>, dry_run: bool) -> bool {
    dry_run || model::can_put_all(m, es)
}

/// An empty table has room for two million records of each station of a piece, if there are not more
/// stations than slots; in a dry run, for all.
pub proof fn law_room_for(s: Seq<u8>, dry_run: bool)
    requires
        dry_run || model::roomy(records::entries(s, 0)),
    ensures
        room_for(Map::empty(), records::entries(s, 0), dry_run),
{
    if !dry_run {
        records::law_entries_in_range(s, 0);
        model::law_room(records::entries(s, 0));
    }
}

/// Reading whole records and then others into one table is reading both in one go; with the sequential
/// reader, if no name is as long as a block.
pub proof fn law_reads_join(m: model::Stations, a: Seq<u8>, b: Seq<u8>, dry_run: bool)
    requires
        records::whole(a, 0),
    ensures
        records::entries(a + b, 0).len() == records::entries(a, 0).len() + records::entries(
            b,
            0,
        ).len(),
        records::readable(a + b, 0) <==> records::readable(a, 0) && records::readable(b, 0),
        ({
            let first = after_reading(m, records::entries(a, 0), dry_run);
            &&& room_for(m, records::entries(a + b, 0), dry_run) <==> room_for(
                m,
                records::entries(a, 0),
                dry_run,
            ) && room_for(first, records::entries(b, 0), dry_run)
            &&& after_reading(m, records::entries(a + b, 0), dry_run) == after_reading(
                first,
                records::entries(b, 0),
                dry_run,
            )
        }),
        records::readable(a + b, 0) && records::short_names(a, 0) && records::short_names(b, 0) ==> {
            &&& records::sequence_entries(a + b, 0) == records::entries(a + b, 0)
            &&& records::sequence_entries(a, 0) == records::entries(a, 0)
            &&& records::sequence_entries(b, 0) == records::entries(b, 0)
        },
{
    split::law_records_join(a, b, 0);
    model::law_put_all_joins(m, records::entries(a, 0), records::entries(b, 0));
    records::law_readers_agree(a + b, 0);
    records::law_readers_agree(a, 0);
    records::law_readers_agree(b, 0);
}

/// The first of the records is put, the others follow.
proof fn lemma_first(m: model::Stations, e: model::Entry, es: Seq<model::Entry>, dry_run: bool)
    ensures
        room_for(m, seq![e] + es, dry_run) ==> dry_run || model::can_put(m, e),
        room_for(m, seq![e] + es, dry_run) ==> room_for(
            if dry_run {
                m
            } else {
                model::put_one(m, e)
            },
            es,
            dry_run,
        ),
        after_reading(m, seq![e] + es, dry_run) == after_reading(
            if dry_run {
                m
            } else {
                model::put_one(m, e)
            },
            es,
            dry_run,
        ),
{
    assert((seq![e] + es).drop_first() =~= es);
}

/// Puts one record, unless it is a dry run.
fn take_record<'a>(result: &mut WeatherMap<'a>, record: (City<'a>, Temperature), dry_run: bool)
    requires
        old(result).wf(),
        dry_run || model::can_put(
            old(result)@,
            crate::bench::weather_map::entry_of(record),
        ),
    ensures
        final(result).wf(),
        final(result)@ == (if dry_run {
            old(result)@
        } else {
            model::put_one(old(result)@, crate::bench::weather_map::entry_of(record))
        }),
{
    if !dry_run {
        result.put(record);
    }
}

/// The record that starts at `from`, with its separator and its end at hand.
pub(crate) fn record_at<'a>(data: &'a [u8], from: usize, comma: usize, newline: usize) -> (r: (
    City<'a>,
    Temperature,
))
    requires
        from <= data.len(),
        records::has_record(data@, from as int),
        records::readable(data@, from as int),
        comma == records::comma_of(data@, from as int),
        newline == records::end_of(data@, from as int),
    ensures
        crate::bench::weather_map::entry_of(r) == records::entry_at(data@, from as int),
{
    proof {
        records::lemma_record(data@, from as int);
    }
    let name: &'a [u8] = &data[from..comma];
    let value: &[u8] = &data[comma + 1..newline];
    (City::new(name), number::parse_number(value))
}

/// Reads the record that starts at `from`; those behind it are left.
fn read_one<'a>(
    data: &'a [u8],
    from: usize,
    comma: usize,
    newline: usize,
    result: &mut WeatherMap<'a>,
    dry_run: bool,
)
    requires
        from <= data.len(),
        records::has_record(data@, from as int),
        records::readable(data@, from as int),
        comma == records::comma_of(data@, from as int),
        newline == records::end_of(data@, from as int),
        old(result).wf(),
        room_for(old(result)@, records::entries(data@, from as int), dry_run),
    ensures
        final(result).wf(),
        records::readable(data@, newline + 1),
        records::entries(data@, from as int).len() == 1 + records::entries(
            data@,
            newline + 1,
        ).len(),
        room_for(final(result)@, records::entries(data@, newline + 1), dry_run),
        after_reading(old(result)@, records::entries(data@, from as int), dry_run)
            == after_reading(final(result)@, records::entries(data@, newline + 1), dry_run),
{
    let record = record_at(data, from, comma, newline);
    proof {
        lemma_first(
            result@,
            records::entry_at(data@, from as int),
            records::entries(data@, newline + 1),
            dry_run,
        );
    }
    take_record(result, record, dry_run);
}

/// Without a line feed there is no record.
proof fn lemma_no_line_feed(s: Seq<u8>, from: int)
    requires
        0 <= from <= s.len(),
        bytes::next_at(s, bytes::CHR_NL, from) >= s.len(),
    ensures
        !records::has_record(s, from),
{
    records::lemma_record(s, from);
    bytes::lemma_next_at(s, bytes::CHR_NL, from);
}

/// Both delimiters of the records, and the start of the next one.
pub struct Group<'a> {
    commas: Tokenizer<'a>,
    newlines: Tokenizer<'a>,
    leading: usize,
    data: &'a [u8],
}

impl<'a> Group<'a> {
    /// The bytes that are read.
    pub closed spec fn bytes(&self) -> Seq<u8> {
        self.data@
    }

    /// The position from which on nothing has been read yet.
    pub closed spec fn leading(&self) -> int {
        self.leading as int
    }

    pub closed spec fn wf(&self) -> bool {
        &&& self.commas.wf()
        &&& self.newlines.wf()
        &&& self.commas.bytes() == self.data@
        &&& self.newlines.bytes() == self.data@
        &&& self.commas.chr() == bytes::CHR_CM
        &&& self.newlines.chr() == bytes::CHR_NL
        &&& self.leading <= self.data@.len()
        &&& self.newlines.seen() == self.leading
        &&& bytes::next_at(self.data@, bytes::CHR_NL, self.leading as int) < self.data@.len()
            ==> bytes::next_at(self.data@, bytes::CHR_CM, self.commas.seen()) == records::comma_of(
            self.data@,
            self.leading as int,
        )
    }

    /// Starts at the first byte.
    pub fn new(data: &'a [u8]) -> (g: Self)
        requires
            records::scannable(data@),
        ensures
            g.wf(),
            g.bytes() == data@,
            g.leading() == 0,
    {
        proof {
            swar::lemma_masks();
        }
        Group {
            leading: 0,
            commas: Tokenizer::new(data, bytes::CHR_CM, swar::BASE_MASK_CM),
            newlines: Tokenizer::new(data, bytes::CHR_NL, swar::BASE_MASK_NL),
            data,
        }
    }

    /// Reads all records and returns how many there were; none is left.
    pub fn for_each(&mut self, result: &mut WeatherMap<'a>, dry_run: bool) -> (total: u64)
        requires
            old(self).wf(),
            old(result).wf(),
            records::readable(old(self).bytes(), old(self).leading()),
            records::alternating(old(self).bytes(), old(self).leading()),
            room_for(
                old(result)@,
                records::entries(old(self).bytes(), old(self).leading()),
                dry_run,
            ),
        ensures
            final(self).wf(),
            final(self).bytes() == old(self).bytes(),
            records::entries(final(self).bytes(), final(self).leading()).len() == 0,
            records::readable(final(self).bytes(), final(self).leading()),
            records::alternating(final(self).bytes(), final(self).leading()),
            final(result).wf(),
            total == records::entries(old(self).bytes(), old(self).leading()).len(),
            final(result)@ == after_reading(
                old(result)@,
                records::entries(old(self).bytes(), old(self).leading()),
                dry_run,
            ),
    {
        let mut total: u64 = 0;
        let data: &'a [u8] = self.data;
        let len: usize = data.len();
        let ghost all = records::entries(data@, self.leading as int);
        let ghost before = result@;
        loop
            invariant
                self.wf(),
                self.data == data,
                data@ == old(self).bytes(),
                len == data@.len(),
                all == records::entries(old(self).bytes(), old(self).leading()),
                before == old(result)@,
                result.wf(),
                total <= self.leading,
                records::readable(data@, self.leading as int),
                records::alternating(data@, self.leading as int),
                all.len() == total + records::entries(data@, self.leading as int).len(),
                room_for(result@, records::entries(data@, self.leading as int), dry_run),
                after_reading(before, all, dry_run) == after_reading(
                    result@,
                    records::entries(data@, self.leading as int),
                    dry_run,
                ),
            decreases data@.len() - self.leading,
        {
            let from: usize = self.leading;
            proof {
                records::lemma_record(data@, from as int);
                if bytes::next_at(data@, bytes::CHR_NL, from as int) >= len {
                    lemma_no_line_feed(data@, from as int);
                }
            }
            let comma: usize = match self.commas.next() {
                Some(p) => p,
                None => {
                    return total;
                },
            };
            proof {
                bytes::lemma_next_at(data@, bytes::CHR_NL, from as int);
                if bytes::next_at(data@, bytes::CHR_NL, from as int) < len {
                    assert forall|q: int| from <= q < comma + 1 implies #[trigger] data@[q]
                        != bytes::CHR_NL by {}
                    bytes::lemma_next_at_skip(data@, bytes::CHR_NL, from as int, comma + 1);
                }
            }
            let newline: usize = match self.newlines.next() {
                Some(p) => p,
                None => {
                    return total;
                },
            };
            read_one(data, from, comma, newline, result, dry_run);
            proof {
                bytes::lemma_next_at(data@, bytes::CHR_CM, comma + 1);
                bytes::lemma_next_at_skip(data@, bytes::CHR_CM, comma + 1, newline + 1);
            }
            self.leading = newline + 1;
            total = total + 1;
        }
    }
}

/// Reads with two searches that run side by side, one for each delimiter.
pub fn decode_lines_a<'a>(data: &'a [u8], result: &mut WeatherMap<'a>, dry_run: bool) -> (total:
    u64)
    requires
        old(result).wf(),
        records::scannable(data@),
        room_for(old(result)@, records::entries(data@, 0), dry_run),
    ensures
        final(result).wf(),
        total == records::entries(data@, 0).len(),
        final(result)@ == after_reading(old(result)@, records::entries(data@, 0), dry_run),
{
    let mut group = Group::new(data);
    group.for_each(result, dry_run)
}

/// The first sixteen bytes from `from` on, counted in sixteens, that hold a `c`; the last bytes, if
/// fewer than sixteen are left.
pub open spec fn window(s: Seq<u8>, c: u8, from: int) -> (int, int)
    decreases s.len() - from,
{
    if s.len() - from < FIND_SIZE {
        (from, s.len() as int)
    } else if bytes::next_at(s, c, from) < from + FIND_SIZE {
        (from, from + FIND_SIZE)
    } else {
        window(s, c, from + FIND_SIZE)
    }
}

/// The first `n` items of `list` are all positions of `c` in its window from `from` on, in order.
pub open spec fn next_ones(s: Seq<u8>, c: u8, list: Seq<usize>, n: int, from: int) -> bool {
    let w = window(s, c, from);
    token::listed(s, c, list, 0, n, w.0, w.1)
}

/// Fills the cache with the next positions of `chr`: those in the first sixteen bytes that
/// hold one, or those in the last bytes.
fn find_simd(chr: u8, mask: u64, cache: &mut [usize; 3], data: &[u8], from: usize) -> (count:
    usize)
    requires
        from <= data.len(),
        swar::no_look_alike(data@, chr),
        token::spread(data@, chr),
        mask == swar::splat(chr),
    ensures
        count <= 3,
        next_ones(data@, chr, final(cache)@, count as int, from as int),
{
    let mut p: usize = from;
    let mut count: usize = 0;
    while data.len() - p >= FIND_SIZE
        invariant
            from <= p <= data.len(),
            count == 0,
            swar::no_look_alike(data@, chr),
            token::spread(data@, chr),
            mask == swar::splat(chr),
            window(data@, chr, from as int) == window(data@, chr, p as int),
        decreases data.len() - p,
    {
        let ghost start = p as int;
        proof {
            bytes::lemma_next_at(data@, chr, start);
        }
        count = token::fill_word(data, chr, mask, p, Ghost(start), cache, count);
        p = p + swar::BASE_SIZE;
        count = token::fill_word(data, chr, mask, p, Ghost(start), cache, count);
        p = p + swar::BASE_SIZE;
        if count != 0 {
            assert(bytes::next_at(data@, chr, token::after(cache@, 0, 0, start)) == cache@[0]);
            return count;
        }
    }
    let end: usize = data.len();
    token::fill_bytes(data, chr, p, end, cache)
}

/// The first of the next positions is the next one; there is none if there is no `c` left.
proof fn lemma_next_ones(s: Seq<u8>, c: u8, list: Seq<usize>, n: int, from: int)
    requires
        0 <= from <= s.len(),
        next_ones(s, c, list, n, from),
    ensures
        n == 0 ==> bytes::next_at(s, c, from) == s.len(),
        forall|k: int|
            0 <= k < n ==> bytes::next_at(s, c, token::after(list, 0, k, from))
                == #[trigger] list[k] && list[k] < s.len(),
{
    let w = window(s, c, from);
    lemma_window(s, c, from);
    bytes::lemma_next_at(s, c, from);
    assert forall|k: int| 0 <= k < n implies bytes::next_at(s, c, token::after(list, 0, k, from))
        == #[trigger] list[k] && list[k] < s.len() by {
        assert(bytes::next_at(s, c, token::after(list, 0, k, w.0)) == list[k]);
    }
}

/// No `c` stands before its window, and one in it, if there is one.
proof fn lemma_window(s: Seq<u8>, c: u8, from: int)
    requires
        0 <= from <= s.len(),
    ensures
        ({
            let w = window(s, c, from);
            &&& from <= w.0 <= w.1 <= s.len()
            &&& bytes::next_at(s, c, from) == bytes::next_at(s, c, w.0)
            &&& bytes::next_at(s, c, w.0) >= w.1 ==> bytes::next_at(s, c, w.0) == s.len()
        }),
    decreases s.len() - from,
{
    bytes::lemma_next_at(s, c, from);
    if s.len() - from >= FIND_SIZE && bytes::next_at(s, c, from) >= from + FIND_SIZE {
        bytes::lemma_next_at_skip(s, c, from, from + FIND_SIZE);
        lemma_window(s, c, from + FIND_SIZE);
    }
}

/// The next separators.
pub fn find_comma_simd(cache: &mut [usize; 3], data: &[u8], from: usize) -> (count: usize)
    requires
        from <= data.len(),
        swar::no_look_alike(data@, bytes::CHR_CM),
        token::spread(data@, bytes::CHR_CM),
    ensures
        count <= 3,
        next_ones(data@, bytes::CHR_CM, final(cache)@, count as int, from as int),
{
    proof {
        swar::lemma_masks();
    }
    find_simd(bytes::CHR_CM, swar::BASE_MASK_CM, cache, data, from)
}

/// The next line feeds.
pub fn find_newline_simd(cache: &mut [usize; 3], data: &[u8], from: usize) -> (count: usize)
    requires
        from <= data.len(),
        swar::no_look_alike(data@, bytes::CHR_NL),
        token::spread(data@, bytes::CHR_NL),
    ensures
        count <= 3,
        next_ones(data@, bytes::CHR_NL, final(cache)@, count as int, from as int),
{
    proof {
        swar::lemma_masks();
    }
    find_simd(bytes::CHR_NL, swar::BASE_MASK_NL, cache, data, from)
}

/// Where separators and line feeds take turns, the record behind this one starts behind its
/// end, and the next separator is that of the record behind.
proof fn lemma_turns(s: Seq<u8>, from: int)
    requires
        0 <= from <= s.len(),
        records::alternating(s, from),
        records::has_record(s, from),
    ensures
        0 <= from <= records::comma_of(s, from) < records::end_of(s, from) < s.len(),
        bytes::next_at(s, bytes::CHR_NL, from) == records::end_of(s, from),
        bytes::next_at(s, bytes::CHR_CM, records::comma_of(s, from) + 1) == records::comma_of(
            s,
            records::end_of(s, from) + 1,
        ),
{
    records::lemma_record(s, from);
    let i = records::comma_of(s, from);
    let j = records::end_of(s, from);
    bytes::lemma_next_at(s, bytes::CHR_NL, from);
    assert forall|q: int| from <= q < i + 1 implies #[trigger] s[q] != bytes::CHR_NL by {}
    bytes::lemma_next_at_skip(s, bytes::CHR_NL, from, i + 1);
    bytes::lemma_next_at(s, bytes::CHR_CM, i + 1);
    bytes::lemma_next_at_skip(s, bytes::CHR_CM, i + 1, j + 1);
}

/// Where separators and line feeds take turns, the next separator and the next line feed
/// make a record.
proof fn lemma_follow(s: Seq<u8>, from: int)
    requires
        0 <= from <= s.len(),
        records::alternating(s, from),
        records::comma_of(s, from) < s.len(),
        bytes::next_at(s, bytes::CHR_NL, from) < s.len(),
    ensures
        records::has_record(s, from),
        records::end_of(s, from) == bytes::next_at(s, bytes::CHR_NL, from),
        from <= records::comma_of(s, from) < records::end_of(s, from) < s.len(),
        records::alternating(s, records::end_of(s, from) + 1),
{
    records::lemma_record(s, from);
    let i = records::comma_of(s, from);
    bytes::lemma_next_at(s, bytes::CHR_NL, from);
    assert forall|q: int| from <= q < i + 1 implies #[trigger] s[q] != bytes::CHR_NL by {}
    bytes::lemma_next_at_skip(s, bytes::CHR_NL, from, i + 1);
}

/// Reads with a search for the next few separators and one for the next few line feeds, and
/// takes one or two records from what both found.
pub fn decode_lines_b<'a>(data: &'a [u8], result: &mut WeatherMap<'a>, dry_run: bool) -> (total:
    u64)
    requires
        old(result).wf(),
        records::scannable(data@),
        room_for(old(result)@, records::entries(data@, 0), dry_run),
    ensures
        final(result).wf(),
        total == records::entries(data@, 0).len(),
        final(result)@ == after_reading(old(result)@, records::entries(data@, 0), dry_run),
{
    let mut commas: [usize; 3] = [0usize; 3];
    let mut newlns: [usize; 3] = [0usize; 3];
    let mut from: usize = 0;
    let mut total: u64 = 0;
    let ghost all = records::entries(data@, 0);
    let ghost before = result@;
    let len: usize = data.len();
    loop
        invariant
            from <= len,
            len == data@.len(),
            all == records::entries(data@, 0),
            before == old(result)@,
            result.wf(),
            records::scannable(data@),
            total <= from,
            records::readable(data@, from as int),
            records::alternating(data@, from as int),
            all.len() == total + records::entries(data@, from as int).len(),
            room_for(result@, records::entries(data@, from as int), dry_run),
            after_reading(before, all, dry_run) == after_reading(
                result@,
                records::entries(data@, from as int),
                dry_run,
            ),
        decreases len - from,
    {
        proof {
            records::lemma_record(data@, from as int);
        }
        let mut count: usize = find_comma_simd(&mut commas, data, from);
        proof {
            lemma_next_ones(data@, bytes::CHR_CM, commas@, count as int, from as int);
        }
        if count == 0 {
            return total;
        }
        assert(bytes::next_at(data@, bytes::CHR_CM, token::after(commas@, 0, 0, from as int))
            == commas@[0]);
        let found: usize = find_newline_simd(&mut newlns, data, commas[0] + 1);
        proof {
            lemma_next_ones(data@, bytes::CHR_NL, newlns@, found as int, commas@[0] + 1);
        }
        if found < count {
            count = found;
        }
        if count == 0 {
            return total;
        }
        assert(bytes::next_at(data@, bytes::CHR_NL, token::after(newlns@, 0, 0, commas@[0] + 1))
            == newlns@[0]);
        proof {
            lemma_turns(data@, from as int);
        }
        let ghost first = from as int;
        read_one(data, from, commas[0], newlns[0], result, dry_run);
        from = newlns[0] + 1;
        total = total + 1;
        if count >= 2 {
            proof {
                assert(bytes::next_at(data@, bytes::CHR_CM, token::after(commas@, 0, 1, first))
                    == commas@[1]);
                assert(bytes::next_at(
                    data@,
                    bytes::CHR_NL,
                    token::after(newlns@, 0, 1, commas@[0] + 1),
                ) == newlns@[1]);
                lemma_follow(data@, from as int);
            }
            read_one(data, from, commas[1], newlns[1], result, dry_run);
            from = newlns[1] + 1;
            total = total + 1;
        }
    }
}

/// The offset of the first separator in the 64 bytes at `head`, if there is one: two words
/// at a time.
fn comma_in_block(data: &[u8], head: usize) -> (r: Option<usize>)
    requires
        head + 64 <= data.len(),
    ensures
        r matches Some(off) ==> off < 64 && data@[head + off] == bytes::CHR_CM && forall|q: int|
            head <= q < head + off ==> #[trigger] data@[q] != bytes::CHR_CM,
        r is None ==> forall|q: int|
            head <= q < head + 64 ==> #[trigger] data@[q] != bytes::CHR_CM,
{
    let mut i: usize = 0;
    while i < 64
        invariant
            head + 64 <= data.len(),
            i <= 64,
            i % 16 == 0,
            forall|q: int| head <= q < head + i ==> #[trigger] data@[q] != bytes::CHR_CM,
        decreases 64 - i,
    {
        proof {
            swar::lemma_masks();
            swar::lemma_word_first(data@, head + i, bytes::CHR_CM);
            swar::lemma_word_first(data@, head + i + 8, bytes::CHR_CM);
        }
        let tz0: u64 = swar::find_flags(swar::BASE_MASK_CM, swar::word_at(data, head + i));
        let tz1: u64 = swar::find_flags(swar::BASE_MASK_CM, swar::word_at(data, head + i + 8));
        if tz0 != 0 {
            return Some(i + (tz0.trailing_zeros() >> 3u32) as usize);
        }
        if tz1 != 0 {
            return Some(i + 8 + (tz1.trailing_zeros() >> 3u32) as usize);
        }
        i = i + 16;
    }
    None
}

/// The temperature behind the separator at `comma`, from the eight bytes there: its length
/// and what it stands for.
fn value_in_word(data: &[u8], comma: usize) -> (r: (usize, Temperature))
    requires
        comma < data.len(),
        bytes::next_at(data@, bytes::CHR_NL, comma + 1) < data.len(),
        number::number_ok(
            data@.subrange(comma + 1, bytes::next_at(data@, bytes::CHR_NL, comma + 1)),
        ),
    ensures
        ({
            let end = bytes::next_at(data@, bytes::CHR_NL, comma + 1);
            comma + 1 + r.0 == end && r.1 == number::number(data@.subrange(comma + 1, end))
        }),
{
    let value: u64 = swar::word_padded(data, comma + 1);
    let x: u64 = swar::find_flags(swar::BASE_MASK_NL, value);
    let n: u32 = x.trailing_zeros() >> 3u32;
    proof {
        let end = bytes::next_at(data@, bytes::CHR_NL, comma + 1);
        swar::lemma_masks();
        swar::lemma_word_first(data@, comma + 1, bytes::CHR_NL);
        bytes::lemma_next_at(data@, bytes::CHR_NL, comma + 1);
        assert(data@[end] == bytes::CHR_NL);
        bytes::lemma_next_at_is(data@, bytes::CHR_NL, comma + 1, comma + 1 + n);
        swar::lemma_word_le_bytes(data@, comma + 1);
        let text = data@.subrange(comma + 1, end);
        assert(swar::word_bytes(value).take(n as int) =~= text) by {
            assert forall|k: int| 0 <= k < n implies swar::word_bytes(value)[k] == text[k] by {
                assert(swar::byte_of(value, k) == swar::byte_or_zero(data@, comma + 1 + k));
            }
        }
    }
    (n as usize, number::parse_number_ex(value, n))
}

/// The record that starts at `from` is read; those behind it are left.
proof fn lemma_sequence_first(s: Seq<u8>, from: int, m: model::Stations, dry_run: bool)
    requires
        0 <= from <= s.len(),
        records::has_record(s, from),
        records::readable(s, from),
        room_for(m, records::sequence_entries(s, from), dry_run),
    ensures
        ({
            let e = records::sequence_entry_at(s, from);
            let rest = records::sequence_entries(s, records::end_of(s, from) + 1);
            let n = if dry_run {
                m
            } else {
                model::put_one(m, e)
            };
            &&& dry_run || model::can_put(m, e)
            &&& room_for(n, rest, dry_run)
            &&& after_reading(m, records::sequence_entries(s, from), dry_run) == after_reading(
                n,
                rest,
                dry_run,
            )
            &&& records::sequence_entries(s, from).len() == 1 + rest.len()
            &&& records::readable(s, records::end_of(s, from) + 1)
        }),
{
    lemma_first(
        m,
        records::sequence_entry_at(s, from),
        records::sequence_entries(s, records::end_of(s, from) + 1),
        dry_run,
    );
}

/// Reads record by record: the separator in blocks of 64 bytes, the temperature from one
/// word; the last bytes one by one. The fingerprint of a name is made from the first word of the
/// block in which its separator stands, which for a name as long as a block is not that of the name.
pub fn decode_lines_c<'a>(data: &'a [u8], result: &mut WeatherMap<'a>, dry_run: bool) -> (total:
    u64)
    requires
        old(result).wf(),
        records::readable(data@, 0),
        records::finished(data@, 0),
        room_for(old(result)@, records::sequence_entries(data@, 0), dry_run),
    ensures
        final(result).wf(),
        total == records::sequence_entries(data@, 0).len(),
        final(result)@ == after_reading(old(result)@, records::sequence_entries(data@, 0), dry_run),
{
    let len: usize = data.len();
    let mut head: usize = 0;
    let mut mark: usize = 0;
    let mut total: u64 = 0;
    let ghost all = records::sequence_entries(data@, 0);
    let ghost before = result@;
    while len - head >= 64
        invariant
            len == data@.len(),
            mark <= head <= len,
            (head - mark) % 64 == 0,
            forall|q: int| mark <= q < head ==> #[trigger] data@[q] != bytes::CHR_CM,
            all == records::sequence_entries(data@, 0),
            before == old(result)@,
            result.wf(),
            total <= mark,
            records::readable(data@, mark as int),
            records::finished(data@, mark as int),
            all.len() == total + records::sequence_entries(data@, mark as int).len(),
            room_for(result@, records::sequence_entries(data@, mark as int), dry_run),
            after_reading(before, all, dry_run) == after_reading(
                result@,
                records::sequence_entries(data@, mark as int),
                dry_run,
            ),
        decreases len - head,
    {
        match comma_in_block(data, head) {
            None => {
                head = head + 64;
            },
            Some(off) => {
                let comma: usize = head + off;
                proof {
                    bytes::lemma_next_at_is(data@, bytes::CHR_CM, mark as int, comma as int);
                    records::lemma_record(data@, mark as int);
                    assert(records::comma_block(data@, mark as int) == head);
                    lemma_sequence_first(data@, mark as int, result@, dry_run);
                }
                let (n, value) = value_in_word(data, comma);
                let name: &'a [u8] = &data[mark..comma];
                let word: u64 = swar::word_at(data, head);
                assert(name@ == records::name_at(data@, mark as int));
                let city = City::new_ex(name, word);
                take_record(result, (city, value), dry_run);
                mark = comma + 1 + n + 1;
                head = mark;
                total = total + 1;
            },
        }
    }
    loop
        invariant
            len == data@.len(),
            mark <= head <= len,
            len - head < 64,
            (head - mark) % 64 == 0,
            forall|q: int| mark <= q < head ==> #[trigger] data@[q] != bytes::CHR_CM,
            all == records::sequence_entries(data@, 0),
            before == old(result)@,
            result.wf(),
            total <= mark,
            records::readable(data@, mark as int),
            all.len() == total + records::sequence_entries(data@, mark as int).len(),
            room_for(result@, records::sequence_entries(data@, mark as int), dry_run),
            after_reading(before, all, dry_run) == after_reading(
                result@,
                records::sequence_entries(data@, mark as int),
                dry_run,
            ),
        decreases len - head,
    {
        let comma: usize = text::index_of(data, bytes::CHR_CM, head);
        proof {
            bytes::lemma_next_at_skip(data@, bytes::CHR_CM, mark as int, head as int);
            records::lemma_record(data@, mark as int);
        }
        if comma == len {
            return total;
        }
        let newline: usize = text::index_of(data, bytes::CHR_NL, comma + 1);
        if newline == len {
            return total;
        }
        proof {
            assert(records::comma_block(data@, mark as int) >= head);
            lemma_sequence_first(data@, mark as int, result@, dry_run);
            records::lemma_sequence_entry(data@, mark as int);
        }
        let record = record_at(data, mark, comma, newline);
        take_record(result, record, dry_run);
        head = newline + 1;
        mark = head;
        total = total + 1;
    }
}

/// Where the window of the first `c` lies.
proof fn lemma_window_places(s: Seq<u8>, c: u8, from: int)
    requires
        0 <= from <= s.len(),
        bytes::next_at(s, c, from) < s.len(),
    ensures
        ({
            let b = from + 16 * ((bytes::next_at(s, c, from) - from) / 16);
            window(s, c, from) == (
                b,
                if b + 16 <= s.len() {
                    b + 16
                } else {
                    s.len() as int
                },
            )
        }),
    decreases s.len() - from,
{
    bytes::lemma_next_at(s, c, from);
    if s.len() - from >= FIND_SIZE && bytes::next_at(s, c, from) >= from + FIND_SIZE {
        bytes::lemma_next_at_skip(s, c, from, from + FIND_SIZE);
        lemma_window_places(s, c, from + FIND_SIZE);
    }
}

/// Each item of a list of positions is a position behind the one before.
proof fn lemma_in_order(s: Seq<u8>, c: u8, list: Seq<usize>, n: int, from: int)
    requires
        0 <= n <= list.len(),
        0 <= from <= s.len(),
        forall|k: int|
            0 <= k < n ==> bytes::next_at(s, c, token::after(list, 0, k, from))
                == #[trigger] list[k] && list[k] < s.len(),
    ensures
        forall|k: int| 0 <= k < n ==> from <= #[trigger] list[k] < s.len() && s[list[k] as int] == c,
        forall|j: int, k: int| 0 <= j < k < n ==> #[trigger] list[j] < #[trigger] list[k],
    decreases n,
{
    if n > 0 {
        lemma_in_order(s, c, list, n - 1, from);
        let last = list[n - 1];
        if n > 1 {
            assert(from <= list[n - 2] < s.len());
        }
        bytes::lemma_next_at(s, c, token::after(list, 0, n - 1, from));
        assert forall|j: int, k: int| 0 <= j < k < n implies #[trigger] list[j]
            < #[trigger] list[k] by {
            if k == n - 1 && j < n - 2 {
                assert(list[j] < list[n - 2]);
            }
        }
    }
}

/// No position up to the last item of a list is missing in it.
proof fn lemma_none_missing(s: Seq<u8>, c: u8, list: Seq<usize>, n: int, from: int, p: int) -> (k: int)
    requires
        0 < n <= list.len(),
        0 <= from <= p < s.len(),
        s[p] == c,
        p <= list[n - 1],
        forall|k: int|
            0 <= k < n ==> bytes::next_at(s, c, token::after(list, 0, k, from))
                == #[trigger] list[k] && list[k] < s.len(),
    ensures
        0 <= k < n,
        list[k] == p,
    decreases n,
{
    if p == list[n - 1] {
        n - 1
    } else {
        lemma_in_order(s, c, list, n, from);
        let start = token::after(list, 0, n - 1, from);
        if n > 1 {
            assert(from <= list[n - 2] < s.len());
        }
        bytes::lemma_next_at(s, c, start);
        assert(bytes::next_at(s, c, start) == list[n - 1]);
        lemma_none_missing(s, c, list, n - 1, from, p)
    }
}

/// The positions that are found are those of `c`, in order: all in the first sixteen bytes from `from`
/// on, counted in sixteens, that hold one, or in the last bytes; none only if there is no `c` left.
pub proof fn law_next_ones(s: Seq<u8>, c: u8, list: Seq<usize>, n: int, from: int)
    requires
        0 <= from <= s.len(),
        next_ones(s, c, list, n, from),
    ensures
        0 <= n <= list.len(),
        n == 0 ==> forall|p: int| from <= p < s.len() ==> #[trigger] s[p] != c,
        forall|k: int| 0 <= k < n ==> from <= #[trigger] list[k] < s.len() && s[list[k] as int] == c,
        forall|j: int, k: int| 0 <= j < k < n ==> #[trigger] list[j] < #[trigger] list[k],
        n > 0 ==> ({
            let b = from + 16 * ((list[0] - from) / 16);
            let end = if b + 16 <= s.len() {
                b + 16
            } else {
                s.len() as int
            };
            &&& list[n - 1] < end
            &&& forall|p: int|
                from <= p < end && #[trigger] s[p] == c ==> list.take(n).contains(p as usize)
        }),
{
    let w = window(s, c, from);
    lemma_window(s, c, from);
    lemma_next_ones(s, c, list, n, from);
    lemma_in_order(s, c, list, n, from);
    bytes::lemma_next_at(s, c, from);
    if n > 0 {
        assert(bytes::next_at(s, c, token::after(list, 0, 0, from)) == list[0]);
        lemma_window_places(s, c, from);
        assert(list[n - 1] < w.1);
        assert forall|p: int| from <= p < w.1 && #[trigger] s[p] == c implies list.take(n).contains(
            p as usize,
        ) by {
            let start = token::after(list, 0, n, w.0);
            bytes::lemma_next_at(s, c, start);
            let k = lemma_none_missing(s, c, list, n, from, p);
            assert(list.take(n)[k] == p as usize);
        }
    }
}

} // verus!
