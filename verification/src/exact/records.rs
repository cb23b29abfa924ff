//! The records in a piece of the data file, by name.
use vstd::prelude::*;
use crate::bench::records;
use crate::bench::split;
use crate::bytes;
use crate::exact::model;
use crate::exact::model::Entry;
use crate::exact::number;
use crate::exact::roundtrip;
use crate::scanner;
use crate::table;

verus! {

/// The record that starts at `from`.
pub open spec fn entry_at(s: Seq<u8>, from: int) -> Entry {
    Entry {
        name: records::name_at(s, from),
        temp: number::number(records::value_at(s, from)),
    }
}

/// The records from `from` on, up to the last whole one.
pub open spec fn entries(s: Seq<u8>, from: int) -> Seq<Entry>
    decreases s.len() - from,
{
    if records::has_record(s, from) {
        proof {
            records::lemma_record_steps(s, from);
        }
        seq![entry_at(s, from)] + entries(s, records::end_of(s, from) + 1)
    } else {
        seq![]
    }
}

/// Every whole record from `from` on has a number that can be read.
pub open spec fn readable(s: Seq<u8>, from: int) -> bool
    decreases s.len() - from,
{
    records::has_record(s, from) ==> {
        proof {
            records::lemma_record_steps(s, from);
        }
        &&& number::number_ok(records::value_at(s, from))
        &&& readable(s, records::end_of(s, from) + 1)
    }
}

/// No temperature is beyond what three digits of four bits make.
pub proof fn law_entries_in_range(s: Seq<u8>, from: int)
    ensures
        forall|i: int|
            0 <= i < entries(s, from).len() ==> -1665 <= (#[trigger] entries(s, from)[i]).temp
                <= 1665,
    decreases s.len() - from,
{
    if records::has_record(s, from) {
        records::lemma_record_steps(s, from);
        let next = records::end_of(s, from) + 1;
        law_entries_in_range(s, next);
        let es = entries(s, from);
        assert forall|i: int| 0 <= i < es.len() implies -1665 <= (#[trigger] es[i]).temp
            <= 1665 by {
            if i > 0 {
                assert(es[i] == entries(s, next)[i - 1]);
            }
        }
    }
}

/// A piece holds no more records than bytes.
pub proof fn lemma_entries_len(p: Seq<u8>, from: int)
    requires
        0 <= from <= p.len(),
    ensures
        entries(p, from).len() <= p.len() - from,
    decreases p.len() - from,
{
    if records::has_record(p, from) {
        records::lemma_record(p, from);
        lemma_entries_len(p, records::end_of(p, from) + 1);
    }
}

/// The records of the whole are those of a piece and those behind it.
pub proof fn lemma_entries_piece(s: Seq<u8>, lo: int, hi: int, from: int)
    requires
        split::is_piece(s, lo, hi),
        lo <= from <= hi,
        records::alternating(s, from),
    ensures
        entries(s, from) == entries(s.subrange(lo, hi), from - lo) + entries(s, hi),
        readable(s, from) ==> readable(s.subrange(lo, hi), from - lo) && readable(s, hi),
    decreases s.len() - from,
{
    let t = s.subrange(lo, hi);
    split::lemma_record_same(s, lo, hi, from);
    if from == hi {
        assert(entries(s, from) =~= entries(t, from - lo) + entries(s, hi));
    } else if records::has_record(s, from) {
        records::lemma_record(s, from);
        lemma_entries_piece(s, lo, hi, records::end_of(s, from) + 1);
        assert(entries(s, from) =~= entries(t, from - lo) + entries(s, hi));
    } else {
        records::lemma_record(s, from);
        split::lemma_record_inside(s, lo, hi, from);
        bytes::lemma_next_at(s, bytes::CHR_CM, from);
        if hi < s.len() {
            bytes::lemma_next_at_skip(s, bytes::CHR_CM, from, hi);
        } else {
            records::lemma_record(s, hi);
        }
        assert(entries(s, from) =~= entries(t, from - lo) + entries(s, hi));
    }
}

/// Behind whole records others follow on: both together hold the records of each.
pub proof fn law_records_join(a: Seq<u8>, b: Seq<u8>, from: int)
    requires
        0 <= from <= a.len(),
        records::whole(a, from),
    ensures
        entries(a + b, from) == entries(a, from) + entries(b, 0),
        readable(a + b, from) <==> readable(a, from) && readable(b, 0),
    decreases a.len() - from,
{
    records::lemma_record(a, from);
    if records::has_record(a, from) {
        split::lemma_record_before(a, b, from);
        law_records_join(a, b, records::end_of(a, from) + 1);
    } else {
        roundtrip::lemma_records_behind(a, b, 0);
    }
    assert(entries(a + b, from) =~= entries(a, from) + entries(b, 0));
}

/// What a table holds once a piece has been read into it.
pub open spec fn piece_table(p: Seq<u8>) -> model::Stations {
    model::put_all(Map::empty(), entries(p, 0))
}

/// The tables of all pieces, merged.
pub open spec fn merged_tables(ps: Seq<Seq<u8>>) -> model::Stations
    decreases ps.len(),
{
    if ps.len() == 0 {
        Map::empty()
    } else {
        table::merged(piece_table(ps[0]), merged_tables(ps.drop_first()))
    }
}

/// However the data is cut, merging what the pieces hold gives what reading it in one go gives.
pub proof fn law_slices_agree(s: Seq<u8>, off: int, slice: int)
    requires
        0 <= off <= s.len(),
        0 <= slice,
        records::alternating(s, off),
    ensures
        merged_tables(scanner::pieces(s, off, slice)) == model::put_all(
            Map::empty(),
            entries(s, off),
        ),
    decreases s.len() - off,
{
    if off < s.len() {
        scanner::lemma_piece_end(s, off, slice);
        let end = scanner::piece_end(s, off, slice);
        lemma_entries_piece(s, off, end, off);
        split::lemma_entries_piece(s, off, end, off);
        law_slices_agree(s, end, slice);
        let ps = scanner::pieces(s, off, slice);
        assert(ps.drop_first() =~= scanner::pieces(s, end, slice));
        model::law_put_all_merges(entries(ps[0], 0), entries(s, end));
    } else {
        records::lemma_record(s, off);
    }
}

} // verus!
