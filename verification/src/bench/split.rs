//! Reading the data piece by piece comes to the same as reading it in one go.
use vstd::prelude::*;
use crate::bench::model;
use crate::bench::model::Entry;
use crate::bench::records;
use crate::bench::roundtrip;
use crate::bench::token;
use crate::bytes;
use crate::scanner;
use crate::stats::Stats;
use crate::swar;
use crate::table;

verus! {

/// `lo..hi` is a piece: it ends with a line feed, or with the data.
pub open spec fn is_piece(s: Seq<u8>, lo: int, hi: int) -> bool {
    &&& 0 <= lo <= hi <= s.len()
    &&& hi < s.len() ==> lo < hi && s[hi - 1] == bytes::CHR_NL
}

/// A record that starts inside a piece ends in it, if lines are records.
pub proof fn lemma_record_inside(s: Seq<u8>, lo: int, hi: int, from: int)
    requires
        is_piece(s, lo, hi),
        lo <= from <= hi,
        records::alternating(s, from),
    ensures
        from < hi && records::has_record(s, from) ==> records::end_of(s, from) < hi,
        from < hi < s.len() && records::comma_of(s, from) < s.len() ==> records::has_record(
            s,
            from,
        ),
{
    if from < hi < s.len() && records::comma_of(s, from) < s.len() {
        let i = records::comma_of(s, from);
        records::lemma_record(s, from);
        bytes::lemma_next_at(s, bytes::CHR_NL, from);
        bytes::lemma_next_at(s, bytes::CHR_NL, i + 1);
        assert(s[hi - 1] == bytes::CHR_NL);
    }
}

/// What stands in a piece reads the same there as in the whole.
pub proof fn lemma_record_same(s: Seq<u8>, lo: int, hi: int, from: int)
    requires
        is_piece(s, lo, hi),
        lo <= from <= hi,
        records::alternating(s, from),
    ensures
        ({
            let t = s.subrange(lo, hi);
            &&& records::has_record(t, from - lo) <==> from < hi && records::has_record(s, from)
            &&& records::has_record(t, from - lo) ==> {
                &&& records::comma_of(t, from - lo) == records::comma_of(s, from) - lo
                &&& records::end_of(t, from - lo) == records::end_of(s, from) - lo
                &&& records::name_at(t, from - lo) == records::name_at(s, from)
                &&& records::value_at(t, from - lo) == records::value_at(s, from)
                &&& records::entry_at(t, from - lo) == records::entry_at(s, from)
                &&& records::end_of(s, from) < hi
            }
        }),
{
    let t = s.subrange(lo, hi);
    lemma_record_inside(s, lo, hi, from);
    records::lemma_record(s, from);
    records::lemma_record(t, from - lo);
    bytes::lemma_next_at_sub(s, bytes::CHR_CM, lo, hi, from - lo);
    if records::comma_of(t, from - lo) < t.len() {
        bytes::lemma_next_at_sub(s, bytes::CHR_NL, lo, hi, records::comma_of(t, from - lo) + 1);
    }
    if records::has_record(t, from - lo) {
        assert(records::name_at(t, from - lo) =~= records::name_at(s, from));
        assert(records::value_at(t, from - lo) =~= records::value_at(s, from));
    }
}

/// The records of the whole are those of a piece and those behind it.
pub proof fn lemma_entries_piece(s: Seq<u8>, lo: int, hi: int, from: int)
    requires
        is_piece(s, lo, hi),
        lo <= from <= hi,
        records::alternating(s, from),
    ensures
        ({
            let t = s.subrange(lo, hi);
            &&& records::entries(s, from) == records::entries(t, from - lo) + records::entries(s, hi)
            &&& records::alternating(t, from - lo)
            &&& records::alternating(s, hi)
            &&& records::readable(s, from) ==> records::readable(t, from - lo) && records::readable(
                s,
                hi,
            )
            &&& records::short_names(s, from) ==> records::short_names(t, from - lo)
                && records::short_names(s, hi)
            &&& records::finished(s, from) ==> records::finished(t, from - lo) && records::finished(
                s,
                hi,
            )
        }),
    decreases s.len() - from,
{
    let t = s.subrange(lo, hi);
    lemma_record_same(s, lo, hi, from);
    if from == hi {
        records::lemma_record(t, from - lo);
        assert(records::entries(s, from) =~= records::entries(t, from - lo) + records::entries(
            s,
            hi,
        ));
    } else if records::has_record(s, from) {
        let next = records::end_of(s, from) + 1;
        records::lemma_record(s, from);
        lemma_entries_piece(s, lo, hi, next);
        assert(records::entries(s, from) =~= records::entries(t, from - lo) + records::entries(
            s,
            hi,
        ));
        bytes::lemma_next_at_sub(s, bytes::CHR_NL, lo, hi, from - lo);
        bytes::lemma_next_at_sub(
            s,
            bytes::CHR_CM,
            lo,
            hi,
            records::comma_of(t, from - lo) + 1,
        );
        bytes::lemma_next_at(s, bytes::CHR_CM, records::comma_of(s, from) + 1);
        bytes::lemma_next_at(s, bytes::CHR_NL, from);
    } else {
        records::lemma_record(s, from);
        records::lemma_record(t, from - lo);
        lemma_record_inside(s, lo, hi, from);
        bytes::lemma_next_at_sub(s, bytes::CHR_CM, lo, hi, from - lo);
        bytes::lemma_next_at_sub(s, bytes::CHR_NL, lo, hi, from - lo);
        bytes::lemma_next_at(s, bytes::CHR_CM, from);
        bytes::lemma_next_at(s, bytes::CHR_NL, from);
        if hi < s.len() {
            bytes::lemma_next_at_skip(s, bytes::CHR_CM, from, hi);
        } else {
            records::lemma_record(s, hi);
        }
        assert(records::entries(s, from) =~= records::entries(t, from - lo) + records::entries(
            s,
            hi,
        ));
    }
}

/// What stands behind the data makes no difference to a record in it.
pub proof fn lemma_record_before(a: Seq<u8>, b: Seq<u8>, from: int)
    requires
        0 <= from <= a.len(),
        records::has_record(a, from),
    ensures
        records::has_record(a + b, from),
        records::comma_of(a + b, from) == records::comma_of(a, from),
        records::end_of(a + b, from) == records::end_of(a, from),
        records::name_at(a + b, from) == records::name_at(a, from),
        records::value_at(a + b, from) == records::value_at(a, from),
        from <= records::comma_of(a, from) < records::end_of(a, from) < a.len(),
{
    let s = a + b;
    let n = a.len() as int;
    assert(s.subrange(0, n) =~= a);
    records::lemma_record(a, from);
    records::lemma_record(s, from);
    bytes::lemma_next_at_sub(s, bytes::CHR_CM, 0, n, from);
    bytes::lemma_next_at_sub(s, bytes::CHR_NL, 0, n, records::comma_of(a, from) + 1);
    assert(records::name_at(s, from) =~= records::name_at(a, from));
    assert(records::value_at(s, from) =~= records::value_at(a, from));
}

/// Behind whole records others follow on: both together hold the records of each.
pub proof fn law_records_join(a: Seq<u8>, b: Seq<u8>, from: int)
    requires
        0 <= from <= a.len(),
        records::whole(a, from),
    ensures
        records::entries(a + b, from) == records::entries(a, from) + records::entries(b, 0),
        records::readable(a + b, from) <==> records::readable(a, from) && records::readable(b, 0),
        records::alternating(a + b, from) <==> records::alternating(a, from)
            && records::alternating(b, 0),
        records::short_names(a + b, from) <==> records::short_names(a, from)
            && records::short_names(b, 0),
        records::finished(a + b, from) <==> records::finished(b, 0),
    decreases a.len() - from,
{
    let s = a + b;
    let n = a.len() as int;
    records::lemma_record(a, from);
    if records::has_record(a, from) {
        lemma_record_before(a, b, from);
        law_records_join(a, b, records::end_of(a, from) + 1);
        assert(s.subrange(0, n) =~= a);
        bytes::lemma_next_at_sub(s, bytes::CHR_NL, 0, n, from);
        bytes::lemma_next_at_sub(s, bytes::CHR_CM, 0, n, records::comma_of(a, from) + 1);
        assert(records::entries(s, from) =~= records::entries(a, from) + records::entries(b, 0));
    } else {
        roundtrip::lemma_records_behind(a, b, 0);
        assert(records::entries(s, from) =~= records::entries(a, from) + records::entries(b, 0));
    }
}

/// A piece keeps delimiters apart as the whole does.
proof fn lemma_spread_piece(s: Seq<u8>, lo: int, hi: int, c: u8)
    requires
        0 <= lo <= hi <= s.len(),
        token::spread(s, c),
        swar::no_look_alike(s, c),
    ensures
        token::spread(s.subrange(lo, hi), c),
        swar::no_look_alike(s.subrange(lo, hi), c),
{
    let t = s.subrange(lo, hi);
    assert forall|p: int| 0 <= p < t.len() && #[trigger] t[p] == c implies {
        let q = token::third_after(t, c, p);
        q >= t.len() || q - p >= swar::FIND_SIZE
    } by {
        assert(s[lo + p] == c);
        let a = bytes::next_at(t, c, p + 1);
        bytes::lemma_next_at_sub(s, c, lo, hi, p + 1);
        bytes::lemma_next_at(t, c, p + 1);
        if a < t.len() {
            let b = bytes::next_at(t, c, a + 1);
            bytes::lemma_next_at_sub(s, c, lo, hi, a + 1);
            bytes::lemma_next_at(t, c, a + 1);
            if b < t.len() {
                bytes::lemma_next_at_sub(s, c, lo, hi, b + 1);
            }
        }
    }
    assert forall|i: int| 0 <= i < t.len() - 1 && #[trigger] t[i] == c implies t[i + 1] != c
        ^ 1 by {
        assert(s[lo + i] == c);
    }
}

/// The pieces of what can be read can be read.
pub proof fn law_piece_scannable(s: Seq<u8>, lo: int, hi: int)
    requires
        is_piece(s, lo, hi),
        records::alternating(s, lo),
        records::readable(s, lo),
        records::scannable(s),
    ensures
        records::scannable(s.subrange(lo, hi)),
{
    lemma_entries_piece(s, lo, hi, lo);
    lemma_spread_piece(s, lo, hi, bytes::CHR_CM);
    lemma_spread_piece(s, lo, hi, bytes::CHR_NL);
}

/// The records of the pieces, one piece after the other.
pub open spec fn all_entries(ps: Seq<Seq<u8>>) -> Seq<Entry>
    decreases ps.len(),
{
    if ps.len() == 0 {
        seq![]
    } else {
        records::entries(ps[0], 0) + all_entries(ps.drop_first())
    }
}

/// However the data is cut, its pieces hold its records, in their order.
pub proof fn law_pieces_hold_records(s: Seq<u8>, off: int, slice: int)
    requires
        0 <= off <= s.len(),
        0 <= slice,
        records::alternating(s, off),
    ensures
        all_entries(scanner::pieces(s, off, slice)) == records::entries(s, off),
    decreases s.len() - off,
{
    if off < s.len() {
        scanner::lemma_piece_end(s, off, slice);
        let end = scanner::piece_end(s, off, slice);
        lemma_entries_piece(s, off, end, off);
        law_pieces_hold_records(s, end, slice);
        let ps = scanner::pieces(s, off, slice);
        assert(ps.drop_first() =~= scanner::pieces(s, end, slice));
    } else {
        records::lemma_record(s, off);
    }
}

/// What a table holds once a piece has been read into it.
pub open spec fn piece_table(p: Seq<u8>) -> Map<model::Key, Stats> {
    model::stations_table(model::put_all(Map::empty(), records::entries(p, 0)))
}

/// The tables of all pieces, merged.
pub open spec fn merged_tables(ps: Seq<Seq<u8>>) -> Map<model::Key, Stats>
    decreases ps.len(),
{
    if ps.len() == 0 {
        Map::empty()
    } else {
        table::merged(piece_table(ps[0]), merged_tables(ps.drop_first()))
    }
}

/// The tables of pieces that hold these records, merged, are what is known from the records.
proof fn lemma_merged_tables(ps: Seq<Seq<u8>>)
    requires
        model::distinct(all_entries(ps)),
    ensures
        merged_tables(ps) == model::tally(all_entries(ps)),
    decreases ps.len(),
{
    if ps.len() > 0 {
        let a = records::entries(ps[0], 0);
        let b = all_entries(ps.drop_first());
        let es = a + b;
        assert(model::distinct(a)) by {
            assert forall|i: int, j: int|
                0 <= i < a.len() && 0 <= j < a.len() && (#[trigger] a[i]).fp == (
                #[trigger] a[j]).fp implies a[i].name == a[j].name by {
                assert(es[i].fp == es[j].fp);
            }
        }
        assert(model::distinct(b)) by {
            assert forall|i: int, j: int|
                0 <= i < b.len() && 0 <= j < b.len() && (#[trigger] b[i]).fp == (
                #[trigger] b[j]).fp implies b[i].name == b[j].name by {
                assert(es[a.len() + i].fp == es[a.len() + j].fp);
            }
        }
        lemma_merged_tables(ps.drop_first());
        model::law_table_tallies(a);
        model::law_tally_add(a, b);
    }
}

/// However the data is cut, merging what the pieces hold gives what reading it in one go gives,
/// if no two names share a fingerprint.
pub proof fn law_slices_agree(s: Seq<u8>, slice: int)
    requires
        0 <= slice,
        records::alternating(s, 0),
        model::distinct(records::entries(s, 0)),
    ensures
        merged_tables(scanner::pieces(s, 0, slice)) == piece_table(s),
{
    law_pieces_hold_records(s, 0, slice);
    lemma_merged_tables(scanner::pieces(s, 0, slice));
    model::law_table_tallies(records::entries(s, 0));
}

/// The tables of pieces, merged, know of a station with a fingerprint of its own what its records say.
proof fn lemma_merged_at(ps: Seq<Seq<u8>>, k: model::Key)
    requires
        model::alone(all_entries(ps), k),
    ensures
        model::same_at(merged_tables(ps), model::tally(all_entries(ps)), k),
    decreases ps.len(),
{
    if ps.len() > 0 {
        let a = records::entries(ps[0], 0);
        let b = all_entries(ps.drop_first());
        let es = a + b;
        assert(model::alone(a, k)) by {
            assert forall|i: int| 0 <= i < a.len() && (#[trigger] a[i]).fp == k.0 implies a[i].name
                == k.1 by {
                assert(es[i].fp == k.0);
            }
        }
        assert(model::alone(b, k)) by {
            assert forall|i: int| 0 <= i < b.len() && (#[trigger] b[i]).fp == k.0 implies b[i].name
                == k.1 by {
                assert(es[a.len() + i].fp == k.0);
            }
        }
        lemma_merged_at(ps.drop_first(), k);
        model::law_own_row(a, k);
        model::law_tally_add(a, b);
    }
}

/// However the data is cut, what is known of a station with a fingerprint of its own is what its records
/// say, whatever other stations share.
pub proof fn law_slices_keep_station(s: Seq<u8>, slice: int, k: model::Key)
    requires
        0 <= slice,
        records::alternating(s, 0),
        model::alone(records::entries(s, 0), k),
    ensures
        model::same_at(
            merged_tables(scanner::pieces(s, 0, slice)),
            model::tally(records::entries(s, 0)),
            k,
        ),
{
    law_pieces_hold_records(s, 0, slice);
    lemma_merged_at(scanner::pieces(s, 0, slice), k);
}

} // verus!
