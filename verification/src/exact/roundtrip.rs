//! What is read of a data file is what was written into it.
use vstd::prelude::*;
use crate::bench::records;
use crate::bench::roundtrip;
use crate::bytes;
use crate::bytes::{CHR_CM, CHR_NL};
use crate::exact::model::Entry;
use crate::exact::number;
use crate::exact::records as named;
use crate::generate;
use crate::generate::Record;
use crate::text;

verus! {

/// A temperature as it is written can be read, and reads as what it was.
#[verifier::spinoff_prover]
pub proof fn law_number_reads_back(neg: bool, t: nat)
    requires
        t < 1000,
    ensures
        number::number_ok(text::fixed1(neg, t)),
        number::number(text::fixed1(neg, t)) == (if neg {
            -t
        } else {
            t as int
        }),
{
    let w = t / 10;
    let s = text::fixed1(neg, t);
    let d = text::fixed1(false, t);
    reveal_with_fuel(text::dec, 3);
    if neg {
        assert(s.skip(1) =~= d);
    }
    assert(t == 10 * w + t % 10);
    if w < 10 {
        assert(d =~= seq![(48 + w) as u8, text::CHR_DOT, (48 + t % 10) as u8]);
    } else {
        assert(text::dec(w) =~= seq![(48 + w / 10) as u8, (48 + w % 10) as u8]);
        assert(d =~= seq![
            (48 + w / 10) as u8,
            (48 + w % 10) as u8,
            text::CHR_DOT,
            (48 + t % 10) as u8,
        ]);
        assert(w == 10 * (w / 10) + w % 10);
    }
    let first = d[0];
    assert(45u8 & 0x10 == 0) by (bit_vector);
    assert(48 <= first <= 57 ==> first & 0x10 != 0) by (bit_vector);
}

/// What is read of a record.
pub open spec fn read_of(r: Record) -> Entry {
    Entry {
        name: r.name,
        temp: if r.neg {
            -r.tenths
        } else {
            r.tenths as int
        },
    }
}

/// The records can be written so that they can be read: names without delimiters, empty ones too, below
/// a hundred degrees.
pub open spec fn writable(rs: Seq<Record>) -> bool {
    forall|i: int|
        0 <= i < rs.len() ==> generate::undelimited((#[trigger] rs[i]).name) && rs[i].tenths < 1000
}

/// What stands before the data makes no difference to the records behind.
pub proof fn lemma_records_behind(a: Seq<u8>, b: Seq<u8>, from: int)
    requires
        0 <= from <= b.len(),
    ensures
        named::entries(a + b, a.len() + from) == named::entries(b, from),
        named::readable(a + b, a.len() + from) == named::readable(b, from),
    decreases b.len() - from,
{
    let s = a + b;
    let lo = a.len() as int;
    roundtrip::lemma_next_behind(a, b, CHR_CM, from);
    records::lemma_record(b, from);
    records::lemma_record(s, lo + from);
    let i = records::comma_of(b, from);
    if i < b.len() {
        roundtrip::lemma_next_behind(a, b, CHR_NL, i + 1);
        if records::has_record(b, from) {
            assert(records::name_at(s, lo + from) =~= records::name_at(b, from));
            assert(records::value_at(s, lo + from) =~= records::value_at(b, from));
            lemma_records_behind(a, b, records::end_of(b, from) + 1);
        }
    }
}

/// All records that were written are read, in their order, as what they were.
pub proof fn law_reads_back(rs: Seq<Record>)
    requires
        writable(rs),
    ensures
        named::entries(generate::file_text(rs), 0) == rs.map_values(|r: Record| read_of(r)),
        named::readable(generate::file_text(rs), 0),
    decreases rs.len(),
{
    let s = generate::file_text(rs);
    let es = rs.map_values(|r: Record| read_of(r));
    if rs.len() == 0 {
        assert(named::entries(s, 0) =~= es);
    } else {
        let r = rs[0];
        let a = r.line();
        let rest = rs.drop_first();
        let b = generate::file_text(rest);
        let n = r.name.len() as int;
        assert(writable(rest)) by {
            assert forall|i: int| 0 <= i < rest.len() implies generate::undelimited(
                (#[trigger] rest[i]).name,
            ) && rest[i].tenths < 1000 by {
                assert(rest[i] == rs[i + 1]);
            }
        }
        law_reads_back(rest);
        lemma_records_behind(a, b, 0);
        assert(generate::undelimited(r.name) && r.tenths < 1000);
        roundtrip::lemma_line(r);
        assert forall|j: int| 0 <= j < n implies #[trigger] s[j] != CHR_CM by {
            assert(s[j] == a[j]);
        }
        bytes::lemma_next_at_is(s, CHR_CM, 0, n);
        assert forall|j: int| 0 <= j < a.len() - 1 implies #[trigger] s[j] != CHR_NL by {
            assert(s[j] == a[j]);
        }
        bytes::lemma_next_at_is(s, CHR_NL, n + 1, a.len() - 1);
        assert(records::name_at(s, 0) =~= r.name);
        assert(records::value_at(s, 0) =~= text::fixed1(r.neg, r.tenths));
        law_number_reads_back(r.neg, r.tenths);
        assert(named::entries(s, 0) =~= seq![read_of(r)] + named::entries(s, a.len() as int));
        assert(es =~= seq![read_of(r)] + rest.map_values(|r: Record| read_of(r)));
    }
}

/// Both ways of aggregating read the same of a data file that was written.
pub proof fn law_engines_agree(rs: Seq<Record>)
    requires
        roundtrip::writable(rs),
    ensures
        ({
            let s = generate::file_text(rs);
            let a = records::entries(s, 0);
            let b = named::entries(s, 0);
            &&& a.len() == b.len()
            &&& forall|i: int|
                0 <= i < a.len() ==> (#[trigger] a[i]).name == b[i].name && a[i].temp == b[i].temp
        }),
{
    law_reads_back(rs);
    roundtrip::law_reads_back(rs);
}

/// A record is a name, a semicolon, a temperature and a line feed: what stands so at the start of the
/// data is its first record, and its other records are those of what follows. It can be read if the
/// temperature has one to four bytes behind its sign, which is any byte without the fifth bit.
pub proof fn law_first_record(name: Seq<u8>, value: Seq<u8>, rest: Seq<u8>)
    requires
        forall|i: int| 0 <= i < name.len() ==> #[trigger] name[i] != 59,
        forall|i: int| 0 <= i < value.len() ==> #[trigger] value[i] != 10,
    ensures
        ({
            let s = name + seq![59u8] + value + seq![10u8] + rest;
            let e = Entry { name, temp: number::number(value) };
            let sign: int = if value.len() > 0 && value[0] & 0x10 == 0 {
                1
            } else {
                0
            };
            &&& named::entries(s, 0) == seq![e] + named::entries(rest, 0)
            &&& named::readable(s, 0) <==> 1 <= value.len() - sign <= 4 && named::readable(rest, 0)
        }),
{
    let a = name + seq![59u8] + value + seq![10u8];
    roundtrip::lemma_first_record(name, value, rest);
    lemma_records_behind(a, rest, 0);
}

/// Without a semicolon, or without a line feed, there is no record.
pub proof fn law_no_record(s: Seq<u8>)
    requires
        (forall|i: int| 0 <= i < s.len() ==> #[trigger] s[i] != 59) || (forall|i: int|
            0 <= i < s.len() ==> #[trigger] s[i] != 10),
    ensures
        named::entries(s, 0).len() == 0,
        named::readable(s, 0),
{
    records::lemma_record(s, 0);
    if records::has_record(s, 0) {
        assert(s[records::comma_of(s, 0)] == 59);
        assert(s[records::end_of(s, 0)] == 10);
    }
}

/// What has a semicolon and no line feed behind it is no record.
pub proof fn law_unfinished(name: Seq<u8>, value: Seq<u8>)
    requires
        forall|i: int| 0 <= i < name.len() ==> #[trigger] name[i] != 59,
        forall|i: int| 0 <= i < value.len() ==> #[trigger] value[i] != 10,
    ensures
        named::entries(name + seq![59u8] + value, 0).len() == 0,
{
    roundtrip::law_unfinished(name, value);
}

} // verus!
