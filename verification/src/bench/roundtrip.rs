//! What is read of a data file is what was written into it.
use vstd::prelude::*;
use crate::bench::city;
use crate::bench::model::Entry;
use crate::bench::number;
use crate::bench::records;
use crate::bench::token;
use crate::bytes;
use crate::bytes::{CHR_CM, CHR_NL};
use crate::generate;
use crate::generate::Record;
use crate::swar;
use crate::text;

verus! {

/// A temperature as it is written can be read, and reads as what it was.
#[verifier::spinoff_prover]
pub proof fn law_number_reads_back(neg: bool, t: nat)
    requires
        t < 1000,
    ensures
        number::number_ok(text::fixed1(neg, t)),
        number::number(text::fixed1(neg, t)) == (if neg {
            -t
        } else {
            t as int
        }),
{
    let w = t / 10;
    let s = text::fixed1(neg, t);
    let d = text::fixed1(false, t);
    reveal_with_fuel(text::dec, 3);
    if neg {
        assert(s.skip(1) =~= d);
    }
    assert(t == 10 * w + t % 10);
    if w < 10 {
        assert(d =~= seq![(48 + w) as u8, text::CHR_DOT, (48 + t % 10) as u8]);
        assert(number::digit_from_end(d, 0) == t % 10);
        assert(number::digit_from_end(d, 2) == w);
        assert(number::digit_from_end(d, 3) == 0);
    } else {
        assert(text::dec(w) =~= seq![(48 + w / 10) as u8, (48 + w % 10) as u8]);
        assert(d =~= seq![
            (48 + w / 10) as u8,
            (48 + w % 10) as u8,
            text::CHR_DOT,
            (48 + t % 10) as u8,
        ]);
        assert(w == 10 * (w / 10) + w % 10);
        assert(number::digit_from_end(d, 0) == t % 10);
        assert(number::digit_from_end(d, 2) == w % 10);
        assert(number::digit_from_end(d, 3) == w / 10);
    }
    assert(number::magnitude(d) == t);
}

/// The text of a temperature holds neither delimiter, and takes three bytes at least.
proof fn lemma_fixed1(neg: bool, t: nat)
    ensures
        text::fixed1(neg, t).len() >= 3,
        text::fixed1(neg, t)[0] == text::CHR_NEG || 48 <= text::fixed1(neg, t)[0] <= 57,
        forall|i: int|
            0 <= i < text::fixed1(neg, t).len() ==> #[trigger] text::fixed1(neg, t)[i] != CHR_CM
                && text::fixed1(neg, t)[i] != CHR_NL,
{
    text::lemma_dec(t / 10);
}

/// What is read of a record.
pub open spec fn read_of(r: Record) -> Entry {
    Entry {
        fp: city::fingerprint(r.name),
        name: r.name,
        temp: if r.neg {
            -r.tenths
        } else {
            r.tenths as int
        },
    }
}

/// The records can be written so that they can be read: plain names, below a hundred degrees.
pub open spec fn writable(rs: Seq<Record>) -> bool {
    forall|i: int|
        0 <= i < rs.len() ==> generate::plain((#[trigger] rs[i]).name) && rs[i].tenths < 1000
}

/// Where the two delimiters stand in a line.
pub proof fn lemma_line(r: Record)
    requires
        generate::undelimited(r.name),
    ensures
        ({
            let s = r.line();
            let n = r.name.len() as int;
            &&& s.len() >= n + 5
            &&& s[n] == CHR_CM
            &&& s[s.len() - 1] == CHR_NL
            &&& s[n + 1] == text::CHR_NEG || 48 <= s[n + 1] <= 57
            &&& n > 0 ==> s[0] == r.name[0]
            &&& forall|i: int| 0 <= i < s.len() && #[trigger] s[i] == CHR_CM ==> i == n
            &&& forall|i: int| 0 <= i < s.len() && #[trigger] s[i] == CHR_NL ==> i == s.len() - 1
        }),
{
    let v = text::fixed1(r.neg, r.tenths);
    let s = r.line();
    let n = r.name.len() as int;
    lemma_fixed1(r.neg, r.tenths);
    assert(s[n + 1] == v[0]);
    assert forall|i: int| 0 <= i < s.len() && #[trigger] s[i] == CHR_CM implies i == n by {
        if i < n {
            assert(s[i] == r.name[i]);
        } else if n < i < s.len() - 1 {
            assert(s[i] == v[i - n - 1]);
        }
    }
    assert forall|i: int| 0 <= i < s.len() && #[trigger] s[i] == CHR_NL implies i == s.len()
        - 1 by {
        if i < n {
            assert(s[i] == r.name[i]);
        } else if n < i < s.len() - 1 {
            assert(s[i] == v[i - n - 1]);
        }
    }
}

/// What stands before the data makes no difference to what is found behind.
pub proof fn lemma_next_behind(a: Seq<u8>, b: Seq<u8>, c: u8, from: int)
    requires
        0 <= from <= b.len(),
    ensures
        bytes::next_at(a + b, c, a.len() + from) == a.len() + bytes::next_at(b, c, from),
{
    let s = a + b;
    assert(s.subrange(a.len() as int, s.len() as int) =~= b);
    bytes::lemma_next_at_sub(s, c, a.len() as int, s.len() as int, from);
    bytes::lemma_next_at(s, c, a.len() + from);
}

/// What stands before the data makes no difference to the records behind.
pub proof fn lemma_records_behind(a: Seq<u8>, b: Seq<u8>, from: int)
    requires
        0 <= from <= b.len(),
    ensures
        records::short_names(a + b, a.len() + from) == records::short_names(b, from),
        records::finished(a + b, a.len() + from) == records::finished(b, from),
        records::entries(a + b, a.len() + from) == records::entries(b, from),
        records::readable(a + b, a.len() + from) == records::readable(b, from),
        records::alternating(a + b, a.len() + from) == records::alternating(b, from),
        records::whole(a + b, a.len() + from) == records::whole(b, from),
    decreases b.len() - from,
{
    let s = a + b;
    let lo = a.len() as int;
    lemma_next_behind(a, b, CHR_CM, from);
    lemma_next_behind(a, b, CHR_NL, from);
    records::lemma_record(b, from);
    records::lemma_record(s, lo + from);
    let i = records::comma_of(b, from);
    if i < b.len() {
        lemma_next_behind(a, b, CHR_NL, i + 1);
        lemma_next_behind(a, b, CHR_CM, i + 1);
        if records::has_record(b, from) {
            let j = records::end_of(b, from);
            assert(records::name_at(s, lo + from) =~= records::name_at(b, from));
            assert(records::value_at(s, lo + from) =~= records::value_at(b, from));
            lemma_records_behind(a, b, j + 1);
        }
    }
}

/// No name is as long as a block.
pub open spec fn short(rs: Seq<Record>) -> bool {
    forall|i: int| 0 <= i < rs.len() ==> (#[trigger] rs[i]).name.len() < records::BLOCK_SIZE
}

/// All records that were written are read, in their order, as what they were; by the sequential reader
/// if no name is as long as a block.
pub proof fn law_reads_back(rs: Seq<Record>)
    requires
        writable(rs),
    ensures
        records::entries(generate::file_text(rs), 0) == rs.map_values(|r: Record| read_of(r)),
        short(rs) ==> records::sequence_entries(generate::file_text(rs), 0) == rs.map_values(
            |r: Record| read_of(r),
        ),
        short(rs) ==> records::short_names(generate::file_text(rs), 0),
        records::whole(generate::file_text(rs), 0),
        records::finished(generate::file_text(rs), 0),
        records::readable(generate::file_text(rs), 0),
        records::alternating(generate::file_text(rs), 0),
    decreases rs.len(),
{
    let s = generate::file_text(rs);
    let es = rs.map_values(|r: Record| read_of(r));
    if rs.len() == 0 {
        assert(records::entries(s, 0) =~= es);
    } else {
        let r = rs[0];
        let a = r.line();
        let rest = rs.drop_first();
        let b = generate::file_text(rest);
        let n = r.name.len() as int;
        assert(writable(rest)) by {
            assert forall|i: int| 0 <= i < rest.len() implies generate::plain(
                (#[trigger] rest[i]).name,
            ) && rest[i].tenths < 1000 by {
                assert(rest[i] == rs[i + 1]);
            }
        }
        assert(short(rs) ==> short(rest)) by {
            if short(rs) {
                assert forall|i: int| 0 <= i < rest.len() implies (#[trigger] rest[i]).name.len()
                    < records::BLOCK_SIZE by {
                    assert(rest[i] == rs[i + 1]);
                }
            }
        }
        law_reads_back(rest);
        lemma_records_behind(a, b, 0);
        lemma_line(r);
        assert(generate::plain(r.name) && r.tenths < 1000);
        assert forall|j: int| 0 <= j < n implies #[trigger] s[j] != CHR_CM by {
            assert(s[j] == a[j]);
        }
        bytes::lemma_next_at_is(s, CHR_CM, 0, n);
        assert forall|j: int| 0 <= j < a.len() - 1 implies #[trigger] s[j] != CHR_NL by {
            assert(s[j] == a[j]);
        }
        bytes::lemma_next_at_is(s, CHR_NL, n + 1, a.len() - 1);
        bytes::lemma_next_at_is(s, CHR_NL, 0, a.len() - 1);
        assert(records::name_at(s, 0) =~= r.name);
        assert(records::value_at(s, 0) =~= text::fixed1(r.neg, r.tenths));
        law_number_reads_back(r.neg, r.tenths);
        bytes::lemma_next_at(s, CHR_CM, n + 1);
        assert(bytes::next_at(s, CHR_CM, n + 1) > a.len() - 1) by {
            let q = bytes::next_at(s, CHR_CM, n + 1);
            if q <= a.len() - 1 {
                assert(s[q] == a[q]);
            }
        }
        assert(records::entry_at(s, 0) == read_of(r));
        assert(records::entries(s, 0) =~= seq![read_of(r)] + records::entries(s, a.len() as int));
        assert(es =~= seq![read_of(r)] + rest.map_values(|r: Record| read_of(r)));
        assert(short(rs) ==> rs[0].name.len() < records::BLOCK_SIZE);
    }
    records::law_readers_agree(s, 0);
}

/// Delimiters of one kind are six bytes apart at least.
proof fn lemma_apart(rs: Seq<Record>, c: u8, p: int, q: int)
    requires
        writable(rs),
        c == CHR_CM || c == CHR_NL,
        0 <= p < q < generate::file_text(rs).len(),
        generate::file_text(rs)[p] == c,
        generate::file_text(rs)[q] == c,
    ensures
        q - p >= 6,
    decreases rs.len(),
{
    let s = generate::file_text(rs);
    let r = rs[0];
    let a = r.line();
    let rest = rs.drop_first();
    let b = generate::file_text(rest);
    let lo = a.len() as int;
    assert(writable(rest)) by {
        assert forall|i: int| 0 <= i < rest.len() implies generate::plain((#[trigger] rest[i]).name)
            && rest[i].tenths < 1000 by {
            assert(rest[i] == rs[i + 1]);
        }
    }
    assert(generate::plain(r.name));
    lemma_line(r);
    if q < lo {
        assert(s[p] == a[p] && s[q] == a[q]);
    } else if p >= lo {
        assert(s[p] == b[p - lo] && s[q] == b[q - lo]);
        lemma_apart(rest, c, p - lo, q - lo);
    } else {
        assert(s[p] == a[p] && s[q] == b[q - lo]);
        let next = rest[0];
        assert(generate::plain(next.name));
        lemma_line(next);
        if q - lo < next.line().len() {
            assert(b[q - lo] == next.line()[q - lo]);
        }
    }
}

/// Behind a delimiter stands a sign, a digit or a name.
proof fn lemma_behind(rs: Seq<Record>, p: int)
    requires
        writable(rs),
        0 <= p < generate::file_text(rs).len() - 1,
    ensures
        ({
            let s = generate::file_text(rs);
            &&& s[p] == CHR_CM ==> s[p + 1] == text::CHR_NEG || 48 <= s[p + 1] <= 57
            &&& s[p] == CHR_NL ==> exists|i: int|
                0 <= i < rs.len() && (#[trigger] rs[i]).name[0] == s[p + 1]
        }),
    decreases rs.len(),
{
    let s = generate::file_text(rs);
    let r = rs[0];
    let a = r.line();
    let rest = rs.drop_first();
    let b = generate::file_text(rest);
    let lo = a.len() as int;
    assert(writable(rest)) by {
        assert forall|i: int| 0 <= i < rest.len() implies generate::plain((#[trigger] rest[i]).name)
            && rest[i].tenths < 1000 by {
            assert(rest[i] == rs[i + 1]);
        }
    }
    assert(generate::plain(r.name));
    lemma_line(r);
    if p >= lo {
        assert(s[p] == b[p - lo] && s[p + 1] == b[p - lo + 1]);
        lemma_behind(rest, p - lo);
        if s[p] == CHR_NL {
            let i = choose|i: int|
                0 <= i < rest.len() && (#[trigger] rest[i]).name[0] == b[p - lo + 1];
            assert(rs[i + 1] == rest[i]);
        }
    } else if p + 1 < lo {
        assert(s[p] == a[p] && s[p + 1] == a[p + 1]);
    } else {
        assert(s[p] == a[p] && s[p + 1] == b[0]);
        let next = rest[0];
        assert(generate::plain(next.name));
        lemma_line(next);
        assert(b[0] == next.line()[0]);
        assert(rs[1] == next);
    }
}

/// Records as they are written can be read in every way, if no name starts with the byte that
/// looks like a line feed.
pub proof fn law_written_is_scannable(rs: Seq<Record>)
    requires
        writable(rs),
        forall|i: int| 0 <= i < rs.len() ==> (#[trigger] rs[i]).name[0] != CHR_NL ^ 1,
    ensures
        records::scannable(generate::file_text(rs)),
{
    let s = generate::file_text(rs);
    law_reads_back(rs);
    assert(59u8 ^ 1 == 58 && 10u8 ^ 1 == 11) by (bit_vector);
    assert forall|i: int| 0 <= i < s.len() - 1 && #[trigger] s[i] == CHR_CM implies s[i + 1]
        != CHR_CM ^ 1 by {
        lemma_behind(rs, i);
    }
    assert forall|i: int| 0 <= i < s.len() - 1 && #[trigger] s[i] == CHR_NL implies s[i + 1]
        != CHR_NL ^ 1 by {
        lemma_behind(rs, i);
        let k = choose|k: int| 0 <= k < rs.len() && (#[trigger] rs[k]).name[0] == s[i + 1];
        assert(rs[k].name[0] != CHR_NL ^ 1);
    }
    lemma_spread(rs, CHR_CM);
    lemma_spread(rs, CHR_NL);
}

proof fn lemma_spread(rs: Seq<Record>, c: u8)
    requires
        writable(rs),
        c == CHR_CM || c == CHR_NL,
    ensures
        token::spread(generate::file_text(rs), c),
{
    let s = generate::file_text(rs);
    assert forall|p: int| 0 <= p < s.len() && #[trigger] s[p] == c implies {
        let q = token::third_after(s, c, p);
        q >= s.len() || q - p >= swar::FIND_SIZE
    } by {
        let q1 = bytes::next_at(s, c, p + 1);
        bytes::lemma_next_at(s, c, p + 1);
        if q1 < s.len() {
            lemma_apart(rs, c, p, q1);
            let q2 = bytes::next_at(s, c, q1 + 1);
            bytes::lemma_next_at(s, c, q1 + 1);
            if q2 < s.len() {
                lemma_apart(rs, c, q1, q2);
                let q3 = bytes::next_at(s, c, q2 + 1);
                bytes::lemma_next_at(s, c, q2 + 1);
                if q3 < s.len() {
                    lemma_apart(rs, c, q2, q3);
                }
            }
        }
    }
}

/// Where the delimiters of the first record stand.
pub proof fn lemma_first_record(name: Seq<u8>, value: Seq<u8>, rest: Seq<u8>)
    requires
        forall|i: int| 0 <= i < name.len() ==> #[trigger] name[i] != 59,
        forall|i: int| 0 <= i < value.len() ==> #[trigger] value[i] != 10,
    ensures
        ({
            let a = name + seq![59u8] + value + seq![10u8];
            let s = a + rest;
            &&& records::has_record(s, 0)
            &&& records::comma_of(s, 0) == name.len()
            &&& records::end_of(s, 0) == a.len() - 1
            &&& records::name_at(s, 0) == name
            &&& records::value_at(s, 0) == value
        }),
{
    let n = name.len() as int;
    let a = name + seq![59u8] + value + seq![10u8];
    let s = a + rest;
    assert forall|j: int| 0 <= j < n implies #[trigger] s[j] != CHR_CM by {
        assert(s[j] == name[j]);
    }
    bytes::lemma_next_at_is(s, CHR_CM, 0, n);
    assert forall|j: int| n + 1 <= j < a.len() - 1 implies #[trigger] s[j] != CHR_NL by {
        assert(s[j] == value[j - n - 1]);
    }
    bytes::lemma_next_at_is(s, CHR_NL, n + 1, a.len() - 1);
    assert(records::name_at(s, 0) =~= name);
    assert(records::value_at(s, 0) =~= value);
}

/// A record is a name, a semicolon, a temperature and a line feed: what stands so at the start of the
/// data is its first record, and its other records are those of what follows. It can be read if the name
/// is not empty and the temperature has one to four bytes behind its sign.
pub proof fn law_first_record(name: Seq<u8>, value: Seq<u8>, rest: Seq<u8>)
    requires
        forall|i: int| 0 <= i < name.len() ==> #[trigger] name[i] != 59,
        forall|i: int| 0 <= i < value.len() ==> #[trigger] value[i] != 10,
    ensures
        ({
            let s = name + seq![59u8] + value + seq![10u8] + rest;
            let e = Entry { fp: city::fingerprint(name), name, temp: number::number(value) };
            let sign: int = if value.len() > 0 && value[0] == 45 {
                1
            } else {
                0
            };
            &&& records::entries(s, 0) == seq![e] + records::entries(rest, 0)
            &&& records::readable(s, 0) <==> name.len() > 0 && 1 <= value.len() - sign <= 4
                && records::readable(rest, 0)
            &&& records::short_names(s, 0) <==> name.len() < 64 && records::short_names(rest, 0)
            &&& records::finished(s, 0) <==> records::finished(rest, 0)
            &&& records::whole(s, 0) <==> records::whole(rest, 0)
            &&& (forall|i: int| 0 <= i < name.len() ==> #[trigger] name[i] != 10) && (forall|i: int|
                0 <= i < value.len() ==> #[trigger] value[i] != 59) ==> (records::alternating(s, 0)
                <==> records::alternating(rest, 0))
        }),
{
    let a = name + seq![59u8] + value + seq![10u8];
    let s = a + rest;
    let n = name.len() as int;
    lemma_first_record(name, value, rest);
    lemma_records_behind(a, rest, 0);
    if (forall|i: int| 0 <= i < name.len() ==> #[trigger] name[i] != 10) && (forall|i: int|
        0 <= i < value.len() ==> #[trigger] value[i] != 59) {
        assert forall|j: int| 0 <= j < a.len() - 1 implies #[trigger] s[j] != CHR_NL by {
            if j < n {
                assert(s[j] == name[j]);
            } else if j > n {
                assert(s[j] == value[j - n - 1]);
            }
        }
        bytes::lemma_next_at_is(s, CHR_NL, 0, a.len() - 1);
        bytes::lemma_next_at(s, CHR_CM, n + 1);
        let q = bytes::next_at(s, CHR_CM, n + 1);
        if q <= a.len() - 1 {
            assert(s[q] == a[q]);
            if q < a.len() - 1 {
                assert(a[q] == value[q - n - 1]);
            }
        }
    }
}

/// Without a semicolon, or without a line feed, there is no record.
pub proof fn law_no_record(s: Seq<u8>)
    requires
        (forall|i: int| 0 <= i < s.len() ==> #[trigger] s[i] != 59) || (forall|i: int|
            0 <= i < s.len() ==> #[trigger] s[i] != 10),
    ensures
        records::entries(s, 0).len() == 0,
        records::sequence_entries(s, 0).len() == 0,
        records::readable(s, 0),
        records::short_names(s, 0),
        records::whole(s, 0) <==> s.len() == 0,
        (forall|i: int| 0 <= i < s.len() ==> #[trigger] s[i] != 59) ==> records::finished(s, 0)
            && records::alternating(s, 0),
{
    records::lemma_record(s, 0);
    if records::has_record(s, 0) {
        assert(s[records::comma_of(s, 0)] == 59);
        assert(s[records::end_of(s, 0)] == 10);
    }
    if forall|i: int| 0 <= i < s.len() ==> #[trigger] s[i] != 59 {
        if records::comma_of(s, 0) < s.len() {
            assert(s[records::comma_of(s, 0)] == 59);
        }
    }
}

/// The line of a record is its name, a semicolon, its temperature and a line feed.
pub proof fn law_line(r: Record) -> (u: Seq<u8>)
    ensures
        r.line() == r.name + seq![59u8] + u + seq![10u8],
        text::shows(u, r.neg, r.tenths),
{
    let u = text::fixed1(r.neg, r.tenths);
    text::law_fixed1_shows(r.neg, r.tenths);
    u
}

/// What has a semicolon and no line feed behind it is no record.
pub proof fn law_unfinished(name: Seq<u8>, value: Seq<u8>)
    requires
        forall|i: int| 0 <= i < name.len() ==> #[trigger] name[i] != 59,
        forall|i: int| 0 <= i < value.len() ==> #[trigger] value[i] != 10,
    ensures
        !records::has_record(name + seq![59u8] + value, 0),
        records::entries(name + seq![59u8] + value, 0).len() == 0,
        records::sequence_entries(name + seq![59u8] + value, 0).len() == 0,
        records::readable(name + seq![59u8] + value, 0),
        records::short_names(name + seq![59u8] + value, 0),
        records::finished(name + seq![59u8] + value, 0) <==> 64 * (name.len() as int / 64) + 64
            > name.len() + 1 + value.len(),
        records::alternating(name + seq![59u8] + value, 0) <==> forall|i: int|
            0 <= i < name.len() ==> #[trigger] name[i] != 10,
{
    let s = name + seq![59u8] + value;
    let n = name.len() as int;
    assert forall|j: int| 0 <= j < n implies #[trigger] s[j] != CHR_CM by {
        assert(s[j] == name[j]);
    }
    bytes::lemma_next_at_is(s, CHR_CM, 0, n);
    assert forall|j: int| n + 1 <= j < s.len() implies #[trigger] s[j] != CHR_NL by {
        assert(s[j] == value[j - n - 1]);
    }
    bytes::lemma_next_at_is(s, CHR_NL, n + 1, s.len() as int);
    bytes::lemma_next_at(s, CHR_NL, 0);
    let q = bytes::next_at(s, CHR_NL, 0);
    if q < n {
        assert(name[q] == 10);
    }
    if q > n {
        assert forall|i: int| 0 <= i < name.len() implies #[trigger] name[i] != 10 by {
            assert(s[i] == name[i]);
        }
    }
}

/// The sequential reader makes the fingerprint of a name longer than eight bytes from the eight bytes at
/// the start of the block of 64 in which the semicolon stands, counted from the start of the record, and
/// the last eight of the name; where the data ends within that block, from the first eight of the name.
pub proof fn law_sequence_fingerprint(s: Seq<u8>, from: int, k: int)
    requires
        0 <= from <= s.len(),
        records::has_record(s, from),
        8 < records::name_at(s, from).len() <= u32::MAX,
        0 <= k < 8,
    ensures
        ({
            let name = records::name_at(s, from);
            let block = from + 64 * (name.len() as int / 64);
            let fp = records::sequence_entry_at(s, from).fp;
            &&& fp.0 == name.len()
            &&& block + 64 <= s.len() ==> swar::byte_of(fp.1, k) == s[block + k] ^ name[name.len() - 8
                + k]
            &&& block + 64 > s.len() ==> swar::byte_of(fp.1, k) == name[k] ^ name[name.len() - 8 + k]
        }),
{
    let name = records::name_at(s, from);
    records::lemma_record(s, from);
    let w = records::sequence_word(s, from);
    city::law_fingerprint_ex_bytes(name, w, k);
    if records::in_block(s, from) {
        let block = records::comma_block(s, from);
        swar::lemma_word_le_bytes(s, block);
        assert(swar::byte_of(w, k) == swar::byte_or_zero(s, block + k));
    } else {
        swar::lemma_word_le_bytes(name, 0);
        assert(swar::byte_of(w, k) == swar::byte_or_zero(name, k));
    }
}

} // verus!
