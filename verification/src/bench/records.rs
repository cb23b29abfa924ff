//! The records in a piece of the data file.
use vstd::prelude::*;
use crate::bench::city;
use crate::bench::model::Entry;
use crate::bench::number;
use crate::bench::token;
use crate::bytes;
use crate::swar;

verus! {

/// The separator of the record that starts at `from`.
pub open spec fn comma_of(s: Seq<u8>, from: int) -> int {
    bytes::next_at(s, bytes::CHR_CM, from)
}

/// The end of the record that starts at `from`: the first line feed behind its separator.
pub open spec fn end_of(s: Seq<u8>, from: int) -> int {
    bytes::next_at(s, bytes::CHR_NL, comma_of(s, from) + 1)
}

/// A whole record starts at `from`.
pub open spec fn has_record(s: Seq<u8>, from: int) -> bool {
    0 <= from && comma_of(s, from) < s.len() && end_of(s, from) < s.len()
}

/// The name in the record that starts at `from`.
pub open spec fn name_at(s: Seq<u8>, from: int) -> Seq<u8> {
    s.subrange(from, comma_of(s, from))
}

/// The temperature in the record that starts at `from`, as text.
pub open spec fn value_at(s: Seq<u8>, from: int) -> Seq<u8> {
    s.subrange(comma_of(s, from) + 1, end_of(s, from))
}

/// The record that starts at `from`.
pub open spec fn entry_at(s: Seq<u8>, from: int) -> Entry {
    Entry {
        fp: city::fingerprint(name_at(s, from)),
        name: name_at(s, from),
        temp: number::number(value_at(s, from)),
    }
}

/// Where a record follows on.
pub proof fn lemma_record(s: Seq<u8>, from: int)
    requires
        0 <= from <= s.len(),
    ensures
        from <= comma_of(s, from) <= s.len(),
        comma_of(s, from) < s.len() ==> comma_of(s, from) + 1 <= end_of(s, from) <= s.len(),
        comma_of(s, from) < s.len() ==> s[comma_of(s, from)] == bytes::CHR_CM,
        has_record(s, from) ==> s[end_of(s, from)] == bytes::CHR_NL,
{
    bytes::lemma_next_at(s, bytes::CHR_CM, from);
    if comma_of(s, from) < s.len() {
        bytes::lemma_next_at(s, bytes::CHR_NL, comma_of(s, from) + 1);
    }
}

/// The record that starts at `from` ends behind it.
pub proof fn lemma_record_steps(s: Seq<u8>, from: int)
    requires
        has_record(s, from),
    ensures
        from <= end_of(s, from) < s.len(),
{
    if from <= s.len() {
        lemma_record(s, from);
    }
}

/// The records from `from` on, up to the last whole one.
pub open spec fn entries(s: Seq<u8>, from: int) -> Seq<Entry>
    decreases s.len() - from,
{
    if has_record(s, from) {
        proof {
            lemma_record_steps(s, from);
        }
        seq![entry_at(s, from)] + entries(s, end_of(s, from) + 1)
    } else {
        seq![]
    }
}

/// The bytes that the sequential reader looks through at a time for a separator.
pub const BLOCK_SIZE: usize = 64;

/// The block in which the separator of the record that starts at `from` stands, counted from there.
pub open spec fn comma_block(s: Seq<u8>, from: int) -> int {
    from + BLOCK_SIZE * ((comma_of(s, from) - from) / BLOCK_SIZE as int)
}

/// The separator of the record that starts at `from` stands in a block that lies wholly before the end
/// of the data.
pub open spec fn in_block(s: Seq<u8>, from: int) -> bool {
    comma_block(s, from) + BLOCK_SIZE <= s.len()
}

/// The word from which the sequential reader makes the fingerprint: the first one of the block in which
/// the separator stands; the first one of the name, where that block is not a whole one.
pub open spec fn sequence_word(s: Seq<u8>, from: int) -> u64 {
    if in_block(s, from) {
        swar::word_le(s, comma_block(s, from))
    } else {
        swar::word_le(name_at(s, from), 0)
    }
}

/// The record that starts at `from`, with the fingerprint that the sequential reader makes.
pub open spec fn sequence_entry_at(s: Seq<u8>, from: int) -> Entry {
    Entry {
        fp: city::fingerprint_ex(name_at(s, from), sequence_word(s, from)),
        name: name_at(s, from),
        temp: number::number(value_at(s, from)),
    }
}

/// The records from `from` on, with the fingerprints that the sequential reader makes.
pub open spec fn sequence_entries(s: Seq<u8>, from: int) -> Seq<Entry>
    decreases s.len() - from,
{
    if has_record(s, from) {
        proof {
            lemma_record_steps(s, from);
        }
        seq![sequence_entry_at(s, from)] + sequence_entries(s, end_of(s, from) + 1)
    } else {
        seq![]
    }
}

/// No temperature is beyond what ten bits hold.
pub proof fn law_entries_in_range(s: Seq<u8>, from: int)
    ensures
        forall|i: int|
            0 <= i < entries(s, from).len() ==> -1023 <= (#[trigger] entries(s, from)[i]).temp
                <= 1023,
    decreases s.len() - from,
{
    if has_record(s, from) {
        lemma_record_steps(s, from);
        let next = end_of(s, from) + 1;
        law_entries_in_range(s, next);
        let es = entries(s, from);
        assert forall|i: int| 0 <= i < es.len() implies -1023 <= (#[trigger] es[i]).temp
            <= 1023 by {
            if i > 0 {
                assert(es[i] == entries(s, next)[i - 1]);
            }
        }
    }
}

/// Every whole record from `from` on has a name and a number that can be read.
pub open spec fn readable(s: Seq<u8>, from: int) -> bool
    decreases s.len() - from,
{
    has_record(s, from) ==> {
        proof {
            lemma_record_steps(s, from);
        }
        &&& name_at(s, from).len() > 0
        &&& number::number_ok(value_at(s, from))
        &&& readable(s, end_of(s, from) + 1)
    }
}

/// What follows the last whole record holds no separator in a whole block: of the bytes behind one in a
/// whole block the sequential reader makes a temperature, and one without a line feed has too many.
pub open spec fn finished(s: Seq<u8>, from: int) -> bool
    decreases s.len() - from,
{
    if has_record(s, from) {
        proof {
            lemma_record_steps(s, from);
        }
        finished(s, end_of(s, from) + 1)
    } else {
        comma_of(s, from) >= s.len() || !in_block(s, from)
    }
}

/// From `from` on, whole records follow each other up to the end.
pub open spec fn whole(s: Seq<u8>, from: int) -> bool
    decreases s.len() - from,
{
    if has_record(s, from) {
        proof {
            lemma_record_steps(s, from);
        }
        whole(s, end_of(s, from) + 1)
    } else {
        from == s.len()
    }
}

/// Every whole record from `from` on has a name shorter than a block.
pub open spec fn short_names(s: Seq<u8>, from: int) -> bool
    decreases s.len() - from,
{
    has_record(s, from) ==> {
        proof {
            lemma_record_steps(s, from);
        }
        &&& name_at(s, from).len() < BLOCK_SIZE
        &&& short_names(s, end_of(s, from) + 1)
    }
}

/// From `from` on, separators and line feeds take turns.
pub open spec fn alternating(s: Seq<u8>, from: int) -> bool
    decreases s.len() - from,
{
    0 <= from && comma_of(s, from) < s.len() ==> {
        &&& bytes::next_at(s, bytes::CHR_NL, from) > comma_of(s, from)
        &&& has_record(s, from) ==> {
            proof {
                lemma_record_steps(s, from);
            }
            &&& bytes::next_at(s, bytes::CHR_CM, comma_of(s, from) + 1) > end_of(s, from)
            &&& alternating(s, end_of(s, from) + 1)
        }
    }
}

/// What the readers that look for both delimiters at once can read: records one after the
/// other, delimiters that are not crowded, and none with its look-alike behind it.
pub open spec fn scannable(s: Seq<u8>) -> bool {
    &&& readable(s, 0)
    &&& alternating(s, 0)
    &&& swar::no_look_alike(s, bytes::CHR_CM)
    &&& swar::no_look_alike(s, bytes::CHR_NL)
    &&& token::spread(s, bytes::CHR_CM)
    &&& token::spread(s, bytes::CHR_NL)
}

/// The sequential reader makes the fingerprint of the name, if that is shorter than a block.
pub proof fn lemma_sequence_entry(s: Seq<u8>, from: int)
    requires
        0 <= from <= s.len(),
        has_record(s, from),
        0 < name_at(s, from).len(),
        name_at(s, from).len() < BLOCK_SIZE || !in_block(s, from),
    ensures
        sequence_entry_at(s, from) == entry_at(s, from),
{
    lemma_record(s, from);
    let name = name_at(s, from);
    if in_block(s, from) {
        assert(comma_block(s, from) == from);
        let w = swar::word_le(s, from);
        swar::lemma_word_le_bytes(s, from);
        assert forall|k: int| 0 <= k < 8 && k < name.len() implies #[trigger] swar::byte_of(w, k)
            == name[k] by {
            assert(swar::byte_of(w, k) == swar::byte_or_zero(s, from + k));
        }
        city::lemma_fingerprint_ex(name, w);
    }
}

/// All readers see the same names and temperatures; and the same fingerprints, where no name is as long
/// as a block.
pub proof fn law_readers_agree(s: Seq<u8>, from: int)
    requires
        0 <= from <= s.len(),
    ensures
        sequence_entries(s, from).len() == entries(s, from).len(),
        forall|i: int|
            0 <= i < entries(s, from).len() ==> (#[trigger] sequence_entries(s, from)[i]).name
                == entries(s, from)[i].name && sequence_entries(s, from)[i].temp == entries(
                s,
                from,
            )[i].temp,
        readable(s, from) && short_names(s, from) ==> sequence_entries(s, from) == entries(s, from),
    decreases s.len() - from,
{
    if has_record(s, from) {
        lemma_record(s, from);
        let next = end_of(s, from) + 1;
        law_readers_agree(s, next);
        let a = sequence_entries(s, from);
        let b = entries(s, from);
        assert forall|i: int| 0 <= i < b.len() implies (#[trigger] a[i]).name == b[i].name
            && a[i].temp == b[i].temp by {
            if i > 0 {
                assert(a[i] == sequence_entries(s, next)[i - 1]);
                assert(b[i] == entries(s, next)[i - 1]);
            }
        }
        if readable(s, from) && short_names(s, from) {
            lemma_sequence_entry(s, from);
        }
    }
}

} // verus!
