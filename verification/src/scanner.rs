//! The data file in pieces that end with a record.
use vstd::prelude::*;
use crate::bytes;
use crate::bytes::CHR_NL;
use crate::swar;
use crate::swar::{BASE_MASK_NL, BASE_SIZE, FIND_SIZE};

verus! {

/// The position of the first line feed at or after `from`: a word at a time, the last bytes
/// one by one.
pub fn find_newline(data: &[u8], from: usize) -> (r: Option<usize>)
    requires
        from <= data.len(),
    ensures
        match r {
            Some(i) => i == bytes::next_at(data@, CHR_NL, from as int) && i < data.len(),
            None => bytes::next_at(data@, CHR_NL, from as int) == data.len(),
        },
{
    let mut p: usize = from;
    while data.len() - p >= FIND_SIZE
        invariant
            from <= p <= data.len(),
            forall|j: int| from <= j < p ==> #[trigger] data@[j] != CHR_NL,
        decreases data.len() - p,
    {
        let value: u64 = swar::find_flags(BASE_MASK_NL, swar::word_at(data, p));
        proof {
            swar::lemma_masks();
            swar::lemma_word_first(data@, p as int, CHR_NL);
        }
        if value != 0 {
            let i: usize = p + (value.trailing_zeros() >> 3u32) as usize;
            proof {
                bytes::lemma_next_at_is(data@, CHR_NL, from as int, i as int);
            }
            return Some(i);
        }
        p = p + BASE_SIZE;
    }
    while p < data.len()
        invariant
            from <= p <= data.len(),
            forall|j: int| from <= j < p ==> #[trigger] data@[j] != CHR_NL,
        decreases data.len() - p,
    {
        if data[p] == CHR_NL {
            proof {
                bytes::lemma_next_at_is(data@, CHR_NL, from as int, p as int);
            }
            return Some(p);
        }
        p = p + 1;
    }
    proof {
        bytes::lemma_next_at_is(data@, CHR_NL, from as int, p as int);
    }
    None
}

/// The end of the piece that starts at `off`: behind the first line feed that is at least
/// `slice` bytes on, or the end of the data.
pub open spec fn piece_end(s: Seq<u8>, off: int, slice: int) -> int {
    if off + slice < s.len() {
        let n = bytes::next_at(s, CHR_NL, off + slice);
        if n < s.len() {
            n + 1
        } else {
            s.len() as int
        }
    } else {
        s.len() as int
    }
}

/// A piece holds one byte at least.
pub proof fn lemma_piece_end(s: Seq<u8>, off: int, slice: int)
    requires
        0 <= off < s.len(),
        0 <= slice,
    ensures
        off < piece_end(s, off, slice) <= s.len(),
        piece_end(s, off, slice) < s.len() ==> s[piece_end(s, off, slice) - 1] == CHR_NL,
{
    if off + slice < s.len() {
        bytes::lemma_next_at(s, CHR_NL, off + slice);
    }
}

/// The pieces of `s` from `off` on.
pub open spec fn pieces(s: Seq<u8>, off: int, slice: int) -> Seq<Seq<u8>>
    decreases s.len() - off,
{
    if 0 <= off < s.len() && 0 <= slice {
        proof {
            lemma_piece_end(s, off, slice);
        }
        seq![s.subrange(off, piece_end(s, off, slice))] + pieces(
            s,
            piece_end(s, off, slice),
            slice,
        )
    } else {
        seq![]
    }
}

/// The bytes of all pieces, one after the other.
pub open spec fn joined(ps: Seq<Seq<u8>>) -> Seq<u8>
    decreases ps.len(),
{
    if ps.len() == 0 {
        seq![]
    } else {
        ps[0] + joined(ps.drop_first())
    }
}

/// Nothing is lost or read twice: the pieces one after the other are the data.
pub proof fn law_pieces_join(s: Seq<u8>, off: int, slice: int)
    requires
        0 <= off <= s.len(),
        0 <= slice,
    ensures
        joined(pieces(s, off, slice)) == s.skip(off),
    decreases s.len() - off,
{
    if off < s.len() {
        lemma_piece_end(s, off, slice);
        let end = piece_end(s, off, slice);
        law_pieces_join(s, end, slice);
        let ps = pieces(s, off, slice);
        assert(ps.drop_first() =~= pieces(s, end, slice));
        assert(s.subrange(off, end) + s.skip(end) =~= s.skip(off));
    } else {
        assert(s.skip(off) =~= seq![]);
    }
}

/// Hands out the data piece by piece.
pub struct Scanner<'a> {
    data: &'a [u8],
    off: usize,
    slice: usize,
}

impl<'a> Scanner<'a> {
    /// The bytes that are handed out.
    pub closed spec fn bytes(&self) -> Seq<u8> {
        self.data@
    }

    /// How many bytes have been handed out.
    pub closed spec fn off(&self) -> int {
        self.off as int
    }

    /// The least size of a piece, but for the last.
    pub closed spec fn slice(&self) -> int {
        self.slice as int
    }

    pub closed spec fn wf(&self) -> bool {
        self.off <= self.data@.len()
    }

    /// What the scanner still has to hand out.
    pub open spec fn left(&self) -> Seq<Seq<u8>> {
        pieces(self.bytes(), self.off(), self.slice())
    }

    /// Starts at the first byte.
    pub fn new(data: &'a [u8], slice: usize) -> (s: Self)
        ensures
            s.wf(),
            s.bytes() == data@,
            s.slice() == slice,
            s.off() == 0,
    {
        Scanner { data, slice, off: 0 }
    }

    /// The next piece, as long as there is one.
    pub fn next(&mut self) -> (r: Option<&'a [u8]>)
        requires
            old(self).wf(),
        ensures
            final(self).wf(),
            final(self).bytes() == old(self).bytes(),
            final(self).slice() == old(self).slice(),
            match r {
                Some(part) => {
                    &&& old(self).off() < final(self).off() == piece_end(
                        old(self).bytes(),
                        old(self).off(),
                        old(self).slice(),
                    )
                    &&& part@ == old(self).bytes().subrange(old(self).off(), final(self).off())
                    &&& old(self).left() == seq![part@] + final(self).left()
                },
                None => {
                    &&& old(self).off() == old(self).bytes().len()
                    &&& final(self).off() == old(self).off()
                },
            },
    {
        let data: &'a [u8] = self.data;
        let off: usize = self.off;
        let self_end: usize = data.len();
        if off < self_end {
            proof {
                lemma_piece_end(data@, off as int, self.slice as int);
            }
            let end: usize = if self.slice < self_end - off {
                match find_newline(data, off + self.slice) {
                    Some(i) => i + 1,
                    None => self_end,
                }
            } else {
                self_end
            };
            self.off = end;
            Some(&data[off..end])
        } else {
            None
        }
    }
}

/// A piece that is not the last ends with the first line feed that stands `slice` bytes or more behind
/// its start; the last one ends with the data, and no such line feed stands before its last byte.
pub proof fn law_piece_ends(s: Seq<u8>, off: int, slice: int)
    requires
        0 <= off < s.len(),
        0 <= slice,
    ensures
        pieces(s, off, slice).len() > 0,
        ({
            let p = pieces(s, off, slice)[0];
            let end = off + p.len();
            &&& 0 < p.len() && end <= s.len()
            &&& p == s.subrange(off, end)
            &&& end < s.len() ==> p.len() > slice && p[p.len() - 1] == 10
            &&& forall|i: int| slice <= i < p.len() - 1 ==> #[trigger] p[i] != 10
            &&& pieces(s, off, slice).drop_first() == pieces(s, end, slice)
        }),
{
    lemma_piece_end(s, off, slice);
    let end = piece_end(s, off, slice);
    let p = s.subrange(off, end);
    assert(pieces(s, off, slice)[0] == p);
    assert(pieces(s, off, slice).drop_first() =~= pieces(s, end, slice));
    if off + slice < s.len() {
        bytes::lemma_next_at(s, CHR_NL, off + slice);
    }
    assert forall|i: int| slice <= i < p.len() - 1 implies #[trigger] p[i] != 10 by {
        assert(p[i] == s[off + i]);
    }
}

/// Behind the end of the data there is no piece.
pub proof fn law_no_piece(s: Seq<u8>, slice: int)
    ensures
        pieces(s, s.len() as int, slice).len() == 0,
{
}

/// Joined, byte strings stand one after the other.
pub proof fn law_joined(ps: Seq<Seq<u8>>, p: Seq<u8>)
    ensures
        joined(Seq::<Seq<u8>>::empty()) == Seq::<u8>::empty(),
        joined(ps.push(p)) == joined(ps) + p,
    decreases ps.len(),
{
    if ps.len() > 0 {
        law_joined(ps.drop_first(), p);
        assert(ps.push(p).drop_first() =~= ps.drop_first().push(p));
        assert(joined(ps.push(p)) =~= joined(ps) + p);
    } else {
        reveal_with_fuel(joined, 2);
        assert(ps.push(p).drop_first() =~= seq![]);
        assert(joined(ps.push(p)) =~= joined(ps) + p);
    }
}

/// Where a piece may be as long as the data, there is one piece.
pub proof fn law_one_piece(s: Seq<u8>, slice: int)
    requires
        0 < s.len() <= slice,
    ensures
        pieces(s, 0, slice) == seq![s],
{
    assert(s.subrange(0, s.len() as int) =~= s);
    reveal_with_fuel(pieces, 2);
    assert(pieces(s, 0, slice) =~= seq![s]);
}

} // verus!
