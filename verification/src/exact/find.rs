//! The first delimiter in a byte string.
use vstd::prelude::*;
use crate::bytes;
use crate::bytes::{CHR_CM, CHR_NL};
use crate::swar;
use crate::swar::{BASE_MASK_CM, BASE_MASK_NL, BASE_SIZE};

verus! {

/// The bytes of the four words that are looked at together.
const F_SIZE: usize = 32;

/// What a search for the first `c` returns.
pub open spec fn found(s: Seq<u8>, c: u8, r: Option<usize>) -> bool {
    match r {
        Some(i) => i == bytes::next_at(s, c, 0) && i < s.len(),
        None => bytes::next_at(s, c, 0) == s.len(),
    }
}

/// Byte by byte from `off` on.
fn find_rest(data: &[u8], c: u8, off: usize) -> (r: Option<usize>)
    requires
        off <= data.len(),
        forall|j: int| 0 <= j < off ==> #[trigger] data@[j] != c,
    ensures
        found(data@, c, r),
{
    let mut j: usize = off;
    while j < data.len()
        invariant
            off <= j <= data.len(),
            forall|k: int| 0 <= k < j ==> #[trigger] data@[k] != c,
        decreases data.len() - j,
    {
        if data[j] == c {
            proof {
                bytes::lemma_next_at_is(data@, c, 0, j as int);
            }
            return Some(j);
        }
        j = j + 1;
    }
    proof {
        bytes::lemma_next_at_is(data@, c, 0, j as int);
    }
    None
}

/// The first separator: four words at a time, the last bytes one by one.
pub fn find_comma_simd(data: &[u8]) -> (r: Option<usize>)
    ensures
        found(data@, CHR_CM, r),
{
    let mut off: usize = 0;
    while data.len() - off >= F_SIZE
        invariant
            off <= data.len(),
            forall|j: int| 0 <= j < off ==> #[trigger] data@[j] != CHR_CM,
        decreases data.len() - off,
    {
        let mut j: usize = 0;
        while j < 4
            invariant
                off + 32 <= data.len(),
                j <= 4,
                forall|k: int| 0 <= k < off + 8 * j ==> #[trigger] data@[k] != CHR_CM,
            decreases 4 - j,
        {
            let at: usize = off + j * BASE_SIZE;
            let x: u64 = swar::find_flags(BASE_MASK_CM, swar::word_at(data, at));
            proof {
                swar::lemma_masks();
                swar::lemma_word_first(data@, at as int, CHR_CM);
            }
            if x != 0 {
                let i: usize = at + (x.trailing_zeros() >> 3u32) as usize;
                proof {
                    bytes::lemma_next_at_is(data@, CHR_CM, 0, i as int);
                }
                return Some(i);
            }
            j = j + 1;
        }
        off = off + F_SIZE;
    }
    find_rest(data, CHR_CM, off)
}

/// The first line feed: a word at a time, the last bytes one by one.
pub fn find_newline(data: &[u8]) -> (r: Option<usize>)
    ensures
        found(data@, CHR_NL, r),
{
    let mut off: usize = 0;
    while data.len() - off >= BASE_SIZE
        invariant
            off <= data.len(),
            forall|j: int| 0 <= j < off ==> #[trigger] data@[j] != CHR_NL,
        decreases data.len() - off,
    {
        let x: u64 = swar::find_flags(BASE_MASK_NL, swar::word_at(data, off));
        proof {
            swar::lemma_masks();
            swar::lemma_word_first(data@, off as int, CHR_NL);
        }
        if x != 0 {
            let i: usize = off + (x.trailing_zeros() >> 3u32) as usize;
            proof {
                bytes::lemma_next_at_is(data@, CHR_NL, 0, i as int);
            }
            return Some(i);
        }
        off = off + BASE_SIZE;
    }
    find_rest(data, CHR_NL, off)
}

} // verus!
