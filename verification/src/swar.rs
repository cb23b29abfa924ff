//! Eight bytes at a time: finding a byte in a word without looking at each byte.
use vstd::prelude::*;
use crate::bytes;

verus! {

pub const BASE_SIZE: usize = 8;

/// The bytes that are looked at together.
pub const FIND_SIZE: usize = 16;

/// 0x01 in every byte.
pub const BASE_MASK1: u64 = 0x0101_0101_0101_0101;

/// 0x80 in every byte.
pub const BASE_MASK2: u64 = 0x8080_8080_8080_8080;

/// `;` in every byte.
pub const BASE_MASK_CM: u64 = 0x3b3b_3b3b_3b3b_3b3b;

/// A line feed in every byte.
pub const BASE_MASK_NL: u64 = 0x0a0a_0a0a_0a0a_0a0a;

/// `c` in every byte.
pub open spec fn splat(c: u8) -> u64 {
    (c as u64) | ((c as u64) << 8u64) | ((c as u64) << 16u64) | ((c as u64) << 24u64) | ((c as u64)
        << 32u64) | ((c as u64) << 40u64) | ((c as u64) << 48u64) | ((c as u64) << 56u64)
}

/// Eight bytes as one word, the first byte in the lowest place.
pub open spec fn pack(b0: u8, b1: u8, b2: u8, b3: u8, b4: u8, b5: u8, b6: u8, b7: u8) -> u64 {
    (b0 as u64) | ((b1 as u64) << 8u64) | ((b2 as u64) << 16u64) | ((b3 as u64) << 24u64) | ((
    b4 as u64) << 32u64) | ((b5 as u64) << 40u64) | ((b6 as u64) << 48u64) | ((b7 as u64) << 56u64)
}

/// The byte of `s` at `i`, 0 past its end.
pub open spec fn byte_or_zero(s: Seq<u8>, i: int) -> u8 {
    if 0 <= i < s.len() {
        s[i]
    } else {
        0
    }
}

/// The little-endian word of `s` at `i`, filled up with zeros past the end.
pub open spec fn word_le(s: Seq<u8>, i: int) -> u64 {
    pack(
        byte_or_zero(s, i),
        byte_or_zero(s, i + 1),
        byte_or_zero(s, i + 2),
        byte_or_zero(s, i + 3),
        byte_or_zero(s, i + 4),
        byte_or_zero(s, i + 5),
        byte_or_zero(s, i + 6),
        byte_or_zero(s, i + 7),
    )
}

/// The byte of `w` that stands at place `k`.
pub open spec fn byte_of(w: u64, k: int) -> u8 {
    if k == 0 {
        (w & 0xff) as u8
    } else if k == 1 {
        ((w >> 8u64) & 0xff) as u8
    } else if k == 2 {
        ((w >> 16u64) & 0xff) as u8
    } else if k == 3 {
        ((w >> 24u64) & 0xff) as u8
    } else if k == 4 {
        ((w >> 32u64) & 0xff) as u8
    } else if k == 5 {
        ((w >> 40u64) & 0xff) as u8
    } else if k == 6 {
        ((w >> 48u64) & 0xff) as u8
    } else {
        ((w >> 56u64) & 0xff) as u8
    }
}

/// The eight bytes of a word, lowest first.
pub open spec fn word_bytes(w: u64) -> Seq<u8> {
    Seq::new(8, |k: int| byte_of(w, k))
}

/// A word is what its bytes make.
pub proof fn lemma_word_le_bytes(s: Seq<u8>, i: int)
    ensures
        forall|k: int| 0 <= k < 8 ==> #[trigger] byte_of(word_le(s, i), k) == byte_or_zero(s, i + k),
{
    lemma_pack_bytes(
        byte_or_zero(s, i),
        byte_or_zero(s, i + 1),
        byte_or_zero(s, i + 2),
        byte_or_zero(s, i + 3),
        byte_or_zero(s, i + 4),
        byte_or_zero(s, i + 5),
        byte_or_zero(s, i + 6),
        byte_or_zero(s, i + 7),
    );
}

pub proof fn lemma_pack_bytes(b0: u8, b1: u8, b2: u8, b3: u8, b4: u8, b5: u8, b6: u8, b7: u8)
    ensures
        ({
            let w = pack(b0, b1, b2, b3, b4, b5, b6, b7);
            &&& byte_of(w, 0) == b0
            &&& byte_of(w, 1) == b1
            &&& byte_of(w, 2) == b2
            &&& byte_of(w, 3) == b3
            &&& byte_of(w, 4) == b4
            &&& byte_of(w, 5) == b5
            &&& byte_of(w, 6) == b6
            &&& byte_of(w, 7) == b7
        }),
{
    assert({
        let w = pack(b0, b1, b2, b3, b4, b5, b6, b7);
        &&& (w & 0xff) as u8 == b0
        &&& ((w >> 8u64) & 0xff) as u8 == b1
        &&& ((w >> 16u64) & 0xff) as u8 == b2
        &&& ((w >> 24u64) & 0xff) as u8 == b3
        &&& ((w >> 32u64) & 0xff) as u8 == b4
        &&& ((w >> 40u64) & 0xff) as u8 == b5
        &&& ((w >> 48u64) & 0xff) as u8 == b6
        &&& ((w >> 56u64) & 0xff) as u8 == b7
    }) by (bit_vector);
}

/// The eight bytes of `data` at `i` as one word, little-endian.
pub fn word_at(data: &[u8], i: usize) -> (w: u64)
    requires
        i + 8 <= data.len(),
    ensures
        w == word_le(data@, i as int),
{
    (data[i] as u64) | ((data[i + 1] as u64) << 8u64) | ((data[i + 2] as u64) << 16u64) | ((data[i
        + 3] as u64) << 24u64) | ((data[i + 4] as u64) << 32u64) | ((data[i + 5] as u64) << 40u64)
        | ((data[i + 6] as u64) << 48u64) | ((data[i + 7] as u64) << 56u64)
}

/// The up to eight bytes of `data` at `i` as one word, little-endian, zeros past the end.
pub fn word_padded(data: &[u8], i: usize) -> (w: u64)
    requires
        i <= data.len(),
    ensures
        w == word_le(data@, i as int),
{
    if data.len() - i >= BASE_SIZE {
        return word_at(data, i);
    }
    let mut b: [u8; 8] = [0u8; 8];
    let n: usize = data.len() - i;
    let mut k: usize = 0;
    while k < n
        invariant
            n < 8,
            n == data.len() - i,
            0 <= k <= n,
            i <= data.len(),
            forall|j: int| 0 <= j < k ==> #[trigger] b@[j] == data@[i + j],
            forall|j: int| k <= j < 8 ==> #[trigger] b@[j] == 0,
        decreases n - k,
    {
        b[k] = data[i + k];
        k = k + 1;
    }
    assert forall|j: int| 0 <= j < 8 implies #[trigger] b@[j] == byte_or_zero(data@, i + j) by {}
    assert(b@[0] == byte_or_zero(data@, i as int));
    (b[0] as u64) | ((b[1] as u64) << 8u64) | ((b[2] as u64) << 16u64) | ((b[3] as u64) << 24u64) | (
    (b[4] as u64) << 32u64) | ((b[5] as u64) << 40u64) | ((b[6] as u64) << 48u64) | ((b[7] as u64)
        << 56u64)
}

/// The top bit of place `k` is set.
pub open spec fn flag(x: u64, k: int) -> bool {
    if k == 0 {
        x & 0x80 != 0
    } else if k == 1 {
        x & 0x8000 != 0
    } else if k == 2 {
        x & 0x80_0000 != 0
    } else if k == 3 {
        x & 0x8000_0000 != 0
    } else if k == 4 {
        x & 0x80_0000_0000 != 0
    } else if k == 5 {
        x & 0x8000_0000_0000 != 0
    } else if k == 6 {
        x & 0x80_0000_0000_0000 != 0
    } else {
        x & 0x8000_0000_0000_0000 != 0
    }
}

/// Flags the places of `word` at which the byte is that of `mask`. The lowest place that is
/// flagged holds that byte; above it, a byte that differs in the lowest bit alone may be
/// flagged too.
pub fn find_flags(mask: u64, word: u64) -> (x: u64)
    ensures
        x == flags_of(mask, word),
{
    let value: u64 = mask ^ word;
    let x: u64 = value.wrapping_sub(BASE_MASK1) & !value & BASE_MASK2;
    assert(value.wrapping_sub(BASE_MASK1) == (value - BASE_MASK1) as u64) by {
        let m = BASE_MASK1;
        assert(value < m ==> (value - m + 0x1_0000_0000_0000_0000) as u64 == (value - m) as u64)
            by (bit_vector)
            requires
                m == 0x0101_0101_0101_0101u64,
        ;
    }
    x
}

/// The word that `find_flags` computes.
pub open spec fn flags_of(mask: u64, word: u64) -> u64 {
    (((mask ^ word) - BASE_MASK1) as u64) & !(mask ^ word) & BASE_MASK2
}

/// Only top bits of bytes are set.
pub open spec fn only_flags(x: u64) -> bool {
    x & BASE_MASK2 == x
}

/// The lowest flag is a true one, and none is missing.
proof fn lemma_flags_first(c: u8, b0: u8, b1: u8, b2: u8, b3: u8, b4: u8, b5: u8, b6: u8, b7: u8)
    ensures
        ({
            let x = flags_of(splat(c), pack(b0, b1, b2, b3, b4, b5, b6, b7));
            &&& only_flags(x)
            &&& flag(x, 0) <==> b0 == c
            &&& b0 != c ==> (flag(x, 1) <==> b1 == c)
            &&& b0 != c && b1 != c ==> (flag(x, 2) <==> b2 == c)
            &&& b0 != c && b1 != c && b2 != c ==> (flag(x, 3) <==> b3 == c)
            &&& b0 != c && b1 != c && b2 != c && b3 != c ==> (flag(x, 4) <==> b4 == c)
            &&& b0 != c && b1 != c && b2 != c && b3 != c && b4 != c ==> (flag(x, 5) <==> b5 == c)
            &&& b0 != c && b1 != c && b2 != c && b3 != c && b4 != c && b5 != c ==> (flag(x, 6)
                <==> b6 == c)
            &&& b0 != c && b1 != c && b2 != c && b3 != c && b4 != c && b5 != c && b6 != c ==> (flag(
                x,
                7,
            ) <==> b7 == c)
        }),
{
    assert({
        let x = flags_of(splat(c), pack(b0, b1, b2, b3, b4, b5, b6, b7));
        &&& x & 0x8080_8080_8080_8080 == x
        &&& (x & 0x80 != 0) == (b0 == c)
        &&& b0 != c ==> (x & 0x8000 != 0) == (b1 == c)
        &&& b0 != c && b1 != c ==> (x & 0x80_0000 != 0) == (b2 == c)
        &&& b0 != c && b1 != c && b2 != c ==> (x & 0x8000_0000 != 0) == (b3 == c)
        &&& b0 != c && b1 != c && b2 != c && b3 != c ==> (x & 0x80_0000_0000 != 0) == (b4 == c)
        &&& b0 != c && b1 != c && b2 != c && b3 != c && b4 != c ==> (x & 0x8000_0000_0000 != 0) == (
        b5 == c)
        &&& b0 != c && b1 != c && b2 != c && b3 != c && b4 != c && b5 != c ==> (x
            & 0x80_0000_0000_0000 != 0) == (b6 == c)
        &&& b0 != c && b1 != c && b2 != c && b3 != c && b4 != c && b5 != c && b6 != c ==> (x
            & 0x8000_0000_0000_0000 != 0) == (b7 == c)
    }) by (bit_vector);
}

/// Where no `c` is followed by its look-alike, every flag is a true one.
proof fn lemma_flags_all(c: u8, b0: u8, b1: u8, b2: u8, b3: u8, b4: u8, b5: u8, b6: u8, b7: u8)
    requires
        !(b0 == c && b1 == c ^ 1),
        !(b1 == c && b2 == c ^ 1),
        !(b2 == c && b3 == c ^ 1),
        !(b3 == c && b4 == c ^ 1),
        !(b4 == c && b5 == c ^ 1),
        !(b5 == c && b6 == c ^ 1),
        !(b6 == c && b7 == c ^ 1),
    ensures
        ({
            let x = flags_of(splat(c), pack(b0, b1, b2, b3, b4, b5, b6, b7));
            &&& only_flags(x)
            &&& flag(x, 0) <==> b0 == c
            &&& flag(x, 1) <==> b1 == c
            &&& flag(x, 2) <==> b2 == c
            &&& flag(x, 3) <==> b3 == c
            &&& flag(x, 4) <==> b4 == c
            &&& flag(x, 5) <==> b5 == c
            &&& flag(x, 6) <==> b6 == c
            &&& flag(x, 7) <==> b7 == c
        }),
{
    assert({
        let x = flags_of(splat(c), pack(b0, b1, b2, b3, b4, b5, b6, b7));
        &&& x & 0x8080_8080_8080_8080 == x
        &&& (x & 0x80 != 0) == (b0 == c)
        &&& (x & 0x8000 != 0) == (b1 == c)
        &&& (x & 0x80_0000 != 0) == (b2 == c)
        &&& (x & 0x8000_0000 != 0) == (b3 == c)
        &&& (x & 0x80_0000_0000 != 0) == (b4 == c)
        &&& (x & 0x8000_0000_0000 != 0) == (b5 == c)
        &&& (x & 0x80_0000_0000_0000 != 0) == (b6 == c)
        &&& (x & 0x8000_0000_0000_0000 != 0) == (b7 == c)
    }) by (bit_vector)
        requires
            !(b0 == c && b1 == c ^ 1),
            !(b1 == c && b2 == c ^ 1),
            !(b2 == c && b3 == c ^ 1),
            !(b3 == c && b4 == c ^ 1),
            !(b4 == c && b5 == c ^ 1),
            !(b5 == c && b6 == c ^ 1),
            !(b6 == c && b7 == c ^ 1),
    ;
}

/// The number of trailing zeros gives the lowest flag.
proof fn lemma_lowest_flag(x: u64)
    requires
        only_flags(x),
        x != 0,
    ensures
        ({
            let k = (x.trailing_zeros() >> 3u32) as int;
            &&& 0 <= k < 8
            &&& x.trailing_zeros() == 8 * k + 7
            &&& flag(x, k)
            &&& forall|j: int| 0 <= j < k ==> !#[trigger] flag(x, j)
        }),
{
    vstd::std_specs::bits::axiom_u64_trailing_zeros(x);
    let z: u32 = x.trailing_zeros();
    let t: u64 = z as u64;
    let m: u64 = BASE_MASK2;
    assert((x >> t) & 1u64 == 1u64);
    assert(t == 7 || t == 15 || t == 23 || t == 31 || t == 39 || t == 47 || t == 55 || t == 63)
        by (bit_vector)
        requires
            t < 64,
            x & m == x,
            m == 0x8080_8080_8080_8080,
            (x >> t) & 1u64 == 1u64,
    ;
    assert(z >> 3u32 == z / 8) by (bit_vector);
    let k = (z / 8) as int;
    assert(x << ((64 - t) as u64) == 0);
    assert({
        &&& t == 7 ==> x & 0x80 != 0
        &&& t == 15 ==> x & 0x8000 != 0 && x & 0x80 == 0
        &&& t == 23 ==> x & 0x80_0000 != 0 && x & 0x8080 == 0
        &&& t == 31 ==> x & 0x8000_0000 != 0 && x & 0x80_8080 == 0
        &&& t == 39 ==> x & 0x80_0000_0000 != 0 && x & 0x8080_8080 == 0
        &&& t == 47 ==> x & 0x8000_0000_0000 != 0 && x & 0x80_8080_8080 == 0
        &&& t == 55 ==> x & 0x80_0000_0000_0000 != 0 && x & 0x8080_8080_8080 == 0
        &&& t == 63 ==> x & 0x8000_0000_0000_0000 != 0 && x & 0x80_8080_8080_8080 == 0
    }) by (bit_vector)
        requires
            t < 64,
            (x >> t) & 1u64 == 1u64,
            x << ((64 - t) as u64) == 0,
    ;
    assert({
        &&& x & 0x8080 == 0 ==> x & 0x80 == 0 && x & 0x8000 == 0
        &&& x & 0x80_8080 == 0 ==> x & 0x8080 == 0 && x & 0x80_0000 == 0
        &&& x & 0x8080_8080 == 0 ==> x & 0x80_8080 == 0 && x & 0x8000_0000 == 0
        &&& x & 0x80_8080_8080 == 0 ==> x & 0x8080_8080 == 0 && x & 0x80_0000_0000 == 0
        &&& x & 0x8080_8080_8080 == 0 ==> x & 0x80_8080_8080 == 0 && x & 0x8000_0000_0000 == 0
        &&& x & 0x80_8080_8080_8080 == 0 ==> x & 0x8080_8080_8080 == 0 && x & 0x80_0000_0000_0000
            == 0
    }) by (bit_vector);
    assert(flag(x, k));
    assert forall|j: int| 0 <= j < k implies !#[trigger] flag(x, j) by {}
}

/// Taking the lowest flag away leaves the others.
proof fn lemma_clear_flag(x: u64, k: int)
    requires
        only_flags(x),
        0 <= k < 8,
        flag(x, k),
    ensures
        ({
            let y = x ^ (1u64 << ((8 * k + 7) as u64));
            &&& only_flags(y)
            &&& !flag(y, k)
            &&& forall|j: int| 0 <= j < 8 && j != k ==> #[trigger] flag(y, j) == flag(x, j)
        }),
{
    let t: u64 = (8 * k + 7) as u64;
    let y = x ^ (1u64 << t);
    let m = BASE_MASK2;
    assert({
        &&& y & m == y
        &&& (y & 0x80 != 0) == ((x & 0x80 != 0) && t != 7)
        &&& (y & 0x8000 != 0) == ((x & 0x8000 != 0) && t != 15)
        &&& (y & 0x80_0000 != 0) == ((x & 0x80_0000 != 0) && t != 23)
        &&& (y & 0x8000_0000 != 0) == ((x & 0x8000_0000 != 0) && t != 31)
        &&& (y & 0x80_0000_0000 != 0) == ((x & 0x80_0000_0000 != 0) && t != 39)
        &&& (y & 0x8000_0000_0000 != 0) == ((x & 0x8000_0000_0000 != 0) && t != 47)
        &&& (y & 0x80_0000_0000_0000 != 0) == ((x & 0x80_0000_0000_0000 != 0) && t != 55)
        &&& (y & 0x8000_0000_0000_0000 != 0) == ((x & 0x8000_0000_0000_0000 != 0) && t != 63)
    }) by (bit_vector)
        requires
            x & m == x,
            m == 0x8080_8080_8080_8080u64,
            y == x ^ (1u64 << t),
            t == 7 || t == 15 || t == 23 || t == 31 || t == 39 || t == 47 || t == 55 || t == 63,
            t == 7 ==> x & 0x80 != 0,
            t == 15 ==> x & 0x8000 != 0,
            t == 23 ==> x & 0x80_0000 != 0,
            t == 31 ==> x & 0x8000_0000 != 0,
            t == 39 ==> x & 0x80_0000_0000 != 0,
            t == 47 ==> x & 0x8000_0000_0000 != 0,
            t == 55 ==> x & 0x80_0000_0000_0000 != 0,
            t == 63 ==> x & 0x8000_0000_0000_0000 != 0,
    ;
}

/// The masks of the two delimiters.
pub proof fn lemma_masks()
    ensures
        BASE_MASK_CM == splat(bytes::CHR_CM),
        BASE_MASK_NL == splat(bytes::CHR_NL),
{
    assert(splat(59) == 0x3b3b_3b3b_3b3b_3b3b) by (bit_vector);
    assert(splat(10) == 0x0a0a_0a0a_0a0a_0a0a) by (bit_vector);
}

/// What the flags of the word at `i` say of the first `c` in it.
pub proof fn lemma_word_first(s: Seq<u8>, i: int, c: u8)
    requires
        0 <= i <= s.len(),
        c != 0,
    ensures
        ({
            let x = flags_of(splat(c), word_le(s, i));
            let k = (x.trailing_zeros() >> 3u32) as int;
            &&& x == 0 ==> forall|j: int| i <= j < i + 8 && j < s.len() ==> #[trigger] s[j] != c
            &&& x != 0 ==> 0 <= k < 8 && i + k < s.len() && s[i + k] == c && forall|j: int|
                i <= j < i + k ==> #[trigger] s[j] != c
        }),
{
    let b = |k: int| byte_or_zero(s, i + k);
    let x = flags_of(splat(c), word_le(s, i));
    lemma_flags_first(c, b(0), b(1), b(2), b(3), b(4), b(5), b(6), b(7));
    assert(x == flags_of(splat(c), pack(b(0), b(1), b(2), b(3), b(4), b(5), b(6), b(7))));
    if x == 0 {
        assert(0u64 & 0x80 == 0 && 0u64 & 0x8000 == 0 && 0u64 & 0x80_0000 == 0 && 0u64 & 0x8000_0000
            == 0 && 0u64 & 0x80_0000_0000 == 0 && 0u64 & 0x8000_0000_0000 == 0 && 0u64
            & 0x80_0000_0000_0000 == 0 && 0u64 & 0x8000_0000_0000_0000 == 0) by (bit_vector);
        assert forall|j: int| i <= j < i + 8 && j < s.len() implies #[trigger] s[j] != c by {
            assert(s[j] == b(j - i));
        }
    } else {
        lemma_lowest_flag(x);
        let k = (x.trailing_zeros() >> 3u32) as int;
        lemma_first_place(s, i, c, x, k);
    }
}

proof fn lemma_first_place(s: Seq<u8>, i: int, c: u8, x: u64, k: int)
    requires
        0 <= i <= s.len(),
        c != 0,
        x == flags_of(splat(c), word_le(s, i)),
        0 <= k < 8,
        flag(x, k),
        forall|j: int| 0 <= j < k ==> !#[trigger] flag(x, j),
    ensures
        i + k < s.len(),
        s[i + k] == c,
        forall|j: int| i <= j < i + k ==> #[trigger] s[j] != c,
{
    let b = |k: int| byte_or_zero(s, i + k);
    lemma_flags_first(c, b(0), b(1), b(2), b(3), b(4), b(5), b(6), b(7));
    assert(k > 0 ==> !flag(x, 0));
    assert(k > 1 ==> !flag(x, 1));
    assert(k > 2 ==> !flag(x, 2));
    assert(k > 3 ==> !flag(x, 3));
    assert(k > 4 ==> !flag(x, 4));
    assert(k > 5 ==> !flag(x, 5));
    assert(k > 6 ==> !flag(x, 6));
    assert(b(k) == c);
    assert forall|j: int| i <= j < i + k implies #[trigger] s[j] != c by {
        assert(b(j - i) != c);
    }
}

/// No `c` in `s` is followed directly by the byte that differs from it in the lowest bit alone.
pub open spec fn no_look_alike(s: Seq<u8>, c: u8) -> bool {
    forall|i: int| 0 <= i < s.len() - 1 && #[trigger] s[i] == c ==> s[i + 1] != c ^ 1
}

/// Without look-alikes, the flags of the word at `i` are the places of `c` in it.
pub proof fn lemma_word_all(s: Seq<u8>, i: int, c: u8)
    requires
        0 <= i,
        i + 8 <= s.len(),
        no_look_alike(s, c),
    ensures
        only_flags(flags_of(splat(c), word_le(s, i))),
        forall|k: int|
            0 <= k < 8 ==> (#[trigger] flag(flags_of(splat(c), word_le(s, i)), k) <==> s[i + k] == c),
{
    assert(s[i] == c ==> s[i + 1] != c ^ 1);
    assert(s[i + 1] == c ==> s[(i + 1) + 1] != c ^ 1);
    assert(s[i + 2] == c ==> s[(i + 2) + 1] != c ^ 1);
    assert(s[i + 3] == c ==> s[(i + 3) + 1] != c ^ 1);
    assert(s[i + 4] == c ==> s[(i + 4) + 1] != c ^ 1);
    assert(s[i + 5] == c ==> s[(i + 5) + 1] != c ^ 1);
    assert(s[i + 6] == c ==> s[(i + 6) + 1] != c ^ 1);
    lemma_flags_all(
        c,
        s[i],
        s[i + 1],
        s[i + 2],
        s[i + 3],
        s[i + 4],
        s[i + 5],
        s[i + 6],
        s[i + 7],
    );
}

/// Takes the lowest flag out of `x` and returns its place.
pub fn take_flag(x: &mut u64) -> (k: usize)
    requires
        only_flags(*old(x)),
        *old(x) != 0,
    ensures
        k < 8,
        flag(*old(x), k as int),
        forall|j: int| 0 <= j < k ==> !#[trigger] flag(*old(x), j),
        only_flags(*final(x)),
        forall|j: int|
            0 <= j < 8 ==> (#[trigger] flag(*final(x), j) <==> j != k && flag(*old(x), j)),
{
    let v: u32 = x.trailing_zeros();
    proof {
        lemma_lowest_flag(*x);
        lemma_clear_flag(*x, (v >> 3u32) as int);
    }
    *x = *x ^ (1u64 << v);
    (v >> 3u32) as usize
}

/// Only the empty word has no flag.
pub proof fn lemma_some_flag(x: u64)
    requires
        only_flags(x),
    ensures
        x == 0 <==> forall|j: int| 0 <= j < 8 ==> !#[trigger] flag(x, j),
{
    if x == 0 {
        assert(0u64 & 0x80 == 0 && 0u64 & 0x8000 == 0 && 0u64 & 0x80_0000 == 0 && 0u64 & 0x8000_0000
            == 0 && 0u64 & 0x80_0000_0000 == 0 && 0u64 & 0x8000_0000_0000 == 0 && 0u64
            & 0x80_0000_0000_0000 == 0 && 0u64 & 0x8000_0000_0000_0000 == 0) by (bit_vector);
    } else {
        lemma_lowest_flag(x);
    }
}

/// A word is its bytes, each counting 256 times the one before.
pub proof fn law_word_value(b0: u8, b1: u8, b2: u8, b3: u8, b4: u8, b5: u8, b6: u8, b7: u8)
    ensures
        pack(b0, b1, b2, b3, b4, b5, b6, b7) == b0 + 0x100 * b1 + 0x1_0000 * b2 + 0x100_0000 * b3
            + 0x1_0000_0000 * b4 + 0x100_0000_0000 * b5 + 0x1_0000_0000_0000 * b6
            + 0x100_0000_0000_0000 * b7,
{
    assert((b0 as u64) | ((b1 as u64) << 8u64) | ((b2 as u64) << 16u64) | ((b3 as u64) << 24u64) | ((
    b4 as u64) << 32u64) | ((b5 as u64) << 40u64) | ((b6 as u64) << 48u64) | ((b7 as u64) << 56u64)
        == b0 + 0x100 * b1 + 0x1_0000 * b2 + 0x100_0000 * b3 + 0x1_0000_0000 * b4 + 0x100_0000_0000
        * b5 + 0x1_0000_0000_0000 * b6 + 0x100_0000_0000_0000 * b7) by (bit_vector);
}

/// The bytes of two words against each other are those of each against those of the other.
pub proof fn lemma_xor_bytes(a: u64, b: u64)
    ensures
        forall|k: int|
            0 <= k < 8 ==> #[trigger] byte_of(a ^ b, k) == byte_of(a, k) ^ byte_of(b, k),
{
    assert({
        &&& ((a ^ b) & 0xff) as u8 == ((a & 0xff) as u8) ^ ((b & 0xff) as u8)
        &&& (((a ^ b) >> 8u64) & 0xff) as u8 == (((a >> 8u64) & 0xff) as u8) ^ (((b >> 8u64)
            & 0xff) as u8)
        &&& (((a ^ b) >> 16u64) & 0xff) as u8 == (((a >> 16u64) & 0xff) as u8) ^ (((b >> 16u64)
            & 0xff) as u8)
        &&& (((a ^ b) >> 24u64) & 0xff) as u8 == (((a >> 24u64) & 0xff) as u8) ^ (((b >> 24u64)
            & 0xff) as u8)
        &&& (((a ^ b) >> 32u64) & 0xff) as u8 == (((a >> 32u64) & 0xff) as u8) ^ (((b >> 32u64)
            & 0xff) as u8)
        &&& (((a ^ b) >> 40u64) & 0xff) as u8 == (((a >> 40u64) & 0xff) as u8) ^ (((b >> 40u64)
            & 0xff) as u8)
        &&& (((a ^ b) >> 48u64) & 0xff) as u8 == (((a >> 48u64) & 0xff) as u8) ^ (((b >> 48u64)
            & 0xff) as u8)
        &&& (((a ^ b) >> 56u64) & 0xff) as u8 == (((a >> 56u64) & 0xff) as u8) ^ (((b >> 56u64)
            & 0xff) as u8)
    }) by (bit_vector);
}

/// A byte of a word is what is left of it, shifted down by the bytes before.
pub proof fn law_byte_of(w: u64, k: u64)
    requires
        k < 8,
    ensures
        byte_of(w, k as int) == ((w >> ((8 * k) as u64)) & 0xff) as u8,
{
    assert(w >> 0u64 == w) by (bit_vector);
}

/// Shifted up by `m` whole bytes, a word has its bytes so many places on, and zeros before them.
pub proof fn lemma_shift_bytes(w: u64, m: u64)
    requires
        m < 8,
    ensures
        forall|k: int|
            0 <= k < 8 ==> #[trigger] byte_of(w << ((8 * m) as u64), k) == (if k >= m {
                byte_of(w, k - m)
            } else {
                0
            }),
{
    let v = w << ((8 * m) as u64);
    assert forall|k: int| 0 <= k < 8 implies #[trigger] byte_of(v, k) == (if k >= m {
        byte_of(w, k - m)
    } else {
        0
    }) by {
        let i = k as u64;
        law_byte_of(v, i);
        if i >= m {
            let j = (i - m) as u64;
            law_byte_of(w, j);
            assert((v >> ((8 * i) as u64)) & 0xff == (w >> ((8 * j) as u64)) & 0xff) by (bit_vector)
                requires
                    v == w << ((8 * m) as u64),
                    m <= i < 8,
                    j == (i - m) as u64,
            ;
        } else {
            assert((v >> ((8 * i) as u64)) & 0xff == 0) by (bit_vector)
                requires
                    v == w << ((8 * m) as u64),
                    i < m < 8,
            ;
        }
    }
}

/// Words with the same bytes are the same.
pub proof fn lemma_same_bytes(x: u64, y: u64)
    requires
        forall|k: int| 0 <= k < 8 ==> #[trigger] byte_of(x, k) == byte_of(y, k),
    ensures
        x == y,
{
    let eq = |k: int| byte_of(x, k) == byte_of(y, k);
    assert(eq(0) && eq(1) && eq(2) && eq(3) && eq(4) && eq(5) && eq(6) && eq(7));
    assert(x == y) by (bit_vector)
        requires
            (x & 0xff) as u8 == (y & 0xff) as u8,
            ((x >> 8u64) & 0xff) as u8 == ((y >> 8u64) & 0xff) as u8,
            ((x >> 16u64) & 0xff) as u8 == ((y >> 16u64) & 0xff) as u8,
            ((x >> 24u64) & 0xff) as u8 == ((y >> 24u64) & 0xff) as u8,
            ((x >> 32u64) & 0xff) as u8 == ((y >> 32u64) & 0xff) as u8,
            ((x >> 40u64) & 0xff) as u8 == ((y >> 40u64) & 0xff) as u8,
            ((x >> 48u64) & 0xff) as u8 == ((y >> 48u64) & 0xff) as u8,
            ((x >> 56u64) & 0xff) as u8 == ((y >> 56u64) & 0xff) as u8,
    ;
}

} // verus!
