//! Temperatures: text with one digit after the dot to tenths of a degree.
use vstd::prelude::*;
use crate::bench::number;
use crate::swar;

verus! {

/// 1 if the fifth bit of the first byte is clear, as it is in a minus sign and in no digit, else 0.
pub open spec fn sign_len(s: Seq<u8>) -> int {
    if s.len() > 0 && s[0] & 0x10 == 0 {
        1
    } else {
        0
    }
}

/// The text can be read: one to four bytes after the sign.
pub open spec fn number_ok(s: Seq<u8>) -> bool {
    1 <= s.len() - sign_len(s) <= 4
}

/// The tenths that the digits `d` stand for: the last byte counts once, the one before the dot ten
/// times, the one before that a hundred times.
pub open spec fn magnitude(d: Seq<u8>) -> int {
    100 * number::digit_from_end(d, 3) + 10 * number::digit_from_end(d, 2)
        + number::digit_from_end(d, 0)
}

/// The temperature that `s` stands for.
pub open spec fn number(s: Seq<u8>) -> int {
    if sign_len(s) == 1 {
        -magnitude(s.skip(1))
    } else {
        magnitude(s)
    }
}

/// The digits in a register: the last one in the lowest place.
proof fn lemma_register(w: u64, d: Seq<u8>, v: u32)
    requires
        1 <= d.len() <= 4,
        forall|k: int| 0 <= k < d.len() ==> #[trigger] swar::byte_of(w, k) == d[k],
        v == ((((w & 0xff) as u32) << 24u32) | ((((w >> 8u64) & 0xff) as u32) << 16u32) | ((((w
            >> 16u64) & 0xff) as u32) << 8u32) | (((w >> 24u64) & 0xff) as u32)) >> ((8 * (4
            - d.len())) as u32),
    ensures
        (v >> 24u32) & 0xf == number::digit_from_end(d, 3),
        (v >> 16u32) & 0xf == number::digit_from_end(d, 2),
        v & 0xf == number::digit_from_end(d, 0),
{
    let n: u32 = d.len() as u32;
    let b0: u8 = swar::byte_of(w, 0);
    let b1: u8 = swar::byte_of(w, 1);
    let b2: u8 = swar::byte_of(w, 2);
    let b3: u8 = swar::byte_of(w, 3);
    assert({
        &&& n == 4 ==> (v >> 24u32) & 0xf == b0 % 16 && (v >> 16u32) & 0xf == b1 % 16 && v & 0xf
            == b3 % 16
        &&& n == 3 ==> (v >> 24u32) & 0xf == 0 && (v >> 16u32) & 0xf == b0 % 16 && v & 0xf == b2
            % 16
        &&& n == 2 ==> (v >> 24u32) & 0xf == 0 && (v >> 16u32) & 0xf == 0 && v & 0xf == b1 % 16
        &&& n == 1 ==> (v >> 24u32) & 0xf == 0 && (v >> 16u32) & 0xf == 0 && v & 0xf == b0 % 16
    }) by (bit_vector)
        requires
            1 <= n <= 4,
            v == ((((w & 0xff) as u32) << 24u32) | ((((w >> 8u64) & 0xff) as u32) << 16u32) | ((((w
                >> 16u64) & 0xff) as u32) << 8u32) | (((w >> 24u64) & 0xff) as u32)) >> ((8 * (4
                - n)) as u32),
            b0 == (w & 0xff) as u8,
            b1 == ((w >> 8u64) & 0xff) as u8,
            b2 == ((w >> 16u64) & 0xff) as u8,
            b3 == ((w >> 24u64) & 0xff) as u8,
    ;
    assert(swar::byte_of(w, 0) == d[0]);
    if n == 4 {
        assert(swar::byte_of(w, 1) == d[1]);
        assert(swar::byte_of(w, 3) == d[3]);
    } else if n == 3 {
        assert(swar::byte_of(w, 2) == d[2]);
    } else if n == 2 {
        assert(swar::byte_of(w, 1) == d[1]);
    }
}

/// Reads a temperature.
pub fn parse_number(value: &[u8]) -> (t: i16)
    requires
        number_ok(value@),
    ensures
        t == number(value@),
{
    let first: u8 = value[0];
    let s: usize = ((!first & 0x10) >> 4u8) as usize;
    assert(s == sign_len(value@)) by {
        assert(((!first & 0x10) >> 4u8) == (if first & 0x10 == 0 {
            1u8
        } else {
            0u8
        })) by (bit_vector);
    }
    let shift: u32 = (s + 4 - value.len()) as u32;
    let w: u64 = swar::word_padded(value, s);
    let v: u32 = ((((w & 0xff) as u32) << 24u32) | ((((w >> 8u64) & 0xff) as u32) << 16u32) | ((((w
        >> 16u64) & 0xff) as u32) << 8u32) | (((w >> 24u64) & 0xff) as u32)) >> (8 * shift);
    proof {
        let d = value@.skip(s as int);
        swar::lemma_word_le_bytes(value@, s as int);
        assert forall|k: int| 0 <= k < d.len() implies #[trigger] swar::byte_of(w, k) == d[k] by {
            assert(d[k] == value@[s + k]);
        }
        lemma_register(w, d, v);
        assert(s == 0 ==> d =~= value@);
    }
    let a: u32 = 100 * ((v >> 24u32) & 0xf) + 10 * ((v >> 16u32) & 0xf) + (v & 0xf);
    if s == 1 {
        -(a as i16)
    } else {
        a as i16
    }
}

/// One or two digits, a byte for the dot and one digit stand for so many tenths, below zero with a minus
/// sign in front; one digit alone, or behind one byte, for itself. The six bytes behind the nine count on
/// as digits.
pub proof fn law_digits(a: u8, b: u8, c: u8, dot: u8)
    requires
        a <= 15,
        b <= 15,
        c <= 15,
    ensures
        ({
            let one = seq![(48 + b) as u8, dot, (48 + c) as u8];
            let two = seq![(48 + a) as u8, (48 + b) as u8, dot, (48 + c) as u8];
            let x: int = 10 * b + c;
            let y: int = (100 * a + 10 * b + c);
            &&& number_ok(one) && number(one) == x
            &&& number_ok(two) && number(two) == y
            &&& number_ok(seq![45u8] + one) && number(seq![45u8] + one) == -x
            &&& number_ok(seq![45u8] + two) && number(seq![45u8] + two) == -y
            &&& number_ok(seq![(48 + c) as u8]) && number(seq![(48 + c) as u8]) == c
            &&& number_ok(seq![45u8, (48 + c) as u8]) && number(seq![45u8, (48 + c) as u8]) == -c
        }),
{
    let one = seq![(48 + b) as u8, dot, (48 + c) as u8];
    let two = seq![(48 + a) as u8, (48 + b) as u8, dot, (48 + c) as u8];
    let last = seq![(48 + c) as u8];
    assert(seq![45u8, (48 + c) as u8].skip(1) =~= last);
    assert((seq![45u8] + one).skip(1) =~= one);
    assert((seq![45u8] + two).skip(1) =~= two);
    assert(number::digit_from_end(last, 0) == c && number::digit_from_end(last, 2) == 0 && number::digit_from_end(last, 3)
        == 0);
    assert(number::digit_from_end(one, 0) == c && number::digit_from_end(one, 2) == b
        && number::digit_from_end(one, 3) == 0);
    assert(number::digit_from_end(two, 0) == c && number::digit_from_end(two, 2) == b
        && number::digit_from_end(two, 3) == a);
    let x = (48 + a) as u8;
    let y = (48 + b) as u8;
    assert(45u8 & 0x10 == 0) by (bit_vector);
    let z = (48 + c) as u8;
    assert(48 <= x <= 63 ==> x & 0x10 != 0) by (bit_vector);
    assert(48 <= y <= 63 ==> y & 0x10 != 0) by (bit_vector);
    assert(48 <= z <= 63 ==> z & 0x10 != 0) by (bit_vector);
}

} // verus!
