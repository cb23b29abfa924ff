//! Temperatures: text with one digit after the dot to tenths of a degree, without a branch
//! on any digit.
use vstd::prelude::*;
use crate::swar;

verus! {

/// Tenths of a degree.
pub type Temperature = i32;

/// `-`.
pub const CHR_MINUS: u8 = 45;

/// 1 if the text starts with a minus sign, else 0.
pub open spec fn sign_len(s: Seq<u8>) -> int {
    if s.len() > 0 && s[0] == CHR_MINUS {
        1
    } else {
        0
    }
}

/// What the byte at `k` places from the end counts as a digit: its low four bits, 0 before
/// the start.
pub open spec fn digit_from_end(d: Seq<u8>, k: int) -> int {
    if k < d.len() {
        (d[d.len() - 1 - k] % 16) as int
    } else {
        0
    }
}

/// The tenths that the digits `d` stand for: the last byte counts once, the one before the
/// dot ten times, the one before that a hundred times, all modulo 1024.
pub open spec fn magnitude(d: Seq<u8>) -> int {
    (100 * digit_from_end(d, 3) + 10 * digit_from_end(d, 2) + digit_from_end(d, 0)) % 1024
}

/// The text can be read: one to four bytes after the sign.
pub open spec fn number_ok(s: Seq<u8>) -> bool {
    1 <= s.len() - sign_len(s) <= 4
}

/// The temperature that `s` stands for.
pub open spec fn number(s: Seq<u8>) -> int {
    if sign_len(s) == 1 {
        -magnitude(s.skip(1))
    } else {
        magnitude(s)
    }
}

/// The tenths in a register that holds the last four bytes of a number, the last one in
/// the highest place.
pub open spec fn register_tenths(v: u32) -> int {
    (100 * (v % 16) + 10 * ((v >> 8u32) % 16) + ((v >> 24u32) % 16)) % 1024
}

/// One multiplication weighs three digits: what it adds beyond them lies below the 32 bits
/// that are shifted out or above the ten bits that are kept.
proof fn lemma_weights(a: int, b: int, d: int)
    requires
        0 <= a < 16,
        0 <= b < 16,
        0 <= d < 16,
    ensures
        ((((a + 256 * b + 0x100_0000 * d) * 0x640A000100) % 0x1_0000_0000_0000_0000)
            / 0x1_0000_0000) % 1024 == (100 * a + 10 * b + d) % 1024,
{
    let p = (a + 256 * b + 0x100_0000 * d) * 0x640A000100;
    let low = a * 0xA00_0000 + a * 256 + b * 0x1_0000;
    let q = 100 * a + 10 * b + d + 1024 * (25 * b) + 1024 * (640 * d) + 1024 * (1638400 * d);
    assert(p == 0x1_0000_0000 * q + low);
    assert(0 <= low < 0x1_0000_0000);
    assert(0 <= q);
    let r = q % 0x1_0000_0000;
    let k = q / 0x1_0000_0000;
    let rest = 0x1_0000_0000 * r + low;
    assert(p == 0x1_0000_0000_0000_0000 * k + rest);
    vstd::arithmetic::div_mod::lemma_fundamental_div_mod_converse_mod(
        p,
        0x1_0000_0000_0000_0000,
        k,
        rest,
    );
    vstd::arithmetic::div_mod::lemma_fundamental_div_mod_converse_div(rest, 0x1_0000_0000, r, low);
    let t = 100 * a + 10 * b + d;
    let e = 25 * b + 640 * d + 1638400 * d - 4194304 * k;
    assert(r == 1024 * e + t);
    vstd::arithmetic::div_mod::lemma_fundamental_div_mod_converse_mod(
        r,
        1024,
        e + t / 1024,
        t % 1024,
    );
}

/// Multiplies the digits in the register by their weights all at once and applies the sign.
fn parse_number_magic(value: u32, sign: u32) -> (t: Temperature)
    requires
        sign <= 1,
    ensures
        t == (if sign == 1 {
            -register_tenths(value)
        } else {
            register_tenths(value)
        }),
{
    let x: u64 = (value & 0x0F000F0F) as u64;
    let m: u64 = (x.wrapping_mul(0x640A000100) >> 32u64) & 0x3FF;
    proof {
        let a: u32 = value % 16;
        let b: u32 = (value >> 8u32) % 16;
        let d: u32 = (value >> 24u32) % 16;
        let w: u64 = x.wrapping_mul(0x640A000100);
        assert(x == a + 256 * b + 0x100_0000 * d) by (bit_vector)
            requires
                x == (value & 0x0F000F0F) as u64,
                a == value % 16,
                b == (value >> 8u32) % 16,
                d == (value >> 24u32) % 16,
        ;
        assert(w == (x * 0x640A000100) % 0x1_0000_0000_0000_0000);
        lemma_weights(a as int, b as int, d as int);
        assert((w >> 32u64) & 0x3FF == (w / 0x1_0000_0000) % 1024) by (bit_vector);
        assert(m < 1024);
        let y: i64 = m as i64;
        let g: i64 = -(sign as i64) as i64;
        assert(g == 0 ==> y ^ g == y) by (bit_vector);
        assert(g == -1 && 0 <= y < 1024 ==> y ^ g == -y - 1) by (bit_vector);
    }
    let n: i64 = ((m as i64) ^ -(sign as i64)) + sign as i64;
    n as Temperature
}

/// Shifting the digits to the top of the register leaves them in the places of their weights.
proof fn lemma_register(w: u64, d: Seq<u8>, v: u32)
    requires
        1 <= d.len() <= 4,
        forall|k: int| 0 <= k < d.len() ==> #[trigger] swar::byte_of(w, k) == d[k],
        v == (w as u32) << ((8 * (4 - d.len())) as u32),
    ensures
        register_tenths(v) == magnitude(d),
{
    let n: u32 = d.len() as u32;
    let b0: u8 = swar::byte_of(w, 0);
    let b1: u8 = swar::byte_of(w, 1);
    let b2: u8 = swar::byte_of(w, 2);
    let b3: u8 = swar::byte_of(w, 3);
    assert({
        &&& n == 4 ==> v % 16 == (b0 as u32) % 16 && (v >> 8u32) % 16 == (b1 as u32) % 16 && (v
            >> 24u32) % 16 == (b3 as u32) % 16
        &&& n == 3 ==> v % 16 == 0 && (v >> 8u32) % 16 == (b0 as u32) % 16 && (v >> 24u32) % 16 == (
        b2 as u32) % 16
        &&& n == 2 ==> v % 16 == 0 && (v >> 8u32) % 16 == 0 && (v >> 24u32) % 16 == (b1 as u32) % 16
        &&& n == 1 ==> v % 16 == 0 && (v >> 8u32) % 16 == 0 && (v >> 24u32) % 16 == (b0 as u32) % 16
    }) by (bit_vector)
        requires
            1 <= n <= 4,
            v == (w as u32) << ((8 * (4 - n)) as u32),
            b0 == (w & 0xff) as u8,
            b1 == ((w >> 8u64) & 0xff) as u8,
            b2 == ((w >> 16u64) & 0xff) as u8,
            b3 == ((w >> 24u64) & 0xff) as u8,
    ;
    assert(swar::byte_of(w, 0) == d[0]);
    if n == 4 {
        assert(swar::byte_of(w, 1) == d[1]);
        assert(swar::byte_of(w, 3) == d[3]);
    } else if n == 3 {
        assert(swar::byte_of(w, 2) == d[2]);
    } else if n == 2 {
        assert(swar::byte_of(w, 1) == d[1]);
    }
}

/// Reads a temperature.
pub fn parse_number(value: &[u8]) -> (t: Temperature)
    requires
        number_ok(value@),
    ensures
        t == number(value@),
{
    let sign: u32 = if value[0] == CHR_MINUS {
        1
    } else {
        0
    };
    let shift: u32 = sign + 4 - value.len() as u32;
    let word: u64 = swar::word_padded(value, sign as usize);
    let v: u32 = (word as u32) << (8 * shift);
    proof {
        let d = value@.skip(sign as int);
        swar::lemma_word_le_bytes(value@, sign as int);
        assert forall|k: int| 0 <= k < d.len() implies #[trigger] swar::byte_of(word, k)
            == d[k] by {
            assert(d[k] == value@[sign + k]);
        }
        lemma_register(word, d, v);
        assert(sign == 0 ==> d =~= value@);
    }
    parse_number_magic(v, sign)
}

/// Reads a temperature of `len` bytes that stands in the low bytes of a word.
pub fn parse_number_ex(value: u64, len: u32) -> (t: Temperature)
    requires
        len <= 8,
        number_ok(swar::word_bytes(value).take(len as int)),
    ensures
        t == number(swar::word_bytes(value).take(len as int)),
{
    let sign: u32 = if (value & 0xff) as u8 == CHR_MINUS {
        1
    } else {
        0
    };
    let ghost s = swar::word_bytes(value).take(len as int);
    assert(s[0] == swar::byte_of(value, 0));
    let shift: u32 = sign + 4 - len;
    let word: u64 = value >> (8 * sign as u64);
    let v: u32 = (word as u32) << (8 * shift);
    proof {
        let d = s.skip(sign as int);
        assert({
            &&& value >> 0u64 == value
            &&& ((value >> 8u64) >> 8u64) & 0xff == (value >> 16u64) & 0xff
            &&& ((value >> 8u64) >> 16u64) & 0xff == (value >> 24u64) & 0xff
            &&& ((value >> 8u64) >> 24u64) & 0xff == (value >> 32u64) & 0xff
        }) by (bit_vector);
        assert forall|k: int| 0 <= k < d.len() implies #[trigger] swar::byte_of(word, k)
            == d[k] by {
            assert(d[k] == swar::byte_of(value, sign + k));
        }
        lemma_register(word, d, v);
        assert(sign == 0 ==> d =~= s);
    }
    parse_number_magic(v, sign)
}

/// One or two digits, a byte for the dot and one digit stand for so many tenths, below zero with a minus
/// sign in front; one digit alone, or behind one byte, for itself. The six bytes behind the nine count on
/// as digits, and what does not fit into ten bits is cut.
pub proof fn law_digits(a: u8, b: u8, c: u8, dot: u8)
    requires
        a <= 15,
        b <= 15,
        c <= 15,
    ensures
        ({
            let one = seq![(48 + b) as u8, dot, (48 + c) as u8];
            let two = seq![(48 + a) as u8, (48 + b) as u8, dot, (48 + c) as u8];
            let x: int = 10 * b + c;
            let y: int = (100 * a + 10 * b + c) % 1024;
            &&& number_ok(one) && number(one) == x
            &&& number_ok(two) && number(two) == y
            &&& number_ok(seq![45u8] + one) && number(seq![45u8] + one) == -x
            &&& number_ok(seq![45u8] + two) && number(seq![45u8] + two) == -y
            &&& number_ok(seq![(48 + c) as u8]) && number(seq![(48 + c) as u8]) == c
            &&& number_ok(seq![45u8, (48 + c) as u8]) && number(seq![45u8, (48 + c) as u8]) == -c
        }),
{
    let one = seq![(48 + b) as u8, dot, (48 + c) as u8];
    let two = seq![(48 + a) as u8, (48 + b) as u8, dot, (48 + c) as u8];
    let last = seq![(48 + c) as u8];
    assert(seq![45u8, (48 + c) as u8].skip(1) =~= last);
    assert((seq![45u8] + one).skip(1) =~= one);
    assert((seq![45u8] + two).skip(1) =~= two);
    assert(digit_from_end(last, 0) == c && digit_from_end(last, 2) == 0 && digit_from_end(last, 3)
        == 0);
    assert(digit_from_end(one, 0) == c && digit_from_end(one, 2) == b && digit_from_end(one, 3) == 0);
    assert(digit_from_end(two, 0) == c && digit_from_end(two, 2) == b && digit_from_end(two, 3) == a);
}

} // verus!
