//! Station names, and how they are compared.
use vstd::prelude::*;
use crate::swar;
use crate::table;
use crate::table::Ranked;
use crate::text;

verus! {

/// A station.
#[derive(Clone, Copy)]
pub struct City<'a> {
    pub name: &'a [u8],
}

/// Byte by byte from `from` on.
fn slow_loop(a: &[u8], b: &[u8], from: usize) -> (r: bool)
    requires
        a.len() == b.len(),
        from <= a.len(),
    ensures
        r <==> forall|i: int| from <= i < a.len() ==> #[trigger] a@[i] == b@[i],
{
    let mut i: usize = from;
    while i < a.len()
        invariant
            a.len() == b.len(),
            from <= i <= a.len(),
            forall|j: int| from <= j < i ==> #[trigger] a@[j] == b@[j],
        decreases a.len() - i,
    {
        if a[i] != b[i] {
            assert(a@[i as int] != b@[i as int]);
            return false;
        }
        i = i + 1;
    }
    true
}

/// Words are the same if and only if their bytes are.
proof fn lemma_same_word(a: Seq<u8>, b: Seq<u8>, i: int)
    requires
        0 <= i,
        i + 8 <= a.len(),
        i + 8 <= b.len(),
    ensures
        swar::word_le(a, i) == swar::word_le(b, i) <==> forall|j: int|
            i <= j < i + 8 ==> #[trigger] a[j] == b[j],
{
    swar::lemma_word_le_bytes(a, i);
    swar::lemma_word_le_bytes(b, i);
    if swar::word_le(a, i) == swar::word_le(b, i) {
        assert forall|j: int| i <= j < i + 8 implies #[trigger] a[j] == b[j] by {
            assert(swar::byte_of(swar::word_le(a, i), j - i) == a[j]);
            assert(swar::byte_of(swar::word_le(b, i), j - i) == b[j]);
        }
    }
}

/// Up to `count` words, then byte by byte.
fn fast_words(a: &[u8], b: &[u8], count: usize) -> (r: bool)
    requires
        a.len() == b.len(),
        count * 8 <= a.len(),
    ensures
        r <==> a@ == b@,
{
    let mut k: usize = 0;
    while k < count
        invariant
            a.len() == b.len(),
            count * 8 <= a.len(),
            k <= count,
            forall|j: int| 0 <= j < 8 * k ==> #[trigger] a@[j] == b@[j],
        decreases count - k,
    {
        proof {
            lemma_same_word(a@, b@, 8 * k);
        }
        if swar::word_at(a, 8 * k) != swar::word_at(b, 8 * k) {
            return false;
        }
        k = k + 1;
    }
    let r: bool = slow_loop(a, b, 8 * count);
    proof {
        if r {
            assert(a@ =~= b@);
        }
    }
    r
}

/// Names of up to 71 bytes word by word, longer ones byte by byte.
fn fast_simd(a: &[u8], b: &[u8]) -> (r: bool)
    requires
        a.len() == b.len(),
    ensures
        r <==> a@ == b@,
{
    let blocks: usize = a.len() / 8;
    if blocks <= 8 {
        fast_words(a, b, blocks)
    } else {
        let r: bool = slow_loop(a, b, 0);
        proof {
            if r {
                assert(a@ =~= b@);
            }
        }
        r
    }
}

/// The names differ in their first byte or in one of their last two.
fn fast_detect(a: &[u8], b: &[u8]) -> (r: bool)
    requires
        a.len() == b.len(),
        a.len() >= 4,
    ensures
        r <==> a@[0] != b@[0] || a@[a.len() - 2] != b@[a.len() - 2] || a@[a.len() - 1]
            != b@[a.len() - 1],
{
    let n: usize = a.len();
    a[0] != b[0] || a[n - 2] != b[n - 2] || a[n - 1] != b[n - 1]
}

/// Whether two names are the same: by their lengths, by the bytes in which names differ most
/// often, and then by the bytes between.
pub fn same_name(a: &[u8], b: &[u8]) -> (r: bool)
    ensures
        r <==> a@ == b@,
{
    let len: usize = a.len();
    if len != b.len() {
        false
    } else if len < 4 {
        let r: bool = slow_loop(a, b, 0);
        proof {
            if r {
                assert(a@ =~= b@);
            }
        }
        r
    } else if fast_detect(a, b) {
        false
    } else {
        let x: &[u8] = &a[1..len - 2];
        let y: &[u8] = &b[1..len - 2];
        let r: bool = fast_simd(x, y);
        proof {
            if r {
                assert forall|i: int| 0 <= i < len implies a@[i] == b@[i] by {
                    if 1 <= i < len - 2 {
                        assert(x@[i - 1] == y@[i - 1]);
                    }
                }
                assert(a@ =~= b@);
            }
        }
        r
    }
}

impl<'a> City<'a> {
    /// The station of this name.
    pub fn new(name: &'a [u8]) -> (c: Self)
        ensures
            c.name@ == name@,
    {
        City { name }
    }

    /// Appends the name.
    pub fn write(&self, buf: &mut Vec<u8>)
        ensures
            final(buf)@ == old(buf)@ + self.name@,
    {
        text::push_range(buf, self.name, 0, self.name.len());
        assert(self.name@.subrange(0, self.name.len() as int) =~= self.name@);
    }
}

impl<'a> From<&'a [u8]> for City<'a> {
    fn from(value: &'a [u8]) -> (c: Self) {
        City { name: value }
    }
}

impl<'a> vstd::std_specs::convert::FromSpecImpl<&'a [u8]> for City<'a> {
    open spec fn obeys_from_spec() -> bool {
        true
    }

    open spec fn from_spec(value: &'a [u8]) -> City<'a> {
        City { name: value }
    }
}

impl<'a> PartialEq for City<'a> {
    fn eq(&self, other: &Self) -> (r: bool) {
        same_name(self.name, other.name)
    }
}

impl<'a> vstd::std_specs::cmp::PartialEqSpecImpl for City<'a> {
    open spec fn obeys_eq_spec() -> bool {
        true
    }

    open spec fn eq_spec(&self, other: &Self) -> bool {
        self.name@ == other.name@
    }
}

impl<'a> Ranked for City<'a> {
    type K = Seq<u8>;

    open spec fn key(&self) -> Seq<u8> {
        self.name@
    }

    open spec fn lt(a: Seq<u8>, b: Seq<u8>) -> bool {
        table::lex_lt(a, b)
    }

    proof fn lt_total(a: Seq<u8>, b: Seq<u8>) {
        table::lemma_lex_total(a, b);
    }

    proof fn lt_trans(a: Seq<u8>, b: Seq<u8>, c: Seq<u8>) {
        table::lemma_lex_trans(a, b, c);
    }

    fn before(&self, other: &Self) -> (r: bool) {
        table::bytes_before(self.name, other.name)
    }
}

} // verus!
