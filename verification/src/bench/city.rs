//! Station names and their fingerprints.
use vstd::prelude::*;
use crate::swar;
use crate::table;
use crate::table::Ranked;
use crate::text;

verus! {

/// The length of a name, and a word that mixes its first and last bytes.
pub type Fingerprint = (u32, u64);

/// The bytes of a word in reverse.
pub open spec fn swapped(w: u64) -> u64 {
    swar::pack(
        swar::byte_of(w, 7),
        swar::byte_of(w, 6),
        swar::byte_of(w, 5),
        swar::byte_of(w, 4),
        swar::byte_of(w, 3),
        swar::byte_of(w, 2),
        swar::byte_of(w, 1),
        swar::byte_of(w, 0),
    )
}

/// The fingerprint of `name` that starts from the word `word1`: of a short name its bytes
/// against themselves in reverse, of a longer one `word1` against its last eight bytes.
pub open spec fn fingerprint_ex(name: Seq<u8>, word1: u64) -> Fingerprint {
    (
        name.len() as u32,
        if name.len() <= 8 {
            (word1 << ((8 * (8 - name.len())) as u64)) ^ swapped(
                word1 << ((8 * (8 - name.len())) as u64),
            )
        } else {
            word1 ^ swar::word_le(name, name.len() - 8)
        },
    )
}

/// The fingerprint of a name.
pub open spec fn fingerprint(name: Seq<u8>) -> Fingerprint {
    fingerprint_ex(name, swar::word_le(name, 0))
}

fn swap_bytes(w: u64) -> (r: u64)
    ensures
        r == swapped(w),
{
    (((w >> 56u64) & 0xff) as u8 as u64) | ((((w >> 48u64) & 0xff) as u8 as u64) << 8u64) | ((((w
        >> 40u64) & 0xff) as u8 as u64) << 16u64) | ((((w >> 32u64) & 0xff) as u8 as u64) << 24u64)
        | ((((w >> 24u64) & 0xff) as u8 as u64) << 32u64) | ((((w >> 16u64) & 0xff) as u8 as u64)
        << 40u64) | ((((w >> 8u64) & 0xff) as u8 as u64) << 48u64) | (((w & 0xff) as u8 as u64)
        << 56u64)
}

/// A station: its name, and the fingerprint by which it is told from others.
#[derive(Clone, Copy)]
pub struct City<'a> {
    pub fp: Fingerprint,
    pub name: &'a [u8],
}

impl<'a> City<'a> {
    /// Appends the name.
    pub fn write(&self, buf: &mut Vec<u8>)
        ensures
            final(buf)@ == old(buf)@ + self.name@,
    {
        text::push_range(buf, self.name, 0, self.name.len());
        assert(self.name@.subrange(0, self.name.len() as int) =~= self.name@);
    }

    /// The station of this name.
    pub fn new(name: &'a [u8]) -> (c: Self)
        requires
            name.len() >= 1,
        ensures
            c.name == name,
            c.fp == fingerprint(name@),
    {
        Self::new_ex(name, swar::word_padded(name, 0))
    }

    /// The station of this name, with its first word at hand. Of a name shorter than eight
    /// bytes, what stands behind it in the word makes no difference.
    pub fn new_ex(name: &'a [u8], word1: u64) -> (c: Self)
        requires
            name.len() >= 1,
        ensures
            c.name == name,
            c.fp == fingerprint_ex(name@, word1),
    {
        let len: usize = name.len();
        let mix: u64 = if len <= 8 {
            let w: u64 = word1 << (8 * (8 - len) as u64);
            w ^ swap_bytes(w)
        } else {
            word1 ^ swar::word_at(name, len - 8)
        };
        City { name, fp: (len as u32, mix) }
    }

    /// The word by which the station is put into a slot.
    pub fn hash(&self) -> (h: u64)
        ensures
            h == self.fp.1,
    {
        self.fp.1
    }
}

/// The station of this name. An empty name, which `City::new` does not take, has the empty
/// fingerprint.
impl<'a> From<&'a [u8]> for City<'a> {
    fn from(value: &'a [u8]) -> (c: Self) {
        if value.len() == 0 {
            proof {
                let w = swar::word_le(value@, 0);
                assert(w << 64u64 == 0) by (bit_vector);
                assert(swapped(0) == 0 && 0u64 ^ 0u64 == 0) by (bit_vector);
            }
            City { fp: (0, 0), name: value }
        } else {
            City::new(value)
        }
    }
}

impl<'a> vstd::std_specs::convert::FromSpecImpl<&'a [u8]> for City<'a> {
    open spec fn obeys_from_spec() -> bool {
        true
    }

    open spec fn from_spec(value: &'a [u8]) -> City<'a> {
        City { fp: fingerprint(value@), name: value }
    }
}

impl<'a> PartialEq for City<'a> {
    fn eq(&self, other: &Self) -> (r: bool) {
        self.fp.0 == other.fp.0 && self.fp.1 == other.fp.1
    }
}

impl<'a> vstd::std_specs::cmp::PartialEqSpecImpl for City<'a> {
    open spec fn obeys_eq_spec() -> bool {
        true
    }

    open spec fn eq_spec(&self, other: &Self) -> bool {
        self.fp == other.fp
    }
}

/// Fingerprints in order: by length, then by the mixed word.
pub open spec fn fp_lt(a: Fingerprint, b: Fingerprint) -> bool {
    a.0 < b.0 || a.0 == b.0 && a.1 < b.1
}

/// Stations are ordered by fingerprint, and by name where the fingerprints are the same.
impl<'a> Ranked for City<'a> {
    type K = (Fingerprint, Seq<u8>);

    open spec fn key(&self) -> (Fingerprint, Seq<u8>) {
        (self.fp, self.name@)
    }

    open spec fn lt(a: (Fingerprint, Seq<u8>), b: (Fingerprint, Seq<u8>)) -> bool {
        fp_lt(a.0, b.0) || a.0 == b.0 && table::lex_lt(a.1, b.1)
    }

    proof fn lt_total(a: (Fingerprint, Seq<u8>), b: (Fingerprint, Seq<u8>)) {
        table::lemma_lex_total(a.1, b.1);
    }

    proof fn lt_trans(
        a: (Fingerprint, Seq<u8>),
        b: (Fingerprint, Seq<u8>),
        c: (Fingerprint, Seq<u8>),
    ) {
        if a.0 == b.0 && b.0 == c.0 {
            table::lemma_lex_trans(a.1, b.1, c.1);
        }
    }

    fn before(&self, other: &Self) -> (r: bool) {
        if self.fp.0 != other.fp.0 {
            self.fp.0 < other.fp.0
        } else if self.fp.1 != other.fp.1 {
            self.fp.1 < other.fp.1
        } else {
            table::bytes_before(self.name, other.name)
        }
    }
}

/// Any word that starts with the bytes of the name makes its fingerprint.
pub proof fn lemma_fingerprint_ex(name: Seq<u8>, w: u64)
    requires
        name.len() >= 1,
        forall|k: int| 0 <= k < 8 && k < name.len() ==> #[trigger] swar::byte_of(w, k) == name[k],
    ensures
        fingerprint_ex(name, w) == fingerprint(name),
{
    let v = swar::word_le(name, 0);
    swar::lemma_word_le_bytes(name, 0);
    let n: u64 = if name.len() <= 8 {
        name.len() as u64
    } else {
        8
    };
    assert forall|k: int| 0 <= k < n implies #[trigger] swar::byte_of(w, k) == swar::byte_of(
        v,
        k,
    ) by {
        assert(swar::byte_of(v, k) == name[k]);
    }
    let eq = |k: int| swar::byte_of(w, k) == swar::byte_of(v, k);
    assert(n >= 1 ==> eq(0));
    assert(n >= 2 ==> eq(1));
    assert(n >= 3 ==> eq(2));
    assert(n >= 4 ==> eq(3));
    assert(n >= 5 ==> eq(4));
    assert(n >= 6 ==> eq(5));
    assert(n >= 7 ==> eq(6));
    assert(n >= 8 ==> eq(7));
    assert(w << ((8 * (8 - n)) as u64) == v << ((8 * (8 - n)) as u64)) by (bit_vector)
        requires
            1 <= n <= 8,
            (w & 0xff) as u8 == (v & 0xff) as u8,
            n >= 2 ==> ((w >> 8u64) & 0xff) as u8 == ((v >> 8u64) & 0xff) as u8,
            n >= 3 ==> ((w >> 16u64) & 0xff) as u8 == ((v >> 16u64) & 0xff) as u8,
            n >= 4 ==> ((w >> 24u64) & 0xff) as u8 == ((v >> 24u64) & 0xff) as u8,
            n >= 5 ==> ((w >> 32u64) & 0xff) as u8 == ((v >> 32u64) & 0xff) as u8,
            n >= 6 ==> ((w >> 40u64) & 0xff) as u8 == ((v >> 40u64) & 0xff) as u8,
            n >= 7 ==> ((w >> 48u64) & 0xff) as u8 == ((v >> 48u64) & 0xff) as u8,
            n >= 8 ==> ((w >> 56u64) & 0xff) as u8 == ((v >> 56u64) & 0xff) as u8,
    ;
    if name.len() > 8 {
        assert(n == 8);
        assert(w << 0u64 == w && v << 0u64 == v) by (bit_vector);
    }
}

/// The byte of a name of eight bytes or fewer at place `j`, where it stands at the end of eight bytes
/// with zeros before it.
pub open spec fn at_end(name: Seq<u8>, j: int) -> u8 {
    if j >= 8 - name.len() {
        name[j - (8 - name.len())]
    } else {
        0
    }
}

/// What a fingerprint keeps of a name at byte `k` of its word: of a longer name the byte there against
/// the one as far into its last eight, of a shorter one the byte there against the one as far from the
/// end, where it stands at the end of eight bytes.
pub open spec fn kept(name: Seq<u8>, k: int) -> u8 {
    if name.len() > 8 {
        name[k] ^ name[name.len() - 8 + k]
    } else {
        at_end(name, k) ^ at_end(name, 7 - k)
    }
}

/// The fingerprint is the length of the name, and a word whose bytes are made of those of the name.
pub proof fn law_fingerprint_bytes(name: Seq<u8>, k: int)
    requires
        1 <= name.len() <= u32::MAX,
        0 <= k < 8,
    ensures
        fingerprint(name).0 == name.len(),
        name.len() > 8 ==> swar::byte_of(fingerprint(name).1, k) == name[k] ^ name[name.len() - 8
            + k],
        name.len() <= 8 ==> swar::byte_of(fingerprint(name).1, k) == at_end(name, k) ^ at_end(
            name,
            7 - k,
        ),
{
    let w = swar::word_le(name, 0);
    swar::lemma_word_le_bytes(name, 0);
    assert(swar::byte_of(w, k) == swar::byte_or_zero(name, k));
    if name.len() > 8 {
        law_fingerprint_ex_bytes(name, w, k);
    } else {
        let m = (8 - name.len()) as u64;
        let v = w << ((8 * m) as u64);
        swar::lemma_shift_bytes(w, m);
        lemma_swapped(v);
        swar::lemma_xor_bytes(v, swapped(v));
        assert forall|j: int| 0 <= j < 8 implies #[trigger] swar::byte_of(v, j) == at_end(
            name,
            j,
        ) by {
            if j >= m {
                assert(swar::byte_of(w, j - m) == swar::byte_or_zero(name, j - m));
            }
        }
        assert(swar::byte_of(v ^ swapped(v), k) == swar::byte_of(v, k) ^ swar::byte_of(
            swapped(v),
            k,
        ));
        assert(swar::byte_of(swapped(v), k) == swar::byte_of(v, 7 - k));
    }
}

/// A fingerprint of a longer name that starts from another word has the bytes of that word against the
/// last eight of the name.
pub proof fn law_fingerprint_ex_bytes(name: Seq<u8>, w: u64, k: int)
    requires
        8 < name.len() <= u32::MAX,
        0 <= k < 8,
    ensures
        fingerprint_ex(name, w).0 == name.len(),
        swar::byte_of(fingerprint_ex(name, w).1, k) == swar::byte_of(w, k) ^ name[name.len() - 8
            + k],
{
    let v = swar::word_le(name, name.len() - 8);
    swar::lemma_word_le_bytes(name, name.len() - 8);
    swar::lemma_xor_bytes(w, v);
    assert(swar::byte_of(v, k) == swar::byte_or_zero(name, name.len() - 8 + k));
    assert(swar::byte_of(w ^ v, k) == swar::byte_of(w, k) ^ swar::byte_of(v, k));
}

proof fn lemma_swapped(w: u64)
    ensures
        forall|k: int| 0 <= k < 8 ==> #[trigger] swar::byte_of(swapped(w), k) == swar::byte_of(w, 7 - k),
{
    swar::lemma_pack_bytes(
        swar::byte_of(w, 7),
        swar::byte_of(w, 6),
        swar::byte_of(w, 5),
        swar::byte_of(w, 4),
        swar::byte_of(w, 3),
        swar::byte_of(w, 2),
        swar::byte_of(w, 1),
        swar::byte_of(w, 0),
    );
}

/// Two names differ in their length, or in a byte that fingerprints keep.
pub open spec fn apart(a: Seq<u8>, b: Seq<u8>) -> bool {
    a.len() != b.len() || exists|k: int| 0 <= k < 8 && #[trigger] kept(a, k) != kept(b, k)
}

/// Names that differ in their length or in a byte that fingerprints keep have different fingerprints,
/// and other names do not.
pub proof fn law_names_apart(a: Seq<u8>, b: Seq<u8>)
    requires
        1 <= a.len() <= u32::MAX,
        1 <= b.len() <= u32::MAX,
    ensures
        fingerprint(a) != fingerprint(b) <==> apart(a, b),
{
    law_fingerprint_bytes(a, 0);
    law_fingerprint_bytes(b, 0);
    if a.len() == b.len() {
        if exists|k: int| 0 <= k < 8 && #[trigger] kept(a, k) != kept(b, k) {
            let k = choose|k: int| 0 <= k < 8 && #[trigger] kept(a, k) != kept(b, k);
            law_fingerprint_bytes(a, k);
            law_fingerprint_bytes(b, k);
        }
        if !apart(a, b) {
            let x = fingerprint(a).1;
            let y = fingerprint(b).1;
            assert forall|k: int| 0 <= k < 8 implies #[trigger] swar::byte_of(x, k)
                == swar::byte_of(y, k) by {
                law_fingerprint_bytes(a, k);
                law_fingerprint_bytes(b, k);
                assert(kept(a, k) == kept(b, k));
            }
            swar::lemma_same_bytes(x, y);
        }
    }
}

/// Of names longer than eight bytes and as long as each other, with the same last eight bytes and other
/// first ones or the other way round, no two share a fingerprint.
pub proof fn law_ends_tell_apart(a: Seq<u8>, b: Seq<u8>)
    requires
        8 < a.len() == b.len() <= u32::MAX,
        (a.skip(a.len() - 8) == b.skip(b.len() - 8)) != (a.take(8) == b.take(8)),
    ensures
        fingerprint(a) != fingerprint(b),
{
    let n = a.len() as int;
    let x = a.take(8);
    let y = b.take(8);
    let u = a.skip(n - 8);
    let v = b.skip(n - 8);
    let k = if u == v {
        if forall|k: int| 0 <= k < 8 ==> x[k] == y[k] {
            assert(x =~= y);
        }
        choose|k: int| 0 <= k < 8 && x[k] != y[k]
    } else {
        if forall|k: int| 0 <= k < 8 ==> u[k] == v[k] {
            assert(u =~= v);
        }
        choose|k: int| 0 <= k < 8 && u[k] != v[k]
    };
    assert(x[k] == a[k] && y[k] == b[k] && u[k] == a[n - 8 + k] && v[k] == b[n - 8 + k]);
    let (p, q, r, t) = (x[k], u[k], y[k], v[k]);
    assert((p == r) != (q == t) ==> p ^ q != r ^ t) by (bit_vector);
    law_fingerprint_bytes(a, k);
    law_fingerprint_bytes(b, k);
}

} // verus!
