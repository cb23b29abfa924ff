//! The positions of a delimiter, found sixteen bytes at a time.
use vstd::prelude::*;
use crate::bytes;
use crate::swar;
use crate::swar::FIND_SIZE;

verus! {

/// Of four delimiters in a row, the last is at least sixteen bytes behind the first: sixteen bytes
/// hold three at most.
pub open spec fn spread(s: Seq<u8>, c: u8) -> bool {
    forall|p: int|
        0 <= p < s.len() && #[trigger] s[p] == c ==> {
            let q = third_after(s, c, p);
            q >= s.len() || q - p >= FIND_SIZE
        }
}

/// The position of the third `c` behind `p`.
pub open spec fn third_after(s: Seq<u8>, c: u8, p: int) -> int {
    bytes::next_at(s, c, bytes::next_at(s, c, bytes::next_at(s, c, p + 1) + 1) + 1)
}

/// Where to look for the item of the list at `k`.
pub open spec fn after(list: Seq<usize>, lo: int, k: int, from: int) -> int {
    if k == lo {
        from
    } else {
        list[k - 1] + 1
    }
}

/// The items `lo..hi` of `list` are the positions of `c` in `from..to`, in order.
pub open spec fn listed(
    s: Seq<u8>,
    c: u8,
    list: Seq<usize>,
    lo: int,
    hi: int,
    from: int,
    to: int,
) -> bool {
    &&& 0 <= lo <= hi <= list.len()
    &&& 0 <= from <= to <= s.len()
    &&& forall|k: int|
        lo <= k < hi ==> bytes::next_at(s, c, after(list, lo, k, from)) == #[trigger] list[k]
            && list[k] < to
    &&& after(list, lo, hi, from) <= to
    &&& bytes::next_at(s, c, after(list, lo, hi, from)) >= to
}

/// The bytes `to..upto` hold no `c`.
pub proof fn lemma_listed_skip(
    s: Seq<u8>,
    c: u8,
    list: Seq<usize>,
    lo: int,
    hi: int,
    from: int,
    to: int,
    upto: int,
)
    requires
        listed(s, c, list, lo, hi, from, to),
        to <= upto <= s.len(),
        forall|p: int| to <= p < upto ==> #[trigger] s[p] != c,
    ensures
        listed(s, c, list, lo, hi, from, upto),
{
    let a = after(list, lo, hi, from);
    bytes::lemma_next_at(s, c, a);
    let n = bytes::next_at(s, c, a);
    if n < upto {
        assert(s[n] != c);
    }
}

/// The byte at `to` is a `c` and joins the list.
pub proof fn lemma_listed_push(
    s: Seq<u8>,
    c: u8,
    list: Seq<usize>,
    more: Seq<usize>,
    lo: int,
    hi: int,
    from: int,
    to: int,
)
    requires
        listed(s, c, list, lo, hi, from, to),
        to < s.len(),
        s[to] == c,
        hi < list.len(),
        more.len() == list.len(),
        forall|k: int| 0 <= k < list.len() && k != hi ==> #[trigger] more[k] == list[k],
        more[hi] == to,
    ensures
        listed(s, c, more, lo, hi + 1, from, to + 1),
{
    let a = after(list, lo, hi, from);
    bytes::lemma_next_at(s, c, a);
    bytes::lemma_next_at(s, c, to + 1);
    assert(bytes::next_at(s, c, a) == to) by {
        let n = bytes::next_at(s, c, a);
        if n > to {
            assert(s[to] != c);
        }
    }
    assert forall|k: int| lo <= k < hi + 1 implies bytes::next_at(
        s,
        c,
        after(more, lo, k, from),
    ) == #[trigger] more[k] && more[k] < to + 1 by {
        if k < hi {
            assert(more[k] == list[k]);
        }
        if k > lo {
            assert(more[k - 1] == list[k - 1]);
        }
    }
}

/// Three are enough.
pub proof fn lemma_listed_room(
    s: Seq<u8>,
    c: u8,
    list: Seq<usize>,
    n: int,
    from: int,
    to: int,
)
    requires
        n <= 3,
        listed(s, c, list, 0, n, from, to),
        spread(s, c),
        to < s.len(),
        s[to] == c,
        to - from < FIND_SIZE,
    ensures
        n < 3,
{
    if n == 3 {
        assert(bytes::next_at(s, c, after(list, 0, 0, from)) == list[0]);
        assert(bytes::next_at(s, c, after(list, 0, 1, from)) == list[1]);
        assert(bytes::next_at(s, c, after(list, 0, 2, from)) == list[2]);
        bytes::lemma_next_at(s, c, from);
        let a = list[2] + 1;
        bytes::lemma_next_at(s, c, a);
        let m = bytes::next_at(s, c, a);
        if m > to {
            assert(s[to] != c);
        }
        assert(third_after(s, c, list[0] as int) == to);
        assert(s[list[0] as int] == c);
    }
}

/// Between the two ends that divide by sixteen lies a multiple of sixteen.
proof fn lemma_align(unaligned: int, len: int)
    requires
        0 <= unaligned < 16,
        0 <= len,
    ensures
        ({
            let tail = (unaligned + len % 16) % 16;
            let lead = if unaligned == 0 {
                0
            } else {
                16 - unaligned
            };
            &&& 0 <= tail < 16
            &&& lead <= len - tail ==> (len - tail - lead) % 16 == 0
            &&& len - tail < lead && lead <= len ==> false
            &&& tail > len ==> len < 16
        }),
{
    let m = len % 16;
    let q = len / 16;
    assert(len == 16 * q + m);
    let tail = (unaligned + m) % 16;
    if unaligned + m < 16 {
        assert(tail == unaligned + m);
        if unaligned != 0 {
            assert(len - tail - (16 - unaligned) == 16 * (q - 1));
        } else {
            assert(len - tail == 16 * q);
        }
    } else {
        assert(tail == unaligned + m - 16);
        assert(len - tail - (16 - unaligned) == 16 * q);
    }
}

/// `slice::as_ptr`: where the bytes of `data` lie in memory. Nothing is claimed of the address, which
/// differs from run to run.
#[verifier::external_body]
fn address_of(data: &[u8]) -> (a: usize) {
    data.as_ptr() as usize
}

/// Hands out the positions of one delimiter, from left to right.
pub struct Tokenizer<'a> {
    cache: [usize; 3],
    cache_offset: usize,
    cache_length: usize,
    data_ptr: usize,
    data_align: usize,
    data: &'a [u8],
    mask: u64,
    chr: u8,
    seen: Ghost<int>,
}

impl<'a> Tokenizer<'a> {
    /// The bytes that are searched.
    pub closed spec fn bytes(&self) -> Seq<u8> {
        self.data@
    }

    /// The delimiter.
    pub closed spec fn chr(&self) -> u8 {
        self.chr
    }

    /// The position from which on nothing has been handed out yet.
    pub closed spec fn seen(&self) -> int {
        self.seen@
    }

    spec fn searches(&self) -> bool {
        &&& swar::no_look_alike(self.data@, self.chr)
        &&& spread(self.data@, self.chr)
        &&& self.mask == swar::splat(self.chr)
        &&& self.data_align <= self.data@.len()
        &&& self.data@.len() - self.data_align < FIND_SIZE
        &&& self.data_ptr <= self.data@.len()
        &&& self.data_ptr < self.data_align ==> (self.data_align - self.data_ptr) % 16 == 0
    }

    pub closed spec fn wf(&self) -> bool {
        &&& self.searches()
        &&& listed(
            self.data@,
            self.chr,
            self.cache@,
            self.cache_offset as int,
            self.cache_length as int,
            self.seen@,
            self.data_ptr as int,
        )
    }

    /// Starts at the first byte.
    pub fn new(data: &'a [u8], chr: u8, mask: u64) -> (t: Self)
        requires
            swar::no_look_alike(data@, chr),
            spread(data@, chr),
            mask == swar::splat(chr),
        ensures
            t.wf(),
            t.bytes() == data@,
            t.chr() == chr,
            t.seen() == 0,
    {
        let address: usize = address_of(data);
        Self::align(data, chr, mask, address)
    }

    /// Searches the bytes before the first address that divides by sixteen one by one.
    pub fn align(data: &'a [u8], chr: u8, mask: u64, address: usize) -> (t: Self)
        requires
            swar::no_look_alike(data@, chr),
            spread(data@, chr),
            mask == swar::splat(chr),
        ensures
            t.wf(),
            t.bytes() == data@,
            t.chr() == chr,
            t.seen() == 0,
    {
        let len: usize = data.len();
        let unaligned: usize = address % FIND_SIZE;
        let tail: usize = (unaligned + len % FIND_SIZE) % FIND_SIZE;
        let data_align: usize = if tail <= len {
            len - tail
        } else {
            0
        };
        let mut t = Tokenizer {
            cache: [0usize; 3],
            cache_offset: 0,
            cache_length: 0,
            data_ptr: 0,
            data_align,
            data,
            mask,
            chr,
            seen: Ghost(0int),
        };
        proof {
            bytes::lemma_next_at(data@, chr, 0);
            lemma_align(unaligned as int, len as int);
        }
        if unaligned != 0 {
            let gap: usize = FIND_SIZE - unaligned;
            let end: usize = if len < gap {
                len
            } else {
                gap
            };
            t.fill_unaligned(end);
        }
        t
    }

    /// Searches the bytes up to `end` one by one.
    fn fill_unaligned(&mut self, end: usize) -> (found: bool)
        requires
            old(self).data_ptr <= end <= old(self).data@.len(),
            end - old(self).data_ptr <= FIND_SIZE,
            swar::no_look_alike(old(self).data@, old(self).chr),
            spread(old(self).data@, old(self).chr),
        ensures
            found <==> final(self).cache_length > 0,
            final(self).cache_length <= 3,
            final(self).data_ptr == end,
            listed(
                old(self).data@,
                old(self).chr,
                final(self).cache@,
                0,
                final(self).cache_length as int,
                old(self).data_ptr as int,
                end as int,
            ),
            final(self).data == old(self).data,
            final(self).chr == old(self).chr,
            final(self).mask == old(self).mask,
            final(self).data_align == old(self).data_align,
            final(self).cache_offset == old(self).cache_offset,
            final(self).seen == old(self).seen,
    {
        let mut cache: [usize; 3] = self.cache;
        let n: usize = fill_bytes(self.data, self.chr, self.data_ptr, end, &mut cache);
        self.cache = cache;
        self.cache_length = n;
        self.data_ptr = end;
        n != 0
    }
}

/// Puts the positions of `chr` in `start..end` into the cache, looking at each byte.
pub(crate) fn fill_bytes(
    data: &[u8],
    chr: u8,
    start: usize,
    end: usize,
    cache: &mut [usize; 3],
) -> (n: usize)
    requires
        start <= end <= data.len(),
        end - start <= FIND_SIZE,
        spread(data@, chr),
    ensures
        n <= 3,
        listed(data@, chr, final(cache)@, 0, n as int, start as int, end as int),
{
    let mut n: usize = 0;
    let mut p: usize = start;
    proof {
        bytes::lemma_next_at(data@, chr, start as int);
    }
    while p < end
        invariant
            start <= p <= end <= data@.len(),
            end - start <= FIND_SIZE,
            n <= 3,
            spread(data@, chr),
            listed(data@, chr, cache@, 0, n as int, start as int, p as int),
        decreases end - p,
    {
        if data[p] == chr {
            proof {
                lemma_listed_room(data@, chr, cache@, n as int, start as int, p as int);
            }
            let ghost before = cache@;
            cache[n] = p;
            proof {
                lemma_listed_push(
                    data@,
                    chr,
                    before,
                    cache@,
                    0,
                    n as int,
                    start as int,
                    p as int,
                );
            }
            n = n + 1;
        } else {
            proof {
                lemma_listed_skip(
                    data@,
                    chr,
                    cache@,
                    0,
                    n as int,
                    start as int,
                    p as int,
                    p + 1,
                );
            }
        }
        p = p + 1;
    }
    n
}

/// Puts the positions of `chr` in the word at `p` into the cache, behind those that are there.
pub(crate) fn fill_word(
    data: &[u8],
    chr: u8,
    mask: u64,
    p: usize,
    Ghost(from): Ghost<int>,
    cache: &mut [usize; 3],
    count: usize,
) -> (n: usize)
    requires
        p + 8 <= data.len(),
        0 <= from,
        p + 8 - from <= FIND_SIZE,
        count <= 3,
        swar::no_look_alike(data@, chr),
        spread(data@, chr),
        mask == swar::splat(chr),
        listed(data@, chr, old(cache)@, 0, count as int, from, p as int),
    ensures
        n <= 3,
        listed(data@, chr, final(cache)@, 0, n as int, from, p + 8),
{
    let mut n: usize = count;
    let mut x: u64 = swar::find_flags(mask, swar::word_at(data, p));
    let ghost mut done: int = 0;
    proof {
        swar::lemma_word_all(data@, p as int, chr);
    }
    while x != 0
        invariant
            p + 8 <= data.len(),
            0 <= from,
            p + 8 - from <= FIND_SIZE,
            n <= 3,
            0 <= done <= 8,
            spread(data@, chr),
            swar::only_flags(x),
            forall|j: int|
                0 <= j < 8 ==> (#[trigger] swar::flag(x, j) <==> j >= done && data@[p + j] == chr),
            listed(data@, chr, cache@, 0, n as int, from, p + done),
        decreases 8 - done,
    {
        let ghost before_x = x;
        let k: usize = swar::take_flag(&mut x);
        proof {
            assert(swar::flag(before_x, k as int));
            assert forall|q: int| p + done <= q < p + k implies #[trigger] data@[q] != chr by {
                assert(!swar::flag(before_x, q - p));
            }
            lemma_listed_skip(
                data@,
                chr,
                cache@,
                0,
                n as int,
                from,
                p + done,
                p + k,
            );
            lemma_listed_room(data@, chr, cache@, n as int, from, p + k);
        }
        let ghost before = cache@;
        cache[n] = p + k;
        proof {
            lemma_listed_push(data@, chr, before, cache@, 0, n as int, from, p + k);
            assert forall|j: int| 0 <= j < 8 implies (#[trigger] swar::flag(x, j) <==> j >= k + 1
                && data@[p + j] == chr) by {
                assert(swar::flag(before_x, j) <==> j >= done && data@[p + j] == chr);
                if j < k {
                    assert(!swar::flag(before_x, j));
                }
            }
            done = k + 1;
        }
        n = n + 1;
    }
    proof {
        swar::lemma_some_flag(x);
        assert forall|q: int| p + done <= q < p + 8 implies #[trigger] data@[q] != chr by {
            assert(!swar::flag(x, q - p));
        }
        lemma_listed_skip(data@, chr, cache@, 0, n as int, from, p + done, p + 8);
    }
    n
}

impl<'a> Tokenizer<'a> {
    /// Looks for the next delimiters, sixteen bytes at a time and the last ones one by one.
    fn fill(&mut self) -> (found: bool)
        requires
            old(self).wf(),
            old(self).cache_offset >= old(self).cache_length,
        ensures
            final(self).searches(),
            final(self).data == old(self).data,
            final(self).chr == old(self).chr,
            final(self).seen == old(self).seen,
            found <==> final(self).cache_length > 0,
            found ==> listed(
                final(self).data@,
                final(self).chr,
                final(self).cache@,
                0,
                final(self).cache_length as int,
                final(self).seen@,
                final(self).data_ptr as int,
            ),
            !found ==> final(self).data_ptr == final(self).data@.len() && bytes::next_at(
                final(self).data@,
                final(self).chr,
                final(self).seen@,
            ) == final(self).data@.len(),
            final(self).cache_offset == old(self).cache_offset,
    {
        let mut n: usize = 0;
        let mut p: usize = self.data_ptr;
        let data: &[u8] = self.data;
        let chr: u8 = self.chr;
        let mask: u64 = self.mask;
        let mut cache: [usize; 3] = self.cache;
        let ghost seen = self.seen@;
        let ghost mut from = p as int;
        proof {
            bytes::lemma_next_at(data@, chr, p as int);
            bytes::lemma_next_at(data@, chr, seen);
        }
        while n == 0 && p < self.data_align
            invariant
                *self == *old(self),
                self.searches(),
                data == self.data,
                chr == self.chr,
                mask == self.mask,
                seen == self.seen@,
                n <= 3,
                p <= data@.len(),
                p < self.data_align ==> (self.data_align - p) % 16 == 0,
                0 <= seen <= from <= p,
                n == 0 ==> from == p,
                forall|q: int| seen <= q < from ==> #[trigger] data@[q] != chr,
                listed(data@, chr, cache@, 0, n as int, from, p as int),
            decreases data@.len() - p,
        {
            proof {
                from = p as int;
                bytes::lemma_next_at(data@, chr, p as int);
            }
            n = fill_word(data, chr, mask, p, Ghost(from), &mut cache, n);
            p = p + swar::BASE_SIZE;
            n = fill_word(data, chr, mask, p, Ghost(from), &mut cache, n);
            p = p + swar::BASE_SIZE;
            proof {
                if n == 0 {
                    bytes::lemma_next_at(data@, chr, from);
                    from = p as int;
                    bytes::lemma_next_at(data@, chr, from);
                }
            }
        }
        self.data_ptr = p;
        self.cache = cache;
        self.cache_length = n;
        proof {
            if n > 0 {
                lemma_listed_from(data@, chr, cache@, n as int, seen, from, p as int);
            }
        }
        if n > 0 {
            return true;
        }
        let end: usize = self.data.len();
        let found: bool = self.fill_unaligned(end);
        proof {
            if found {
                lemma_listed_from(
                    data@,
                    chr,
                    self.cache@,
                    self.cache_length as int,
                    seen,
                    p as int,
                    end as int,
                );
            } else {
                bytes::lemma_next_at(data@, chr, p as int);
                bytes::lemma_next_at_skip(data@, chr, seen, p as int);
            }
        }
        found
    }

    /// The position of the next delimiter, or none if there is none left.
    pub fn next(&mut self) -> (r: Option<usize>)
        requires
            old(self).wf(),
        ensures
            final(self).wf(),
            final(self).bytes() == old(self).bytes(),
            final(self).chr() == old(self).chr(),
            ({
                let n = bytes::next_at(old(self).bytes(), old(self).chr(), old(self).seen());
                if n < old(self).bytes().len() {
                    r is Some && r->0 == n && final(self).seen() == n + 1
                } else {
                    r is None && final(self).seen() == old(self).seen()
                }
            }),
    {
        let at: usize = self.cache_offset;
        proof {
            bytes::lemma_next_at(self.data@, self.chr, self.seen@);
        }
        if self.cache_length > at {
            assert(bytes::next_at(
                self.data@,
                self.chr,
                after(self.cache@, at as int, at as int, self.seen@),
            ) == self.cache@[at as int]);
            let r: usize = self.cache[at];
            proof {
                lemma_listed_pop(
                    self.data@,
                    self.chr,
                    self.cache@,
                    at as int,
                    self.cache_length as int,
                    self.seen@,
                    self.data_ptr as int,
                );
            }
            self.cache_offset = at + 1;
            self.seen = Ghost(r + 1);
            Some(r)
        } else if self.fill() {
            assert(bytes::next_at(self.data@, self.chr, after(self.cache@, 0, 0, self.seen@))
                == self.cache@[0]);
            let r: usize = self.cache[0];
            proof {
                lemma_listed_pop(
                    self.data@,
                    self.chr,
                    self.cache@,
                    0,
                    self.cache_length as int,
                    self.seen@,
                    self.data_ptr as int,
                );
            }
            self.cache_offset = 1;
            self.seen = Ghost(r + 1);
            Some(r)
        } else {
            self.cache_offset = 0;
            None
        }
    }
}

/// Nothing before `from` matches, so the list may be taken to start earlier.
proof fn lemma_listed_from(
    s: Seq<u8>,
    c: u8,
    list: Seq<usize>,
    hi: int,
    seen: int,
    from: int,
    to: int,
)
    requires
        0 <= seen <= from,
        listed(s, c, list, 0, hi, from, to),
        hi > 0,
        forall|q: int| seen <= q < from ==> #[trigger] s[q] != c,
    ensures
        listed(s, c, list, 0, hi, seen, to),
{
    bytes::lemma_next_at_skip(s, c, seen, from);
    assert forall|k: int| 0 <= k < hi implies bytes::next_at(s, c, after(list, 0, k, seen))
        == #[trigger] list[k] && list[k] < to by {
        assert(bytes::next_at(s, c, after(list, 0, k, from)) == list[k]);
    }
}

/// The first item is handed out.
proof fn lemma_listed_pop(
    s: Seq<u8>,
    c: u8,
    list: Seq<usize>,
    lo: int,
    hi: int,
    from: int,
    to: int,
)
    requires
        listed(s, c, list, lo, hi, from, to),
        lo < hi,
    ensures
        listed(s, c, list, lo + 1, hi, list[lo] + 1, to),
{
    assert forall|k: int| lo + 1 <= k < hi implies bytes::next_at(
        s,
        c,
        after(list, lo + 1, k, list[lo] + 1),
    ) == #[trigger] list[k] && list[k] < to by {
        assert(bytes::next_at(s, c, after(list, lo, k, from)) == list[k]);
    }
    assert(list[lo] < to);
}

} // verus!
