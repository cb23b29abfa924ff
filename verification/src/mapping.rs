//! A file that is written and read through mappings of its parts: which part is mapped, what
//! goes where, and how long the file is. Whoever owns the file does the mapping.
use vstd::prelude::*;
use crate::scanner;
use crate::swar;

verus! {

/// How many pages are mapped at once for writing.
pub const CHUNK_PAGES: usize = 16384;

/// The bytes at the end of a file in huge pages that hold the length of its contents.
pub const FOOTER_SIZE: usize = 8;

/// Why a file cannot be mapped.
#[derive(Clone, Copy, Debug, PartialEq, Eq, Structural)]
pub enum MapError {
    /// The system does not tell its page size.
    UnknownPageSize,
    /// There is nothing to read.
    EmptyFile,
}

impl MapError {
    /// What is said about it.
    pub fn message(&self) -> (r: &'static str)
        ensures
            r@ == (match *self {
                MapError::UnknownPageSize => "Unknown page size"@,
                MapError::EmptyFile => "Empty file"@,
            }),
    {
        match self {
            MapError::UnknownPageSize => "Unknown page size",
            MapError::EmptyFile => "Empty file",
        }
    }
}

/// The state of a mapped file.
pub struct Mapping {
    /// How many bytes are mapped at once.
    pub chunk: int,
    /// Where in the file the mapped part starts.
    pub offset: int,
    /// How long the file is.
    pub length: int,
    /// The file is being written.
    pub write: bool,
    /// The file lies in huge pages.
    pub hugepages: bool,
    /// A part is mapped.
    pub mapped: bool,
    /// How many bytes of the mapped part are in use.
    pub filled: int,
}

impl Mapping {
    /// How many bytes of the mapped part are free.
    pub open spec fn remain(self) -> int {
        if self.mapped {
            self.chunk - self.filled
        } else {
            0
        }
    }

    /// How many bytes have been written: where in the file the next one goes.
    pub open spec fn written(self) -> int {
        self.offset + self.filled
    }

    /// With `n` bytes more in the mapped part.
    pub open spec fn wrote(self, n: int) -> Mapping {
        Mapping { filled: self.filled + n, ..self }
    }

    /// With the next part mapped, or the first one.
    pub open spec fn moved(self) -> Mapping {
        let offset = if self.mapped {
            self.offset + self.chunk
        } else {
            self.offset
        };
        Mapping { offset, length: offset + self.chunk, mapped: true, filled: 0, ..self }
    }

    /// A file of this length that is to be written from its start.
    pub open spec fn for_writing(length: int, page_size: int, hugepages: bool) -> Mapping {
        Mapping {
            chunk: CHUNK_PAGES * page_size,
            offset: 0,
            length,
            write: true,
            hugepages,
            mapped: false,
            filled: 0,
        }
    }

    /// A file of this length that is to be read as a whole.
    pub open spec fn for_reading(length: int, hugepages: bool) -> Mapping {
        Mapping {
            chunk: if length < usize::MAX {
                length
            } else {
                usize::MAX as int
            },
            offset: 0,
            length,
            write: false,
            hugepages,
            mapped: false,
            filled: 0,
        }
    }

    /// With the whole file mapped for reading: in huge pages, as much of it as its last bytes say.
    pub open spec fn loaded(self, data: Seq<u8>) -> Mapping {
        let length = if self.hugepages {
            swar::word_le(data, data.len() - FOOTER_SIZE) as int
        } else {
            self.length
        };
        Mapping { mapped: true, filled: length, length, ..self }
    }

    /// With writing ended. A file in huge pages keeps its length.
    pub open spec fn ended(self) -> Mapping {
        Mapping {
            write: false,
            length: if self.hugepages {
                self.length
            } else {
                self.written()
            },
            ..self
        }
    }

    pub open spec fn valid(self) -> bool {
        &&& self.chunk > 0
        &&& 0 <= self.filled <= self.chunk
        &&& 0 <= self.offset
        &&& !self.mapped ==> self.filled == 0 && self.offset == 0
    }
}

/// How many of `left` bytes go into the mapped part.
pub open spec fn portion(m: Mapping, left: int) -> int {
    if m.remain() > left {
        left
    } else {
        m.remain()
    }
}

/// Where in the file `left` bytes go that are written one after the other.
pub open spec fn places(m: Mapping, left: int) -> Seq<int>
    decreases left, m.chunk - m.remain(),
    when m.valid() && left >= 0
{
    if left == 0 {
        seq![]
    } else {
        let n = portion(m, left);
        Seq::new(n as nat, |i: int| m.offset + m.filled + i) + (if m.remain() > left {
            seq![]
        } else {
            places(m.wrote(n).moved(), left - n)
        })
    }
}

/// What is written one after the other stands in the file one after the other, whatever the
/// size of the mapped parts.
pub proof fn law_places(m: Mapping, left: int)
    requires
        m.valid(),
        left >= 0,
    ensures
        places(m, left) == Seq::new(left as nat, |i: int| m.written() + i),
    decreases left, m.chunk - m.remain(),
{
    if left > 0 {
        let n = portion(m, left);
        if m.remain() <= left {
            let next = m.wrote(n).moved();
            law_places(next, left - n);
            assert(next.written() == m.written() + n);
        }
        assert(places(m, left) =~= Seq::new(left as nat, |i: int| m.written() + i));
    } else {
        assert(places(m, left) =~= Seq::new(left as nat, |i: int| m.written() + i));
    }
}

/// A file that is mapped part by part.
pub struct Mmap {
    chunk: usize,
    offset: u64,
    length: u64,
    write: bool,
    hugepages: bool,
    mapped: bool,
    filled: usize,
}

impl View for Mmap {
    type V = Mapping;

    closed spec fn view(&self) -> Mapping {
        Mapping {
            chunk: self.chunk as int,
            offset: self.offset as int,
            length: self.length as int,
            write: self.write,
            hugepages: self.hugepages,
            mapped: self.mapped,
            filled: self.filled as int,
        }
    }
}

/// What is left to do when writing ends.
#[derive(Clone, Copy)]
pub enum Finish {
    /// Nothing: the file was read.
    Nothing,
    /// Cut the file to this length.
    Cut(u64),
    /// Note this length at the end of the mapped part; map the next part before, if `map`.
    Note { length: u64, map: bool },
}

impl Mmap {
    /// A file of this length, to be written from its start or to be read as a whole. Nothing is
    /// mapped yet.
    pub fn open<const WRITE: bool>(length: u64, page_size: i64, hugepages: bool) -> (r: Result<
        Mmap,
        MapError,
    >)
        requires
            WRITE && page_size != -1 ==> 0 < page_size && CHUNK_PAGES * page_size <= usize::MAX,
        ensures
            WRITE ==> (match r {
                Ok(m) => page_size != -1 && m@.valid() && m@ == Mapping::for_writing(
                    length as int,
                    page_size as int,
                    hugepages,
                ),
                Err(e) => page_size == -1 && e == MapError::UnknownPageSize,
            }),
            !WRITE ==> (match r {
                Ok(m) => length > 0 && m@.valid() && m@ == Mapping::for_reading(
                    length as int,
                    hugepages,
                ),
                Err(e) => length == 0 && e == MapError::EmptyFile,
            }),
    {
        if WRITE {
            if page_size == -1 {
                return Err(MapError::UnknownPageSize);
            }
            assert(0 < page_size <= CHUNK_PAGES * page_size);
            let chunk: usize = CHUNK_PAGES * page_size as usize;
            Ok(
                Mmap {
                    chunk,
                    offset: 0,
                    length,
                    write: true,
                    hugepages,
                    mapped: false,
                    filled: 0,
                },
            )
        } else {
            if length == 0 {
                return Err(MapError::EmptyFile);
            }
            let mut chunk: usize = usize::MAX;
            if chunk as u64 > length {
                chunk = length as usize;
            }
            Ok(
                Mmap {
                    chunk,
                    offset: 0,
                    length,
                    write: false,
                    hugepages,
                    mapped: false,
                    filled: 0,
                },
            )
        }
    }

    /// The file has been mapped for reading: takes its length, or, in huge pages, the length that
    /// is noted at its end.
    pub fn load(&mut self, data: &[u8])
        requires
            old(self)@.valid(),
            !old(self)@.mapped,
            !old(self)@.write,
            data.len() == old(self)@.chunk,
            old(self)@.hugepages ==> data.len() >= FOOTER_SIZE && swar::word_le(
                data@,
                data.len() - FOOTER_SIZE,
            ) <= data.len(),
            !old(self)@.hugepages ==> old(self)@.length <= data.len(),
        ensures
            final(self)@.valid(),
            final(self)@ == old(self)@.loaded(data@),
    {
        if self.hugepages {
            self.length = swar::word_at(data, data.len() - FOOTER_SIZE);
        }
        self.mapped = true;
        self.filled = self.length as usize;
    }

    /// How many bytes are mapped at once.
    pub fn chunk(&self) -> (n: usize)
        ensures
            n == self@.chunk,
    {
        self.chunk
    }

    /// Where in the file the mapped part starts.
    pub fn offset(&self) -> (n: u64)
        ensures
            n == self@.offset,
    {
        self.offset
    }

    /// How long the file is.
    pub fn length(&self) -> (n: u64)
        ensures
            n == self@.length,
    {
        self.length
    }

    /// How many bytes of the mapped part are in use.
    pub fn filled(&self) -> (n: usize)
        ensures
            n == self@.filled,
    {
        self.filled
    }

    /// How many bytes of the mapped part are free.
    pub fn remain(&self) -> (n: usize)
        requires
            self@.valid(),
        ensures
            n == self@.remain(),
    {
        if self.mapped {
            self.chunk - self.filled
        } else {
            0
        }
    }

    /// Of `left` bytes that are to be written, how many go into the mapped part, and whether the
    /// next part has to be mapped then.
    pub fn write(&mut self, left: usize) -> (r: (usize, bool))
        requires
            old(self)@.valid(),
        ensures
            final(self)@.valid(),
            r.0 == portion(old(self)@, left as int),
            r.1 <==> old(self)@.remain() <= left,
            final(self)@ == old(self)@.wrote(r.0 as int),
    {
        let remain: usize = self.remain();
        if remain > left {
            self.filled = self.filled + left;
            (left, false)
        } else {
            self.filled = self.filled + remain;
            (remain, true)
        }
    }

    /// Moves on to the next part, or to the first one. The file is to be made as long as it says
    /// and the part at its offset to be mapped.
    pub fn next_map(&mut self)
        requires
            old(self)@.valid(),
            old(self)@.moved().length <= u64::MAX,
        ensures
            final(self)@.valid(),
            final(self)@ == old(self)@.moved(),
    {
        if self.mapped {
            self.offset = self.offset + self.chunk as u64;
        }
        self.length = self.offset + self.chunk as u64;
        self.mapped = true;
        self.filled = 0;
    }

    /// Ends writing. A file in huge pages keeps its length, which is a whole number of parts, and
    /// has that of its contents noted at its end; another one is cut to its contents.
    pub fn finish(&mut self) -> (r: Finish)
        requires
            old(self)@.valid(),
            old(self)@.written() <= u64::MAX,
        ensures
            final(self)@.valid(),
            match r {
                Finish::Nothing => !old(self)@.write && final(self)@ == old(self)@,
                Finish::Cut(length) => {
                    &&& old(self)@.write && !old(self)@.hugepages
                    &&& length == old(self)@.written()
                    &&& final(self)@ == old(self)@.ended()
                },
                Finish::Note { length, map } => {
                    &&& old(self)@.write && old(self)@.hugepages
                    &&& length == old(self)@.written()
                    &&& map <==> old(self)@.remain() < FOOTER_SIZE
                    &&& final(self)@ == old(self)@.ended()
                },
            },
    {
        if !self.write {
            return Finish::Nothing;
        }
        self.write = false;
        let length: u64 = self.offset + self.filled as u64;
        if self.hugepages {
            Finish::Note { length, map: self.remain() < FOOTER_SIZE }
        } else {
            self.length = length;
            Finish::Cut(length)
        }
    }

    /// Where in the mapped part the length of the contents is noted.
    pub fn footer_at(&self) -> (pos: usize)
        requires
            self@.valid(),
            self@.chunk >= FOOTER_SIZE,
        ensures
            pos == self@.chunk - FOOTER_SIZE,
    {
        self.chunk - FOOTER_SIZE
    }
}

/// The bytes of a length, lowest first.
pub fn footer(length: u64) -> (b: [u8; 8])
    ensures
        b@ == swar::word_bytes(length),
{
    let b: [u8; 8] = [
        (length & 0xff) as u8,
        ((length >> 8u64) & 0xff) as u8,
        ((length >> 16u64) & 0xff) as u8,
        ((length >> 24u64) & 0xff) as u8,
        ((length >> 32u64) & 0xff) as u8,
        ((length >> 40u64) & 0xff) as u8,
        ((length >> 48u64) & 0xff) as u8,
        ((length >> 56u64) & 0xff) as u8,
    ];
    assert(b@ =~= swar::word_bytes(length));
    b
}

/// A length that is noted at the end of a file is read back from there.
pub proof fn law_footer(s: Seq<u8>, length: u64)
    ensures
        swar::word_le(s + swar::word_bytes(length), s.len() as int) == length,
{
    let t = s + swar::word_bytes(length);
    let w = length;
    let b = swar::word_bytes(length);
    let n = s.len() as int;
    assert(swar::word_le(t, n) == swar::pack(b[0], b[1], b[2], b[3], b[4], b[5], b[6], b[7]));
    assert(((w & 0xff) as u8 as u64) | ((((w >> 8u64) & 0xff) as u8 as u64) << 8u64) | ((((w
        >> 16u64) & 0xff) as u8 as u64) << 16u64) | ((((w >> 24u64) & 0xff) as u8 as u64) << 24u64)
        | ((((w >> 32u64) & 0xff) as u8 as u64) << 32u64) | ((((w >> 40u64) & 0xff) as u8 as u64)
        << 40u64) | ((((w >> 48u64) & 0xff) as u8 as u64) << 48u64) | ((((w >> 56u64)
        & 0xff) as u8 as u64) << 56u64) == w) by (bit_vector);
}

/// A file made as long as `n`: cut, or filled up with zeros.
pub open spec fn resized(file: Seq<u8>, n: int) -> Seq<u8> {
    Seq::new(n as nat, |i: int| if i < file.len() { file[i] } else { 0 })
}

/// A file with `bytes` copied into it at `at`.
pub open spec fn copied(file: Seq<u8>, at: int, bytes: Seq<u8>) -> Seq<u8> {
    Seq::new(
        file.len(),
        |i: int|
            if at <= i < at + bytes.len() {
                bytes[i - at]
            } else {
                file[i]
            },
    )
}

/// A mapped file with its contents.
pub struct Disk {
    pub m: Mapping,
    pub file: Seq<u8>,
}

impl Disk {
    /// `Mmap::next_map` is carried out: the file is made as long as it says.
    pub open spec fn moved(self) -> Disk {
        Disk { m: self.m.moved(), file: resized(self.file, self.m.moved().length) }
    }

    /// `Mmap::write` is carried out once: that many bytes are copied to where they go.
    pub open spec fn wrote(self, bytes: Seq<u8>) -> Disk {
        Disk {
            m: self.m.wrote(bytes.len() as int),
            file: copied(self.file, self.m.written(), bytes),
        }
    }

    /// Bytes are written: as many as go into the mapped part, then the next part, until all are.
    pub open spec fn written(self, bytes: Seq<u8>) -> Disk
        decreases bytes.len(), self.m.chunk - self.m.remain(),
        when self.m.valid()
    {
        if bytes.len() == 0 {
            self
        } else {
            let n = portion(self.m, bytes.len() as int);
            let d = self.wrote(bytes.take(n));
            if self.m.remain() > bytes.len() {
                d
            } else {
                d.moved().written(bytes.skip(n))
            }
        }
    }

    /// Byte strings are written one after the other.
    pub open spec fn all_written(self, ws: Seq<Seq<u8>>) -> Disk
        decreases ws.len(),
    {
        if ws.len() == 0 {
            self
        } else {
            self.written(ws[0]).all_written(ws.drop_first())
        }
    }

    /// `Mmap::finish` is carried out: the file is cut to its contents, or, in huge pages, the length
    /// of the contents is noted at its end, in the next part if there is no room in this one.
    pub open spec fn finished(self) -> Disk {
        if !self.m.hugepages {
            Disk { m: self.m.ended(), file: resized(self.file, self.m.written()) }
        } else {
            let d = Disk { m: self.m.ended(), ..self };
            let d = if self.m.remain() < FOOTER_SIZE {
                d.moved()
            } else {
                d
            };
            Disk {
                m: d.m,
                file: copied(
                    d.file,
                    d.m.offset + d.m.chunk - FOOTER_SIZE,
                    swar::word_bytes(self.m.written() as u64),
                ),
            }
        }
    }

    /// `contents` has been written so far.
    pub open spec fn holds(self, contents: Seq<u8>) -> bool {
        &&& self.m.valid()
        &&& self.m.offset % self.m.chunk == 0
        &&& self.m.written() == contents.len()
        &&& self.m.mapped ==> self.file.len() == self.m.length == self.m.offset + self.m.chunk
        &&& contents.len() <= self.file.len()
        &&& self.file.take(contents.len() as int) == contents
    }
}

/// Mapping the next part keeps what has been written, if this one is full.
proof fn lemma_moved(d: Disk, contents: Seq<u8>)
    requires
        d.holds(contents),
        d.m.remain() == 0,
    ensures
        d.moved().holds(contents),
{
    let e = d.moved();
    if d.m.mapped {
        vstd::arithmetic::div_mod::lemma_mod_add_multiples_vanish(d.m.offset, d.m.chunk);
    }
    assert(e.file.take(contents.len() as int) =~= contents) by {
        assert forall|i: int| 0 <= i < contents.len() implies e.file[i] == contents[i] by {
            assert(d.file.take(contents.len() as int)[i] == contents[i]);
        }
    }
}

/// What is written is added to what has been written.
proof fn lemma_written(d: Disk, contents: Seq<u8>, bytes: Seq<u8>)
    requires
        d.holds(contents),
    ensures
        d.written(bytes).holds(contents + bytes),
        d.written(bytes).m.chunk == d.m.chunk,
        d.written(bytes).m.hugepages == d.m.hugepages,
        d.written(bytes).m.write == d.m.write,
    decreases bytes.len(), d.m.chunk - d.m.remain(),
{
    if bytes.len() == 0 {
        assert(contents + bytes =~= contents);
    } else {
        let n = portion(d.m, bytes.len() as int);
        let some = bytes.take(n);
        let e = d.wrote(some);
        assert(e.file.take((contents + some).len() as int) =~= contents + some) by {
            assert forall|i: int| 0 <= i < contents.len() + n implies e.file[i] == (contents
                + some)[i] by {
                if i < contents.len() {
                    assert(d.file.take(contents.len() as int)[i] == contents[i]);
                }
            }
        }
        assert(e.holds(contents + some));
        if d.m.remain() > bytes.len() {
            assert(some =~= bytes);
        } else {
            lemma_moved(e, contents + some);
            lemma_written(e.moved(), contents + some, bytes.skip(n));
            assert((contents + some) + bytes.skip(n) =~= contents + bytes);
        }
    }
}

proof fn lemma_all_written(d: Disk, contents: Seq<u8>, ws: Seq<Seq<u8>>)
    requires
        d.holds(contents),
    ensures
        d.all_written(ws).holds(contents + scanner::joined(ws)),
        d.all_written(ws).m.chunk == d.m.chunk,
        d.all_written(ws).m.hugepages == d.m.hugepages,
        d.all_written(ws).m.write == d.m.write,
    decreases ws.len(),
{
    if ws.len() == 0 {
        assert(contents + scanner::joined(ws) =~= contents);
    } else {
        lemma_written(d, contents, ws[0]);
        lemma_all_written(d.written(ws[0]), contents + ws[0], ws.drop_first());
        assert((contents + ws[0]) + scanner::joined(ws.drop_first()) =~= contents
            + scanner::joined(ws));
    }
}

/// A file that is written and finished holds what was written, one byte string after the other, and
/// nothing else, whatever it held before; so it does when it is read. `finish` says how long that is.
pub proof fn law_file_is_what_was_written(file: Seq<u8>, page_size: int, ws: Seq<Seq<u8>>)
    requires
        page_size > 0,
    ensures
        ({
            let m = Mapping::for_writing(file.len() as int, page_size, false);
            let d = Disk { m, file }.all_written(ws);
            let r = d.finished();
            let n = r.file.len() as int;
            &&& r.file == scanner::joined(ws)
            &&& r.m.length == scanner::joined(ws).len()
            &&& r.m == d.m.ended()
            &&& 0 < n < usize::MAX ==> r.file.take(
                Mapping::for_reading(n, false).loaded(r.file).filled,
            ) == scanner::joined(ws)
        }),
{
    let m = Mapping::for_writing(file.len() as int, page_size, false);
    let start = Disk { m, file };
    let all = scanner::joined(ws);
    let none: Seq<u8> = seq![];
    assert(file.take(0) =~= none);
    assert(start.holds(none)) by {
        vstd::arithmetic::div_mod::lemma_small_mod(0, m.chunk as nat);
    }
    lemma_all_written(start, none, ws);
    assert(none + all =~= all);
    let d = start.all_written(ws);
    assert(d.finished().file =~= d.file.take(all.len() as int));
    assert(all.take(all.len() as int) =~= all);
}

/// A file in huge pages that is written and finished is a whole number of parts long; read again, it
/// gives what was written, one byte string after the other, and nothing else.
pub proof fn law_huge_file_reads_back(file: Seq<u8>, page_size: int, ws: Seq<Seq<u8>>)
    requires
        page_size > 0,
        scanner::joined(ws).len() <= u64::MAX,
    ensures
        ({
            let m = Mapping::for_writing(file.len() as int, page_size, true);
            let r = Disk { m, file }.all_written(ws).finished();
            let n = r.file.len() as int;
            &&& n % m.chunk == 0
            &&& n >= FOOTER_SIZE
            &&& r.m.length == n
            &&& swar::word_le(r.file, n - FOOTER_SIZE) == scanner::joined(ws).len()
            &&& scanner::joined(ws).len() <= n
            &&& r.file.take(Mapping::for_reading(n, true).loaded(r.file).filled) == scanner::joined(
                ws,
            )
        }),
{
    let m = Mapping::for_writing(file.len() as int, page_size, true);
    let start = Disk { m, file };
    let all = scanner::joined(ws);
    let none: Seq<u8> = seq![];
    assert(file.take(0) =~= none);
    assert(m.chunk >= CHUNK_PAGES);
    assert(start.holds(none)) by {
        vstd::arithmetic::div_mod::lemma_small_mod(0, m.chunk as nat);
    }
    lemma_all_written(start, none, ws);
    assert(none + all =~= all);
    let d = start.all_written(ws);
    let e = Disk { m: d.m.ended(), ..d };
    let e = if d.m.remain() < FOOTER_SIZE {
        e.moved()
    } else {
        e
    };
    vstd::arithmetic::div_mod::lemma_mod_add_multiples_vanish(d.m.offset, d.m.chunk);
    vstd::arithmetic::div_mod::lemma_mod_add_multiples_vanish(d.m.offset + d.m.chunk, d.m.chunk);
    let r = d.finished();
    let n = r.file.len() as int;
    let w = swar::word_bytes(all.len() as u64);
    assert(n == e.m.offset + e.m.chunk);
    assert(r.file =~= r.file.take(n - FOOTER_SIZE) + w);
    law_footer(r.file.take(n - FOOTER_SIZE), all.len() as u64);
    assert forall|i: int| 0 <= i < all.len() implies r.file[i] == all[i] by {
        assert(d.file.take(all.len() as int)[i] == all[i]);
    }
    assert(r.file.take(all.len() as int) =~= all);
}

/// A file that is read is mapped as a whole from its start; one that is written is mapped in parts of
/// 16384 pages, from its start on, each behind the one before.
pub proof fn law_parts(length: int, page_size: int, hugepages: bool, n: int)
    requires
        0 < length <= usize::MAX,
        0 < page_size,
    ensures
        ({
            let m = Mapping::for_reading(length, hugepages);
            &&& m.chunk == length && m.offset == 0 && m.length == length
            &&& !m.write && !m.mapped && m.filled == 0 && m.hugepages == hugepages
        }),
        ({
            let m = Mapping::for_writing(length, page_size, hugepages);
            let first = m.moved();
            let next = first.wrote(n).moved();
            &&& m.chunk == 16384 * page_size && m.written() == 0 && m.remain() == 0
            &&& m.write && m.hugepages == hugepages
            &&& first.offset == 0 && first.length == m.chunk && first.remain() == m.chunk
            &&& first.wrote(n).written() == n && first.wrote(n).remain() == m.chunk - n
            &&& next.offset == m.chunk && next.length == 2 * m.chunk && next.remain() == m.chunk
        }),
{
}

/// Of bytes that are to be written, as many go into the mapped part as there is room for.
pub proof fn law_portion(m: Mapping, left: int)
    requires
        m.valid(),
        0 <= left,
    ensures
        portion(m, left) <= left,
        portion(m, left) <= m.remain(),
        portion(m, left) == left || portion(m, left) == m.remain(),
        0 <= portion(m, left),
{
}

} // verus!
