//! A data file from a template: which stations it names, and one record after the other.
use vstd::prelude::*;
use crate::bytes;
use crate::bytes::{CHR_CM, CHR_NL};
use crate::table;
use crate::text;

verus! {

/// `#`, which starts a comment.
pub const CHR_HASH: u8 = 35;

/// A carriage return.
pub const CHR_CR: u8 = 13;

/// The most stations that can be asked for.
pub const MAX_CITIES: usize = 10000;

/// The number of stations in the default template.
pub const DEFULAT_CITIES: usize = 413;

/// How many stations are used where `n` are asked for.
pub fn max_cities(n: usize) -> (r: usize)
    ensures
        r == (if n < 1 {
            1
        } else if n > MAX_CITIES {
            MAX_CITIES
        } else {
            n
        }),
{
    if n < 1 {
        1
    } else if n > MAX_CITIES {
        MAX_CITIES
    } else {
        n
    }
}

/// The end of the line that starts at `from`: its line feed, or the end of the template.
pub open spec fn line_end(s: Seq<u8>, from: int) -> int {
    bytes::next_at(s, CHR_NL, from)
}

/// The line that starts at `from`, without its line feed and a carriage return before that.
pub open spec fn line_at(s: Seq<u8>, from: int) -> Seq<u8> {
    let n = line_end(s, from);
    if from < n < s.len() && s[n - 1] == CHR_CR {
        s.subrange(from, n - 1)
    } else {
        s.subrange(from, n)
    }
}

/// The station that a line names: what stands before the first separator.
pub open spec fn name_in(line: Seq<u8>) -> Seq<u8> {
    line.take(bytes::next_at(line, CHR_CM, 0))
}

/// The line is a comment.
pub open spec fn is_comment(line: Seq<u8>) -> bool {
    line.len() > 0 && line[0] == CHR_HASH
}

/// The stations that the lines from `from` on name, line by line.
pub open spec fn template_names(s: Seq<u8>, from: int) -> Seq<Seq<u8>>
    decreases s.len() + 1 - from,
{
    if 0 <= from < s.len() {
        proof {
            bytes::lemma_next_at(s, CHR_NL, from);
        }
        let line = line_at(s, from);
        (if is_comment(line) {
            seq![]
        } else {
            seq![name_in(line)]
        }) + template_names(s, line_end(s, from) + 1)
    } else {
        seq![]
    }
}

/// A name without the bytes that delimit it in a record.
pub open spec fn undelimited(name: Seq<u8>) -> bool {
    forall|i: int| 0 <= i < name.len() ==> #[trigger] name[i] != CHR_CM && name[i] != CHR_NL
}

/// A name that is not empty, without the bytes that delimit it in a record.
pub open spec fn plain(name: Seq<u8>) -> bool {
    name.len() > 0 && undelimited(name)
}

/// A name in a template holds neither a separator nor a line feed.
pub proof fn law_template_names_plain(s: Seq<u8>, from: int, name: Seq<u8>)
    requires
        0 <= from,
        template_names(s, from).contains(name),
    ensures
        undelimited(name),
        name.len() > 0 ==> plain(name),
    decreases s.len() + 1 - from,
{
    if from < s.len() {
        bytes::lemma_next_at(s, CHR_NL, from);
        let line = line_at(s, from);
        let rest = template_names(s, line_end(s, from) + 1);
        let all = template_names(s, from);
        let i = choose|i: int| 0 <= i < all.len() && all[i] == name;
        if !is_comment(line) && i == 0 {
            bytes::lemma_next_at(line, CHR_CM, 0);
            assert forall|j: int| 0 <= j < name.len() implies #[trigger] name[j] != CHR_CM
                && name[j] != CHR_NL by {
                assert(name[j] == line[j]);
                assert(line[j] == s[from + j]);
            }
        } else {
            let j = if is_comment(line) {
                i
            } else {
                i - 1
            };
            assert(rest[j] == name);
            law_template_names_plain(s, line_end(s, from) + 1, name);
        }
    }
}

/// The bytes of each name.
pub open spec fn views(names: Seq<&[u8]>) -> Seq<Seq<u8>> {
    names.map_values(|n: &[u8]| n@)
}

/// One of the names is `name`.
pub open spec fn listed(names: Seq<&[u8]>, name: Seq<u8>) -> bool {
    exists|i: int| 0 <= i < names.len() && #[trigger] names[i]@ == name
}

/// In the order of a dictionary, none twice.
pub open spec fn sorted(names: Seq<Seq<u8>>) -> bool {
    forall|i: int, j: int|
        0 <= i < j < names.len() ==> table::lex_lt(#[trigger] names[i], #[trigger] names[j])
}

/// Adds a name, unless it is there.
fn insert_name<'a>(names: &mut Vec<&'a [u8]>, name: &'a [u8])
    requires
        sorted(views(old(names)@)),
    ensures
        sorted(views(final(names)@)),
        views(final(names)@).to_set() == views(old(names)@).to_set().insert(name@),
{
    let ghost vs = views(names@);
    let mut lo: usize = 0;
    let mut hi: usize = names.len();
    while lo < hi
        invariant
            vs == views(names@),
            *names == *old(names),
            sorted(vs),
            lo <= hi <= names@.len(),
            forall|j: int| 0 <= j < lo ==> table::lex_lt(#[trigger] vs[j], name@),
            forall|j: int| hi <= j < vs.len() ==> !table::lex_lt(#[trigger] vs[j], name@),
        decreases hi - lo,
    {
        let mid: usize = lo + (hi - lo) / 2;
        assert(vs[mid as int] == names@[mid as int]@);
        if table::bytes_before(names[mid], name) {
            proof {
                assert forall|j: int| 0 <= j < mid + 1 implies table::lex_lt(
                    #[trigger] vs[j],
                    name@,
                ) by {
                    if j < mid {
                        table::lemma_lex_trans(vs[j], vs[mid as int], name@);
                    }
                }
            }
            lo = mid + 1;
        } else {
            proof {
                assert forall|j: int| mid <= j < vs.len() implies !table::lex_lt(
                    #[trigger] vs[j],
                    name@,
                ) by {
                    if mid < j && table::lex_lt(vs[j], name@) {
                        table::lemma_lex_trans(vs[mid as int], vs[j], name@);
                    }
                }
            }
            hi = mid;
        }
    }
    if lo < names.len() && !table::bytes_before(name, names[lo]) {
        proof {
            assert(vs[lo as int] == names@[lo as int]@);
            table::lemma_lex_total(vs[lo as int], name@);
            assert(vs.contains(name@));
            assert(vs.to_set().insert(name@) =~= vs.to_set());
        }
        return ;
    }
    names.insert(lo, name);
    proof {
        let after = views(names@);
        assert(after =~= vs.insert(lo as int, name@));
        assert forall|i: int, j: int| 0 <= i < j < after.len() implies table::lex_lt(
            #[trigger] after[i],
            #[trigger] after[j],
        ) by {
            if i < lo && j > lo {
                assert(after[i] == vs[i] && after[j] == vs[j - 1]);
            } else if i < lo && j < lo {
                assert(after[i] == vs[i] && after[j] == vs[j]);
            } else if i < lo {
                assert(after[i] == vs[i]);
            } else if i == lo {
                assert(after[j] == vs[j - 1]);
                if j - 1 > lo {
                    assert(table::lex_lt(vs[lo as int], vs[j - 1]));
                    table::lemma_lex_trans(name@, vs[lo as int], vs[j - 1]);
                }
            } else {
                assert(after[i] == vs[i - 1] && after[j] == vs[j - 1]);
            }
        }
        assert forall|x: Seq<u8>| #[trigger]
            after.to_set().contains(x) <==> vs.to_set().insert(name@).contains(x) by {
            if after.contains(x) {
                let i = choose|i: int| 0 <= i < after.len() && after[i] == x;
                if i < lo {
                    assert(vs[i] == x);
                } else if i > lo {
                    assert(vs[i - 1] == x);
                }
            }
            if x == name@ {
                assert(after[lo as int] == x);
            } else if vs.contains(x) {
                let i = choose|i: int| 0 <= i < vs.len() && vs[i] == x;
                if i < lo {
                    assert(after[i] == x);
                } else {
                    assert(after[i + 1] == x);
                }
            }
        }
        assert(after.to_set() =~= vs.to_set().insert(name@));
    }
}

/// The stations that a template names, each once.
pub fn city_names<'a>(data: &'a [u8]) -> (names: Vec<&'a [u8]>)
    ensures
        sorted(views(names@)),
        views(names@).to_set() == template_names(data@, 0).to_set(),
        forall|i: int|
            0 <= i < names@.len() ==> template_names(data@, 0).contains(#[trigger] names@[i]@),
        forall|j: int|
            0 <= j < template_names(data@, 0).len() ==> listed(
                names@,
                #[trigger] template_names(data@, 0)[j],
            ),
        forall|i: int, j: int|
            0 <= i < j < names@.len() ==> table::lower(
                #[trigger] names@[i]@,
                #[trigger] names@[j]@,
            ),
{
    let len: usize = data.len();
    let mut names: Vec<&'a [u8]> = Vec::new();
    let mut from: usize = 0;
    let ghost all = template_names(data@, 0).to_set();
    proof {
        assert(views(names@).to_set() =~= Set::empty());
        assert(all =~= views(names@).to_set() + template_names(data@, 0).to_set());
    }
    while from < len
        invariant
            from <= len,
            len == data@.len(),
            sorted(views(names@)),
            all == template_names(data@, 0).to_set(),
            all == views(names@).to_set() + template_names(data@, from as int).to_set(),
        decreases len - from,
    {
        let ghost before = views(names@).to_set();
        let newline: usize = text::index_of(data, CHR_NL, from);
        let mut end: usize = newline;
        if from < newline && newline < len && data[newline - 1] == CHR_CR {
            end = newline - 1;
        }
        let line: &'a [u8] = &data[from..end];
        assert(line@ == line_at(data@, from as int));
        let ghost here = template_names(data@, from as int);
        let ghost rest = template_names(data@, newline + 1);
        if line.len() == 0 || line[0] != CHR_HASH {
            let comma: usize = text::index_of(line, CHR_CM, 0);
            let name: &'a [u8] = &line[0..comma];
            assert(name@ =~= name_in(line@));
            insert_name(&mut names, name);
            proof {
                assert(here =~= seq![name@] + rest);
                assert(here.to_set() =~= rest.to_set().insert(name@)) by {
                    assert forall|x: Seq<u8>| #[trigger]
                        here.to_set().contains(x) <==> rest.to_set().insert(name@).contains(x) by {
                        if here.contains(x) {
                            let i = choose|i: int| 0 <= i < here.len() && here[i] == x;
                            if i > 0 {
                                assert(rest[i - 1] == x);
                            }
                        }
                        if x == name@ {
                            assert(here[0] == x);
                        } else if rest.contains(x) {
                            let i = choose|i: int| 0 <= i < rest.len() && rest[i] == x;
                            assert(here[i + 1] == x);
                        }
                    }
                }
                assert(all =~= views(names@).to_set() + rest.to_set());
            }
        } else {
            assert(here =~= rest);
        }
        if newline == len {
            proof {
                assert(rest =~= seq![]);
                assert(rest.to_set() =~= Set::empty());
                assert(views(names@).to_set() + rest.to_set() =~= views(names@).to_set());
                lemma_names(names@, template_names(data@, 0));
            }
            return names;
        }
        from = newline + 1;
    }
    proof {
        let rest = template_names(data@, from as int);
        assert(rest =~= seq![]);
        assert(rest.to_set() =~= Set::empty());
        assert(views(names@).to_set() + rest.to_set() =~= views(names@).to_set());
        lemma_names(names@, template_names(data@, 0));
    }
    names
}

/// A sorted list of all names holds each of them once, the lower one first.
proof fn lemma_names(names: Seq<&[u8]>, all: Seq<Seq<u8>>)
    requires
        sorted(views(names)),
        views(names).to_set() == all.to_set(),
    ensures
        forall|i: int| 0 <= i < names.len() ==> all.contains(#[trigger] names[i]@),
        forall|j: int| 0 <= j < all.len() ==> listed(names, #[trigger] all[j]),
        forall|i: int, j: int|
            0 <= i < j < names.len() ==> table::lower(#[trigger] names[i]@, #[trigger] names[j]@),
{
    let vs = views(names);
    assert forall|i: int| 0 <= i < names.len() implies all.contains(#[trigger] names[i]@) by {
        assert(vs[i] == names[i]@);
        assert(vs.to_set().contains(vs[i]));
        assert(all.to_set().contains(vs[i]));
    }
    assert forall|j: int| 0 <= j < all.len() implies listed(names, #[trigger] all[j]) by {
        assert(all.to_set().contains(all[j]));
        assert(vs.to_set().contains(all[j]));
        let i = choose|i: int| 0 <= i < vs.len() && vs[i] == all[j];
        assert(names[i]@ == all[j]);
    }
    assert forall|i: int, j: int| 0 <= i < j < names.len() implies table::lower(
        #[trigger] names[i]@,
        #[trigger] names[j]@,
    ) by {
        assert(table::lex_lt(vs[i], vs[j]));
        table::law_lex(vs[i], vs[j]);
    }
}

/// How many of `n` names are passed over where `cities` are used: a random number, as long as
/// enough are left.
pub open spec fn skip_of(n: int, cities: int, random: int) -> int {
    if n > cities {
        random % (n - cities)
    } else {
        0
    }
}

/// How many of `n` names are taken.
pub open spec fn taken_of(n: int, cities: int) -> int {
    if n > cities {
        cities
    } else {
        n
    }
}

/// A record of the data file.
pub struct Record {
    pub name: Seq<u8>,
    pub neg: bool,
    pub tenths: nat,
}

impl Record {
    /// The line of the record.
    pub open spec fn line(self) -> Seq<u8> {
        self.name + seq![CHR_CM] + text::fixed1(self.neg, self.tenths) + seq![CHR_NL]
    }
}

/// The lines of all records.
pub open spec fn file_text(rs: Seq<Record>) -> Seq<u8>
    decreases rs.len(),
{
    if rs.len() == 0 {
        seq![]
    } else {
        rs[0].line() + file_text(rs.drop_first())
    }
}

/// Three random numbers, from which a record is made.
#[derive(Clone, Copy)]
pub struct Draw {
    /// Picks the station.
    pub city: usize,
    /// Picks the sign.
    pub sign: usize,
    /// Picks the temperature.
    pub tenths: usize,
}

/// The stations that a data file may name, and which of them it does.
pub struct Cities<'a> {
    names: Vec<&'a [u8]>,
    used: Vec<bool>,
}

impl<'a> Cities<'a> {
    pub closed spec fn wf(&self) -> bool {
        self.names@.len() == self.used@.len()
    }

    /// The names.
    pub closed spec fn names(&self) -> Seq<Seq<u8>> {
        views(self.names@)
    }

    /// For each name, whether there is a record of it.
    pub closed spec fn used(&self) -> Seq<bool> {
        self.used@
    }

    /// Takes `cities` of the names, if there are so many.
    pub fn select(names: &[&'a [u8]], cities: usize, random: usize) -> (c: Self)
        ensures
            c.wf(),
            ({
                let n = names@.len() as int;
                let skip = skip_of(n, cities as int, random as int);
                c.names() == views(names@).subrange(skip, skip + taken_of(n, cities as int))
            }),
            c.used().len() == c.names().len(),
            forall|i: int| 0 <= i < c.used().len() ==> !#[trigger] c.used()[i],
    {
        let n: usize = names.len();
        let skip: usize = if n > cities {
            random % (n - cities)
        } else {
            0
        };
        let end: usize = if n > cities {
            skip + cities
        } else {
            n
        };
        let mut c: Cities<'a> = Cities { names: Vec::new(), used: Vec::new() };
        let mut i: usize = skip;
        while i < end
            invariant
                skip <= i <= end <= names@.len(),
                c.names@ =~= names@.subrange(skip as int, i as int),
                c.used@.len() == i - skip,
                forall|j: int| 0 <= j < c.used@.len() ==> !#[trigger] c.used@[j],
            decreases end - i,
        {
            c.names.push(names[i]);
            c.used.push(false);
            i = i + 1;
        }
        assert(c.names() =~= views(names@).subrange(skip as int, end as int));
        c
    }

    /// The number of names.
    pub fn len(&self) -> (n: usize)
        ensures
            n == self.names().len(),
    {
        self.names.len()
    }

    /// The record that a draw makes: every second one is below zero, none is a hundred degrees
    /// or more.
    pub open spec fn drawn(&self, draw: Draw) -> Record {
        Record {
            name: self.names()[draw.city as int % self.names().len() as int],
            neg: draw.sign % 100 < 50,
            tenths: (draw.tenths % 1000) as nat,
        }
    }

    /// Appends the record that a draw makes.
    pub fn write_record(&mut self, draw: Draw, buf: &mut Vec<u8>)
        requires
            old(self).wf(),
            old(self).names().len() > 0,
        ensures
            final(self).wf(),
            final(self).names() == old(self).names(),
            final(self).used() == old(self).used().update(
                draw.city as int % old(self).names().len() as int,
                true,
            ),
            final(buf)@ == old(buf)@ + old(self).drawn(draw).line(),
            exists|i: int|
                0 <= i < old(self).names().len() && #[trigger] old(self).names()[i] == old(self).drawn(
                    draw,
                ).name && final(self).used() == old(self).used().update(i, true),
    {
        let i: usize = draw.city % self.names.len();
        let name: &'a [u8] = self.names[i];
        assert(self.names()[i as int] == name@);
        text::push_range(buf, name, 0, name.len());
        assert(name@.subrange(0, name@.len() as int) =~= name@);
        buf.push(CHR_CM);
        text::push_fixed1(buf, draw.sign % 100 < 50, (draw.tenths % 1000) as u64);
        buf.push(CHR_NL);
        self.used.set(i, true);
        assert(buf@ =~= old(buf)@ + old(self).drawn(draw).line());
    }

    /// The records that draws make.
    pub open spec fn all_drawn(&self, draws: Seq<Draw>) -> Seq<Record> {
        draws.map_values(|d: Draw| self.drawn(d))
    }

    /// Appends the records that draws make, one after the other.
    pub fn write_records(&mut self, draws: &[Draw], buf: &mut Vec<u8>)
        requires
            old(self).wf(),
            draws.len() > 0 ==> old(self).names().len() > 0,
        ensures
            final(self).wf(),
            final(self).names() == old(self).names(),
            final(buf)@ == old(buf)@ + file_text(old(self).all_drawn(draws@)),
            final(self).used().len() == old(self).used().len(),
            forall|i: int|
                0 <= i < final(self).used().len() ==> (#[trigger] final(self).used()[i]
                    <==> old(self).used()[i] || exists|j: int|
                    0 <= j < draws.len() && (#[trigger] draws@[j]).city as int
                        % old(self).names().len() as int == i),
            forall|i: int|
                0 <= i < final(self).used().len() && #[trigger] final(self).used()[i]
                    && !old(self).used()[i] ==> exists|j: int|
                    0 <= j < draws.len() && (#[trigger] old(self).all_drawn(draws@)[j]).name
                        == old(self).names()[i],
            forall|j: int|
                0 <= j < draws.len() ==> exists|i: int|
                    0 <= i < final(self).used().len() && #[trigger] final(self).used()[i]
                        && old(self).names()[i] == (#[trigger] old(self).all_drawn(draws@)[j]).name,
    {
        let ghost start = *self;
        let ghost before = buf@;
        let mut i: usize = 0;
        assert(start.all_drawn(draws@.take(0)) =~= seq![]);
        assert(buf@ =~= before + file_text(start.all_drawn(draws@.take(0))));
        while i < draws.len()
            invariant
                i <= draws@.len(),
                draws@.len() > 0 ==> start.names().len() > 0,
                self.wf(),
                self.names() == start.names(),
                self.used().len() == start.used().len() == start.names().len(),
                buf@ == before + file_text(start.all_drawn(draws@.take(i as int))),
                forall|k: int|
                    0 <= k < self.used().len() ==> (#[trigger] self.used()[k] <==> start.used()[k]
                        || exists|j: int|
                        0 <= j < i && (#[trigger] draws@[j]).city as int
                            % start.names().len() as int == k),
            decreases draws@.len() - i,
        {
            let ghost used = self.used();
            let ghost at = draws@[i as int].city as int % start.names().len() as int;
            proof {
                let some = start.all_drawn(draws@.take(i as int));
                let more = start.all_drawn(draws@.take(i + 1));
                assert(more =~= some.push(start.drawn(draws@[i as int])));
                lemma_file_text_push(some, start.drawn(draws@[i as int]));
            }
            self.write_record(draws[i], buf);
            proof {
                assert(0 <= at < start.names().len()) by (nonlinear_arith)
                    requires
                        at == draws@[i as int].city as int % start.names().len() as int,
                        start.names().len() > 0,
                ;
                assert(buf@ =~= before + file_text(start.all_drawn(draws@.take(i + 1))));
                assert forall|k: int| 0 <= k < self.used().len() implies (
                #[trigger] self.used()[k] <==> start.used()[k] || exists|j: int|
                    0 <= j < i + 1 && (#[trigger] draws@[j]).city as int
                        % start.names().len() as int == k) by {
                    if k == at {
                        assert(draws@[i as int].city as int % start.names().len() as int == k);
                    } else {
                        assert(used[k] == self.used()[k]);
                    }
                }
            }
            i = i + 1;
        }
        assert(draws@.take(i as int) =~= draws@);
        proof {
            let n = start.names().len() as int;
            let all = start.all_drawn(draws@);
            assert forall|k: int|
                0 <= k < self.used().len() && #[trigger] self.used()[k]
                    && !start.used()[k] implies exists|j: int|
                0 <= j < draws@.len() && (#[trigger] all[j]).name == start.names()[k] by {
                let j = choose|j: int|
                    0 <= j < draws@.len() && (#[trigger] draws@[j]).city as int % n == k;
                assert(all[j] == start.drawn(draws@[j]));
            }
            assert forall|j: int| 0 <= j < draws@.len() implies exists|k: int|
                0 <= k < self.used().len() && #[trigger] self.used()[k] && start.names()[k] == (
                #[trigger] all[j]).name by {
                let k = draws@[j].city as int % n;
                vstd::arithmetic::div_mod::lemma_mod_bound(draws@[j].city as int, n);
                assert(all[j] == start.drawn(draws@[j]));
                assert(self.used()[k]);
            }
        }
    }

    /// How many of the names there is a record of.
    pub fn used_count(&self) -> (n: usize)
        ensures
            n == count_used(self.used(), self.used().len() as int),
    {
        let mut n: usize = 0;
        let mut i: usize = 0;
        while i < self.used.len()
            invariant
                n <= i <= self.used@.len(),
                n == count_used(self.used@, i as int),
            decreases self.used@.len() - i,
        {
            if self.used[i] {
                n = n + 1;
            }
            i = i + 1;
        }
        n
    }
}

/// How many of the first `n` are used.
pub open spec fn count_used(used: Seq<bool>, n: int) -> int
    decreases n,
{
    if n <= 0 {
        0
    } else {
        count_used(used, n - 1) + (if used[n - 1] {
            1int
        } else {
            0
        })
    }
}

/// One record more is one line more.
pub proof fn lemma_file_text_push(rs: Seq<Record>, r: Record)
    ensures
        file_text(rs.push(r)) == file_text(rs) + r.line(),
    decreases rs.len(),
{
    if rs.len() == 0 {
        reveal_with_fuel(file_text, 2);
        assert(rs.push(r).drop_first() =~= seq![]);
        assert(file_text(rs.push(r)) =~= file_text(rs) + r.line());
    } else {
        lemma_file_text_push(rs.drop_first(), r);
        assert(rs.push(r).drop_first() =~= rs.drop_first().push(r));
        assert(file_text(rs.push(r)) =~= file_text(rs) + r.line());
    }
}

/// The unit in which a size is shown: bytes, or the largest multiple of 1024 that is not
/// larger, up to the fourth power.
pub open spec fn unit_of(len: int) -> int {
    if len < 1024 {
        0
    } else if len < 1048576 {
        1
    } else if len < 1073741824 {
        2
    } else if len < 1099511627776 {
        3
    } else {
        4
    }
}

/// How many bytes a unit has.
pub open spec fn unit_size(i: int) -> int {
    if i == 0 {
        1
    } else if i == 1 {
        1024
    } else if i == 2 {
        1048576
    } else if i == 3 {
        1073741824
    } else {
        1099511627776
    }
}

/// A size in hundredths of a unit, to the nearest, halves up.
pub open spec fn hundredths(len: int, unit: int) -> int {
    (200 * len + unit_size(unit)) / (2 * unit_size(unit))
}

/// The unit of a size, and how many hundredths of it.
pub fn scaled(len: u64) -> (r: (u64, usize))
    ensures
        r.1 == unit_of(len as int),
        r.0 == hundredths(len as int, r.1 as int),
{
    let mut size: u64 = 1;
    let mut i: usize = 0;
    while i < 4 && len / size >= 1024
        invariant
            i <= 4,
            size == unit_size(i as int),
            i == 0 || len >= size,
        decreases 4 - i,
    {
        assert(len / size >= 1024 ==> len >= 1024 * size) by (nonlinear_arith)
            requires
                size > 0,
        ;
        size = size * 1024;
        i = i + 1;
    }
    assert(i < 4 ==> len < 1024 * size) by {
        if i < 4 {
            assert(len / size < 1024);
            assert(len < 1024 * size) by (nonlinear_arith)
                requires
                    size > 0,
                    len / size < 1024,
            ;
        }
    }
    let h: u128 = (200 * (len as u128) + size as u128) / (2 * (size as u128));
    assert(h <= u64::MAX) by {
        assert(size >= 1);
        if i < 4 {
            assert(h <= 0x1_0000_0000) by (nonlinear_arith)
                requires
                    h == (200 * len + size) / (2 * size as int),
                    len < 1024 * size,
                    size >= 1,
            ;
        } else {
            assert(h <= 0x1_0000_0000) by (nonlinear_arith)
                requires
                    h == (200 * len + size) / (2 * size as int),
                    len <= 0xffff_ffff_ffff_ffff,
                    size == 1099511627776,
            ;
        }
    }
    (h as u64, i)
}

/// The name of a unit.
pub fn unit_name(i: usize) -> (r: &'static str)
    ensures
        r@ == (if i == 0 {
            "Bytes"@
        } else if i == 1 {
            "KiB"@
        } else if i == 2 {
            "MiB"@
        } else if i == 3 {
            "GiB"@
        } else {
            "TiB"@
        }),
{
    if i == 0 {
        "Bytes"
    } else if i == 1 {
        "KiB"
    } else if i == 2 {
        "MiB"
    } else if i == 3 {
        "GiB"
    } else {
        "TiB"
    }
}

/// `h` hundredths with separators between thousands and three digits after the dot.
pub open spec fn hundredths_text(h: nat) -> Seq<u8> {
    text::grouped(text::dec(h / 100)) + seq![
        text::CHR_DOT,
        (48 + h / 10 % 10) as u8,
        (48 + h % 10) as u8,
        text::CHR_ZERO,
    ]
}

/// A size as it is shown, with its unit.
pub fn size_text(len: u64) -> (r: (Vec<u8>, usize))
    ensures
        r.1 == unit_of(len as int),
        r.0@ == hundredths_text(hundredths(len as int, r.1 as int) as nat),
{
    let (h, unit) = scaled(len);
    let mut whole: Vec<u8> = Vec::new();
    text::push_dec(&mut whole, h / 100);
    let n: usize = whole.len();
    let mut out: Vec<u8> = Vec::new();
    text::push_grouped(&mut out, whole.as_slice(), n);
    assert(whole@ =~= text::dec((h / 100) as nat));
    assert(whole@.take(n as int) =~= whole@);
    out.push(text::CHR_DOT);
    out.push(48 + (h / 10 % 10) as u8);
    out.push(48 + (h % 10) as u8);
    out.push(text::CHR_ZERO);
    assert(out@ =~= hundredths_text(h as nat));
    (out, unit)
}

/// What stands before makes no difference to the lines behind.
proof fn lemma_template_behind(a: Seq<u8>, b: Seq<u8>, from: int)
    requires
        0 <= from,
    ensures
        template_names(a + b, a.len() + from) == template_names(b, from),
    decreases b.len() + 1 - from,
{
    let s = a + b;
    let lo = a.len() as int;
    if from < b.len() {
        assert(s.subrange(lo, s.len() as int) =~= b);
        bytes::lemma_next_at_sub(s, CHR_NL, lo, s.len() as int, from);
        bytes::lemma_next_at(s, CHR_NL, lo + from);
        bytes::lemma_next_at(b, CHR_NL, from);
        assert(line_at(s, lo + from) =~= line_at(b, from));
        lemma_template_behind(a, b, line_end(b, from) + 1);
    }
}

/// The first line of a template, and what follows it.
proof fn lemma_template_first(line: Seq<u8>, more: Seq<u8>)
    requires
        forall|i: int| 0 <= i < line.len() ==> #[trigger] line[i] != 10,
        line.len() > 0 ==> line[line.len() - 1] != 13,
    ensures
        ({
            let names = if line.len() > 0 && line[0] == 35 {
                seq![]
            } else {
                seq![name_in(line)]
            };
            &&& template_names(line + seq![10u8] + more, 0) == names + template_names(more, 0)
            &&& template_names(line + seq![13u8, 10u8] + more, 0) == names + template_names(more, 0)
            &&& line.len() > 0 ==> template_names(line, 0) == names
        }),
{
    let n = line.len() as int;
    let a = line + seq![10u8];
    let s = a + more;
    assert forall|j: int| 0 <= j < n implies #[trigger] s[j] != CHR_NL by {
        assert(s[j] == line[j]);
    }
    bytes::lemma_next_at_is(s, CHR_NL, 0, n);
    assert(n > 0 ==> s[n - 1] == line[n - 1]);
    assert(line_at(s, 0) =~= line);
    lemma_template_behind(a, more, 0);
    let c = line + seq![13u8, 10u8];
    let t = c + more;
    assert forall|j: int| 0 <= j < n + 1 implies #[trigger] t[j] != CHR_NL by {
        if j < n {
            assert(t[j] == line[j]);
        }
    }
    bytes::lemma_next_at_is(t, CHR_NL, 0, n + 1);
    assert(t[n] == 13);
    assert(line_at(t, 0) =~= line);
    lemma_template_behind(c, more, 0);
    if n > 0 {
        bytes::lemma_next_at_is(line, CHR_NL, 0, n);
        assert(line_at(line, 0) =~= line);
        reveal_with_fuel(template_names, 2);
        assert(template_names(line, n + 1) =~= seq![]);
    }
}

/// A line of a template that does not start with a number sign names what stands before its first
/// semicolon, whatever stands behind that; the lines that follow name what they name by themselves.
pub proof fn law_template_line(name: Seq<u8>, rest: Seq<u8>, more: Seq<u8>)
    requires
        forall|i: int| 0 <= i < name.len() ==> #[trigger] name[i] != 59 && name[i] != 10,
        name.len() > 0 ==> name[0] != 35,
        forall|i: int| 0 <= i < rest.len() ==> #[trigger] rest[i] != 10,
        rest.len() > 0 ==> rest[rest.len() - 1] != 13,
    ensures
        template_names(name + seq![59u8] + rest + seq![10u8] + more, 0) == seq![name]
            + template_names(more, 0),
        template_names(name + seq![59u8] + rest + seq![13u8, 10u8] + more, 0) == seq![name]
            + template_names(more, 0),
        template_names(name + seq![59u8] + rest, 0) == seq![name],
{
    let line = name + seq![59u8] + rest;
    let n = name.len() as int;
    assert forall|i: int| 0 <= i < line.len() implies #[trigger] line[i] != 10 by {
        if i < n {
            assert(line[i] == name[i]);
        } else if i > n {
            assert(line[i] == rest[i - n - 1]);
        }
    }
    assert(rest.len() > 0 ==> line[line.len() - 1] == rest[rest.len() - 1]);
    assert forall|i: int| 0 <= i < n implies #[trigger] line[i] != CHR_CM by {
        assert(line[i] == name[i]);
    }
    bytes::lemma_next_at_is(line, CHR_CM, 0, n);
    assert(name_in(line) =~= name);
    assert(n > 0 ==> line[0] == name[0]);
    lemma_template_first(line, more);
}

/// A line without a semicolon names all of itself, without a carriage return at its end.
pub proof fn law_template_whole_line(name: Seq<u8>, more: Seq<u8>)
    requires
        forall|i: int| 0 <= i < name.len() ==> #[trigger] name[i] != 59 && name[i] != 10,
        name.len() > 0 ==> name[0] != 35 && name[name.len() - 1] != 13,
    ensures
        template_names(name + seq![10u8] + more, 0) == seq![name] + template_names(more, 0),
        template_names(name + seq![13u8, 10u8] + more, 0) == seq![name] + template_names(more, 0),
        name.len() > 0 ==> template_names(name, 0) == seq![name],
{
    bytes::lemma_next_at_is(name, CHR_CM, 0, name.len() as int);
    assert(name_in(name) =~= name);
    lemma_template_first(name, more);
}

/// A line that starts with a number sign names nothing, and neither does an empty template.
pub proof fn law_template_comment(comment: Seq<u8>, more: Seq<u8>)
    requires
        forall|i: int| 0 <= i < comment.len() ==> #[trigger] comment[i] != 10,
        comment.len() > 0 ==> comment[comment.len() - 1] != 13,
    ensures
        template_names(seq![35u8] + comment + seq![10u8] + more, 0) == template_names(more, 0),
        template_names(seq![35u8] + comment + seq![13u8, 10u8] + more, 0) == template_names(more, 0),
        template_names(Seq::<u8>::empty(), 0) == Seq::<Seq<u8>>::empty(),
{
    let line = seq![35u8] + comment;
    assert forall|i: int| 0 <= i < line.len() implies #[trigger] line[i] != 10 by {
        if i > 0 {
            assert(line[i] == comment[i - 1]);
        }
    }
    assert(comment.len() > 0 ==> line[line.len() - 1] == comment[comment.len() - 1]);
    lemma_template_first(line, more);
    let none: Seq<Seq<u8>> = seq![];
    assert(none + template_names(more, 0) =~= template_names(more, 0));
}

/// As many stations are used as are asked for, or all if there are not so many; they follow each other
/// in the list, and each place in it but the last can be the first one used.
pub proof fn law_select(n: int, cities: int, random: int)
    requires
        0 <= n,
        0 <= cities,
        0 <= random,
    ensures
        n <= cities ==> skip_of(n, cities, random) == 0 && taken_of(n, cities) == n,
        n > cities ==> taken_of(n, cities) == cities,
        0 <= skip_of(n, cities, random),
        skip_of(n, cities, random) + taken_of(n, cities) <= n,
        n > cities ==> skip_of(n, cities, random) < n - cities,
        random < n - cities ==> skip_of(n, cities, random) == random,
        n > cities ==> skip_of(n, cities, random + (n - cities)) == skip_of(n, cities, random),
{
    if n > cities {
        let d = n - cities;
        vstd::arithmetic::div_mod::lemma_mod_bound(random, d);
        vstd::arithmetic::div_mod::lemma_mod_add_multiples_vanish(random, d);
        if random < d {
            vstd::arithmetic::div_mod::lemma_small_mod(random as nat, d as nat);
        }
    }
}

/// A draw makes a record of a station that is used: every station can be drawn, and as many places on
/// comes the same one again. Fifty of a hundred draws of a sign are below zero. Every temperature below
/// a hundred degrees can be drawn, and no other.
pub proof fn law_drawn(c: Cities, draw: Draw, i: int)
    requires
        c.names().len() > 0,
        0 <= i < c.names().len(),
    ensures
        draw.city == i ==> c.drawn(draw).name == c.names()[i],
        (draw.city - i) % (c.names().len() as int) == 0 ==> c.drawn(draw).name == c.names()[i],
        c.names().contains(c.drawn(draw).name),
        draw.sign < 100 ==> (c.drawn(draw).neg <==> draw.sign < 50),
        draw.tenths < 1000 ==> c.drawn(draw).tenths == draw.tenths,
        c.drawn(draw).tenths < 1000,
        forall|d: Draw|
            d.city == draw.city && d.sign % 100 == draw.sign % 100 && d.tenths % 1000 == draw.tenths
                % 1000 ==> #[trigger] c.drawn(d) == c.drawn(draw),
        (draw.tenths - c.drawn(draw).tenths) % 1000 == 0,
{
    let n = c.names().len() as int;
    let k = draw.city as int % n;
    vstd::arithmetic::div_mod::lemma_mod_bound(draw.city as int, n);
    assert(c.names()[k] == c.drawn(draw).name);
    if draw.city == i {
        vstd::arithmetic::div_mod::lemma_small_mod(i as nat, n as nat);
    }
    if (draw.city - i) % n == 0 {
        let q = (draw.city - i) / n;
        vstd::arithmetic::div_mod::lemma_fundamental_div_mod(draw.city - i, n);
        assert(draw.city as int == q * n + i) by (nonlinear_arith)
            requires
                draw.city - i == n * q + 0,
        ;
        vstd::arithmetic::div_mod::lemma_fundamental_div_mod_converse_mod(
            draw.city as int,
            n,
            q,
            i,
        );
    }
}

/// The names are those that were handed over, in their order.
pub proof fn law_views(names: Seq<&[u8]>)
    ensures
        views(names).len() == names.len(),
        forall|i: int| 0 <= i < names.len() ==> #[trigger] views(names)[i] == names[i]@,
{
}

/// Each name that is used counts once.
pub proof fn law_count_used(used: Seq<bool>, b: bool)
    ensures
        count_used(Seq::<bool>::empty(), 0) == 0,
        count_used(used.push(b), (used.len() + 1) as int) == count_used(used, used.len() as int) + (if b {
            1int
        } else {
            0
        }),
{
    lemma_count_used(used, b, used.len() as int);
}

proof fn lemma_count_used(used: Seq<bool>, b: bool, n: int)
    requires
        n <= used.len(),
    ensures
        count_used(used.push(b), n) == count_used(used, n),
    decreases n,
{
    if n > 0 {
        lemma_count_used(used, b, n - 1);
        assert(used.push(b)[n - 1] == used[n - 1]);
    }
}

/// A file is the lines of its records, one after the other.
pub proof fn law_file_text(rs: Seq<Record>, r: Record)
    ensures
        file_text(Seq::<Record>::empty()) == Seq::<u8>::empty(),
        file_text(rs.push(r)) == file_text(rs) + r.line(),
{
    lemma_file_text_push(rs, r);
}

/// A size is shown in the largest unit that it reaches, up to the fourth, each 1024 times the one
/// before, and to the nearest hundredth of it, halves up.
pub proof fn law_size(len: int)
    requires
        0 <= len,
    ensures
        ({
            let i = unit_of(len);
            let h = hundredths(len, i);
            &&& 0 <= i <= 4
            &&& unit_size(0) == 1
            &&& forall|j: int| 0 <= j < 4 ==> #[trigger] unit_size(j + 1) == 1024 * unit_size(j)
            &&& i > 0 ==> len >= unit_size(i)
            &&& i < 4 ==> len < 1024 * unit_size(i)
            &&& -unit_size(i) < 2 * (h * unit_size(i) - 100 * len) <= unit_size(i)
        }),
{
    let i = unit_of(len);
    let u = unit_size(i);
    let n = 200 * len + u;
    let h = hundredths(len, i);
    vstd::arithmetic::div_mod::lemma_fundamental_div_mod(n, 2 * u);
    vstd::arithmetic::div_mod::lemma_mod_bound(n, 2 * u);
    assert((2 * u) * h == 2 * (h * u)) by (nonlinear_arith);
}

/// Hundredths are shown as digits in groups, a dot, two digits and a zero.
pub proof fn law_size_reads_back(h: nat) -> (d: Seq<u8>)
    ensures
        hundredths_text(h).len() >= 4,
        hundredths_text(h).take(hundredths_text(h).len() - 4) == text::grouped(d),
        forall|i: int| 0 <= i < d.len() ==> text::is_digit(#[trigger] d[i]),
        d.len() >= 1,
        d.len() > 1 ==> d[0] != 48,
        ({
            let t = hundredths_text(h);
            let n = t.len() as int;
            &&& t[n - 4] == 46
            &&& text::is_digit(t[n - 3]) && text::is_digit(t[n - 2])
            &&& t[n - 1] == 48
            &&& 100 * text::value_of(d) + 10 * (t[n - 3] - 48) + (t[n - 2] - 48) == h
        }),
{
    let d = text::dec(h / 100);
    let t = hundredths_text(h);
    text::law_dec_reads_back(h / 100);
    assert(t.take(t.len() - 4) =~= text::grouped(d));
    d
}

} // verus!
