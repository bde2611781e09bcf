//! The memory maps of a process, as listed in `/proc/<pid>/maps`.
use vstd::prelude::*;

use crate::parse::{parse_usize, parse_usize_spec, split_chars, split_on};
use crate::text::{chars_of, contains, contains_chars, copy_opt_string, digits_value, opt_view, string_of};

verus! {

/// One mapped range of a process's memory.
#[derive(Debug, Clone, PartialEq)]
pub struct MapRange {
    pub range_start: usize,
    pub range_end: usize,
    pub offset: usize,
    pub dev: String,
    pub flags: String,
    pub inode: usize,
    pub pathname: Option<String>,
}

/// The mathematical value of a mapped range.
pub struct MapRangeView {
    pub range_start: usize,
    pub range_end: usize,
    pub offset: usize,
    pub dev: Seq<char>,
    pub flags: Seq<char>,
    pub inode: usize,
    pub pathname: Option<Seq<char>>,
}

impl View for MapRange {
    type V = MapRangeView;

    open spec fn view(&self) -> MapRangeView {
        MapRangeView {
            range_start: self.range_start,
            range_end: self.range_end,
            offset: self.offset,
            dev: self.dev@,
            flags: self.flags@,
            inode: self.inode,
            pathname: opt_view(self.pathname),
        }
    }
}

/// The views of a list of ranges.
pub open spec fn maps_view(maps: Seq<MapRange>) -> Seq<MapRangeView> {
    maps.map_values(|m: MapRange| m@)
}

/// The range holds `addr` (both ends included).
pub open spec fn range_contains(m: MapRangeView, addr: usize) -> bool {
    m.range_start <= addr && addr <= m.range_end
}

/// The flag at byte `i` of the flags is `flag`, given that the byte is a whole
/// character.
pub open spec fn flag_at(m: &MapRange, i: int, flag: u8) -> bool {
    vstd::utf8::encode_utf8(m.flags@)[i] == flag
}

/// Byte `i` of the flags can be sliced out on its own.
pub open spec fn flag_readable(m: &MapRange, i: int) -> bool {
    let b = vstd::utf8::encode_utf8(m.flags@);
    &&& i + 1 <= b.len()
    &&& vstd::utf8::is_char_boundary(b, i)
    &&& vstd::utf8::is_char_boundary(b, i + 1)
}

impl MapRange {
    /// Whether the range holds `addr`.
    pub fn contains_addr(&self, addr: usize) -> (r: bool)
        ensures
            r == range_contains(self@, addr),
    {
        addr >= self.range_start && addr <= self.range_end
    }

    /// The length of the range.
    pub fn size(&self) -> (n: usize)
        requires
            self.range_start <= self.range_end,
        ensures
            n == self.range_end - self.range_start,
    {
        self.range_end - self.range_start
    }

    /// The first address of the range.
    pub fn start(&self) -> (a: usize)
        ensures
            a == self.range_start,
    {
        self.range_start
    }

    /// The file mapped into the range, if any.
    pub fn filename(&self) -> (f: &Option<String>)
        ensures
            *f == self.pathname,
    {
        &self.pathname
    }

    fn flag(&self, i: usize, flag: u8) -> (r: bool)
        requires
            flag_readable(self, i as int),
        ensures
            r == flag_at(self, i as int, flag),
    {
        let b = self.flags.as_str().as_bytes();
        b[i] == flag
    }

    /// Whether the range is executable: its third flag is `x`.
    pub fn is_exec(&self) -> (r: bool)
        requires
            flag_readable(self, 2),
        ensures
            r == flag_at(self, 2, 120u8),
    {
        self.flag(2, 120u8)
    }

    /// Whether the range is writable: its second flag is `w`.
    pub fn is_write(&self) -> (r: bool)
        requires
            flag_readable(self, 1),
        ensures
            r == flag_at(self, 1, 119u8),
    {
        self.flag(1, 119u8)
    }

    /// Whether the range is readable: its first flag is `r`.
    pub fn is_read(&self) -> (r: bool)
        requires
            flag_readable(self, 0),
        ensures
            r == flag_at(self, 0, 114u8),
    {
        self.flag(0, 114u8)
    }

    /// A copy of the range.
    pub fn duplicate(&self) -> (m: MapRange)
        ensures
            m@ == self@,
    {
        MapRange {
            range_start: self.range_start,
            range_end: self.range_end,
            offset: self.offset,
            dev: self.dev.clone(),
            flags: self.flags.clone(),
            inode: self.inode,
            pathname: copy_opt_string(&self.pathname),
        }
    }
}

/// Whether some range of `maps` holds `addr`.
pub fn maps_contain_addr(addr: usize, maps: &Vec<MapRange>) -> (r: bool)
    ensures
        r == exists|i: int| 0 <= i < maps@.len() && range_contains(#[trigger] maps@[i]@, addr),
{
    let mut i: usize = 0;
    while i < maps.len()
        invariant
            i <= maps@.len(),
            forall|j: int| 0 <= j < i ==> !range_contains(#[trigger] maps@[j]@, addr),
        decreases maps@.len() - i,
    {
        if maps[i].contains_addr(addr) {
            return true;
        }
        i = i + 1;
    }
    false
}

// ----------------------------------------------------------------------------------------
// Reading `/proc/<pid>/maps`
// ----------------------------------------------------------------------------------------

/// The characters that `str::split_whitespace` splits at: those with the Unicode
/// `White_Space` property.
pub open spec fn is_ws(c: char) -> bool {
    ||| c == ' '
    ||| ('\t' <= c && c <= '\r')
    ||| c == '\u{85}'
    ||| c == '\u{a0}'
    ||| c == '\u{1680}'
    ||| ('\u{2000}' <= c && c <= '\u{200a}')
    ||| c == '\u{2028}'
    ||| c == '\u{2029}'
    ||| c == '\u{202f}'
    ||| c == '\u{205f}'
    ||| c == '\u{3000}'
}

/// The pieces of `s` between white space characters, empty ones included.
pub open spec fn split_ws(s: Seq<char>) -> Seq<Seq<char>>
    decreases s.len(),
{
    if s.len() == 0 {
        seq![Seq::empty()]
    } else {
        let prev = split_ws(s.drop_last());
        if is_ws(s.last()) {
            prev.push(Seq::empty())
        } else {
            prev.update(prev.len() - 1, prev.last().push(s.last()))
        }
    }
}

/// The words of `s`, as `str::split_whitespace` yields them.
pub open spec fn words(s: Seq<char>) -> Seq<Seq<char>> {
    split_ws(s).filter(|w: Seq<char>| w.len() > 0)
}

proof fn lemma_split_ws_len(s: Seq<char>)
    ensures
        split_ws(s).len() >= 1,
    decreases s.len(),
{
    if s.len() > 0 {
        lemma_split_ws_len(s.drop_last());
    }
}

fn is_ws_char(c: char) -> (r: bool)
    ensures
        r == is_ws(c),
{
    c == ' ' || ('\t' <= c && c <= '\r') || c == '\u{85}' || c == '\u{a0}' || c == '\u{1680}'
        || ('\u{2000}' <= c && c <= '\u{200a}') || c == '\u{2028}' || c == '\u{2029}' || c
        == '\u{202f}' || c == '\u{205f}' || c == '\u{3000}'
}

/// The words of `s`.
pub fn words_of(s: &[char]) -> (ws: Vec<Vec<char>>)
    ensures
        ws@.len() == words(s@).len(),
        forall|i: int| 0 <= i < ws@.len() ==> (#[trigger] ws@[i])@ == words(s@)[i],
{
    let mut ws: Vec<Vec<char>> = Vec::new();
    let mut cur: Vec<char> = Vec::new();
    let ghost pred = |w: Seq<char>| w.len() > 0;
    let mut i: usize = 0;
    while i < s.len()
        invariant
            i <= s@.len(),
            pred == (|w: Seq<char>| w.len() > 0),
            split_ws(s@.take(i as int)).len() >= 1,
            ws@.len() == split_ws(s@.take(i as int)).drop_last().filter(pred).len(),
            forall|j: int|
                0 <= j < ws@.len() ==> (#[trigger] ws@[j])@ == split_ws(
                    s@.take(i as int),
                ).drop_last().filter(pred)[j],
            cur@ == split_ws(s@.take(i as int)).last(),
        decreases s@.len() - i,
    {
        let ghost before = s@.take(i as int);
        let ghost prev = split_ws(before);
        let x = s[i];
        i = i + 1;
        let ghost after = s@.take(i as int);
        assert(after.drop_last() =~= before);
        proof {
            lemma_split_ws_len(after);
        }
        if is_ws_char(x) {
            assert(split_ws(after).drop_last() =~= prev);
            assert(prev.filter(pred) == prev.drop_last().filter(pred) + (if cur@.len() > 0 {
                seq![cur@]
            } else {
                Seq::empty()
            })) by {
                reveal(Seq::filter);
                if cur@.len() > 0 {
                    assert(prev.drop_last().filter(pred).push(cur@) =~= prev.drop_last().filter(
                        pred,
                    ) + seq![cur@]);
                } else {
                    assert(prev.drop_last().filter(pred) =~= prev.drop_last().filter(pred)
                        + Seq::<Seq<char>>::empty());
                }
            }
            if cur.len() > 0 {
                let w = cur;
                ws.push(w);
                cur = Vec::new();
            }
            assert(cur@ =~= Seq::<char>::empty());
        } else {
            assert(split_ws(after).drop_last() =~= prev.drop_last());
            cur.push(x);
        }
    }
    let ghost pieces = split_ws(s@.take(i as int));
    assert(pieces.filter(pred) == pieces.drop_last().filter(pred) + (if cur@.len() > 0 {
        seq![cur@]
    } else {
        Seq::empty()
    })) by {
        reveal(Seq::filter);
        if cur@.len() > 0 {
            assert(pieces.drop_last().filter(pred).push(cur@) =~= pieces.drop_last().filter(pred)
                + seq![cur@]);
        } else {
            assert(pieces.drop_last().filter(pred) =~= pieces.drop_last().filter(pred)
                + Seq::<Seq<char>>::empty());
        }
    }
    if cur.len() > 0 {
        ws.push(cur);
    }
    assert(s@.take(s@.len() as int) =~= s@);
    ws
}

/// A line of the maps file describes a range: it has a `start-end` field, flags, an
/// offset, a device and an inode, and the numbers read.
pub open spec fn line_readable(line: Seq<char>) -> bool {
    let t = words(line);
    let r = split_on(t[0], '-');
    &&& t.len() >= 5
    &&& r.len() >= 2
    &&& parse_usize_spec(r[0], 16) is Some
    &&& parse_usize_spec(r[1], 16) is Some
    &&& parse_usize_spec(t[2], 16) is Some
    &&& parse_usize_spec(t[4], 10) is Some
}

/// The range that a line describes.
pub open spec fn line_range(line: Seq<char>) -> MapRangeView {
    let t = words(line);
    let r = split_on(t[0], '-');
    MapRangeView {
        range_start: parse_usize_spec(r[0], 16).unwrap(),
        range_end: parse_usize_spec(r[1], 16).unwrap(),
        offset: parse_usize_spec(t[2], 16).unwrap(),
        dev: t[3],
        flags: t[1],
        inode: parse_usize_spec(t[4], 10).unwrap(),
        pathname: if t.len() > 5 {
            Some(t[5])
        } else {
            None
        },
    }
}

/// How many lines, from the first, are read: reading stops at a line without words.
pub open spec fn read_lines(lines: Seq<Seq<char>>) -> nat
    decreases lines.len(),
{
    if lines.len() == 0 || words(lines[0]).len() == 0 {
        0
    } else {
        1 + read_lines(lines.drop_first())
    }
}

/// The lines of a maps file.
pub open spec fn maps_lines(contents: Seq<char>) -> Seq<Seq<char>> {
    split_on(contents, '\n')
}

/// Every line that is read describes a range.
pub open spec fn maps_readable(contents: Seq<char>) -> bool {
    let lines = maps_lines(contents);
    forall|i: int| 0 <= i < read_lines(lines) ==> line_readable(#[trigger] lines[i])
}

/// The ranges that a maps file lists.
pub open spec fn maps_ranges(contents: Seq<char>) -> Seq<MapRangeView> {
    let lines = maps_lines(contents);
    Seq::new(read_lines(lines), |i: int| line_range(lines[i]))
}

/// The digits of a number, without the `+` that may lead them.
pub open spec fn unsigned_digits(s: Seq<char>) -> Seq<char> {
    if s.len() > 0 && s[0] == '+' {
        s.drop_first()
    } else {
        s
    }
}

/// Each range read from a maps file has the numbers that its line spells: the start
/// and the end (before and after the dash of the first word) and the offset (the third
/// word) in base 16, and the inode (the fifth word) in base 10.
pub proof fn law_ranges_read_their_numbers(contents: Seq<char>, i: int)
    requires
        maps_readable(contents),
        0 <= i < maps_ranges(contents).len(),
    ensures
        ({
            let t = words(maps_lines(contents)[i]);
            let r = split_on(t[0], '-');
            let m = maps_ranges(contents)[i];
            &&& m.range_start == digits_value(unsigned_digits(r[0]), 16)
            &&& m.range_end == digits_value(unsigned_digits(r[1]), 16)
            &&& m.offset == digits_value(unsigned_digits(t[2]), 16)
            &&& m.inode == digits_value(unsigned_digits(t[4]), 10)
            &&& m.flags == t[1]
            &&& m.dev == t[3]
            &&& m.pathname == if t.len() > 5 {
                Some(t[5])
            } else {
                None
            }
        }),
{
    let lines = maps_lines(contents);
    assert(line_readable(lines[i]));
}

proof fn lemma_read_lines(lines: Seq<Seq<char>>, i: int)
    requires
        0 <= i <= lines.len(),
        forall|j: int| 0 <= j < i ==> words(#[trigger] lines[j]).len() > 0,
    ensures
        read_lines(lines) == i + read_lines(lines.skip(i)),
        read_lines(lines) <= lines.len(),
    decreases i,
{
    lemma_read_lines_bound(lines);
    if i > 0 {
        assert forall|j: int| 0 <= j < i - 1 implies words(#[trigger] lines.drop_first()[j]).len()
            > 0 by {
            assert(lines.drop_first()[j] == lines[j + 1]);
        }
        assert(words(lines[0]).len() > 0);
        lemma_read_lines(lines.drop_first(), i - 1);
        assert(lines.drop_first().skip(i - 1) =~= lines.skip(i));
    } else {
        assert(lines.skip(0) =~= lines);
    }
}

proof fn lemma_read_lines_bound(lines: Seq<Seq<char>>)
    ensures
        read_lines(lines) <= lines.len(),
    decreases lines.len(),
{
    if lines.len() > 0 {
        lemma_read_lines_bound(lines.drop_first());
    }
}

/// Reads the ranges of one line.
fn parse_line(line: &[char]) -> (m: MapRange)
    requires
        line_readable(line@),
    ensures
        m@ == line_range(line@),
{
    let t = words_of(line);
    let r = split_chars(t[0].as_slice(), '-');
    let range_start = parse_usize(r[0].as_slice(), 16);
    let range_end = parse_usize(r[1].as_slice(), 16);
    let offset = parse_usize(t[2].as_slice(), 16);
    let inode = parse_usize(t[4].as_slice(), 10);
    let pathname = if t.len() > 5 {
        Some(string_of(t[5].as_slice()))
    } else {
        None
    };
    MapRange {
        range_start: range_start.unwrap(),
        range_end: range_end.unwrap(),
        offset: offset.unwrap(),
        dev: string_of(t[3].as_slice()),
        flags: string_of(t[1].as_slice()),
        inode: inode.unwrap(),
        pathname,
    }
}

/// Reads the ranges listed in the text of a `/proc/<pid>/maps` file, up to the first
/// line without words.
pub fn parse_proc_maps(contents: &str) -> (v: Vec<MapRange>)
    requires
        maps_readable(contents@),
    ensures
        maps_view(v@) == maps_ranges(contents@),
{
    let text = chars_of(contents);
    let lines = split_chars(text.as_slice(), '\n');
    let ghost ls = maps_lines(contents@);
    let mut vec: Vec<MapRange> = Vec::new();
    let mut i: usize = 0;
    while i < lines.len()
        invariant
            i <= lines@.len(),
            lines@.len() == ls.len(),
            ls == maps_lines(contents@),
            maps_readable(contents@),
            forall|k: int| 0 <= k < lines@.len() ==> (#[trigger] lines@[k])@ == ls[k],
            forall|j: int| 0 <= j < i ==> words(#[trigger] ls[j]).len() > 0,
            vec@.len() == i,
            forall|j: int| 0 <= j < i ==> (#[trigger] vec@[j])@ == line_range(ls[j]),
        decreases lines@.len() - i,
    {
        let t = words_of(lines[i].as_slice());
        if t.len() == 0 {
            proof {
                lemma_read_lines(ls, i as int);
                assert(ls.skip(i as int)[0] == ls[i as int]);
                assert(read_lines(ls) == i);
            }
            assert(maps_view(vec@) =~= maps_ranges(contents@));
            return vec;
        }
        proof {
            lemma_read_lines(ls, i as int);
            assert(ls.skip(i as int)[0] == ls[i as int]);
            assert(read_lines(ls) > i);
        }
        vec.push(parse_line(lines[i].as_slice()));
        i = i + 1;
    }
    proof {
        lemma_read_lines(ls, i as int);
        assert(read_lines(ls) == i);
    }
    assert(maps_view(vec@) =~= maps_ranges(contents@));
    vec
}

// ----------------------------------------------------------------------------------------
// Finding the ranges of the Ruby binary, its library and the heap
// ----------------------------------------------------------------------------------------

/// The range maps a file whose path holds `needle` and has flags `r-xp`.
pub open spec fn maps_code_of(m: MapRangeView, needle: Seq<char>) -> bool {
    match m.pathname {
        Some(p) => contains_chars(p, needle) && m.flags == seq!['r', '-', 'x', 'p'],
        None => false,
    }
}

/// The range is the heap.
pub open spec fn is_heap(m: MapRangeView) -> bool {
    m.pathname == Some(seq!['[', 'h', 'e', 'a', 'p', ']'])
}

/// `r` is a copy of the first range of `maps` that satisfies `pred`, or `None` when no
/// range does.
pub open spec fn first_such(
    maps: Seq<MapRangeView>,
    pred: spec_fn(MapRangeView) -> bool,
    r: Option<MapRangeView>,
) -> bool {
    match r {
        Some(m) => exists|i: int|
            0 <= i < maps.len() && maps[i] == m && pred(m) && forall|j: int|
                0 <= j < i ==> !pred(#[trigger] maps[j]),
        None => forall|j: int| 0 <= j < maps.len() ==> !pred(#[trigger] maps[j]),
    }
}

fn find_code_map(maps: &Vec<MapRange>, needle: &[char]) -> (r: Option<MapRange>)
    ensures
        first_such(
            maps_view(maps@),
            |m: MapRangeView| maps_code_of(m, needle@),
            match r {
                Some(m) => Some(m@),
                None => None,
            },
        ),
{
    let ghost pred = |m: MapRangeView| maps_code_of(m, needle@);
    let xp: Vec<char> = vec!['r', '-', 'x', 'p'];
    let mut i: usize = 0;
    while i < maps.len()
        invariant
            i <= maps@.len(),
            xp@ == seq!['r', '-', 'x', 'p'],
            pred == (|m: MapRangeView| maps_code_of(m, needle@)),
            forall|j: int| 0 <= j < i ==> !pred(#[trigger] maps_view(maps@)[j]),
        decreases maps@.len() - i,
    {
        let m = &maps[i];
        let hit = match &m.pathname {
            Some(p) => {
                let pc = chars_of(p.as_str());
                let fc = chars_of(m.flags.as_str());
                contains(pc.as_slice(), needle) && crate::text::compare_chars(
                    fc.as_slice(),
                    xp.as_slice(),
                ) == 0
            },
            None => false,
        };
        assert(maps_view(maps@)[i as int] == m@);
        if hit {
            let found = m.duplicate();
            assert(pred(maps_view(maps@)[i as int]));
            return Some(found);
        }
        i = i + 1;
    }
    None
}

/// The range holding the code of the Ruby binary: the first `r-xp` range whose file
/// path holds `bin/ruby`.
pub fn get_ruby_map(maps: &Vec<MapRange>) -> (r: Option<MapRange>)
    ensures
        first_such(
            maps_view(maps@),
            |m: MapRangeView| maps_code_of(m, seq!['b', 'i', 'n', '/', 'r', 'u', 'b', 'y']),
            match r {
                Some(m) => Some(m@),
                None => None,
            },
        ),
{
    let needle: Vec<char> = vec!['b', 'i', 'n', '/', 'r', 'u', 'b', 'y'];
    assert(needle@ =~= seq!['b', 'i', 'n', '/', 'r', 'u', 'b', 'y']);
    find_code_map(maps, needle.as_slice())
}

/// The range holding the code of the Ruby library: the first `r-xp` range whose file
/// path holds `libruby`.
pub fn libruby_map(maps: &Vec<MapRange>) -> (r: Option<MapRange>)
    ensures
        first_such(
            maps_view(maps@),
            |m: MapRangeView| maps_code_of(m, seq!['l', 'i', 'b', 'r', 'u', 'b', 'y']),
            match r {
                Some(m) => Some(m@),
                None => None,
            },
        ),
{
    let needle: Vec<char> = vec!['l', 'i', 'b', 'r', 'u', 'b', 'y'];
    assert(needle@ =~= seq!['l', 'i', 'b', 'r', 'u', 'b', 'y']);
    find_code_map(maps, needle.as_slice())
}

/// The first range that is the heap.
pub fn get_heap_map(maps: &Vec<MapRange>) -> (r: Option<MapRange>)
    ensures
        first_such(
            maps_view(maps@),
            |m: MapRangeView| is_heap(m),
            match r {
                Some(m) => Some(m@),
                None => None,
            },
        ),
{
    let ghost pred = |m: MapRangeView| is_heap(m);
    let heap: Vec<char> = vec!['[', 'h', 'e', 'a', 'p', ']'];
    let mut i: usize = 0;
    while i < maps.len()
        invariant
            i <= maps@.len(),
            heap@ == seq!['[', 'h', 'e', 'a', 'p', ']'],
            pred == (|m: MapRangeView| is_heap(m)),
            forall|j: int| 0 <= j < i ==> !pred(#[trigger] maps_view(maps@)[j]),
        decreases maps@.len() - i,
    {
        let m = &maps[i];
        let hit = match &m.pathname {
            Some(p) => {
                let pc = chars_of(p.as_str());
                crate::text::compare_chars(pc.as_slice(), heap.as_slice()) == 0
            },
            None => false,
        };
        assert(maps_view(maps@)[i as int] == m@);
        if hit {
            let found = m.duplicate();
            assert(pred(maps_view(maps@)[i as int]));
            return Some(found);
        }
        i = i + 1;
    }
    None
}

} // verus!
