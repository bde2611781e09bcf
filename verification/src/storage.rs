//! The raw storage format: a gzip stream that begins with a magic tag and a version,
//! `rbspyXY\n` with `XY` a decimal number, followed by one record per line.
//! Version 2 files hold a header line and then one stack trace per line.
use vstd::prelude::*;
use vstd::utf8::{decode_utf8, encode_utf8, valid_utf8};

use crate::parse::{law_split_join, split_chars, split_on};
use crate::text::{chars_of, string_of, utf8_str};

verus! {

/// The version of a raw file.
#[derive(Debug, Clone, Copy, PartialEq, Eq, Structural, PartialOrd, Ord, Hash)]
pub struct Version(pub u64);

/// Why a raw file could not be read.
#[derive(Debug)]
pub enum StorageError {
    /// The file does not begin with the magic tag `rbspy` and a version number.
    Invalid,
    /// This version of the file cannot be handled.
    UnknownVersion(Version),
    /// The gzip stream could not be read.
    Io(std::io::Error),
    /// The records are not valid UTF-8 text.
    InvalidUtf8,
}

/// An error of the standard library's I/O.
#[verifier::external_type_specification]
#[verifier::external_body]
pub struct ExIoError(std::io::Error);

// ----------------------------------------------------------------------------------------
// The version tag
// ----------------------------------------------------------------------------------------

/// The bytes of the magic tag, `rbspy`.
pub open spec fn magic() -> Seq<u8> {
    seq![114u8, 98u8, 115u8, 112u8, 121u8]
}

/// The version that the three bytes after the magic tag name: `00\n`, `01\n` or `02\n`.
pub open spec fn version_model(b: Seq<u8>) -> Result<Version, StorageError> {
    if b[0] == 48u8 && b[1] == 48u8 && b[2] == 10u8 {
        Ok(Version(0))
    } else if b[0] == 48u8 && b[1] == 49u8 && b[2] == 10u8 {
        Ok(Version(1))
    } else if b[0] == 48u8 && b[1] == 50u8 && b[2] == 10u8 {
        Ok(Version(2))
    } else {
        Err(StorageError::Invalid)
    }
}

/// How many bytes the version tag takes at the start of `data`: eight, or all of
/// `data` when it is shorter.
pub open spec fn tag_len(data: Seq<u8>) -> int {
    if data.len() < 8 {
        data.len() as int
    } else {
        8
    }
}

/// The eight bytes of the version tag as they are read: the first bytes of `data`,
/// and zeros where `data` ends before.
pub open spec fn tag_bytes(data: Seq<u8>) -> Seq<u8> {
    Seq::new(8, |i: int| if i < data.len() { data[i] } else { 0u8 })
}

/// The version of the data: the magic tag, then the version.
pub open spec fn read_version_model(data: Seq<u8>) -> Result<Version, StorageError> {
    let t = tag_bytes(data);
    if t.subrange(0, 5) == magic() {
        version_model(t.subrange(5, 8))
    } else {
        Err(StorageError::Invalid)
    }
}

impl Version {
    /// Reads the version from the three bytes after the magic tag.
    pub fn try_from(b: &[u8]) -> (r: Result<Version, StorageError>)
        requires
            b@.len() >= 3,
        ensures
            r == version_model(b@),
    {
        if b[0] == 48u8 && b[1] == 48u8 && b[2] == 10u8 {
            Ok(Version(0))
        } else if b[0] == 48u8 && b[1] == 49u8 && b[2] == 10u8 {
            Ok(Version(1))
        } else if b[0] == 48u8 && b[1] == 50u8 && b[2] == 10u8 {
            Ok(Version(2))
        } else {
            Err(StorageError::Invalid)
        }
    }
}

/// Reads the version tag at the start of decompressed data.
pub fn read_version(data: &[u8]) -> (r: Result<Version, StorageError>)
    ensures
        r == read_version_model(data@),
{
    let mut buf: Vec<u8> = Vec::new();
    let mut i: usize = 0;
    while i < 8
        invariant
            i <= 8,
            buf@ == tag_bytes(data@).take(i as int),
        decreases 8 - i,
    {
        if i < data.len() {
            buf.push(data[i]);
        } else {
            buf.push(0u8);
        }
        i = i + 1;
        assert(buf@ =~= tag_bytes(data@).take(i as int));
    }
    assert(buf@ =~= tag_bytes(data@));
    let is_magic = buf[0] == 114u8 && buf[1] == 98u8 && buf[2] == 115u8 && buf[3] == 112u8
        && buf[4] == 121u8;
    assert(is_magic == (buf@.subrange(0, 5) =~= magic()));
    if is_magic {
        let tail = vec![buf[5], buf[6], buf[7]];
        assert(tail@ =~= buf@.subrange(5, 8));
        Version::try_from(tail.as_slice())
    } else {
        Err(StorageError::Invalid)
    }
}

// ----------------------------------------------------------------------------------------
// Lines
// ----------------------------------------------------------------------------------------

/// A line without the carriage return that ended it, if any.
pub open spec fn strip_cr(l: Seq<char>) -> Seq<char> {
    if l.len() > 0 && l.last() == '\r' {
        l.drop_last()
    } else {
        l
    }
}

/// The lines of a text as `BufRead::lines` reads them: split at line feeds, each
/// line ended by a line feed loses a carriage return before it, and a last line
/// that is empty is no line.
pub open spec fn text_lines(text: Seq<char>) -> Seq<Seq<char>> {
    let pieces = split_on(text, '\n');
    let ended = pieces.drop_last().map_values(|l: Seq<char>| strip_cr(l));
    if pieces.last().len() == 0 {
        ended
    } else {
        ended.push(pieces.last())
    }
}

/// The text of lines, each followed by a line feed.
pub open spec fn lines_text(lines: Seq<Seq<char>>) -> Seq<char>
    decreases lines.len(),
{
    if lines.len() == 0 {
        Seq::empty()
    } else {
        lines_text(lines.drop_last()) + lines.last() + seq!['\n']
    }
}

/// The lines of a text.
pub fn lines_of(text: &[char]) -> (lines: Vec<String>)
    ensures
        lines@.map_values(|s: String| s@) == text_lines(text@),
{
    let pieces = split_chars(text, '\n');
    let ghost ps = split_on(text@, '\n');
    proof {
        law_split_join(text@, '\n');
    }
    let n = pieces.len();
    let mut lines: Vec<String> = Vec::new();
    let mut i: usize = 0;
    while i + 1 < n
        invariant
            n == pieces@.len(),
            n == ps.len(),
            n >= 1,
            i + 1 <= n,
            ps == split_on(text@, '\n'),
            forall|j: int| 0 <= j < n ==> (#[trigger] pieces@[j])@ == ps[j],
            lines@.map_values(|s: String| s@) == ps.take(i as int).map_values(|l: Seq<char>| strip_cr(l)),
        decreases n - i,
    {
        let p = &pieces[i];
        let ghost before = lines@;
        if p.len() > 0 && p[p.len() - 1] == '\r' {
            let m = p.len() - 1;
            let mut q: Vec<char> = Vec::new();
            let mut k: usize = 0;
            while k < m
                invariant
                    k <= m,
                    m + 1 == p@.len(),
                    q@ == p@.take(k as int),
                decreases m - k,
            {
                q.push(p[k]);
                k = k + 1;
                assert(q@ =~= p@.take(k as int));
            }
            assert(q@ =~= p@.drop_last());
            lines.push(string_of(q.as_slice()));
        } else {
            lines.push(string_of(p.as_slice()));
        }
        i = i + 1;
        assert(ps.take(i as int) =~= ps.take(i - 1).push(ps[i - 1]));
        assert(lines@.map_values(|s: String| s@) =~= before.map_values(|s: String| s@).push(strip_cr(ps[i - 1])));
    }
    assert(ps.take(i as int) =~= ps.drop_last());
    let last = &pieces[n - 1];
    if last.len() > 0 {
        let ghost before = lines@;
        lines.push(string_of(last.as_slice()));
        assert(lines@.map_values(|s: String| s@) =~= before.map_values(|s: String| s@).push(ps.last()));
    }
    lines
}

/// Appending a text without a line feed extends the last piece.
proof fn lemma_split_append_plain(s: Seq<char>, t: Seq<char>)
    requires
        !t.contains('\n'),
    ensures
        split_on(s + t, '\n') == split_on(s, '\n').update(
            split_on(s, '\n').len() - 1,
            split_on(s, '\n').last() + t,
        ),
    decreases t.len(),
{
    law_split_join(s, '\n');
    if t.len() == 0 {
        assert(s + t =~= s);
        assert(split_on(s, '\n').last() + t =~= split_on(s, '\n').last());
        assert(split_on(s, '\n').update(split_on(s, '\n').len() - 1, split_on(s, '\n').last() + t) =~= split_on(s, '\n'));
    } else {
        let t0 = t.drop_last();
        assert(!t0.contains('\n')) by {
            if t0.contains('\n') {
                let j = choose|j: int| 0 <= j < t0.len() && t0[j] == '\n';
                assert(t[j] == '\n');
            }
        }
        lemma_split_append_plain(s, t0);
        assert((s + t).drop_last() =~= s + t0);
        assert((s + t).last() == t.last());
        assert(t.last() != '\n') by {
            assert(t[t.len() - 1] == t.last());
        }
        law_split_join(s + t0, '\n');
        let sp = split_on(s, '\n');
        let prev = split_on(s + t0, '\n');
        assert(prev.len() == sp.len());
        assert(prev.last() == sp.last() + t0);
        assert((sp.last() + t0).push(t.last()) =~= sp.last() + t);
        assert(split_on(s + t, '\n') == prev.update(prev.len() - 1, prev.last().push(t.last())));
        assert(split_on(s + t, '\n') =~= split_on(s, '\n').update(
            split_on(s, '\n').len() - 1,
            split_on(s, '\n').last() + t,
        ));
    }
}

/// Lines without line feeds, each written with a line feed after it, split into the
/// lines and one empty piece after the last line feed.
proof fn lemma_split_lines_text(lines: Seq<Seq<char>>)
    requires
        forall|i: int| 0 <= i < lines.len() ==> !(#[trigger] lines[i]).contains('\n'),
    ensures
        split_on(lines_text(lines), '\n') == lines.push(Seq::empty()),
    decreases lines.len(),
{
    if lines.len() == 0 {
        assert(split_on(lines_text(lines), '\n') =~= lines.push(Seq::empty()));
    } else {
        let init = lines.drop_last();
        assert forall|i: int| 0 <= i < init.len() implies !(#[trigger] init[i]).contains('\n') by {
            assert(init[i] == lines[i]);
        }
        lemma_split_lines_text(init);
        let t = lines_text(init);
        assert(lines.last() == lines[lines.len() - 1]);
        lemma_split_append_plain(t, lines.last());
        let u = t + lines.last();
        assert(lines_text(lines) =~= u.push('\n'));
        assert(u.push('\n').drop_last() =~= u);
        assert(Seq::<char>::empty() + lines.last() =~= lines.last());
        assert(split_on(u, '\n') =~= init.push(lines.last()));
        assert(init.push(lines.last()) =~= lines);
        assert(split_on(lines_text(lines), '\n') =~= lines.push(Seq::empty()));
    }
}

/// Reading back the lines that were written gives the same lines, for lines without
/// line feeds that do not end with a carriage return.
pub proof fn law_lines_round_trip(lines: Seq<Seq<char>>)
    requires
        forall|i: int| 0 <= i < lines.len() ==> !(#[trigger] lines[i]).contains('\n'),
        forall|i: int| 0 <= i < lines.len() ==> strip_cr(#[trigger] lines[i]) == lines[i],
    ensures
        text_lines(lines_text(lines)) == lines,
{
    lemma_split_lines_text(lines);
    let pieces = lines.push(Seq::empty());
    assert(pieces.drop_last() =~= lines);
    assert(pieces.drop_last().map_values(|l: Seq<char>| strip_cr(l)) =~= lines);
}

// ----------------------------------------------------------------------------------------
// Reading a raw file
// ----------------------------------------------------------------------------------------

/// The records of a raw file: its version and its lines.
#[derive(Debug)]
pub struct RawData {
    pub version: Version,
    pub lines: Vec<String>,
}

/// The model of the records: the version and the lines.
pub open spec fn raw_view(d: RawData) -> (Version, Seq<Seq<char>>) {
    (d.version, d.lines@.map_values(|s: String| s@))
}

/// The records of decompressed data: after the version tag, the text's lines.
pub open spec fn decode_model(data: Seq<u8>) -> Result<(Version, Seq<Seq<char>>), StorageError> {
    match read_version_model(data) {
        Err(e) => Err(e),
        Ok(v) => if v.0 > 2 {
            Err(StorageError::UnknownVersion(v))
        } else {
            let rest = data.subrange(tag_len(data), data.len() as int);
            if valid_utf8(rest) {
                Ok((v, text_lines(decode_utf8(rest))))
            } else {
                Err(StorageError::InvalidUtf8)
            }
        },
    }
}

/// The outcome of reading, in the model's terms.
pub open spec fn decode_view(r: Result<RawData, StorageError>) -> Result<(Version, Seq<Seq<char>>), StorageError> {
    match r {
        Ok(d) => Ok(raw_view(d)),
        Err(e) => Err(e),
    }
}

/// Reads the records of decompressed data.
pub fn decode_bytes(data: &[u8]) -> (r: Result<RawData, StorageError>)
    ensures
        decode_view(r) == decode_model(data@),
{
    let version = match read_version(data) {
        Ok(v) => v,
        Err(e) => return Err(e),
    };
    if version.0 > 2 {
        return Err(StorageError::UnknownVersion(version));
    }
    let start: usize = if data.len() < 8 {
        data.len()
    } else {
        8
    };
    let (_, rest) = data.split_at(start);
    match utf8_str(rest) {
        None => Err(StorageError::InvalidUtf8),
        Some(text) => {
            let chars = chars_of(text);
            let lines = lines_of(chars.as_slice());
            Ok(RawData { version, lines })
        },
    }
}

/// The name for what `flate2::read::GzDecoder` gives when it reads `data` to the end:
/// the decompressed bytes, or none when the stream is not valid gzip.
pub uninterp spec fn gunzip_result(data: Seq<u8>) -> Option<Seq<u8>>;

/// Decompresses gzip data with `flate2::read::GzDecoder`, reading it to the end.
#[verifier::external_body]
fn gunzip(data: &[u8]) -> (r: Result<Vec<u8>, std::io::Error>)
    ensures
        match r {
            Ok(v) => gunzip_result(data@) == Some(v@),
            Err(_) => gunzip_result(data@) is None,
        },
{
    let mut out: Vec<u8> = Vec::new();
    match std::io::Read::read_to_end(&mut flate2::read::GzDecoder::new(data), &mut out) {
        Ok(_) => Ok(out),
        Err(e) => Err(e),
    }
}

/// Reads a raw file: decompresses it and reads its records. A stream that cannot be
/// decompressed is an I/O error.
pub fn decode(compressed: &[u8]) -> (r: Result<RawData, StorageError>)
    ensures
        match gunzip_result(compressed@) {
            Some(data) => decode_view(r) == decode_model(data),
            None => r matches Err(StorageError::Io(_)),
        },
{
    match gunzip(compressed) {
        Ok(data) => decode_bytes(data.as_slice()),
        Err(e) => Err(StorageError::Io(e)),
    }
}

// ----------------------------------------------------------------------------------------
// Writing a raw file
// ----------------------------------------------------------------------------------------

/// The bytes that a version 2 file begins with: `rbspy02\n`.
pub open spec fn preamble_bytes() -> Seq<u8> {
    magic() + seq![48u8, 50u8, 10u8]
}

/// The tag that a raw file of the current version begins with.
pub fn preamble() -> (b: Vec<u8>)
    ensures
        b@ == preamble_bytes(),
{
    let b = vec![114u8, 98u8, 115u8, 112u8, 121u8, 48u8, 50u8, 10u8];
    assert(b@ =~= preamble_bytes());
    b
}

/// One record of a raw file: the line, then a line feed.
pub fn record_line(line: &str) -> (s: String)
    ensures
        s@ == lines_text(seq![line@]),
{
    let mut v = chars_of(line);
    v.push('\n');
    assert(seq![line@].drop_last() =~= Seq::<Seq<char>>::empty());
    assert(lines_text(seq![line@]) == lines_text(Seq::<Seq<char>>::empty()) + line@ + seq!['\n']);
    assert(v@ =~= lines_text(seq![line@]));
    string_of(v.as_slice())
}

/// What a raw file of the current version decompresses to: the tag, then each line
/// followed by a line feed.
pub open spec fn written_bytes(lines: Seq<Seq<char>>) -> Seq<u8> {
    preamble_bytes() + encode_utf8(lines_text(lines))
}

/// Reading what was written gives back the current version and the lines, for lines
/// without line feeds that do not end with a carriage return.
pub proof fn law_read_what_was_written(lines: Seq<Seq<char>>)
    requires
        forall|i: int| 0 <= i < lines.len() ==> !(#[trigger] lines[i]).contains('\n'),
        forall|i: int| 0 <= i < lines.len() ==> strip_cr(#[trigger] lines[i]) == lines[i],
    ensures
        decode_model(written_bytes(lines)) == Ok::<(Version, Seq<Seq<char>>), StorageError>((Version(2), lines)),
{
    let data = written_bytes(lines);
    let text = lines_text(lines);
    assert(tag_bytes(data).subrange(0, 5) =~= magic());
    assert(tag_bytes(data).subrange(5, 8) =~= seq![48u8, 50u8, 10u8]);
    assert(tag_len(data) == 8);
    assert(data.subrange(8, data.len() as int) =~= encode_utf8(text));
    vstd::utf8::encode_utf8_valid_utf8(text);
    vstd::utf8::encode_utf8_decode_utf8(text);
    law_lines_round_trip(lines);
}

} // verus!
