//! What the command line decides: which process ids are accepted, where a process's
//! executable is found, and how output files are named when no name is given.
use vstd::prelude::*;

use crate::parse::{parse_i32, parse_i32_spec};
use crate::text::{chars_of, dec, push_dec, push_str, string_of};
use crate::clock::{duration_secs, duration_since_epoch, duration_subsec_nanos, system_time_now};
use crate::types::Pid;

verus! {

/// What checking a process id gives: the id, or why it is refused.
pub open spec fn validate_pid_model(s: Seq<char>) -> Result<Pid, Seq<char>> {
    match parse_i32_spec(s) {
        None => Err("PID must be an integer"@),
        Some(p) => if p <= 0 {
            Err("PID must be positive"@)
        } else {
            Ok(p)
        },
    }
}

/// Checks that `s` is a positive integer: a process group is no sensible thing to
/// profile.
pub fn validate_pid(s: &str) -> (r: Result<Pid, String>)
    ensures
        match r {
            Ok(p) => validate_pid_model(s@) == Ok::<Pid, Seq<char>>(p),
            Err(m) => validate_pid_model(s@) == Err::<Pid, Seq<char>>(m@),
        },
{
    let chars = chars_of(s);
    match parse_i32(chars.as_slice()) {
        None => Err("PID must be an integer".to_owned()),
        Some(pid) => {
            if pid <= 0 {
                Err("PID must be positive".to_owned())
            } else {
                Ok(pid)
            }
        },
    }
}

/// The path of the executable of process `pid`, on Linux: `/proc/<pid>/exe`.
pub fn get_executable_path(pid: usize) -> (r: Result<String, String>)
    ensures
        r matches Ok(p) && p@ == "/proc/"@ + dec(pid as nat) + "/exe"@,
{
    let mut buf: Vec<char> = Vec::new();
    push_str(&mut buf, "/proc/");
    push_dec(&mut buf, pid as u64);
    push_str(&mut buf, "/exe");
    Ok(string_of(buf.as_slice()))
}

/// Whether `c` is an ASCII letter or digit.
pub open spec fn is_alphanumeric(c: char) -> bool {
    ('a' <= c && c <= 'z') || ('A' <= c && c <= 'Z') || ('0' <= c && c <= '9')
}

/// `n` characters drawn with `rand`'s `Alphanumeric` distribution from the thread's
/// generator: as its source shows, each is an ASCII letter or digit.
#[verifier::external_body]
fn random_alphanumeric(n: usize) -> (s: String)
    ensures
        s@.len() == n,
        forall|i: int| 0 <= i < n ==> is_alphanumeric(#[trigger] s@[i]),
{
    rand::Rng::sample_iter(rand::thread_rng(), &rand::distributions::Alphanumeric).take(n).map(
        char::from,
    ).collect()
}

/// Whether `d` has the shape of a date `YYYY-MM-DD`: ten characters, digits with a
/// dash at positions 4 and 7.
pub open spec fn date_shaped(d: Seq<char>) -> bool {
    &&& d.len() == 10
    &&& d[4] == '-' && d[7] == '-'
    &&& forall|i: int| 0 <= i < 10 && i != 4 && i != 7 ==> '0' <= #[trigger] d[i] <= '9'
}

/// Seconds from the UNIX epoch to the start of the year 10000.
pub open spec fn year_10000() -> int {
    253_402_300_800
}

/// Seconds from the UNIX epoch back to the start of the year 1000 (negative).
pub open spec fn year_1000() -> int {
    -30_610_224_000
}

/// The name for what `chrono` gives for the UTC date `secs` seconds after the UNIX
/// epoch, formatted as `%Y-%m-%d`: none where `DateTime::from_timestamp` has no date.
pub uninterp spec fn utc_date_text(secs: i64) -> Option<Seq<char>>;

/// The UTC date `secs` seconds after the UNIX epoch, with `chrono`'s
/// `DateTime::from_timestamp` formatted as `%Y-%m-%d` (the only format asked for). As
/// the source shows, from the year 1000 until the year 10000 there is a date, and it is
/// written as four digits of year, two of month and two of day, with dashes between.
#[verifier::external_body]
fn utc_date(secs: i64, fmt: &str) -> (r: Option<String>)
    requires
        fmt@ == "%Y-%m-%d"@,
    ensures
        match r {
            Some(d) => utc_date_text(secs) == Some(d@),
            None => utc_date_text(secs) is None,
        },
        year_1000() <= secs < year_10000() ==> r is Some && date_shaped(r.unwrap()@),
{
    match chrono::DateTime::from_timestamp(secs, 0) {
        Some(d) => Some(d.format(fmt).to_string()),
        None => None,
    }
}

/// The name of an output file: the date, a dash, a tag, a dot and the extension.
pub open spec fn output_file_name_model(date: Seq<char>, tag: Seq<char>, extension: Seq<char>) -> Seq<char> {
    date + seq!['-'] + tag + seq!['.'] + extension
}

/// Names an output file after the date and a tag.
pub fn output_file_name(date: &str, tag: &str, extension: &str) -> (s: String)
    ensures
        s@ == output_file_name_model(date@, tag@, extension@),
{
    let mut buf: Vec<char> = Vec::new();
    push_str(&mut buf, date);
    buf.push('-');
    push_str(&mut buf, tag);
    buf.push('.');
    push_str(&mut buf, extension);
    assert(buf@ =~= output_file_name_model(date@, tag@, extension@));
    string_of(buf.as_slice())
}

/// The whole seconds of a reading of the clock, `secs` seconds and `nanos`
/// nanoseconds after the UNIX epoch, or before it when `before_epoch`: rounded down,
/// so that a time before the epoch falls on the date it is in.
pub open spec fn reading_seconds(before_epoch: bool, secs: u64, nanos: u32) -> int {
    if !before_epoch {
        secs as int
    } else if nanos == 0 {
        -secs
    } else {
        -secs - 1
    }
}

/// The UTC date, as `chrono` writes it, `secs` whole seconds after the UNIX epoch (or
/// before it, for negative `secs`); none where the seconds do not fit in 64 bits or
/// `chrono` has no date.
pub open spec fn clock_date(secs: int) -> Option<Seq<char>> {
    if i64::MIN <= secs <= i64::MAX {
        utc_date_text(secs as i64)
    } else {
        None
    }
}

/// The name of an output file for the time `secs` seconds after the UNIX epoch:
/// the date at that time, the tag and the extension; none where `chrono` has no date.
pub fn output_name_at(secs: i64, tag: &str, extension: &str) -> (r: Option<String>)
    ensures
        r is Some <==> utc_date_text(secs) is Some,
        year_1000() <= secs < year_10000() ==> r is Some && date_shaped(utc_date_text(secs).unwrap()),
        r matches Some(s) ==> s@ == output_file_name_model(utc_date_text(secs).unwrap(), tag@, extension@),
{
    match utc_date(secs, "%Y-%m-%d") {
        Some(d) => Some(output_file_name(d.as_str(), tag, extension)),
        None => None,
    }
}

/// A name for an output file when none is given: today's date (`YYYY-MM-DD`, UTC),
/// ten random letters and digits, and the extension, so that names do not clash.
/// For the clock's reading (a time before the UNIX epoch too), a name comes back
/// whenever its whole seconds fit in 64 bits and `chrono` has a date for them, which
/// it has from the year 1000 until the year 10000.
pub fn default_output_name(extension: &str) -> (r: Option<String>)
    ensures
        exists|secs: int| {
            &&& (r is Some <==> (#[trigger] clock_date(secs)) is Some)
            &&& (year_1000() <= secs < year_10000() ==> r is Some && date_shaped(clock_date(secs).unwrap()))
            &&& r matches Some(s) ==> exists|tag: Seq<char>|
                tag.len() == 10 && (forall|i: int| 0 <= i < 10 ==> is_alphanumeric(#[trigger] tag[i]))
                    && s@ == #[trigger] output_file_name_model(clock_date(secs).unwrap(), tag, extension@)
        },
{
    let now = system_time_now();
    let (before_epoch, d) = match duration_since_epoch(&now) {
        Ok(d) => (false, d),
        Err(d) => (true, d),
    };
    let secs = duration_secs(&d);
    let nanos = duration_subsec_nanos(&d);
    let ghost whole = reading_seconds(before_epoch, secs, nanos);
    let s: i64 = if !before_epoch {
        if secs > i64::MAX as u64 {
            assert(clock_date(whole) is None);
            return None;
        }
        secs as i64
    } else {
        if secs > i64::MAX as u64 {
            if secs == i64::MAX as u64 + 1 && nanos == 0 {
                i64::MIN
            } else {
                assert(clock_date(whole) is None);
                return None;
            }
        } else if nanos == 0 {
            -(secs as i64)
        } else {
            -(secs as i64) - 1
        }
    };
    assert(s == whole);
    let tag = random_alphanumeric(10);
    let r = output_name_at(s, tag.as_str(), extension);
    assert(clock_date(whole) == utc_date_text(s));
    proof {
        if r is Some {
            assert(r.unwrap()@ == output_file_name_model(clock_date(whole).unwrap(), tag@, extension@));
        }
    }
    r
}

} // verus!
