//! Splitting text into pieces and reading integers out of it, as the standard
//! library's `str::split`, `str::parse` and `from_str_radix` do.
use vstd::prelude::*;

use crate::text::{all_digits, digits_value, radix_digit};

verus! {

/// The pieces of `s` between occurrences of `c`, as `str::split` with a character
/// returns them: one more piece than there are separators.
pub open spec fn split_on(s: Seq<char>, c: char) -> Seq<Seq<char>>
    decreases s.len(),
{
    if s.len() == 0 {
        seq![Seq::empty()]
    } else {
        let prev = split_on(s.drop_last(), c);
        if s.last() == c {
            prev.push(Seq::empty())
        } else {
            prev.update(prev.len() - 1, prev.last().push(s.last()))
        }
    }
}

/// Pieces joined back together with `c` between them.
pub open spec fn join_with(pieces: Seq<Seq<char>>, c: char) -> Seq<char>
    decreases pieces.len(),
{
    if pieces.len() == 0 {
        Seq::empty()
    } else if pieces.len() == 1 {
        pieces[0]
    } else {
        join_with(pieces.drop_last(), c) + seq![c] + pieces.last()
    }
}

/// Splitting gives at least one piece, no piece holds the separator, and joining the
/// pieces with the separator gives back the text.
pub proof fn law_split_join(s: Seq<char>, c: char)
    ensures
        split_on(s, c).len() >= 1,
        forall|i: int|
            0 <= i < split_on(s, c).len() ==> !(#[trigger] split_on(s, c)[i]).contains(c),
        join_with(split_on(s, c), c) == s,
    decreases s.len(),
{
    if s.len() == 0 {
        assert(join_with(split_on(s, c), c) =~= s);
    } else {
        let prev = split_on(s.drop_last(), c);
        law_split_join(s.drop_last(), c);
        let r = split_on(s, c);
        if s.last() == c {
            assert(r.drop_last() =~= prev);
            assert(!Seq::<char>::empty().contains(c));
            if prev.len() == 1 {
                assert(join_with(r, c) =~= prev[0] + seq![c] + Seq::empty());
            }
            assert(join_with(r, c) =~= s.drop_last() + seq![c]);
            assert(s =~= s.drop_last() + seq![c]);
        } else {
            let last = prev.last().push(s.last());
            assert forall|i: int| 0 <= i < r.len() implies !(#[trigger] r[i]).contains(c) by {
                if i == r.len() - 1 {
                    if r[i].contains(c) {
                        let j = choose|j: int| 0 <= j < r[i].len() && r[i][j] == c;
                        if j < prev.last().len() {
                            assert(prev.last()[j] == c);
                        }
                    }
                } else {
                    assert(r[i] == prev[i]);
                }
            }
            if prev.len() == 1 {
                assert(join_with(prev, c) == prev[0]);
                assert(prev.last() == prev[0]);
                assert(prev[0] == s.drop_last());
                assert(r.len() == 1);
                assert(r[0] == last);
                assert(join_with(r, c) == r[0]);
                assert(s =~= s.drop_last().push(s.last()));
                assert(last == s.drop_last().push(s.last()));
                assert(last == s);
            } else {
                assert(r.drop_last() =~= prev.drop_last());
                assert(join_with(r, c) =~= join_with(prev.drop_last(), c) + seq![c] + last);
                assert(join_with(prev, c) =~= join_with(prev.drop_last(), c) + seq![c]
                    + prev.last());
                assert(join_with(r, c) =~= join_with(prev, c).push(s.last()));
                assert(s =~= s.drop_last().push(s.last()));
            }
        }
    }
}

/// Splits `s` at every occurrence of `c`.
pub fn split_chars(s: &[char], c: char) -> (pieces: Vec<Vec<char>>)
    ensures
        pieces@.len() == split_on(s@, c).len(),
        forall|i: int| 0 <= i < pieces@.len() ==> (#[trigger] pieces@[i])@ == split_on(s@, c)[i],
{
    let mut pieces: Vec<Vec<char>> = Vec::new();
    let mut cur: Vec<char> = Vec::new();
    let mut i: usize = 0;
    while i < s.len()
        invariant
            i <= s@.len(),
            pieces@.len() + 1 == split_on(s@.take(i as int), c).len(),
            forall|j: int|
                0 <= j < pieces@.len() ==> (#[trigger] pieces@[j])@ == split_on(
                    s@.take(i as int),
                    c,
                )[j],
            cur@ == split_on(s@.take(i as int), c).last(),
        decreases s@.len() - i,
    {
        let ghost before = s@.take(i as int);
        proof {
            law_split_join(before, c);
        }
        let x = s[i];
        i = i + 1;
        assert(s@.take(i as int).drop_last() =~= before);
        if x == c {
            let done = cur;
            pieces.push(done);
            cur = Vec::new();
            assert(cur@ =~= Seq::<char>::empty());
        } else {
            cur.push(x);
        }
    }
    proof {
        law_split_join(s@.take(i as int), c);
    }
    pieces.push(cur);
    assert(s@.take(s@.len() as int) =~= s@);
    pieces
}

/// The value of an optionally signed decimal integer, as `str::parse::<i32>` reads
/// it: a `+` or `-`, then at least one digit, and a value that fits.
pub open spec fn parse_i32_spec(s: Seq<char>) -> Option<i32> {
    let neg = s.len() > 0 && s[0] == '-';
    let signed = s.len() > 0 && (s[0] == '-' || s[0] == '+');
    let digits = if signed {
        s.drop_first()
    } else {
        s
    };
    if digits.len() == 0 || !all_digits(digits, 10) {
        None
    } else {
        let v = digits_value(digits, 10) as int;
        let x = if neg {
            -v
        } else {
            v
        };
        if i32::MIN <= x && x <= i32::MAX {
            Some(x as i32)
        } else {
            None
        }
    }
}

/// The value of an unsigned integer in base `radix`, as `usize::from_str_radix` reads
/// it: an optional `+`, then at least one digit, and a value that fits.
pub open spec fn parse_usize_spec(s: Seq<char>, radix: nat) -> Option<usize> {
    let digits = if s.len() > 0 && s[0] == '+' {
        s.drop_first()
    } else {
        s
    };
    if digits.len() == 0 || !all_digits(digits, radix) || digits_value(digits, radix)
        > usize::MAX {
        None
    } else {
        Some(digits_value(digits, radix) as usize)
    }
}

/// The value of a digit character of `radix` (10 or 16).
fn digit_of(c: char, radix: u64) -> (r: Option<u64>)
    requires
        radix == 10 || radix == 16,
    ensures
        match r {
            Some(d) => radix_digit(c, radix as nat) == Some(d as nat) && d < radix,
            None => radix_digit(c, radix as nat) is None,
        },
{
    if '0' <= c && c <= '9' {
        Some((c as u32 - '0' as u32) as u64)
    } else if radix == 16 && 'a' <= c && c <= 'f' {
        Some((c as u32 - 'a' as u32 + 10) as u64)
    } else if radix == 16 && 'A' <= c && c <= 'F' {
        Some((c as u32 - 'A' as u32 + 10) as u64)
    } else {
        None
    }
}

proof fn lemma_step_bound(v: int, r: int, d: int, limit: int)
    requires
        0 <= v,
        0 <= d < r,
        r > 0,
        d <= limit,
    ensures
        (v > (limit - d) / r) == (v * r + d > limit),
{
    assert((v > (limit - d) / r) == (v * r + d > limit)) by (nonlinear_arith)
        requires
            0 <= v,
            0 <= d < r,
            r > 0,
            d <= limit,
    ;
}

proof fn lemma_grow(v: int, r: int, d: int, limit: int)
    requires
        v > limit,
        limit >= 0,
        r >= 1,
        d >= 0,
    ensures
        v * r + d > limit,
{
    assert(v * r + d > limit) by (nonlinear_arith)
        requires
            v > limit,
            limit >= 0,
            r >= 1,
            d >= 0,
    ;
}

/// The value of the digits `d` in base `radix`, when they are all digits and the value
/// is at most `limit`.
fn digits_checked(d: &[char], radix: u64, limit: u64) -> (r: Option<u64>)
    requires
        radix == 10 || radix == 16,
    ensures
        match r {
            Some(v) => all_digits(d@, radix as nat) && v == digits_value(d@, radix as nat) && v
                <= limit,
            None => !all_digits(d@, radix as nat) || digits_value(d@, radix as nat) > limit,
        },
{
    let mut v: u64 = 0;
    let mut big = false;
    let mut i: usize = 0;
    while i < d.len()
        invariant
            radix == 10 || radix == 16,
            i <= d@.len(),
            all_digits(d@.take(i as int), radix as nat),
            !big ==> v == digits_value(d@.take(i as int), radix as nat) && v <= limit,
            big ==> digits_value(d@.take(i as int), radix as nat) > limit,
        decreases d@.len() - i,
    {
        let ghost prefix = d@.take(i as int);
        match digit_of(d[i], radix) {
            None => {
                assert(!all_digits(d@, radix as nat)) by {
                    assert(radix_digit(d@[i as int], radix as nat) is None);
                }
                return None;
            },
            Some(dv) => {
                i = i + 1;
                let ghost next = d@.take(i as int);
                assert(next.drop_last() =~= prefix);
                assert(next.last() == d@[i - 1]);
                assert(digits_value(next, radix as nat) == digits_value(prefix, radix as nat)
                    * radix + dv);
                assert forall|j: int| 0 <= j < next.len() implies (#[trigger] radix_digit(
                    next[j],
                    radix as nat,
                )) is Some by {
                    if j < prefix.len() {
                        assert(next[j] == prefix[j]);
                    }
                }
                if !big {
                    if dv > limit {
                        proof {
                            lemma_grow(
                                digits_value(prefix, radix as nat) as int + 1,
                                radix as int,
                                0,
                                0,
                            );
                        }
                        big = true;
                    } else {
                        proof {
                            lemma_step_bound(v as int, radix as int, dv as int, limit as int);
                        }
                        if v > (limit - dv) / radix {
                            big = true;
                        } else {
                            assert(v * radix + dv <= limit) by (nonlinear_arith)
                                requires
                                    v * radix + dv <= limit,
                            ;
                            v = v * radix + dv;
                        }
                    }
                } else {
                    proof {
                        lemma_grow(
                            digits_value(prefix, radix as nat) as int,
                            radix as int,
                            dv as int,
                            limit as int,
                        );
                    }
                }
            },
        }
    }
    assert(d@.take(d@.len() as int) =~= d@);
    if big {
        None
    } else {
        Some(v)
    }
}

/// Reads an optionally signed decimal `i32`, as `str::parse::<i32>` does.
pub fn parse_i32(s: &[char]) -> (r: Option<i32>)
    ensures
        r == parse_i32_spec(s@),
{
    let neg = s.len() > 0 && s[0] == '-';
    let signed = s.len() > 0 && (s[0] == '-' || s[0] == '+');
    let digits: &[char] = if signed {
        &s[1..s.len()]
    } else {
        s
    };
    if digits.len() == 0 {
        return None;
    }
    match digits_checked(digits, 10, 2147483648) {
        None => None,
        Some(v) => {
            if neg {
                Some((0i64 - v as i64) as i32)
            } else if v <= 2147483647 {
                Some(v as i32)
            } else {
                None
            }
        },
    }
}

/// Reads an unsigned integer in base `radix` (10 or 16), as `usize::from_str_radix`
/// does.
pub fn parse_usize(s: &[char], radix: u64) -> (r: Option<usize>)
    requires
        radix == 10 || radix == 16,
    ensures
        r == parse_usize_spec(s@, radix as nat),
{
    let digits: &[char] = if s.len() > 0 && s[0] == '+' {
        &s[1..s.len()]
    } else {
        s
    };
    if digits.len() == 0 {
        return None;
    }
    match digits_checked(digits, radix, usize::MAX as u64) {
        None => None,
        Some(v) => Some(v as usize),
    }
}

} // verus!
