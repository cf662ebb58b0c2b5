//! Checks for the `format` keyword on strings.

use vstd::prelude::*;
use vstd::string::StringSliceAdditionalSpecFns;
use crate::json::JsonValue;
use crate::text::str_eq;
use crate::outside::{
    idna_to_ascii_strict, idna_to_unicode, pct_decode, percent_decode_utf8, spec_idna_to_ascii_strict,
    spec_idna_to_unicode, spec_uri_parse, spec_url_join, spec_url_parse, spec_url_path, uri_len_ok, uri_parse,
    url_join, url_parse, url_path, UrlError,
};
use crate::text::{
    all_digits, chars_of, concat, contains_char, count_digits, count_digits_in, digit_run,
    find_char_from, has_char, is_digit, lemma_digit_run, parse_digits, push_char, push_decimal,
    spec_parse_digits, string_from, string_from_range, rfind_char, has_prefix_at,
};

verus! {

/// An error with message `m`.
fn fail<T>(m: &str) -> (r: Result<T, String>)
    ensures
        r matches Err(e) && e@ == m@,
{
    Err(m.to_owned())
}

// ---------------------------------------------------------------------
// date (RFC 3339 full-date)

/// Whether `y` is a leap year.
pub open spec fn is_leap(y: nat) -> bool {
    y % 4 == 0 && (y % 100 != 0 || y % 400 == 0)
}

/// The number of days of month `m` in year `y`.
pub open spec fn days_in_month(y: nat, m: nat) -> nat {
    if m == 2 {
        if is_leap(y) { 29 } else { 28 }
    } else if m == 4 || m == 6 || m == 9 || m == 11 {
        30
    } else {
        31
    }
}

/// Whether `s` is a date `yyyy-mm-dd`: year, month and day as read by
/// `usize::from_str`, month 1..=12 and day within the month.
pub open spec fn spec_valid_date(s: Seq<char>) -> bool {
    &&& s.len() == 10
    &&& s[4] == '-'
    &&& s[7] == '-'
    &&& match (
        spec_parse_digits(s.subrange(0, 4)),
        spec_parse_digits(s.subrange(5, 7)),
        spec_parse_digits(s.subrange(8, 10)),
    ) {
        (Some(y), Some(m), Some(d)) => 1 <= m <= 12 && 1 <= d <= days_in_month(y, m),
        _ => false,
    }
}

/// Checks `v[from..from + 10]` (all of it) is a date.
fn check_date_chars(v: &Vec<char>) -> (r: Result<(), String>)
    ensures
        r is Ok <==> spec_valid_date(v@),
{
    if v.len() != 10 {
        return fail("must be 10 characters long");
    }
    if v[4] != '-' || v[7] != '-' {
        return fail("missing hyphen in correct place");
    }
    let y = parse_digits(v, 0, 4);
    let m = parse_digits(v, 5, 7);
    let d = parse_digits(v, 8, 10);
    let (y, m, d) = match (y, m, d) {
        (Some(y), Some(m), Some(d)) => (y, m, d),
        _ => return fail("non-positive year/month/day"),
    };
    if !(1 <= m && m <= 12) {
        let mut e = String::new();
        push_decimal(&mut e, m);
        crate::text::push_str(&mut e, " months in year");
        return Err(e);
    }
    if !(1 <= d && d <= 31) {
        let mut e = String::new();
        push_decimal(&mut e, d);
        crate::text::push_str(&mut e, " days in month");
        return Err(e);
    }
    if m == 2 {
        let mut feb_days: usize = 28;
        if y % 4 == 0 && (y % 100 != 0 || y % 400 == 0) {
            feb_days += 1;
        }
        if d > feb_days {
            let mut e = concat("february has ", "");
            push_decimal(&mut e, feb_days);
            crate::text::push_str(&mut e, " days only");
            return Err(e);
        }
    } else if m == 4 || m == 6 || m == 9 || m == 11 {
        if d > 30 {
            return fail("month has 30 days only");
        }
    }
    Ok(())
}

/// Checks `s` is a full-date `yyyy-mm-dd` (RFC 3339).
pub fn check_date(s: &str) -> (r: Result<(), String>)
    ensures
        r is Ok <==> spec_valid_date(s@),
{
    check_date_chars(&chars_of(s))
}

// ---------------------------------------------------------------------
// time (RFC 3339 full-time)

/// A second of 60 is a leap second, allowed only at 23:59 UTC.
pub open spec fn leap_ok(sec: nat, h: int, m: int) -> bool {
    sec < 60 || (h == 23 && m == 59)
}

/// What follows `hh:mm:ss`: an optional fraction `.d+`, then the offset.
/// `None` when the fraction has no digit.
pub open spec fn after_fraction(r: Seq<char>) -> Option<Seq<char>> {
    if r.len() > 0 && r[0] == '.' {
        let n = digit_run(r.skip(1));
        if n == 0 {
            None
        } else {
            Some(r.skip(1 + n as int))
        }
    } else {
        Some(r)
    }
}

/// Whether offset `z` (`Z`, `z` or `+hh:mm`/`-hh:mm`) is valid for local
/// time `h:m` with seconds `sec`; the leap second is checked in UTC.
pub open spec fn spec_valid_offset(z: Seq<char>, h: nat, m: nat, sec: nat) -> bool {
    if z == seq!['z'] || z == seq!['Z'] {
        leap_ok(sec, h as int, m as int)
    } else {
        &&& z.len() == 6
        &&& z[0] == '+' || z[0] == '-'
        &&& z[3] == ':'
        &&& match (spec_parse_digits(z.subrange(1, 3)), spec_parse_digits(z.subrange(4, 6))) {
            (Some(zh), Some(zm)) => {
                &&& zh <= 23
                &&& zm <= 59
                &&& {
                    let sign: int = if z[0] == '+' { -1 } else { 1 };
                    let hm0 = (h * 60 + m) as int + sign * (zh * 60 + zm) as int;
                    let hm = if hm0 < 0 { hm0 + 24 * 60 } else { hm0 };
                    leap_ok(sec, hm / 60, hm % 60)
                }
            },
            _ => false,
        }
    }
}

/// Whether `s` is a full-time `hh:mm:ss[.frac](Z|±hh:mm)` (RFC 3339).
pub open spec fn spec_valid_time(s: Seq<char>) -> bool {
    &&& s.len() >= 9
    &&& s[2] == ':'
    &&& s[5] == ':'
    &&& match (
        spec_parse_digits(s.subrange(0, 2)),
        spec_parse_digits(s.subrange(3, 5)),
        spec_parse_digits(s.subrange(6, 8)),
    ) {
        (Some(h), Some(m), Some(sec)) => {
            &&& h <= 23
            &&& m <= 59
            &&& sec <= 60
            &&& match after_fraction(s.skip(8)) {
                Some(z) => spec_valid_offset(z, h, m, sec),
                None => false,
            }
        },
        _ => false,
    }
}

/// Checks the offset part `v[from..]` of a time.
fn check_offset(v: &Vec<char>, from: usize, h: usize, m: usize, sec: usize) -> (r: Result<(), String>)
    requires
        from <= v@.len(),
        h <= 23,
        m <= 59,
        sec <= 60,
    ensures
        r is Ok <==> spec_valid_offset(v@.skip(from as int), h as nat, m as nat, sec as nat),
{
    let ghost z = v@.skip(from as int);
    let n = v.len() - from;
    let mut hh: usize = h;
    let mut mm: usize = m;
    if n == 1 && (v[from] == 'z' || v[from] == 'Z') {
        proof {
            if v@[from as int] == 'z' {
                assert(z =~= seq!['z']);
            } else {
                assert(z =~= seq!['Z']);
            }
        }
    } else {
        proof {
            if n == 1 {
                assert(z[0] == v@[from as int]);
                assert(z != seq!['z'] && z != seq!['Z']);
            } else {
                assert(z.len() != 1);
                assert(z != seq!['z'] && z != seq!['Z']);
            }
        }
        if n != 6 {
            return fail("offset must be 6 characters long");
        }
        let sign: i64 = if v[from] == '+' {
            -1
        } else if v[from] == '-' {
            1
        } else {
            return fail("offset must begin with plus/minus");
        };
        if v[from + 3] != ':' {
            return fail("missing colon in offset at correct place");
        }
        let zh = parse_digits(v, from + 1, from + 3);
        let zm = parse_digits(v, from + 4, from + 6);
        proof {
            assert(z.subrange(1, 3) =~= v@.subrange(from + 1, from + 3));
            assert(z.subrange(4, 6) =~= v@.subrange(from + 4, from + 6));
        }
        let (zh, zm) = match (zh, zm) {
            (Some(zh), Some(zm)) => (zh, zm),
            _ => return fail("non-positive hour/min in offset"),
        };
        if zh > 23 || zm > 59 {
            return fail("hour/min in offset out of range");
        }
        assert(h * 60 + m <= 1439);
        assert(zh * 60 + zm <= 1439);
        let mut hm: i64 = (h * 60 + m) as i64 + sign * ((zh * 60 + zm) as i64);
        if hm < 0 {
            hm += 24 * 60;
        }
        assert(hm >= 0);
        hh = (hm / 60) as usize;
        mm = (hm % 60) as usize;
    }
    if !(sec < 60 || hh == 23 && mm == 59) {
        return fail("invalid leap second");
    }
    Ok(())
}

/// Checks all of `v` is a full-time.
fn check_time_chars(v: &Vec<char>) -> (r: Result<(), String>)
    ensures
        r is Ok <==> spec_valid_time(v@),
{
    if v.len() < 9 {
        return fail("less than 9 characters long");
    }
    if v[2] != ':' || v[5] != ':' {
        return fail("missing colon in correct place");
    }
    let h = parse_digits(v, 0, 2);
    let m = parse_digits(v, 3, 5);
    let sec = parse_digits(v, 6, 8);
    let (h, m, sec) = match (h, m, sec) {
        (Some(h), Some(m), Some(sec)) => (h, m, sec),
        _ => return fail("non-positive hour/min/sec"),
    };
    if h > 23 || m > 59 || sec > 60 {
        return fail("hour/min/sec out of range");
    }
    let ghost r8 = v@.skip(8);
    let mut at: usize = 8;
    if v[8] == '.' {
        let n_digits = count_digits(v, 9);
        proof {
            assert(r8.skip(1) =~= v@.skip(9));
        }
        if n_digits == 0 {
            return fail("no digits in second fraction");
        }
        at = 9 + n_digits;
        proof {
            assert(r8.skip(1 + n_digits) =~= v@.skip(at as int));
        }
    } else {
        proof {
            assert(r8 =~= v@.skip(8));
        }
    }
    check_offset(v, at, h, m, sec)
}

/// Checks `s` is a full-time `hh:mm:ss[.frac](Z|±hh:mm)` (RFC 3339).
pub fn check_time(s: &str) -> (r: Result<(), String>)
    ensures
        r is Ok <==> spec_valid_time(s@),
{
    check_time_chars(&chars_of(s))
}

// ---------------------------------------------------------------------
// date-time

/// Whether `s` is `date` `T`|`t` `time`.
pub open spec fn spec_valid_date_time(s: Seq<char>) -> bool {
    &&& s.len() >= 20
    &&& (s[10] == 't' || s[10] == 'T')
    &&& spec_valid_date(s.take(10))
    &&& spec_valid_time(s.skip(11))
}

fn check_date_time_chars(v: &Vec<char>) -> (r: Result<(), String>)
    ensures
        r is Ok <==> spec_valid_date_time(v@),
{
    if v.len() < 20 {
        return fail("less than 20 characters long");
    }
    if !(v[10] == 't' || v[10] == 'T') {
        return fail("11th character must be t or T");
    }
    let date: Vec<char> = slice_chars(v, 0, 10);
    let time: Vec<char> = slice_chars(v, 11, v.len());
    proof {
        assert(date@ =~= v@.take(10));
        assert(time@ =~= v@.skip(11));
    }
    if let Err(e) = check_date_chars(&date) {
        let mut m = concat("invalid date element: ", e.as_str());
        return Err(m);
    }
    if let Err(e) = check_time_chars(&time) {
        let m = concat("invalid time element: ", e.as_str());
        return Err(m);
    }
    Ok(())
}

/// Checks `s` is a date-time (RFC 3339).
pub fn check_date_time(s: &str) -> (r: Result<(), String>)
    ensures
        r is Ok <==> spec_valid_date_time(s@),
{
    check_date_time_chars(&chars_of(s))
}

/// A copy of `v[from..to]`.
pub fn slice_chars(v: &Vec<char>, from: usize, to: usize) -> (r: Vec<char>)
    requires
        from <= to <= v@.len(),
    ensures
        r@ == v@.subrange(from as int, to as int),
{
    let mut r: Vec<char> = Vec::new();
    let mut i = from;
    while i < to
        invariant
            from <= i <= to <= v@.len(),
            r@ == v@.subrange(from as int, i as int),
        decreases to - i,
    {
        r.push(v[i]);
        proof {
            assert(v@.subrange(from as int, i + 1) =~= v@.subrange(from as int, i as int).push(v@[i as int]));
        }
        i += 1;
    }
    r
}

} // verus!

verus! {

// ---------------------------------------------------------------------
// duration (RFC 3339 appendix A)

/// The first index of `c` in `s`, or `-1`.
pub open spec fn first_index(s: Seq<char>, c: char) -> int
    decreases s.len(),
{
    if s.len() == 0 {
        -1
    } else if s[0] == c {
        0
    } else {
        let r = first_index(s.skip(1), c);
        if r < 0 { -1 } else { r + 1 }
    }
}

/// `first_index` finds the first occurrence.
pub proof fn lemma_first_index(s: Seq<char>, c: char)
    ensures
        -1 <= first_index(s, c) < s.len(),
        first_index(s, c) >= 0 ==> s[first_index(s, c)] == c,
        forall|j: int| 0 <= j < s.len() && (j < first_index(s, c) || first_index(s, c) < 0) ==> s[j] != c,
    decreases s.len(),
{
    if s.len() > 0 && s[0] != c {
        lemma_first_index(s.skip(1), c);
        assert forall|j: int| 0 <= j < s.len() && (j < first_index(s, c) || first_index(s, c) < 0) implies s[j] != c by {
            if j > 0 {
                assert(s[j] == s.skip(1)[j - 1]);
            }
        }
    }
}

/// Whether `part` is a sequence of `<digits><unit>` elements whose units
/// appear in `units`, each after the previous one.
pub open spec fn dur_units_ok(part: Seq<char>, units: Seq<char>) -> bool
    decreases part.len(),
{
    if part.len() == 0 {
        true
    } else {
        let d = digit_run(part);
        if d == 0 || d >= part.len() {
            false
        } else {
            let j = first_index(units, part[d as int]);
            if j < 0 {
                false
            } else {
                dur_units_ok(part.skip(d + 1 as int), units.skip(j + 1))
            }
        }
    }
}

/// Whether `s` is a duration such as `P1Y2M3DT4H5M6S` or `P3W`.
pub open spec fn spec_valid_duration(s: Seq<char>) -> bool {
    &&& s.len() >= 2
    &&& s[0] == 'P'
    &&& {
        let r = s.skip(1);
        if r.last() == 'W' {
            r.len() >= 2 && all_digits(r.drop_last())
        } else {
            let t = first_index(r, 'T');
            if t < 0 {
                dur_units_ok(r, seq!['Y', 'M', 'D'])
            } else {
                let p1 = r.skip(t + 1);
                &&& dur_units_ok(r.take(t), seq!['Y', 'M', 'D'])
                &&& p1.len() > 0
                &&& first_index(p1, 'T') < 0
                &&& dur_units_ok(p1, seq!['H', 'M', 'S'])
            }
        }
    }
}

/// The first index of `c` in `v[from..to]` (relative), or `None`.
fn index_in(v: &Vec<char>, from: usize, to: usize, c: char) -> (r: Option<usize>)
    requires
        from <= to <= v@.len(),
    ensures
        r matches Some(j) ==> first_index(v@.subrange(from as int, to as int), c) == j as int
            && from + j < to,
        r is None ==> first_index(v@.subrange(from as int, to as int), c) < 0,
{
    let ghost s = v@.subrange(from as int, to as int);
    proof {
        lemma_first_index(s, c);
    }
    let mut i = from;
    while i < to
        invariant
            from <= i <= to <= v@.len(),
            s == v@.subrange(from as int, to as int),
            forall|j: int| from <= j < i ==> v@[j] != c,
        decreases to - i,
    {
        if v[i] == c {
            proof {
                lemma_first_index(s, c);
                let f = first_index(s, c);
                assert(s[i - from] == c);
                if f < 0 || f > i - from {
                    assert(s[i - from] != c);
                }
                if 0 <= f < i - from {
                    assert(s[f] == v@[from + f]);
                }
            }
            return Some(i - from);
        }
        i += 1;
    }
    proof {
        lemma_first_index(s, c);
        let f = first_index(s, c);
        if f >= 0 {
            assert(s[f] == v@[from + f]);
        }
    }
    None
}

/// Checks `v[from..to]` against `dur_units_ok` with `units[k..]`;
/// `all_units` names the units of this part, for messages.
fn check_dur_units(v: &Vec<char>, from: usize, to: usize, units: &Vec<char>, k: usize) -> (r: Result<(), String>)
    requires
        from <= to <= v@.len(),
        k <= units@.len(),
    ensures
        r is Ok <==> dur_units_ok(v@.subrange(from as int, to as int), units@.skip(k as int)),
    decreases to - from,
{
    let ghost part = v@.subrange(from as int, to as int);
    if from == to {
        return Ok(());
    }
    let d = count_digits_in(v, from, to);
    if d == 0 {
        return fail("missing number");
    }
    if from + d == to {
        return fail("missing unit");
    }
    let unit = v[from + d];
    proof {
        assert(part[d as int] == unit);
        assert(units@.subrange(k as int, units@.len() as int) =~= units@.skip(k as int));
    }
    match index_in(units, k, units.len(), unit) {
        None => {
            let mut e = String::new();
            if contains_char(units, unit) {
                crate::text::push_str(&mut e, "unit ");
                push_char(&mut e, unit);
                crate::text::push_str(&mut e, " out of order");
            } else {
                crate::text::push_str(&mut e, "invalid unit ");
                push_char(&mut e, unit);
            }
            Err(e)
        },
        Some(j) => {
            proof {
                assert(part.skip(d + 1) =~= v@.subrange(from + d + 1, to as int));
                assert(units@.skip(k as int).skip(j + 1) =~= units@.skip(k + j + 1));
            }
            check_dur_units(v, from + d + 1, to, units, k + j + 1)
        },
    }
}

fn check_duration_chars(v: &Vec<char>) -> (r: Result<(), String>)
    ensures
        r is Ok <==> spec_valid_duration(v@),
{
    if v.len() == 0 || v[0] != 'P' {
        return fail("must start with P");
    }
    if v.len() == 1 {
        return fail("nothing after P");
    }
    let ghost r = v@.skip(1);
    let n = v.len();
    if v[n - 1] == 'W' {
        proof {
            assert(r.last() == v@[n - 1]);
        }
        if n == 2 {
            return fail("no number in week");
        }
        let d = count_digits_in(v, 1, n - 1);
        proof {
            let w = r.drop_last();
            assert(w =~= v@.subrange(1, n - 1));
            lemma_digit_run(w);
            if d < w.len() {
                assert(!all_digits(w));
            } else {
                assert(all_digits(w));
            }
        }
        if d != n - 2 {
            return fail("invalid week");
        }
        return Ok(());
    }
    proof {
        assert(r.last() == v@[n - 1]);
        assert(r =~= v@.subrange(1, n as int));
    }
    let ymd: Vec<char> = vec!['Y', 'M', 'D'];
    let hms: Vec<char> = vec!['H', 'M', 'S'];
    proof {
        assert(ymd@.skip(0) =~= seq!['Y', 'M', 'D']);
        assert(hms@.skip(0) =~= seq!['H', 'M', 'S']);
    }
    match index_in(v, 1, n, 'T') {
        None => check_dur_units(v, 1, n, &ymd, 0),
        Some(t) => {
            let t = t + 1;
            proof {
                assert(r.take(t - 1) =~= v@.subrange(1, t as int));
                assert(r.skip(t as int) =~= v@.subrange(t + 1, n as int));
            }
            check_dur_units(v, 1, t, &ymd, 0)?;
            if t + 1 == n {
                return fail("no time elements");
            }
            if let Some(_) = index_in(v, t + 1, n, 'T') {
                return fail("more than one T");
            }
            check_dur_units(v, t + 1, n, &hms, 0)
        },
    }
}

/// Checks `s` is a duration (RFC 3339 appendix A).
pub fn check_duration(s: &str) -> (r: Result<(), String>)
    ensures
        r is Ok <==> spec_valid_duration(s@),
{
    check_duration_chars(&chars_of(s))
}

} // verus!

verus! {

/// std's `Debug` rendering of a char, used in messages (nothing is
/// stated of it).
#[verifier::external_body]
fn debug_char(c: char) -> String {
    format!("{c:?}")
}

// ---------------------------------------------------------------------
// period

/// Whether `s` is `start/end` where either side may be a duration (not
/// both) and the others are date-times.
pub open spec fn spec_valid_period(s: Seq<char>) -> bool {
    let slash = first_index(s, '/');
    if slash < 0 {
        false
    } else {
        let start = s.take(slash);
        let end = s.skip(slash + 1);
        if start.len() > 0 && start[0] == 'P' {
            spec_valid_duration(start) && spec_valid_date_time(end)
        } else {
            spec_valid_date_time(start) && if end.len() > 0 && end[0] == 'P' {
                spec_valid_duration(end)
            } else {
                spec_valid_date_time(end)
            }
        }
    }
}

/// Checks `s` is a period (RFC 3339 appendix A).
pub fn check_period(s: &str) -> (r: Result<(), String>)
    ensures
        r is Ok <==> spec_valid_period(s@),
{
    let v = chars_of(s);
    proof {
        assert(v@.subrange(0, v@.len() as int) =~= v@);
    }
    let slash = match index_in(&v, 0, v.len(), '/') {
        Some(i) => i,
        None => return fail("missing slash"),
    };
    proof {
        assert(v@.subrange(0, v@.len() as int) =~= v@);
    }
    let start = slice_chars(&v, 0, slash);
    let end = slice_chars(&v, slash + 1, v.len());
    proof {
        assert(start@ =~= v@.take(slash as int));
        assert(end@ =~= v@.skip(slash + 1));
    }
    if start.len() > 0 && start[0] == 'P' {
        if let Err(e) = check_duration_chars(&start) {
            return Err(concat("invalid start duration: ", e.as_str()));
        }
        if let Err(e) = check_date_time_chars(&end) {
            return Err(concat("invalid end date-time: ", e.as_str()));
        }
    } else {
        if let Err(e) = check_date_time_chars(&start) {
            return Err(concat("invalid start date-time: ", e.as_str()));
        }
        if end.len() > 0 && end[0] == 'P' {
            if let Err(e) = check_duration_chars(&end) {
                return Err(concat("invalid end duration: ", e.as_str()));
            }
        } else if let Err(e) = check_date_time_chars(&end) {
            return Err(concat("invalid end date-time: ", e.as_str()));
        }
    }
    Ok(())
}

// ---------------------------------------------------------------------
// hostname

/// Characters allowed in a hostname label.
pub open spec fn host_char_ok(c: char) -> bool {
    ('a' <= c <= 'z') || ('A' <= c <= 'Z') || ('0' <= c <= '9') || c == '-'
}

/// A label: 1 to 63 letters, digits or hyphens, not starting or ending
/// with a hyphen.
pub open spec fn valid_label(l: Seq<char>) -> bool {
    &&& 1 <= l.len() <= 63
    &&& l[0] != '-'
    &&& l.last() != '-'
    &&& forall|j: int| 0 <= j < l.len() ==> host_char_ok(l[j])
}

/// Every dot-separated label of `t` is valid.
pub open spec fn labels_ok(t: Seq<char>) -> bool
    decreases t.len(),
{
    let i = first_index(t, '.');
    if i < 0 {
        valid_label(t)
    } else {
        proof {
            lemma_first_index(t, '.');
        }
        valid_label(t.take(i)) && labels_ok(t.skip(i + 1))
    }
}

/// Whether `s` is a hostname: at most 253 characters (ignoring one
/// trailing dot) made of valid labels. Valid hostnames are ASCII, so
/// their length in characters is their length in bytes.
pub open spec fn spec_valid_hostname(s: Seq<char>) -> bool {
    let t = if s.len() > 0 && s.last() == '.' { s.drop_last() } else { s };
    t.len() <= 253 && labels_ok(t)
}

/// Checks the label `v[from..to]`.
fn check_label(v: &Vec<char>, from: usize, to: usize) -> (r: Result<(), String>)
    requires
        from <= to <= v@.len(),
    ensures
        r is Ok <==> valid_label(v@.subrange(from as int, to as int)),
{
    let ghost l = v@.subrange(from as int, to as int);
    let n = to - from;
    if !(1 <= n && n <= 63) {
        return fail("label must be 1 to 63 characters long");
    }
    proof {
        assert(l[0] == v@[from as int]);
        assert(l.last() == v@[to - 1]);
    }
    if v[from] == '-' {
        return fail("label starts with hyphen");
    }
    if v[to - 1] == '-' {
        return fail("label ends with hyphen");
    }
    let mut i = from;
    while i < to
        invariant
            from <= i <= to <= v@.len(),
            l == v@.subrange(from as int, to as int),
            forall|j: int| 0 <= j < i - from ==> host_char_ok(l[j]),
        decreases to - i,
    {
        let c = v[i];
        if !(('a' <= c && c <= 'z') || ('A' <= c && c <= 'Z') || ('0' <= c && c <= '9') || c == '-') {
            proof {
                assert(l[i - from] == c);
            }
            let e = concat("invalid character ", debug_char(c).as_str());
            return Err(e);
        }
        proof {
            assert(l[i - from] == c);
        }
        i += 1;
    }
    Ok(())
}

/// Checks the labels of `v[from..to]`.
fn check_labels(v: &Vec<char>, from: usize, to: usize) -> (r: Result<(), String>)
    requires
        from <= to <= v@.len(),
    ensures
        r is Ok <==> labels_ok(v@.subrange(from as int, to as int)),
    decreases to - from,
{
    let ghost t = v@.subrange(from as int, to as int);
    match index_in(v, from, to, '.') {
        None => check_label(v, from, to),
        Some(i) => {
            proof {
                assert(t.take(i as int) =~= v@.subrange(from as int, from + i));
                assert(t.skip(i + 1) =~= v@.subrange(from + i + 1, to as int));
            }
            check_label(v, from, from + i)?;
            check_labels(v, from + i + 1, to)
        },
    }
}

fn check_hostname_chars(v: &Vec<char>) -> (r: Result<(), String>)
    ensures
        r is Ok <==> spec_valid_hostname(v@),
{
    let mut n = v.len();
    if n > 0 && v[n - 1] == '.' {
        n = n - 1;
    }
    proof {
        if v@.len() > 0 && v@.last() == '.' {
            assert(v@.drop_last() =~= v@.subrange(0, n as int));
        } else {
            assert(v@ =~= v@.subrange(0, n as int));
        }
    }
    if n > 253 {
        return fail("more than 253 characters long");
    }
    check_labels(v, 0, n)
}

/// Checks `s` is a hostname.
pub fn check_hostname(s: &str) -> (r: Result<(), String>)
    ensures
        r is Ok <==> spec_valid_hostname(s@),
{
    check_hostname_chars(&chars_of(s))
}

// ---------------------------------------------------------------------
// json-pointer (RFC 6901)

/// Whether `s` is a json-pointer: empty, or starting with `/` with every
/// `~` followed by `0` or `1`.
pub open spec fn spec_valid_json_pointer(s: Seq<char>) -> bool {
    s.len() == 0 || (s[0] == '/' && forall|i: int|
        0 <= i < s.len() && #[trigger] s[i] == '~' ==> i + 1 < s.len() && (s[i + 1] == '0' || s[i + 1] == '1'))
}

fn check_json_pointer_from(v: &Vec<char>, from: usize) -> (r: Result<(), String>)
    requires
        from <= v@.len(),
    ensures
        r is Ok <==> spec_valid_json_pointer(v@.skip(from as int)),
{
    let ghost s = v@.skip(from as int);
    if from == v.len() {
        return Ok(());
    }
    proof {
        assert(s[0] == v@[from as int]);
    }
    if v[from] != '/' {
        return fail("not starting with slash");
    }
    let mut i = from;
    while i < v.len()
        invariant
            from <= i <= v@.len(),
            s == v@.skip(from as int),
            forall|k: int| 0 <= k < i - from && #[trigger] s[k] == '~' ==> k + 1 < s.len() && (s[k + 1] == '0' || s[k + 1] == '1'),
        decreases v.len() - i,
    {
        proof {
            assert(s[i - from] == v@[i as int]);
        }
        if v[i] == '~' {
            if !(i + 1 < v.len() && (v[i + 1] == '0' || v[i + 1] == '1')) {
                return fail("~ must be followed by 0 or 1");
            }
            proof {
                assert(s[i - from + 1] == v@[i + 1]);
            }
        }
        i += 1;
    }
    Ok(())
}

/// Checks `s` is a json-pointer.
pub fn check_json_pointer(s: &str) -> (r: Result<(), String>)
    ensures
        r is Ok <==> spec_valid_json_pointer(s@),
{
    let v = chars_of(s);
    proof {
        assert(v@.skip(0) =~= v@);
    }
    check_json_pointer_from(&v, 0)
}

/// Whether `s` is a relative json-pointer: a non-negative integer without
/// leading zero, then `#` or a json-pointer.
pub open spec fn spec_valid_relative_json_pointer(s: Seq<char>) -> bool {
    let n = digit_run(s);
    &&& n >= 1
    &&& !(n > 1 && s[0] == '0')
    &&& (s.skip(n as int) == seq!['#'] || spec_valid_json_pointer(s.skip(n as int)))
}

/// Checks `s` is a relative json-pointer.
pub fn check_relative_json_pointer(s: &str) -> (r: Result<(), String>)
    ensures
        r is Ok <==> spec_valid_relative_json_pointer(s@),
{
    let v = chars_of(s);
    let n = count_digits(&v, 0);
    proof {
        assert(v@.skip(0) =~= v@);
        lemma_digit_run(v@);
    }
    if n == 0 {
        return fail("must start with non-negative integer");
    }
    if n > 1 && v[0] == '0' {
        return fail("starts with zero");
    }
    if v.len() - n == 1 && v[n] == '#' {
        proof {
            assert(v@.skip(n as int) =~= seq!['#']);
        }
        return Ok(());
    }
    proof {
        if v@.skip(n as int) == seq!['#'] {
            assert(v@.skip(n as int).len() == 1);
            assert(v@.skip(n as int)[0] == v@[n as int]);
        }
    }
    if let Err(e) = check_json_pointer_from(&v, n) {
        return Err(concat("invalid json-pointer element: ", e.as_str()));
    }
    Ok(())
}

// ---------------------------------------------------------------------
// uuid (RFC 4122)

/// Whether `c` is an ASCII hex digit.
pub open spec fn is_hex(c: char) -> bool {
    ('0' <= c <= '9') || ('a' <= c <= 'f') || ('A' <= c <= 'F')
}

/// Whether position `i` of a uuid holds a hyphen.
pub open spec fn uuid_dash(i: int) -> bool {
    i == 8 || i == 13 || i == 18 || i == 23
}

/// Whether `s` is a uuid: hex groups of 8, 4, 4, 4 and 12 joined by hyphens.
pub open spec fn spec_valid_uuid(s: Seq<char>) -> bool {
    s.len() == 36 && forall|i: int| 0 <= i < 36 ==> if uuid_dash(i) { s[i] == '-' } else { is_hex(s[i]) }
}

/// The inputs on which the uuid check indexes past its table of group
/// lengths: five well-formed groups followed by a sixth.
pub open spec fn uuid_overruns(s: Seq<char>) -> bool {
    s.len() > 36 && s[36] == '-' && spec_valid_uuid(s.take(36))
}

/// Whether `s` is a valid uuid followed by a sixth group (see
/// `uuid_overruns`).
fn uuid_overruns_exec(s: &str) -> (r: bool)
    ensures
        r == uuid_overruns(s@),
{
    let v = chars_of(s);
    if v.len() > 36 && v[36] == '-' {
        let head = string_from_range(&v, 0, 36);
        proof {
            assert(head@ =~= s@.take(36));
            assert(!uuid_overruns(head@));
        }
        check_uuid(head.as_str()).is_ok()
    } else {
        false
    }
}

/// The length of the `g`-th group of a uuid.
fn group_len(g: usize) -> (r: usize)
    requires
        g < 5,
    ensures
        r == if g == 0 { 8usize } else if g == 4 { 12usize } else { 4usize },
{
    if g == 0 { 8 } else if g == 4 { 12 } else { 4 }
}

/// Checks `s` is a uuid.
pub fn check_uuid(s: &str) -> (r: Result<(), String>)
    requires
        !uuid_overruns(s@),
    ensures
        r is Ok <==> spec_valid_uuid(s@),
{
    let v = chars_of(s);
    let mut pos: usize = 0;
    let mut g: usize = 0;
    loop
        invariant
            v@ == s@,
            !uuid_overruns(v@),
            g < 5,
            pos == if g == 0 { 0usize } else if g == 1 { 9usize } else if g == 2 { 14usize } else if g == 3 { 19usize } else { 24usize },
            pos <= v@.len(),
            forall|i: int| 0 <= i < pos ==> if uuid_dash(i) { v@[i] == '-' } else { is_hex(v@[i]) },
        decreases 5 - g,
    {
        let end = match find_char_from(&v, pos, '-') {
            Some(e) => e,
            None => v.len(),
        };
        let want = group_len(g);
        if end - pos != want {
            proof {
                if spec_valid_uuid(v@) {
                    let e2: int = pos + want;
                    assert(v@[e2] == '-' || e2 == 36);
                    assert(!uuid_dash(pos as int + (end - pos) as int) || end - pos > want);
                    if end - pos < want {
                        assert(v@[end as int] == '-');
                        assert(!uuid_dash(end as int));
                    } else {
                        if e2 < 36 {
                            assert(v@[e2] != '-');
                        }
                    }
                }
            }
            let mut e = concat("element ", "");
            push_decimal(&mut e, g + 1);
            crate::text::push_str(&mut e, " must be ");
            push_decimal(&mut e, want);
            crate::text::push_str(&mut e, " characters long");
            return Err(e);
        }
        let mut i = pos;
        while i < end
            invariant
                pos <= i <= end <= v@.len(),
                end == pos + want,
                v@ == s@,
                forall|k: int| pos <= k < end ==> v@[k] != '-',
                forall|k: int| pos <= k < i ==> is_hex(v@[k]),
            decreases end - i,
        {
            let c = v[i];
            if !(('0' <= c && c <= '9') || ('a' <= c && c <= 'f') || ('A' <= c && c <= 'F')) {
                proof {
                    if spec_valid_uuid(v@) {
                        assert(!uuid_dash(i as int) ==> is_hex(v@[i as int]));
                    }
                }
                return Err(concat("non-hex character ", debug_char(c).as_str()));
            }
            i += 1;
        }
        proof {
            assert forall|k: int| 0 <= k < end implies (if uuid_dash(k) { v@[k] == '-' } else { is_hex(v@[k]) }) by {
                if k >= pos {
                    assert(!uuid_dash(k));
                }
            }
        }
        if end == v.len() {
            if g != 4 {
                return fail("must have 5 elements");
            }
            proof {
                assert(spec_valid_uuid(v@));
            }
            return Ok(());
        }
        if g == 4 {
            proof {
                assert(v@.take(36) =~= v@.take(36));
                assert forall|k: int| 0 <= k < 36 implies (if uuid_dash(k) { v@.take(36)[k] == '-' } else { is_hex(v@.take(36)[k]) }) by {}
                assert(uuid_overruns(v@));
            }
            return fail("more than 5 elements");
        }
        pos = end + 1;
        g = g + 1;
    }
}

} // verus!

verus! {

// ---------------------------------------------------------------------
// email

/// The outcome of checking an email address: valid, invalid, or valid
/// provided its bracketed domain literal is an IP address.
pub enum EmailCheck {
    Valid,
    Invalid(String),
    /// The domain is `[addr]` (`v6` when written `[IPv6:addr]`); the
    /// address is valid exactly when `addr` parses as such an IP address.
    IpLiteral { v6: bool, addr: String },
}

/// The outcome of checking an email address, in specifications.
pub enum EmailOutcome {
    Valid,
    Invalid,
    IpLiteral(bool, Seq<char>),
}

/// The number of bytes UTF-8 uses for `c`.
pub open spec fn utf8_width(c: char) -> nat {
    let u = c as u32;
    if u < 0x80 { 1 } else if u < 0x800 { 2 } else if u < 0x10000 { 3 } else { 4 }
}

/// The length in UTF-8 bytes of `s`.
pub open spec fn utf8_len(s: Seq<char>) -> nat
    decreases s.len(),
{
    if s.len() == 0 {
        0
    } else {
        utf8_len(s.drop_last()) + utf8_width(s.last())
    }
}

/// Whether the UTF-8 form of `s` is longer than `cap` bytes.
fn utf8_len_over(s: &str, cap: u64) -> (r: bool)
    requires
        cap < 0x1_0000_0000,
    ensures
        r == (utf8_len(s@) > cap),
{
    let v = chars_of(s);
    let mut total: u64 = 0;
    let mut i: usize = 0;
    while i < v.len()
        invariant
            i <= v@.len(),
            v@ == s@,
            cap < 0x1_0000_0000,
            total as nat == utf8_len(v@.take(i as int)),
            total <= cap,
        decreases v.len() - i,
    {
        let c = v[i];
        let u = c as u32;
        let w: u64 = if u < 0x80 { 1 } else if u < 0x800 { 2 } else if u < 0x10000 { 3 } else { 4 };
        proof {
            assert(v@.take(i + 1).drop_last() =~= v@.take(i as int));
            assert(v@.take(i + 1).last() == c);
        }
        total = total + w;
        if total > cap {
            proof {
                lemma_utf8_len_prefix(v@, i + 1);
            }
            return true;
        }
        i += 1;
    }
    proof {
        assert(v@.take(i as int) =~= v@);
    }
    false
}

/// The UTF-8 length of a prefix is at most that of the whole.
proof fn lemma_utf8_len_prefix(s: Seq<char>, k: int)
    requires
        0 <= k <= s.len(),
    ensures
        utf8_len(s.take(k)) <= utf8_len(s),
    decreases s.len() - k,
{
    if k < s.len() {
        lemma_utf8_len_prefix(s, k + 1);
        assert(s.take(k + 1).drop_last() =~= s.take(k));
    } else {
        assert(s.take(k) =~= s);
    }
}

/// The last index of `c` in `s`, or `-1`.
pub open spec fn last_index(s: Seq<char>, c: char) -> int {
    if has_char(s, c) {
        choose|i: int| 0 <= i < s.len() && s[i] == c && forall|j: int| i < j < s.len() ==> s[j] != c
    } else {
        -1
    }
}

/// Characters allowed in an unquoted local part.
pub open spec fn local_char_ok(c: char) -> bool {
    ('a' <= c <= 'z') || ('A' <= c <= 'Z') || ('0' <= c <= '9') || c == '.' || c == '!' || c == '#'
        || c == '$' || c == '%' || c == '&' || c == '\'' || c == '*' || c == '+' || c == '-' || c == '/'
        || c == '=' || c == '?' || c == '^' || c == '_' || c == '`' || c == '{' || c == '|' || c == '}'
        || c == '~'
}

/// Whether local part `l` is valid.
pub open spec fn spec_valid_local(l: Seq<char>) -> bool {
    if l.len() >= 2 && l[0] == '"' && l.last() == '"' {
        let inner = l.subrange(1, l.len() - 1);
        !has_char(inner, '\\') && !has_char(inner, '"')
    } else {
        &&& !(l.len() > 0 && l[0] == '.')
        &&& !(l.len() > 0 && l.last() == '.')
        &&& !(exists|i: int| 0 <= i < l.len() - 1 && #[trigger] l[i] == '.' && l[i + 1] == '.')
        &&& forall|i: int| 0 <= i < l.len() ==> local_char_ok(l[i])
    }
}

/// The inputs on which the email check slices a quoted local part of a
/// single `"` out of bounds.
pub open spec fn email_overruns(s: Seq<char>) -> bool {
    let at = last_index(s, '@');
    at >= 0 && s.take(at) == seq!['"']
}

/// The outcome of checking `s` as an email address: at most 254 bytes,
/// a local part (before the last `@`) of at most 64 bytes, quoted or made
/// of allowed characters with no leading, trailing or doubled dot, and a
/// domain that is a hostname or a bracketed IP literal.
pub open spec fn spec_email(s: Seq<char>) -> EmailOutcome {
    let at = last_index(s, '@');
    if utf8_len(s) > 254 || at < 0 {
        EmailOutcome::Invalid
    } else {
        let local = s.take(at);
        let domain = s.skip(at + 1);
        if utf8_len(local) > 64 || !spec_valid_local(local) {
            EmailOutcome::Invalid
        } else if domain.len() >= 2 && domain[0] == '[' && domain.last() == ']' {
            let inner = domain.subrange(1, domain.len() - 1);
            if inner.len() >= 5 && inner.take(5) == seq!['I', 'P', 'v', '6', ':'] {
                EmailOutcome::IpLiteral(true, inner.skip(5))
            } else {
                EmailOutcome::IpLiteral(false, inner)
            }
        } else if spec_valid_hostname(domain) {
            EmailOutcome::Valid
        } else {
            EmailOutcome::Invalid
        }
    }
}

/// Whether `r` reports `o`.
pub open spec fn email_reports(r: EmailCheck, o: EmailOutcome) -> bool {
    match (r, o) {
        (EmailCheck::Valid, EmailOutcome::Valid) => true,
        (EmailCheck::Invalid(_), EmailOutcome::Invalid) => true,
        (EmailCheck::IpLiteral { v6, addr }, EmailOutcome::IpLiteral(w, a)) => v6 == w && addr@ == a,
        _ => false,
    }
}

/// The length in bytes of `v[from..to]` when at most `cap`, else `cap + 1`.
fn utf8_len_capped(v: &Vec<char>, from: usize, to: usize, cap: usize) -> (r: usize)
    requires
        from <= to <= v@.len(),
        cap < 1000,
    ensures
        r as int == if utf8_len(v@.subrange(from as int, to as int)) > cap {
            cap + 1
        } else {
            utf8_len(v@.subrange(from as int, to as int)) as int
        },
{
    let mut total: usize = 0;
    let mut i = from;
    while i < to
        invariant
            from <= i <= to <= v@.len(),
            cap < 1000,
            total == utf8_len(v@.subrange(from as int, i as int)),
            total <= cap,
        decreases to - i,
    {
        let u = v[i] as u32;
        let w: usize = if u < 0x80 { 1 } else if u < 0x800 { 2 } else if u < 0x10000 { 3 } else { 4 };
        proof {
            assert(v@.subrange(from as int, i + 1).drop_last() =~= v@.subrange(from as int, i as int));
        }
        total = total + w;
        i += 1;
        if total > cap {
            proof {
                lemma_utf8_len_mono(v@.subrange(from as int, to as int), (i - from) as int);
                assert(v@.subrange(from as int, to as int).take(i - from) =~= v@.subrange(from as int, i as int));
            }
            return cap + 1;
        }
    }
    total
}

/// A prefix is no longer in bytes than the whole.
proof fn lemma_utf8_len_mono(s: Seq<char>, k: int)
    requires
        0 <= k <= s.len(),
    ensures
        utf8_len(s.take(k)) <= utf8_len(s),
    decreases s.len() - k,
{
    if k < s.len() {
        lemma_utf8_len_mono(s, k + 1);
        assert(s.take(k + 1).drop_last() =~= s.take(k));
    } else {
        assert(s.take(k) =~= s);
    }
}

/// Checks `v[from..to]` as an unquoted local part.
fn check_unquoted_local(v: &Vec<char>, to: usize) -> (r: Result<(), String>)
    requires
        to <= v@.len(),
    ensures
        r is Ok <==> ({
            let l = v@.take(to as int);
            &&& !(l.len() > 0 && l[0] == '.')
            &&& !(l.len() > 0 && l.last() == '.')
            &&& !(exists|i: int| 0 <= i < l.len() - 1 && #[trigger] l[i] == '.' && l[i + 1] == '.')
            &&& forall|i: int| 0 <= i < l.len() ==> local_char_ok(l[i])
        }),
{
    let ghost l = v@.take(to as int);
    if to > 0 && v[0] == '.' {
        return fail("starts with dot");
    }
    if to > 0 && v[to - 1] == '.' {
        proof {
            assert(l.last() == v@[to - 1]);
        }
        return fail("ends with dot");
    }
    proof {
        if l.len() > 0 {
            assert(l.last() == v@[to - 1]);
            assert(l[0] == v@[0]);
        }
    }
    let mut i: usize = 0;
    while to > 0 && i < to - 1
        invariant
            i <= to <= v@.len(),
            l == v@.take(to as int),
            forall|k: int| 0 <= k < i && k + 1 < to ==> !(#[trigger] l[k] == '.' && l[k + 1] == '.'),
        decreases to - i,
    {
        if v[i] == '.' && v[i + 1] == '.' {
            proof {
                assert(l[i as int] == '.' && l[i + 1] == '.');
            }
            return fail("consecutive dots");
        }
        i += 1;
    }
    let mut i: usize = 0;
    while i < to
        invariant
            i <= to <= v@.len(),
            l == v@.take(to as int),
            forall|k: int| 0 <= k < l.len() - 1 ==> !(#[trigger] l[k] == '.' && l[k + 1] == '.'),
            forall|k: int| 0 <= k < i ==> local_char_ok(l[k]),
        decreases to - i,
    {
        let c = v[i];
        let ok = ('a' <= c && c <= 'z') || ('A' <= c && c <= 'Z') || ('0' <= c && c <= '9') || c == '.'
            || c == '!' || c == '#' || c == '$' || c == '%' || c == '&' || c == '\'' || c == '*' || c == '+'
            || c == '-' || c == '/' || c == '=' || c == '?' || c == '^' || c == '_' || c == '`' || c == '{'
            || c == '|' || c == '}' || c == '~';
        if !ok {
            proof {
                assert(l[i as int] == c);
            }
            return Err(concat("invalid character ", debug_char(c).as_str()));
        }
        i += 1;
    }
    Ok(())
}

/// Checks `s` as an email address; a bracketed IP-literal domain is
/// handed back for the caller to parse.
pub fn check_email(s: &str) -> (r: EmailCheck)
    requires
        !email_overruns(s@),
    ensures
        email_reports(r, spec_email(s@)),
{
    let v = chars_of(s);
    let at = match rfind_char(&v, '@') {
        Some(at) => at,
        None => {
            proof {
                if has_char(s@, '@') {
                    let j = choose|j: int| 0 <= j < s@.len() && s@[j] == '@';
                    assert(v@[j] == '@');
                }
            }
            if utf8_len_capped(&v, 0, v.len(), 254) > 254 {
                return EmailCheck::Invalid(concat("more than 254 characters long", ""));
            }
            return EmailCheck::Invalid(concat("missing @", ""));
        },
    };
    proof {
        let k = last_index(s@, '@');
        assert(has_char(s@, '@'));
        if k != at as int {
            if k < at {
                assert(v@[at as int] == '@');
            } else {
                assert(v@[k] == '@');
            }
        }
    }
    proof {
        assert(v@.subrange(0, v@.len() as int) =~= v@);
    }
    if utf8_len_capped(&v, 0, v.len(), 254) > 254 {
        return EmailCheck::Invalid(concat("more than 254 characters long", ""));
    }
    let ghost local = v@.take(at as int);
    let ghost domain = v@.skip(at + 1);
    let local_len = utf8_len_capped(&v, 0, at, 64);
    proof {
        assert(v@.subrange(0, at as int) =~= local);
    }
    if local_len > 64 {
        return EmailCheck::Invalid(concat("local part more than 64 characters long", ""));
    }
    if at >= 1 && v[0] == '"' && v[at - 1] == '"' {
        proof {
            assert(local[0] == v@[0]);
            assert(local.last() == v@[at - 1]);
            if at == 1 {
                assert(local =~= seq!['"']);
            }
        }
        let inner = slice_chars(&v, 1, at - 1);
        proof {
            assert(inner@ =~= local.subrange(1, local.len() - 1));
        }
        if contains_char(&inner, '\\') || contains_char(&inner, '"') {
            return EmailCheck::Invalid(concat("backslash and quote not allowed within quoted local part", ""));
        }
    } else {
        proof {
            if local.len() >= 2 && local[0] == '"' && local.last() == '"' {
                assert(local[0] == v@[0]);
                assert(local.last() == v@[at - 1]);
            }
        }
        if let Err(e) = check_unquoted_local(&v, at) {
            return EmailCheck::Invalid(e);
        }
    }
    let n = v.len();
    let dom = slice_chars(&v, at + 1, n);
    proof {
        assert(dom@ =~= domain);
    }
    let dn = dom.len();
    if dn >= 2 && dom[0] == '[' && dom[dn - 1] == ']' {
        let inner = slice_chars(&dom, 1, dn - 1);
        let p: Vec<char> = vec!['I', 'P', 'v', '6', ':'];
        if has_prefix_at(&inner, 0, &p) {
            proof {
                assert(inner@.skip(0) =~= inner@);
                assert(p@ =~= seq!['I', 'P', 'v', '6', ':']);
            }
            let addr = string_from_range(&inner, 5, inner.len());
            proof {
                assert(addr@ =~= inner@.skip(5));
            }
            return EmailCheck::IpLiteral { v6: true, addr };
        }
        proof {
            assert(inner@.skip(0) =~= inner@);
            assert(p@ =~= seq!['I', 'P', 'v', '6', ':']);
        }
        let addr = string_from(&inner);
        return EmailCheck::IpLiteral { v6: false, addr };
    }
    proof {
        if domain.len() >= 2 && domain[0] == '[' && domain.last() == ']' {
            assert(dom@[0] == domain[0]);
        }
    }
    if let Err(e) = check_hostname_chars(&dom) {
        return EmailCheck::Invalid(concat("invalid domain: ", e.as_str()));
    }
    EmailCheck::Valid
}

} // verus!

verus! {

// ---------------------------------------------------------------------
// uri, iri and their references

/// Whether `s` is an absolute uri, as fluent-uri reads it.
pub open spec fn spec_valid_uri(s: Seq<char>) -> bool {
    spec_uri_parse(s) == Some(false)
}

/// Checks `s` is an absolute uri.
pub fn check_uri(s: &str) -> (r: Result<(), String>)
    requires
        uri_len_ok(s@),
    ensures
        r is Ok <==> spec_valid_uri(s@),
{
    match uri_parse(s) {
        Ok(true) => fail("relative url"),
        Ok(false) => Ok(()),
        Err(e) => Err(e),
    }
}

/// Checks `s` is a uri-reference, as fluent-uri reads it.
pub fn check_uri_reference(s: &str) -> (r: Result<(), String>)
    requires
        uri_len_ok(s@),
    ensures
        r is Ok <==> spec_uri_parse(s@) is Some,
{
    match uri_parse(s) {
        Ok(_) => Ok(()),
        Err(e) => Err(e),
    }
}

/// Checks `s` is an absolute iri, as url reads it.
pub fn check_iri(s: &str) -> (r: Result<(), String>)
    ensures
        r is Ok <==> spec_url_parse(s@) is Ok,
{
    match url_parse(s) {
        Ok(_) => Ok(()),
        Err(UrlError::RelativeWithoutBase) => fail("relative url"),
        Err(UrlError::Other(e)) => Err(e),
    }
}

/// The base against which references are resolved for checking.
pub open spec fn temp_base() -> Seq<char> {
    seq!['h', 't', 't', 'p', ':', '/', '/', 't', 'e', 'm', 'p', '.', 'c', 'o', 'm']
}

/// A reference resolved against `temp_base`, unless it holds a backslash.
pub open spec fn spec_parse_uri_reference(s: Seq<char>) -> Option<Seq<char>> {
    if has_char(s, '\\') {
        None
    } else {
        spec_url_join(temp_base(), s)
    }
}

fn temp_base_exec() -> (r: String)
    ensures
        r@ == temp_base(),
{
    let v: Vec<char> = vec!['h', 't', 't', 'p', ':', '/', '/', 't', 'e', 'm', 'p', '.', 'c', 'o', 'm'];
    let r = string_from(&v);
    proof {
        assert(v@ =~= temp_base());
    }
    r
}

fn parse_uri_reference(s: &str) -> (r: Result<String, String>)
    ensures
        r matches Ok(u) ==> spec_parse_uri_reference(s@) == Some(u@),
        r is Err ==> spec_parse_uri_reference(s@) is None,
{
    let v = chars_of(s);
    if contains_char(&v, '\\') {
        return fail("contains \\\\");
    }
    let base = temp_base_exec();
    url_join(base.as_str(), s)
}

/// Checks `s` is an iri-reference: it resolves against a base url.
pub fn check_iri_reference(s: &str) -> (r: Result<(), String>)
    ensures
        r is Ok <==> spec_parse_uri_reference(s@) is Some,
{
    parse_uri_reference(s)?;
    Ok(())
}

/// Whether the curly brackets of `part` alternate `{`, `}` starting
/// with `{` (`open` says whether one is open) and end closed.
pub open spec fn braces_ok(part: Seq<char>, open: bool) -> bool
    decreases part.len(),
{
    if part.len() == 0 {
        !open
    } else if part[0] == '{' {
        !open && braces_ok(part.skip(1), true)
    } else if part[0] == '}' {
        open && braces_ok(part.skip(1), false)
    } else {
        braces_ok(part.skip(1), open)
    }
}

/// Whether every `/`-separated segment of `p` has balanced, unnested braces.
pub open spec fn segments_braces_ok(p: Seq<char>) -> bool
    decreases p.len(),
{
    let i = first_index(p, '/');
    if i < 0 {
        braces_ok(p, false)
    } else {
        proof {
            lemma_first_index(p, '/');
        }
        braces_ok(p.take(i), false) && segments_braces_ok(p.skip(i + 1))
    }
}

/// Whether `s` is a uri-template: it resolves as a reference, and the
/// percent-decoded path of the result has balanced, unnested braces in
/// each segment.
pub open spec fn spec_valid_uri_template(s: Seq<char>) -> bool {
    match spec_parse_uri_reference(s) {
        Some(u) => match spec_url_path(u) {
            Some(p) => {
                let b = pct_decode(vstd::utf8::encode_utf8(p));
                vstd::utf8::valid_utf8(b) && segments_braces_ok(vstd::utf8::decode_utf8(b))
            },
            None => false,
        },
        None => false,
    }
}

fn check_braces(v: &Vec<char>, from: usize, to: usize) -> (r: Result<(), String>)
    requires
        from <= to <= v@.len(),
    ensures
        r is Ok <==> braces_ok(v@.subrange(from as int, to as int), false),
{
    let mut want = true;
    let mut i = from;
    while i < to
        invariant
            from <= i <= to <= v@.len(),
            braces_ok(v@.subrange(from as int, to as int), false) == braces_ok(v@.subrange(i as int, to as int), !want),
        decreases to - i,
    {
        let ghost rest = v@.subrange(i as int, to as int);
        proof {
            assert(rest[0] == v@[i as int]);
            assert(rest.skip(1) =~= v@.subrange(i + 1, to as int));
        }
        let c = v[i];
        if c == '{' || c == '}' {
            let got = c == '{';
            if got != want {
                return fail("nested curly brackets");
            }
            want = !want;
        }
        i += 1;
    }
    proof {
        assert(v@.subrange(to as int, to as int) =~= Seq::<char>::empty());
    }
    if !want {
        return fail("no matching closing bracket");
    }
    Ok(())
}

fn check_segments(v: &Vec<char>, from: usize) -> (r: Result<(), String>)
    requires
        from <= v@.len(),
    ensures
        r is Ok <==> segments_braces_ok(v@.subrange(from as int, v@.len() as int)),
    decreases v@.len() - from,
{
    let ghost p = v@.subrange(from as int, v@.len() as int);
    match index_in(v, from, v.len(), '/') {
        None => check_braces(v, from, v.len()),
        Some(i) => {
            proof {
                assert(p.take(i as int) =~= v@.subrange(from as int, from + i));
                assert(p.skip(i + 1) =~= v@.subrange(from + i + 1, v@.len() as int));
            }
            check_braces(v, from, from + i)?;
            check_segments(v, from + i + 1)
        },
    }
}

/// Checks `s` is a uri-template.
pub fn check_uri_template(s: &str) -> (r: Result<(), String>)
    ensures
        r is Ok <==> spec_valid_uri_template(s@),
{
    let url = parse_uri_reference(s)?;
    let path = match url_path(url.as_str()) {
        Some(p) => p,
        None => return fail("invalid url"),
    };
    let path = percent_decode_utf8(path.as_str())?;
    let v = chars_of(path.as_str());
    proof {
        assert(v@.subrange(0, v@.len() as int) =~= v@);
    }
    check_segments(&v, 0)
}

} // verus!

verus! {

// ---------------------------------------------------------------------
// idn-hostname (RFC 5890-5892)

/// Characters RFC 5892 section 2.6 disallows.
pub open spec fn is_disallowed_idn(c: char) -> bool {
    let u = c as u32;
    u == 0x0640 || u == 0x07FA || u == 0x302E || u == 0x302F || u == 0x3031 || u == 0x3032
        || u == 0x3033 || u == 0x3034 || u == 0x3035 || u == 0x303B
}

/// Virama characters (combining class 9).
pub open spec fn is_virama(c: char) -> bool {
    let u = c as u32;
    u == 0x094D || u == 0x09CD || u == 0x0A4D || u == 0x0ACD || u == 0x0B4D || u == 0x0BCD
        || u == 0x0C4D || u == 0x0CCD || u == 0x0D3B || u == 0x0D3C || u == 0x0D4D || u == 0x0DCA
        || u == 0x0E3A || u == 0x0EBA || u == 0x0F84 || u == 0x1039 || u == 0x103A || u == 0x1714
        || u == 0x1734 || u == 0x17D2 || u == 0x1A60 || u == 0x1B44 || u == 0x1BAA || u == 0x1BAB
        || u == 0x1BF2 || u == 0x1BF3 || u == 0x2D7F || u == 0xA806 || u == 0xA82C || u == 0xA8C4
        || u == 0xA953 || u == 0xA9C0 || u == 0xAAF6 || u == 0xABED || u == 0x10A3F || u == 0x11046
        || u == 0x1107F || u == 0x110B9 || u == 0x11133 || u == 0x11134 || u == 0x111C0 || u == 0x11235
        || u == 0x112EA || u == 0x1134D || u == 0x11442 || u == 0x114C2 || u == 0x115BF || u == 0x1163F
        || u == 0x116B6 || u == 0x1172B || u == 0x11839 || u == 0x1193D || u == 0x1193E || u == 0x119E0
        || u == 0x11A34 || u == 0x11A47 || u == 0x11A99 || u == 0x11C3F || u == 0x11D44 || u == 0x11D45
        || u == 0x11D97
}

/// Whether `lo <= c <= hi`.
pub open spec fn in_range(c: char, lo: u32, hi: u32) -> bool {
    lo <= (c as u32) <= hi
}

/// The contextual rules of RFC 5891/5892 on the unicode form `u` of a name.
pub open spec fn idn_rules_ok(u: Seq<char>) -> bool {
    &&& forall|i: int| 0 <= i < u.len() ==> !is_disallowed_idn(#[trigger] u[i])
    // no "--" in the 3rd and 4th positions
    &&& !(u.len() >= 4 && u[2] == '-' && u[3] == '-')
    // MIDDLE DOT between 'l's
    &&& forall|i: int| 0 <= i < u.len() && (#[trigger] u[i]) as u32 == 0x00B7 ==>
        i >= 1 && u[i - 1] == 'l' && i + 1 < u.len() && u[i + 1] == 'l'
    // Greek KERAIA followed by a Greek character
    &&& forall|i: int| 0 <= i < u.len() && (#[trigger] u[i]) as u32 == 0x0375 ==>
        i + 1 < u.len() && in_range(u[i + 1], 0x0370, 0x03FF)
    // Hebrew GERESH and GERSHAYIM preceded by a Hebrew character (other than itself)
    &&& forall|i: int| 0 <= i < u.len() && ((#[trigger] u[i]) as u32 == 0x05F3 || u[i] as u32 == 0x05F4) ==>
        i >= 1 && u[i - 1] != u[i] && in_range(u[i - 1], 0x0590, 0x05FF)
    // KATAKANA MIDDLE DOT with Hiragana, Katakana or Han
    &&& (exists|i: int| 0 <= i < u.len() && (#[trigger] u[i]) as u32 == 0x30FB) ==>
        exists|j: int| 0 <= j < u.len() && (in_range(#[trigger] u[j], 0x3040, 0x309F)
            || ((u[j] as u32) != 0x30FB && in_range(u[j], 0x30A0, 0x30FF))
            || in_range(u[j], 0x4E00, 0x9FFF))
    // Arabic-Indic and Extended Arabic-Indic digits not mixed
    &&& !((exists|i: int| 0 <= i < u.len() && in_range(#[trigger] u[i], 0x0660, 0x0669))
        && (exists|j: int| 0 <= j < u.len() && in_range(#[trigger] u[j], 0x06F0, 0x06F9)))
    // ZERO WIDTH JOINER preceded by a Virama
    &&& forall|i: int| 0 <= i < u.len() && (#[trigger] u[i]) as u32 == 0x200D ==>
        i >= 1 && is_virama(u[i - 1])
}

/// Whether `s` is an internationalized hostname: it converts to ASCII
/// (strictly), its unicode form obeys the contextual rules, and the ASCII
/// form is a hostname.
pub open spec fn spec_valid_idn_hostname(s: Seq<char>) -> bool {
    match spec_idna_to_ascii_strict(s) {
        Some(a) => idn_rules_ok(spec_idna_to_unicode(a)) && spec_valid_hostname(a),
        None => false,
    }
}

fn is_disallowed_idn_exec(c: char) -> (r: bool)
    ensures
        r == is_disallowed_idn(c),
{
    let u = c as u32;
    u == 0x0640 || u == 0x07FA || u == 0x302E || u == 0x302F || u == 0x3031 || u == 0x3032
        || u == 0x3033 || u == 0x3034 || u == 0x3035 || u == 0x303B
}

fn is_virama_exec(c: char) -> (r: bool)
    ensures
        r == is_virama(c),
{
    let u = c as u32;
    u == 0x094D || u == 0x09CD || u == 0x0A4D || u == 0x0ACD || u == 0x0B4D || u == 0x0BCD
        || u == 0x0C4D || u == 0x0CCD || u == 0x0D3B || u == 0x0D3C || u == 0x0D4D || u == 0x0DCA
        || u == 0x0E3A || u == 0x0EBA || u == 0x0F84 || u == 0x1039 || u == 0x103A || u == 0x1714
        || u == 0x1734 || u == 0x17D2 || u == 0x1A60 || u == 0x1B44 || u == 0x1BAA || u == 0x1BAB
        || u == 0x1BF2 || u == 0x1BF3 || u == 0x2D7F || u == 0xA806 || u == 0xA82C || u == 0xA8C4
        || u == 0xA953 || u == 0xA9C0 || u == 0xAAF6 || u == 0xABED || u == 0x10A3F || u == 0x11046
        || u == 0x1107F || u == 0x110B9 || u == 0x11133 || u == 0x11134 || u == 0x111C0 || u == 0x11235
        || u == 0x112EA || u == 0x1134D || u == 0x11442 || u == 0x114C2 || u == 0x115BF || u == 0x1163F
        || u == 0x116B6 || u == 0x1172B || u == 0x11839 || u == 0x1193D || u == 0x1193E || u == 0x119E0
        || u == 0x11A34 || u == 0x11A47 || u == 0x11A99 || u == 0x11C3F || u == 0x11D44 || u == 0x11D45
        || u == 0x11D97
}

/// Whether some character of `u` lies in `lo..=hi` (other than `except`
/// when `skip_except`).
fn any_in_range(u: &Vec<char>, lo: u32, hi: u32) -> (r: bool)
    ensures
        r == exists|j: int| 0 <= j < u@.len() && in_range(#[trigger] u@[j], lo, hi),
{
    let mut i: usize = 0;
    while i < u.len()
        invariant
            i <= u@.len(),
            forall|j: int| 0 <= j < i ==> !in_range(#[trigger] u@[j], lo, hi),
        decreases u.len() - i,
    {
        let c = u[i] as u32;
        if lo <= c && c <= hi {
            proof {
                assert(in_range(u@[i as int], lo, hi));
            }
            return true;
        }
        i += 1;
    }
    false
}

/// Checks the contextual rules on the unicode form `u`.
#[verifier::loop_isolation(false)]
fn check_idn_rules(u: &Vec<char>) -> (r: Result<(), String>)
    ensures
        r is Ok <==> idn_rules_ok(u@),
{
    let n = u.len();
    let ghost s = u@;
    // disallowed characters
    let mut i: usize = 0;
    while i < n
        invariant
            n == s.len(),
            s == u@,
            i <= n,
            forall|k: int| 0 <= k < i ==> !is_disallowed_idn(#[trigger] s[k]),
        decreases n - i,
    {
        if is_disallowed_idn_exec(u[i]) {
            return fail("contains disallowed character");
        }
        i += 1;
    }
    // "--" in 3rd and 4th positions
    if n >= 4 && u[2] == '-' && u[3] == '-' {
        return fail("unicode string must not contain '--' in 3rd and 4th position");
    }
    // MIDDLE DOT
    let mut i: usize = 0;
    while i < n
        invariant
            n == s.len(),
            s == u@,
            i <= n,
            forall|k: int| 0 <= k < i && (#[trigger] s[k]) as u32 == 0x00B7 ==>
                k >= 1 && s[k - 1] == 'l' && k + 1 < s.len() && s[k + 1] == 'l',
        decreases n - i,
    {
        if u[i] as u32 == 0x00B7 {
            if !(i >= 1 && u[i - 1] == 'l' && i + 1 < n && u[i + 1] == 'l') {
                return fail("MIDDLE DOT is allowed between 'l' characters only");
            }
        }
        i += 1;
    }
    // Greek KERAIA
    let mut i: usize = 0;
    while i < n
        invariant
            n == s.len(),
            s == u@,
            i <= n,
            forall|k: int| 0 <= k < i && (#[trigger] s[k]) as u32 == 0x0375 ==>
                k + 1 < s.len() && in_range(s[k + 1], 0x0370, 0x03FF),
        decreases n - i,
    {
        if u[i] as u32 == 0x0375 {
            if !(i + 1 < n && 0x0370 <= (u[i + 1] as u32) && (u[i + 1] as u32) <= 0x03FF) {
                return fail("Greek KERAIA must be followed by Greek character");
            }
        }
        i += 1;
    }
    // Hebrew GERESH, then GERSHAYIM: the message names GERESH when the
    // mark opens the name or follows the same mark
    let mut i: usize = 0;
    while i < n
        invariant
            n == s.len(),
            s == u@,
            i <= n,
            forall|k: int| 0 <= k < i && (#[trigger] s[k]) as u32 == 0x05F3 ==>
                k >= 1 && s[k - 1] != s[k] && in_range(s[k - 1], 0x0590, 0x05FF),
        decreases n - i,
    {
        if u[i] as u32 == 0x05F3 {
            if !(i >= 1 && u[i - 1] != u[i] && 0x0590 <= (u[i - 1] as u32) && (u[i - 1] as u32) <= 0x05FF) {
                if i == 0 || u[i - 1] == u[i] {
                    return fail("Hebrew GERESH must be preceded by Hebrew character");
                } else {
                    return fail("Hebrew GERESHYIM must be preceded by Hebrew character");
                }
            }
        }
        i += 1;
    }
    let mut i: usize = 0;
    while i < n
        invariant
            n == s.len(),
            s == u@,
            i <= n,
            forall|k: int| 0 <= k < i && (#[trigger] s[k]) as u32 == 0x05F4 ==>
                k >= 1 && s[k - 1] != s[k] && in_range(s[k - 1], 0x0590, 0x05FF),
        decreases n - i,
    {
        if u[i] as u32 == 0x05F4 {
            if !(i >= 1 && u[i - 1] != u[i] && 0x0590 <= (u[i - 1] as u32) && (u[i - 1] as u32) <= 0x05FF) {
                if i == 0 || u[i - 1] == u[i] {
                    return fail("Hebrew GERESH must be preceded by Hebrew character");
                } else {
                    return fail("Hebrew GERESHYIM must be preceded by Hebrew character");
                }
            }
        }
        i += 1;
    }
    // KATAKANA MIDDLE DOT
    if any_in_range(u, 0x30FB, 0x30FB) {
        let mut ok = any_in_range(u, 0x3040, 0x309F) || any_in_range(u, 0x4E00, 0x9FFF);
        let mut j: usize = 0;
        while j < n
            invariant
                n == s.len(),
                s == u@,
                j <= n,
                ok == ((exists|k: int| 0 <= k < s.len() && in_range(#[trigger] s[k], 0x3040, 0x309F))
                    || (exists|k: int| 0 <= k < s.len() && in_range(#[trigger] s[k], 0x4E00, 0x9FFF))
                    || (exists|k: int| 0 <= k < j && (#[trigger] s[k] as u32) != 0x30FB && in_range(s[k], 0x30A0, 0x30FF))),
            decreases n - j,
        {
            let c = u[j] as u32;
            if c != 0x30FB && 0x30A0 <= c && c <= 0x30FF {
                proof {
                    assert((s[j as int] as u32) != 0x30FB && in_range(s[j as int], 0x30A0, 0x30FF));
                }
                ok = true;
            }
            proof {
                if (s[j as int] as u32) != 0x30FB && in_range(s[j as int], 0x30A0, 0x30FF) {
                    assert(ok);
                }
            }
            j += 1;
        }
        proof {
            let p = exists|k: int| 0 <= k < s.len() && (in_range(#[trigger] s[k], 0x3040, 0x309F)
                || ((s[k] as u32) != 0x30FB && in_range(s[k], 0x30A0, 0x30FF))
                || in_range(s[k], 0x4E00, 0x9FFF));
            if ok {
                assert(p);
            } else {
                assert(!p) by {
                    assert forall|k: int| 0 <= k < s.len() implies !(in_range(#[trigger] s[k], 0x3040, 0x309F)
                        || ((s[k] as u32) != 0x30FB && in_range(s[k], 0x30A0, 0x30FF))
                        || in_range(s[k], 0x4E00, 0x9FFF)) by {
                        if (s[k] as u32) != 0x30FB && in_range(s[k], 0x30A0, 0x30FF) {
                            assert(exists|k2: int| 0 <= k2 < n && (#[trigger] s[k2] as u32) != 0x30FB && in_range(s[k2], 0x30A0, 0x30FF));
                        }
                    }
                }
            }
        }
        if !ok {
            return fail("KATAKANA MIDDLE DOT must be with Hiragana, Katakana, or Han");
        }
    }
    // Arabic-Indic digits
    if any_in_range(u, 0x0660, 0x0669) && any_in_range(u, 0x06F0, 0x06F9) {
        return fail("ARABIC-INDIC DIGITS and Extended Arabic-Indic Digits cannot be mixed");
    }
    // ZERO WIDTH JOINER
    let mut i: usize = 0;
    while i < n
        invariant
            n == s.len(),
            s == u@,
            i <= n,
            forall|k: int| 0 <= k < i && (#[trigger] s[k]) as u32 == 0x200D ==>
                k >= 1 && is_virama(s[k - 1]),
        decreases n - i,
    {
        if u[i] as u32 == 0x200D {
            if !(i >= 1 && is_virama_exec(u[i - 1])) {
                return fail("ZERO WIDTH JOINER must be preceded by Virama");
            }
        }
        i += 1;
    }
    proof {
        assert forall|k: int| 0 <= k < s.len() && (#[trigger] s[k]) as u32 == 0x30FB implies true by {}
    }
    Ok(())
}

/// Checks `s` is an internationalized hostname.
pub fn check_idn_hostname(s: &str) -> (r: Result<(), String>)
    ensures
        r is Ok <==> spec_valid_idn_hostname(s@),
{
    let a = idna_to_ascii_strict(s)?;
    let unicode = idna_to_unicode(a.as_str());
    check_idn_rules(&chars_of(unicode.as_str()))?;
    check_hostname(a.as_str())
}

} // verus!

verus! {

// ---------------------------------------------------------------------
// idn-email

/// Whether the email check on `s` would overrun (see `email_overruns`).
pub fn check_email_overruns(s: &str) -> (r: bool)
    ensures
        r == email_overruns(s@),
{
    let v = chars_of(s);
    match rfind_char(&v, '@') {
        Some(at) => {
            proof {
                let k = last_index(s@, '@');
                assert(has_char(s@, '@'));
                if k != at as int {
                    if k < at {
                        assert(v@[at as int] == '@');
                    } else {
                        assert(v@[k] == '@');
                    }
                }
                if at == 1 {
                    assert(s@.take(1)[0] == v@[0]);
                    if v@[0] == '"' {
                        assert(s@.take(1) =~= seq!['"']);
                    } else {
                        assert(s@.take(1) != seq!['"']);
                    }
                } else {
                    assert(s@.take(at as int).len() != 1);
                }
            }
            at == 1 && v[0] == '"'
        },
        None => {
            proof {
                if has_char(s@, '@') {
                    let j = choose|j: int| 0 <= j < s@.len() && s@[j] == '@';
                    assert(v@[j] == '@');
                }
            }
            false
        },
    }
}

/// The outcome of checking `s` as an internationalized email address:
/// local part and domain (split at the last `@`) converted strictly to
/// ASCII, the domain an internationalized hostname, and the converted
/// address an email address. `None` when the converted address would
/// overrun the email check.
pub open spec fn spec_idn_email(s: Seq<char>) -> Option<EmailOutcome> {
    let at = last_index(s, '@');
    if at < 0 {
        Some(EmailOutcome::Invalid)
    } else {
        match (spec_idna_to_ascii_strict(s.take(at)), spec_idna_to_ascii_strict(s.skip(at + 1))) {
            (Some(l), Some(d)) => if !spec_valid_idn_hostname(d) {
                Some(EmailOutcome::Invalid)
            } else {
                let e = l + seq!['@'] + d;
                if email_overruns(e) { None } else { Some(spec_email(e)) }
            },
            _ => Some(EmailOutcome::Invalid),
        }
    }
}

/// Checks `s` as an internationalized email address; `None` when the
/// converted address would overrun the email check.
pub fn check_idn_email(s: &str) -> (r: Option<EmailCheck>)
    ensures
        match (r, spec_idn_email(s@)) {
            (Some(c), Some(o)) => email_reports(c, o),
            (None, None) => true,
            _ => false,
        },
{
    let v = chars_of(s);
    let at = match rfind_char(&v, '@') {
        Some(at) => at,
        None => {
            proof {
                if has_char(s@, '@') {
                    let j = choose|j: int| 0 <= j < s@.len() && s@[j] == '@';
                    assert(v@[j] == '@');
                }
            }
            return Some(EmailCheck::Invalid(concat("missing @", "")));
        },
    };
    proof {
        let k = last_index(s@, '@');
        assert(has_char(s@, '@'));
        if k != at as int {
            if k < at {
                assert(v@[at as int] == '@');
            } else {
                assert(v@[k] == '@');
            }
        }
    }
    assert(v@.len() == v.len());
    let local = string_from_range(&v, 0, at);
    let domain = string_from_range(&v, at + 1, v.len());
    proof {
        assert(local@ =~= s@.take(at as int));
        assert(domain@ =~= s@.skip(at + 1));
    }
    let local = match idna_to_ascii_strict(local.as_str()) {
        Ok(l) => l,
        Err(e) => return Some(EmailCheck::Invalid(e)),
    };
    let domain = match idna_to_ascii_strict(domain.as_str()) {
        Ok(d) => d,
        Err(e) => return Some(EmailCheck::Invalid(e)),
    };
    if let Err(e) = check_idn_hostname(domain.as_str()) {
        return Some(EmailCheck::Invalid(concat("invalid domain: ", e.as_str())));
    }
    let mut e = concat(local.as_str(), "@");
    crate::text::push_str(&mut e, domain.as_str());
    proof {
        reveal_strlit("@");
        assert("@"@ =~= seq!['@']);
    }
    if check_email_overruns(e.as_str()) {
        return None;
    }
    Some(check_email(e.as_str()))
}

// ---------------------------------------------------------------------
// formats on values

/// The formats whose check stands in this library.
#[derive(PartialEq, Eq, Structural, Clone, Copy, Debug)]
pub enum BuiltinFormat {
    Date,
    Time,
    DateTime,
    Duration,
    Period,
    Hostname,
    IdnHostname,
    JsonPointer,
    RelativeJsonPointer,
    Uri,
    Iri,
    UriReference,
    IriReference,
    UriTemplate,
    Uuid,
}

/// The name a schema uses for a built-in format.
pub open spec fn builtin_format_name(f: BuiltinFormat) -> Seq<char> {
    match f {
        BuiltinFormat::Date => "date"@,
        BuiltinFormat::Time => "time"@,
        BuiltinFormat::DateTime => "date-time"@,
        BuiltinFormat::Duration => "duration"@,
        BuiltinFormat::Period => "period"@,
        BuiltinFormat::Hostname => "hostname"@,
        BuiltinFormat::IdnHostname => "idn-hostname"@,
        BuiltinFormat::JsonPointer => "json-pointer"@,
        BuiltinFormat::RelativeJsonPointer => "relative-json-pointer"@,
        BuiltinFormat::Uri => "uri"@,
        BuiltinFormat::Iri => "iri"@,
        BuiltinFormat::UriReference => "uri-reference"@,
        BuiltinFormat::IriReference => "iri-reference"@,
        BuiltinFormat::UriTemplate => "uri-template"@,
        BuiltinFormat::Uuid => "uuid"@,
    }
}

/// Whether string `s` conforms to format `f`.
pub open spec fn spec_format_ok(f: BuiltinFormat, s: Seq<char>) -> bool {
    match f {
        BuiltinFormat::Date => spec_valid_date(s),
        BuiltinFormat::Time => spec_valid_time(s),
        BuiltinFormat::DateTime => spec_valid_date_time(s),
        BuiltinFormat::Duration => spec_valid_duration(s),
        BuiltinFormat::Period => spec_valid_period(s),
        BuiltinFormat::Hostname => spec_valid_hostname(s),
        BuiltinFormat::IdnHostname => spec_valid_idn_hostname(s),
        BuiltinFormat::JsonPointer => spec_valid_json_pointer(s),
        BuiltinFormat::RelativeJsonPointer => spec_valid_relative_json_pointer(s),
        BuiltinFormat::Uri => uri_len_ok(s) && spec_valid_uri(s),
        BuiltinFormat::Uuid => !uuid_overruns(s) && spec_valid_uuid(s),
        BuiltinFormat::Iri => spec_url_parse(s) is Ok,
        BuiltinFormat::UriReference => uri_len_ok(s) && spec_uri_parse(s) is Some,
        BuiltinFormat::IriReference => spec_parse_uri_reference(s) is Some,
        BuiltinFormat::UriTemplate => spec_valid_uri_template(s),
    }
}

/// Whether value `v` conforms to format `f` (formats apply to strings only).
pub open spec fn spec_value_format_ok(f: BuiltinFormat, v: JsonValue) -> bool {
    match v {
        JsonValue::String(s) => spec_format_ok(f, s@),
        _ => true,
    }
}

impl BuiltinFormat {
    /// The built-in format named `name`, if any.
    pub fn from_name(name: &str) -> (r: Option<BuiltinFormat>)
        ensures
            r matches Some(f) ==> builtin_format_name(f) == name@,
            r is None ==> forall|f: BuiltinFormat| builtin_format_name(f) != name@,
    {
        proof {
            reveal_strlit("date");
            reveal_strlit("time");
            reveal_strlit("date-time");
            reveal_strlit("duration");
            reveal_strlit("period");
            reveal_strlit("hostname");
            reveal_strlit("idn-hostname");
            reveal_strlit("json-pointer");
            reveal_strlit("relative-json-pointer");
            reveal_strlit("uri");
            reveal_strlit("iri");
            reveal_strlit("uri-reference");
            reveal_strlit("iri-reference");
            reveal_strlit("uri-template");
            reveal_strlit("uuid");
        }
        if str_eq(name, "date") {
            Some(BuiltinFormat::Date)
        } else if str_eq(name, "time") {
            Some(BuiltinFormat::Time)
        } else if str_eq(name, "date-time") {
            Some(BuiltinFormat::DateTime)
        } else if str_eq(name, "duration") {
            Some(BuiltinFormat::Duration)
        } else if str_eq(name, "period") {
            Some(BuiltinFormat::Period)
        } else if str_eq(name, "hostname") {
            Some(BuiltinFormat::Hostname)
        } else if str_eq(name, "idn-hostname") {
            Some(BuiltinFormat::IdnHostname)
        } else if str_eq(name, "json-pointer") {
            Some(BuiltinFormat::JsonPointer)
        } else if str_eq(name, "relative-json-pointer") {
            Some(BuiltinFormat::RelativeJsonPointer)
        } else if str_eq(name, "uri") {
            Some(BuiltinFormat::Uri)
        } else if str_eq(name, "iri") {
            Some(BuiltinFormat::Iri)
        } else if str_eq(name, "uri-reference") {
            Some(BuiltinFormat::UriReference)
        } else if str_eq(name, "iri-reference") {
            Some(BuiltinFormat::IriReference)
        } else if str_eq(name, "uri-template") {
            Some(BuiltinFormat::UriTemplate)
        } else if str_eq(name, "uuid") {
            Some(BuiltinFormat::Uuid)
        } else {
            None
        }
    }

    /// Checks string `s` against this format; a string too long for the
    /// uri parser fails the uri formats.
    pub fn check_str(&self, s: &str) -> (r: Result<(), String>)
        ensures
            r is Ok <==> spec_format_ok(*self, s@),
    {
        if (*self == BuiltinFormat::Uri || *self == BuiltinFormat::UriReference) && utf8_len_over(s, 0x7fff_ffff) {
            return fail("uri too long");
        }
        match self {
            BuiltinFormat::Date => check_date(s),
            BuiltinFormat::Time => check_time(s),
            BuiltinFormat::DateTime => check_date_time(s),
            BuiltinFormat::Duration => check_duration(s),
            BuiltinFormat::Period => check_period(s),
            BuiltinFormat::Hostname => check_hostname(s),
            BuiltinFormat::IdnHostname => check_idn_hostname(s),
            BuiltinFormat::JsonPointer => check_json_pointer(s),
            BuiltinFormat::RelativeJsonPointer => check_relative_json_pointer(s),
            BuiltinFormat::Uri => check_uri(s),
            BuiltinFormat::Iri => check_iri(s),
            BuiltinFormat::UriReference => check_uri_reference(s),
            BuiltinFormat::IriReference => check_iri_reference(s),
            BuiltinFormat::UriTemplate => check_uri_template(s),
            BuiltinFormat::Uuid => {
                if uuid_overruns_exec(s) {
                    fail("more than 5 elements")
                } else {
                    check_uuid(s)
                }
            },
        }
    }

    /// Checks value `v` against this format; non-strings always conform.
    pub fn check(&self, v: &JsonValue) -> (r: Result<(), String>)
        ensures
            r is Ok <==> spec_value_format_ok(*self, *v),
    {
        match v {
            JsonValue::String(s) => self.check_str(s.as_str()),
            _ => Ok(()),
        }
    }
}

/// Checks `v` is a date (non-strings pass).
pub fn validate_date(v: &JsonValue) -> (r: Result<(), String>)
    ensures
        r is Ok <==> spec_value_format_ok(BuiltinFormat::Date, *v),
{
    BuiltinFormat::Date.check(v)
}

/// Checks `v` is a time (non-strings pass).
pub fn validate_time(v: &JsonValue) -> (r: Result<(), String>)
    ensures
        r is Ok <==> spec_value_format_ok(BuiltinFormat::Time, *v),
{
    BuiltinFormat::Time.check(v)
}

/// Checks `v` is a date-time (non-strings pass).
pub fn validate_date_time(v: &JsonValue) -> (r: Result<(), String>)
    ensures
        r is Ok <==> spec_value_format_ok(BuiltinFormat::DateTime, *v),
{
    BuiltinFormat::DateTime.check(v)
}

/// Checks `v` is a duration (non-strings pass).
pub fn validate_duration(v: &JsonValue) -> (r: Result<(), String>)
    ensures
        r is Ok <==> spec_value_format_ok(BuiltinFormat::Duration, *v),
{
    BuiltinFormat::Duration.check(v)
}

/// Checks `v` is a period (non-strings pass).
pub fn validate_period(v: &JsonValue) -> (r: Result<(), String>)
    ensures
        r is Ok <==> spec_value_format_ok(BuiltinFormat::Period, *v),
{
    BuiltinFormat::Period.check(v)
}

/// Checks `v` is a hostname (non-strings pass).
pub fn validate_hostname(v: &JsonValue) -> (r: Result<(), String>)
    ensures
        r is Ok <==> spec_value_format_ok(BuiltinFormat::Hostname, *v),
{
    BuiltinFormat::Hostname.check(v)
}

/// Checks `v` is an internationalized hostname (non-strings pass).
pub fn validate_idn_hostname(v: &JsonValue) -> (r: Result<(), String>)
    ensures
        r is Ok <==> spec_value_format_ok(BuiltinFormat::IdnHostname, *v),
{
    BuiltinFormat::IdnHostname.check(v)
}

/// Checks `v` is a json-pointer (non-strings pass).
pub fn validate_json_pointer(v: &JsonValue) -> (r: Result<(), String>)
    ensures
        r is Ok <==> spec_value_format_ok(BuiltinFormat::JsonPointer, *v),
{
    BuiltinFormat::JsonPointer.check(v)
}

/// Checks `v` is a relative json-pointer (non-strings pass).
pub fn validate_relative_json_pointer(v: &JsonValue) -> (r: Result<(), String>)
    ensures
        r is Ok <==> spec_value_format_ok(BuiltinFormat::RelativeJsonPointer, *v),
{
    BuiltinFormat::RelativeJsonPointer.check(v)
}

/// Checks `v` is an absolute uri (non-strings pass).
pub fn validate_uri(v: &JsonValue) -> (r: Result<(), String>)
    ensures
        r is Ok <==> spec_value_format_ok(BuiltinFormat::Uri, *v),
{
    BuiltinFormat::Uri.check(v)
}

/// Checks `v` is an absolute iri (non-strings pass).
pub fn validate_iri(v: &JsonValue) -> (r: Result<(), String>)
    ensures
        r is Ok <==> spec_value_format_ok(BuiltinFormat::Iri, *v),
{
    BuiltinFormat::Iri.check(v)
}

/// Checks `v` is a uri-reference (non-strings pass).
pub fn validate_uri_reference(v: &JsonValue) -> (r: Result<(), String>)
    ensures
        r is Ok <==> spec_value_format_ok(BuiltinFormat::UriReference, *v),
{
    BuiltinFormat::UriReference.check(v)
}

/// Checks `v` is an iri-reference (non-strings pass).
pub fn validate_iri_reference(v: &JsonValue) -> (r: Result<(), String>)
    ensures
        r is Ok <==> spec_value_format_ok(BuiltinFormat::IriReference, *v),
{
    BuiltinFormat::IriReference.check(v)
}

/// Checks `v` is a uri-template (non-strings pass).
pub fn validate_uri_template(v: &JsonValue) -> (r: Result<(), String>)
    ensures
        r is Ok <==> spec_value_format_ok(BuiltinFormat::UriTemplate, *v),
{
    BuiltinFormat::UriTemplate.check(v)
}

/// Checks `v` is a uuid (non-strings pass); a uuid followed by more
/// groups fails.
pub fn validate_uuid(v: &JsonValue) -> (r: Result<(), String>)
    ensures
        r is Ok <==> spec_value_format_ok(BuiltinFormat::Uuid, *v),
        r is Ok <==> (v matches JsonValue::String(s) ==> !uuid_overruns(s@) && spec_valid_uuid(s@)),
{
    BuiltinFormat::Uuid.check(v)
}

} // verus!
