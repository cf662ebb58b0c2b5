//! Character-level helpers shared by the rest of the crate.
//!
//! Strings are handled as `Seq<char>` in specifications; executable code
//! works on `Vec<char>` copies of them and builds `String`s back.

use vstd::prelude::*;
use vstd::string::StrSliceExecFns;

verus! {

/// Appends `c` to `s` (std's `String::push`).
#[verifier::external_body]
pub fn push_char(s: &mut String, c: char)
    ensures
        final(s)@ == old(s)@.push(c),
{
    s.push(c);
}

/// The characters of `s`, in order.
pub fn chars_of(s: &str) -> (r: Vec<char>)
    ensures
        r@ == s@,
{
    let n = s.unicode_len();
    let mut r: Vec<char> = Vec::new();
    let mut i: usize = 0;
    while i < n
        invariant
            n == s@.len(),
            i <= n,
            r@ == s@.take(i as int),
        decreases n - i,
    {
        r.push(s.get_char(i));
        proof {
            assert(s@.take(i + 1) == s@.take(i as int).push(s@[i as int]));
        }
        i += 1;
    }
    proof {
        assert(s@.take(n as int) == s@);
    }
    r
}

/// A `String` holding the characters `v[from..to]`.
pub fn string_from_range(v: &Vec<char>, from: usize, to: usize) -> (r: String)
    requires
        from <= to <= v@.len(),
    ensures
        r@ == v@.subrange(from as int, to as int),
{
    let mut r = String::new();
    let mut i = from;
    while i < to
        invariant
            from <= i <= to <= v@.len(),
            r@ == v@.subrange(from as int, i as int),
        decreases to - i,
    {
        push_char(&mut r, v[i]);
        proof {
            assert(v@.subrange(from as int, i + 1) == v@.subrange(from as int, i as int).push(v@[i as int]));
        }
        i += 1;
    }
    r
}

/// A `String` holding the characters of `v`.
pub fn string_from(v: &Vec<char>) -> (r: String)
    ensures
        r@ == v@,
{
    let r = string_from_range(v, 0, v.len());
    proof {
        assert(v@.subrange(0, v@.len() as int) == v@);
    }
    r
}

/// Appends all characters of `t` to `s`.
pub fn push_str(s: &mut String, t: &str)
    ensures
        final(s)@ == old(s)@ + t@,
{
    let v = chars_of(t);
    let mut i: usize = 0;
    while i < v.len()
        invariant
            i <= v@.len(),
            v@ == t@,
            s@ == old(s)@ + v@.take(i as int),
        decreases v.len() - i,
    {
        push_char(s, v[i]);
        proof {
            assert(v@.take(i + 1) == v@.take(i as int).push(v@[i as int]));
        }
        i += 1;
    }
    proof {
        assert(v@.take(v@.len() as int) == v@);
    }
}

/// A `String` holding `a` followed by `b`.
pub fn concat(a: &str, b: &str) -> (r: String)
    ensures
        r@ == a@ + b@,
{
    let mut r = String::new();
    push_str(&mut r, a);
    push_str(&mut r, b);
    proof {
        assert(Seq::<char>::empty() + a@ == a@);
    }
    r
}

/// Whether `a` and `b` hold the same characters.
pub fn str_eq(a: &str, b: &str) -> (r: bool)
    ensures
        r == (a@ == b@),
{
    let x = chars_of(a);
    let y = chars_of(b);
    if x.len() != y.len() {
        return false;
    }
    let mut i: usize = 0;
    while i < x.len()
        invariant
            i <= x@.len(),
            x@.len() == y@.len(),
            x@ == a@,
            y@ == b@,
            forall|j: int| 0 <= j < i ==> x@[j] == y@[j],
        decreases x.len() - i,
    {
        if x[i] != y[i] {
            return false;
        }
        i += 1;
    }
    proof {
        assert(x@ =~= y@);
    }
    true
}

/// Whether `s` starts with `p`.
pub open spec fn starts_with(s: Seq<char>, p: Seq<char>) -> bool {
    p.len() <= s.len() && s.take(p.len() as int) == p
}

/// Whether `v[at..]` starts with `p`.
pub fn has_prefix_at(v: &Vec<char>, at: usize, p: &Vec<char>) -> (r: bool)
    requires
        at <= v@.len(),
    ensures
        r == starts_with(v@.skip(at as int), p@),
{
    if p.len() > v.len() - at {
        return false;
    }
    let mut i: usize = 0;
    while i < p.len()
        invariant
            i <= p@.len(),
            at + p@.len() <= v@.len(),
            v@.len() <= usize::MAX,
            forall|j: int| 0 <= j < i ==> v@[at + j] == p@[j],
        decreases p.len() - i,
    {
        if v[at + i] != p[i] {
            proof {
                assert(v@.skip(at as int).take(p@.len() as int)[i as int] != p@[i as int]);
            }
            return false;
        }
        i += 1;
    }
    proof {
        assert(v@.skip(at as int).take(p@.len() as int) =~= p@);
    }
    true
}

/// The first index at or after `from` where `c` occurs in `v`.
pub fn find_char_from(v: &Vec<char>, from: usize, c: char) -> (r: Option<usize>)
    requires
        from <= v@.len(),
    ensures
        r matches Some(i) ==> from <= i < v@.len() && v@[i as int] == c && forall|j: int|
            from <= j < i ==> v@[j] != c,
        r is None ==> forall|j: int| from <= j < v@.len() ==> v@[j] != c,
{
    let mut i = from;
    while i < v.len()
        invariant
            from <= i <= v@.len(),
            forall|j: int| from <= j < i ==> v@[j] != c,
        decreases v.len() - i,
    {
        if v[i] == c {
            return Some(i);
        }
        i += 1;
    }
    None
}

/// The last index where `c` occurs in `v`.
pub fn rfind_char(v: &Vec<char>, c: char) -> (r: Option<usize>)
    ensures
        r matches Some(i) ==> i < v@.len() && v@[i as int] == c && forall|j: int|
            i < j < v@.len() ==> v@[j] != c,
        r is None ==> forall|j: int| 0 <= j < v@.len() ==> v@[j] != c,
{
    let mut i = v.len();
    while i > 0
        invariant
            i <= v@.len(),
            forall|j: int| i <= j < v@.len() ==> v@[j] != c,
        decreases i,
    {
        if v[i - 1] == c {
            return Some(i - 1);
        }
        i -= 1;
    }
    None
}

/// Whether `c` occurs in `s`.
pub open spec fn has_char(s: Seq<char>, c: char) -> bool {
    exists|j: int| 0 <= j < s.len() && s[j] == c
}

/// Whether `c` occurs in `v`.
pub fn contains_char(v: &Vec<char>, c: char) -> (r: bool)
    ensures
        r == has_char(v@, c),
{
    find_char_from(v, 0, c).is_some()
}

/// Whether `c` is an ASCII digit.
pub open spec fn is_digit(c: char) -> bool {
    '0' <= c <= '9'
}

/// The number of leading ASCII digits of `s`.
pub open spec fn digit_run(s: Seq<char>) -> nat
    decreases s.len(),
{
    if s.len() > 0 && is_digit(s[0]) {
        1 + digit_run(s.skip(1))
    } else {
        0
    }
}

/// `digit_run` of a suffix, as a count of leading digits.
pub proof fn lemma_digit_run(s: Seq<char>)
    ensures
        digit_run(s) <= s.len(),
        forall|j: int| 0 <= j < digit_run(s) ==> is_digit(s[j]),
        digit_run(s) < s.len() ==> !is_digit(s[digit_run(s) as int]),
    decreases s.len(),
{
    if s.len() > 0 && is_digit(s[0]) {
        lemma_digit_run(s.skip(1));
        assert forall|j: int| 0 <= j < digit_run(s) implies is_digit(s[j]) by {
            if j > 0 {
                assert(s[j] == s.skip(1)[j - 1]);
            }
        }
        if digit_run(s) < s.len() {
            assert(s[digit_run(s) as int] == s.skip(1)[digit_run(s.skip(1)) as int]);
        }
    }
}

/// The number of consecutive ASCII digits in `v` starting at `from`.
pub fn count_digits(v: &Vec<char>, from: usize) -> (r: usize)
    requires
        from <= v@.len(),
    ensures
        r == digit_run(v@.skip(from as int)),
        from + r <= v@.len(),
{
    let mut i = from;
    while i < v.len() && '0' <= v[i] && v[i] <= '9'
        invariant
            from <= i <= v@.len(),
            forall|j: int| from <= j < i ==> is_digit(v@[j]),
        decreases v.len() - i,
    {
        i += 1;
    }
    proof {
        lemma_digit_run_exact(v@.skip(from as int), (i - from) as nat);
    }
    i - from
}

/// A run of `n` digits followed by a non-digit (or the end) is the digit run.
pub proof fn lemma_digit_run_exact(s: Seq<char>, n: nat)
    requires
        n <= s.len(),
        forall|j: int| 0 <= j < n ==> is_digit(s[j]),
        n < s.len() ==> !is_digit(s[n as int]),
    ensures
        digit_run(s) == n,
    decreases n,
{
    if n > 0 {
        assert forall|j: int| 0 <= j < n - 1 implies is_digit(s.skip(1)[j]) by {
            assert(s.skip(1)[j] == s[j + 1]);
        }
        if n - 1 < s.skip(1).len() {
            assert(s.skip(1)[n - 1] == s[n as int]);
        }
        lemma_digit_run_exact(s.skip(1), (n - 1) as nat);
    }
}

/// The decimal value of a sequence of digits.
pub open spec fn digits_value(s: Seq<char>) -> nat
    decreases s.len(),
{
    if s.len() == 0 {
        0
    } else {
        digits_value(s.drop_last()) * 10 + ((s.last() as u32) - ('0' as u32)) as nat
    }
}

} // verus!

verus! {

/// Whether every character of `s` is an ASCII digit.
pub open spec fn all_digits(s: Seq<char>) -> bool {
    forall|j: int| 0 <= j < s.len() ==> is_digit(s[j])
}

/// What `usize::from_str` accepts and yields: an optional `+` followed
/// by one or more ASCII digits.
pub open spec fn spec_parse_uint(s: Seq<char>) -> Option<nat> {
    let d = if s.len() > 0 && s[0] == '+' { s.skip(1) } else { s };
    if d.len() > 0 && all_digits(d) {
        Some(digits_value(d))
    } else {
        None
    }
}

/// The value of `s` when it is one or more ASCII digits (no sign).
pub open spec fn spec_parse_digits(s: Seq<char>) -> Option<nat> {
    if s.len() > 0 && all_digits(s) {
        Some(digits_value(s))
    } else {
        None
    }
}

/// The value of the ASCII digits `v[from..to]`; `None` unless there is at
/// least one character and every one is a digit (for at most four).
pub fn parse_digits(v: &Vec<char>, from: usize, to: usize) -> (r: Option<usize>)
    requires
        from <= to <= v@.len(),
        to - from <= 4,
    ensures
        r matches Some(x) ==> spec_parse_digits(v@.subrange(from as int, to as int)) == Some(x as nat),
        r is None ==> spec_parse_digits(v@.subrange(from as int, to as int)) is None,
{
    let ghost s = v@.subrange(from as int, to as int);
    if from < to && v[from] == '+' {
        proof {
            assert(s[0] == '+');
            assert(!is_digit(s[0]));
        }
        return None;
    }
    proof {
        if s.len() > 0 {
            assert(s[0] == v@[from as int]);
        }
        assert(s =~= if s.len() > 0 && s[0] == '+' { s.skip(1) } else { s });
    }
    parse_uint(v, from, to)
}

/// `digits_value` of a prefix grows by one digit.
pub proof fn lemma_digits_value_step(s: Seq<char>, k: int)
    requires
        0 <= k < s.len(),
    ensures
        digits_value(s.take(k + 1)) == digits_value(s.take(k)) * 10 + ((s[k] as u32) - ('0' as u32)) as nat,
{
    assert(s.take(k + 1).drop_last() =~= s.take(k));
}

/// A value of at most `n` digits is below `10^n` (for `n <= 4`).
pub proof fn lemma_digits_value_bound(s: Seq<char>)
    requires
        all_digits(s),
    ensures
        digits_value(s) < pow10(s.len()),
    decreases s.len(),
{
    if s.len() > 0 {
        assert forall|j: int| 0 <= j < s.drop_last().len() implies is_digit(s.drop_last()[j]) by {
            assert(s.drop_last()[j] == s[j]);
        }
        lemma_digits_value_bound(s.drop_last());
        assert(is_digit(s[s.len() - 1]));
    }
}

/// Ten to the power `n`.
pub open spec fn pow10(n: nat) -> nat
    decreases n,
{
    if n == 0 {
        1
    } else {
        10 * pow10((n - 1) as nat)
    }
}

/// `usize::from_str` on `v[from..to]`, for at most four characters.
pub fn parse_uint(v: &Vec<char>, from: usize, to: usize) -> (r: Option<usize>)
    requires
        from <= to <= v@.len(),
        to - from <= 4,
    ensures
        r matches Some(x) ==> spec_parse_uint(v@.subrange(from as int, to as int)) == Some(x as nat),
        r is None ==> spec_parse_uint(v@.subrange(from as int, to as int)) is None,
{
    let ghost s = v@.subrange(from as int, to as int);
    let mut start = from;
    if from < to && v[from] == '+' {
        start = from + 1;
    }
    let ghost d = v@.subrange(start as int, to as int);
    proof {
        if from < to && v@[from as int] == '+' {
            assert(s[0] == v@[from as int]);
            assert(s.skip(1) =~= d);
        } else {
            if s.len() > 0 {
                assert(s[0] == v@[from as int]);
            }
            assert(s =~= d);
        }
        assert(spec_parse_uint(s) == if d.len() > 0 && all_digits(d) {
            Some(digits_value(d))
        } else {
            None
        });
    }
    if start == to {
        return None;
    }
    let mut val: usize = 0;
    let mut i = start;
    while i < to
        invariant
            from <= start <= i <= to <= v@.len(),
            to - start <= 4,
            d == v@.subrange(start as int, to as int),
            s == v@.subrange(from as int, to as int),
            d.len() > 0,
            spec_parse_uint(s) == if d.len() > 0 && all_digits(d) {
                Some(digits_value(d))
            } else {
                None
            },
            all_digits(d.take(i - start)),
            val as nat == digits_value(d.take(i - start)),
        decreases to - i,
    {
        let c = v[i];
        if !('0' <= c && c <= '9') {
            proof {
                assert(d[i - start] == c);
                assert(!is_digit(d[i - start]));
                assert(!all_digits(d));
            }
            return None;
        }
        proof {
            lemma_digits_value_step(d, i - start);
            assert(d.take(i - start + 1) =~= d.take(i - start).push(c));
            assert(all_digits(d.take(i - start + 1)));
            lemma_digits_value_bound(d.take(i - start + 1));
            assert(pow10(d.take(i - start + 1).len()) <= 10000) by {
                reveal_with_fuel(pow10, 5);
            }
        }
        val = val * 10 + ((c as u32) - ('0' as u32)) as usize;
        i += 1;
    }
    proof {
        assert(d.take(to - start) =~= d);
    }
    Some(val)
}

} // verus!

verus! {

/// The decimal rendering of `n`.
pub open spec fn spec_decimal(n: nat) -> Seq<char>
    decreases n,
{
    if n < 10 {
        seq![digit_char(n)]
    } else {
        spec_decimal(n / 10) + seq![digit_char(n % 10)]
    }
}

/// The ASCII digit for `d < 10`.
pub open spec fn digit_char(d: nat) -> char {
    if d == 0 { '0' } else if d == 1 { '1' } else if d == 2 { '2' } else if d == 3 { '3' }
    else if d == 4 { '4' } else if d == 5 { '5' } else if d == 6 { '6' } else if d == 7 { '7' }
    else if d == 8 { '8' } else { '9' }
}

fn digit_char_exec(d: usize) -> (c: char)
    requires
        d < 10,
    ensures
        c == digit_char(d as nat),
{
    if d == 0 { '0' } else if d == 1 { '1' } else if d == 2 { '2' } else if d == 3 { '3' }
    else if d == 4 { '4' } else if d == 5 { '5' } else if d == 6 { '6' } else if d == 7 { '7' }
    else if d == 8 { '8' } else { '9' }
}

/// Appends the decimal rendering of `n` to `s`.
pub fn push_decimal(s: &mut String, n: usize)
    ensures
        final(s)@ == old(s)@ + spec_decimal(n as nat),
    decreases n,
{
    if n < 10 {
        push_char(s, digit_char_exec(n));
    } else {
        push_decimal(s, n / 10);
        push_char(s, digit_char_exec(n % 10));
        proof {
            assert(old(s)@ + spec_decimal(n as nat) =~= old(s)@ + spec_decimal((n / 10) as nat) + seq![digit_char((n % 10) as nat)]);
        }
    }
}

/// The decimal rendering of `n`.
pub fn usize_to_string(n: usize) -> (r: String)
    ensures
        r@ == spec_decimal(n as nat),
{
    let mut s = String::new();
    push_decimal(&mut s, n);
    proof {
        assert(Seq::<char>::empty() + spec_decimal(n as nat) =~= spec_decimal(n as nat));
    }
    s
}

} // verus!

verus! {

/// The number of consecutive ASCII digits in `v[from..to]` from its start.
pub fn count_digits_in(v: &Vec<char>, from: usize, to: usize) -> (r: usize)
    requires
        from <= to <= v@.len(),
    ensures
        r == digit_run(v@.subrange(from as int, to as int)),
        from + r <= to,
{
    let mut i = from;
    while i < to && '0' <= v[i] && v[i] <= '9'
        invariant
            from <= i <= to <= v@.len(),
            forall|j: int| from <= j < i ==> is_digit(v@[j]),
        decreases to - i,
    {
        i += 1;
    }
    proof {
        let s = v@.subrange(from as int, to as int);
        assert forall|j: int| 0 <= j < i - from implies is_digit(s[j]) by {
            assert(s[j] == v@[from + j]);
        }
        if i < to {
            assert(s[i - from] == v@[i as int]);
        }
        lemma_digit_run_exact(s, (i - from) as nat);
    }
    i - from
}

} // verus!

verus! {

/// A prefix of a digit string is worth no more than the whole.
pub proof fn lemma_digits_value_prefix(s: Seq<char>, k: int)
    requires
        0 <= k <= s.len(),
    ensures
        digits_value(s.take(k)) <= digits_value(s),
    decreases s.len() - k,
{
    if k < s.len() {
        lemma_digits_value_prefix(s, k + 1);
        lemma_digits_value_step(s, k);
    } else {
        assert(s.take(k) =~= s);
    }
}

/// `usize::from_str` on `v[from..to]`: `None` also when the value does
/// not fit a `usize`.
pub fn parse_usize(v: &Vec<char>, from: usize, to: usize) -> (r: Option<usize>)
    requires
        from <= to <= v@.len(),
    ensures
        r matches Some(x) ==> spec_parse_uint(v@.subrange(from as int, to as int)) == Some(x as nat),
        r is None ==> match spec_parse_uint(v@.subrange(from as int, to as int)) {
            Some(n) => n > usize::MAX,
            None => true,
        },
{
    let ghost s = v@.subrange(from as int, to as int);
    let mut start = from;
    if from < to && v[from] == '+' {
        start = from + 1;
    }
    let ghost d = v@.subrange(start as int, to as int);
    proof {
        if from < to && v@[from as int] == '+' {
            assert(s[0] == v@[from as int]);
            assert(s.skip(1) =~= d);
        } else {
            if s.len() > 0 {
                assert(s[0] == v@[from as int]);
            }
            assert(s =~= d);
        }
        assert(spec_parse_uint(s) == if d.len() > 0 && all_digits(d) {
            Some(digits_value(d))
        } else {
            None
        });
    }
    if start == to {
        return None;
    }
    let mut i = start;
    while i < to
        invariant
            from <= start <= i <= to <= v@.len(),
            d == v@.subrange(start as int, to as int),
            s == v@.subrange(from as int, to as int),
            d.len() > 0,
            spec_parse_uint(s) == if d.len() > 0 && all_digits(d) {
                Some(digits_value(d))
            } else {
                None
            },
            forall|j: int| 0 <= j < i - start ==> is_digit(d[j]),
        decreases to - i,
    {
        if !('0' <= v[i] && v[i] <= '9') {
            proof {
                assert(d[i - start] == v@[i as int]);
                assert(!is_digit(d[i - start]));
            }
            return None;
        }
        i += 1;
    }
    let mut val: usize = 0;
    let mut i = start;
    while i < to
        invariant
            from <= start <= i <= to <= v@.len(),
            d == v@.subrange(start as int, to as int),
            s == v@.subrange(from as int, to as int),
            d.len() > 0,
            spec_parse_uint(s) == Some(digits_value(d)),
            all_digits(d),
            val as nat == digits_value(d.take(i - start)),
        decreases to - i,
    {
        proof {
            assert(d[i - start] == v@[i as int]);
            assert(is_digit(d[i - start]));
        }
        let dig = ((v[i] as u32) - ('0' as u32)) as usize;
        proof {
            lemma_digits_value_step(d, i - start);
            lemma_digits_value_prefix(d, i - start + 1);
        }
        match val.checked_mul(10) {
            Some(t) => match t.checked_add(dig) {
                Some(u) => {
                    val = u;
                },
                None => {
                    proof {
                        assert(digits_value(d.take(i - start + 1)) > usize::MAX);
                    }
                    return None;
                },
            },
            None => {
                proof {
                    assert(digits_value(d.take(i - start + 1)) >= val * 10);
                }
                return None;
            },
        }
        i += 1;
    }
    proof {
        assert(d.take(to - start) =~= d);
    }
    Some(val)
}

} // verus!
