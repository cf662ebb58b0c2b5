//! Json-pointer tokens, url fragments and small string utilities.

use vstd::prelude::*;
use crate::text::{chars_of, find_char_from, has_char, push_char, push_str, string_from, string_from_range};
use vstd::string::StrSliceExecFns;

verus! {

// ---------------------------------------------------------------------
// json-pointer token escaping (RFC 6901)

/// How one character of a token is written in a json-pointer.
pub open spec fn escape_char(c: char) -> Seq<char> {
    if c == '~' {
        seq!['~', '0']
    } else if c == '/' {
        seq!['~', '1']
    } else {
        seq![c]
    }
}

/// A token escaped for use in a json-pointer: `~` becomes `~0`, `/` becomes `~1`.
pub open spec fn spec_escape(t: Seq<char>) -> Seq<char>
    decreases t.len(),
{
    if t.len() == 0 {
        seq![]
    } else {
        escape_char(t[0]) + spec_escape(t.skip(1))
    }
}

/// The token denoted by an escaped json-pointer token, if it is well formed:
/// every `~` must be followed by `0` or `1`.
pub open spec fn spec_unescape(t: Seq<char>) -> Option<Seq<char>>
    decreases t.len(),
{
    if t.len() == 0 {
        Some(seq![])
    } else if t[0] == '~' {
        if t.len() >= 2 && (t[1] == '0' || t[1] == '1') {
            match spec_unescape(t.skip(2)) {
                Some(r) => Some(seq![if t[1] == '0' { '~' } else { '/' }] + r),
                None => None,
            }
        } else {
            None
        }
    } else {
        match spec_unescape(t.skip(1)) {
            Some(r) => Some(seq![t[0]] + r),
            None => None,
        }
    }
}

/// Escaping distributes over concatenation.
pub proof fn lemma_escape_append(a: Seq<char>, b: Seq<char>)
    ensures
        spec_escape(a + b) == spec_escape(a) + spec_escape(b),
    decreases a.len(),
{
    if a.len() == 0 {
        assert(a + b =~= b);
        assert(spec_escape(a) + spec_escape(b) =~= spec_escape(b));
    } else {
        assert((a + b).skip(1) =~= a.skip(1) + b);
        assert((a + b)[0] == a[0]);
        lemma_escape_append(a.skip(1), b);
        assert(spec_escape(a + b) =~= escape_char(a[0]) + (spec_escape(a.skip(1)) + spec_escape(b)));
    }
}

/// Law: unescaping an escaped token gives the token back.
pub proof fn lemma_unescape_escape(t: Seq<char>)
    ensures
        spec_unescape(spec_escape(t)) == Some(t),
    decreases t.len(),
{
    if t.len() > 0 {
        lemma_unescape_escape(t.skip(1));
        let e = spec_escape(t);
        let rest = spec_escape(t.skip(1));
        if t[0] == '~' || t[0] == '/' {
            assert(e =~= escape_char(t[0]) + rest);
            assert(e.skip(2) =~= rest);
        } else {
            assert(e.skip(1) =~= rest);
        }
        assert(seq![t[0]] + t.skip(1) =~= t);
    }
}

/// Law: an escaped token holds no `/`, so it is a single json-pointer token.
pub proof fn lemma_escape_no_slash(t: Seq<char>)
    ensures
        !has_char(spec_escape(t), '/'),
    decreases t.len(),
{
    if t.len() > 0 {
        lemma_escape_no_slash(t.skip(1));
        let e = spec_escape(t);
        let h = escape_char(t[0]);
        assert(e == h + spec_escape(t.skip(1)));
        assert forall|j: int| 0 <= j < e.len() implies e[j] != '/' by {
            if j >= h.len() {
                assert(e[j] == spec_escape(t.skip(1))[j - h.len()]);
            }
        }
    }
}

/// `token` escaped for use in a json-pointer.
pub fn escape(token: &str) -> (r: String)
    ensures
        r@ == spec_escape(token@),
{
    let v = chars_of(token);
    let mut r = String::new();
    let mut i: usize = 0;
    while i < v.len()
        invariant
            i <= v@.len(),
            v@ == token@,
            r@ == spec_escape(v@.take(i as int)),
        decreases v.len() - i,
    {
        let c = v[i];
        if c == '~' {
            push_char(&mut r, '~');
            push_char(&mut r, '0');
        } else if c == '/' {
            push_char(&mut r, '~');
            push_char(&mut r, '1');
        } else {
            push_char(&mut r, c);
        }
        proof {
            let a = v@.take(i as int);
            let b = seq![c];
            assert(v@.take(i + 1) =~= a + b);
            lemma_escape_append(a, b);
            assert(spec_escape(b) =~= escape_char(c)) by {
                assert(b.skip(1) =~= Seq::<char>::empty());
                assert(spec_escape(b.skip(1)) =~= Seq::<char>::empty());
                assert(escape_char(c) + Seq::<char>::empty() =~= escape_char(c));
            }
        }
        i += 1;
    }
    proof {
        assert(v@.take(v@.len() as int) =~= v@);
    }
    r
}

/// The token denoted by json-pointer token `tok`; `Err` when some `~`
/// is not followed by `0` or `1`.
pub fn unescape(tok: &str) -> (r: Result<String, ()>)
    ensures
        r matches Ok(s) ==> spec_unescape(tok@) == Some(s@),
        r is Err ==> spec_unescape(tok@) is None,
{
    let v = chars_of(tok);
    let mut out = String::new();
    let mut i: usize = 0;
    proof {
        assert(v@.skip(0) =~= v@);
        match spec_unescape(v@) {
            Some(r) => { assert(out@ + r =~= r); },
            None => {},
        }
    }
    while i < v.len()
        invariant
            i <= v@.len(),
            v@ == tok@,
            spec_unescape(v@) == match spec_unescape(v@.skip(i as int)) {
                Some(r) => Some(out@ + r),
                None => None::<Seq<char>>,
            },
        decreases v.len() - i,
    {
        let ghost rest = v@.skip(i as int);
        if v[i] == '~' {
            if i + 1 < v.len() && (v[i + 1] == '0' || v[i + 1] == '1') {
                let c = if v[i + 1] == '0' { '~' } else { '/' };
                proof {
                    assert(rest.skip(2) =~= v@.skip(i + 2));
                    match spec_unescape(rest.skip(2)) {
                        Some(r) => {
                            assert(out@ + (seq![c] + r) =~= out@.push(c) + r);
                        },
                        None => {},
                    }
                }
                push_char(&mut out, c);
                i += 2;
            } else {
                return Err(());
            }
        } else {
            let c = v[i];
            proof {
                assert(rest.skip(1) =~= v@.skip(i + 1));
                match spec_unescape(rest.skip(1)) {
                    Some(r) => {
                        assert(out@ + (seq![c] + r) =~= out@.push(c) + r);
                    },
                    None => {},
                }
            }
            push_char(&mut out, c);
            i += 1;
        }
    }
    proof {
        assert(v@.skip(i as int) =~= Seq::<char>::empty());
        assert(out@ + Seq::<char>::empty() =~= out@);
    }
    Ok(out)
}

// ---------------------------------------------------------------------
// url fragments

/// The part of `url` before the first `#` and the part after it
/// (empty when there is no `#`).
pub open spec fn spec_split(url: Seq<char>) -> (Seq<char>, Seq<char>) {
    if has_char(url, '#') {
        let i = choose|i: int| 0 <= i < url.len() && url[i] == '#' && forall|j: int| 0 <= j < i ==> url[j] != '#';
        (url.take(i), url.skip(i + 1))
    } else {
        (url, seq![])
    }
}

/// `url` cut at its first `#`: the part before and the part after.
pub fn split(url: &str) -> (r: (String, String))
    ensures
        (r.0@, r.1@) == spec_split(url@),
{
    let v = chars_of(url);
    match find_char_from(&v, 0, '#') {
        Some(i) => {
            assert(v@.len() == v.len());
            let a = string_from_range(&v, 0, i);
            let b = string_from_range(&v, i + 1, v.len());
            proof {
                let k = choose|k: int| 0 <= k < url@.len() && url@[k] == '#' && forall|j: int| 0 <= j < k ==> url@[j] != '#';
                assert(k == i as int) by {
                    if k < i { } else if k > i { assert(url@[i as int] == '#'); }
                }
                assert(a@ =~= url@.take(i as int));
                assert(b@ =~= url@.skip(i + 1));
            }
            (a, b)
        },
        None => {
            let a = string_from(&v);
            (a, String::new())
        },
    }
}

// ---------------------------------------------------------------------
// quoting

/// What std's `Debug` prints for a string (a name: std's escaping rules
/// take pages; see `debug_str`).
pub uninterp spec fn spec_debug_str(s: Seq<char>) -> Seq<char>;

/// std's `Debug` formatting of a `str`.
///
/// Trusted: the result is `spec_debug_str` of the argument, and it is
/// enclosed in double quotes, as std documents for `str`'s `Debug`.
/// What lies between the quotes is not stated here.
#[verifier::external_body]
pub(crate) fn debug_str(s: &str) -> (r: String)
    ensures
        r@ == spec_debug_str(s@),
        r@.len() >= 2,
        r@[0] == '"',
        r@[r@.len() - 1] == '"',
{
    format!("{s:?}")
}

/// The body of a single-quoted rendering of `d` (a `Debug` rendering
/// without its enclosing double quotes): `\"` becomes `"` and `'` becomes `\'`.
pub open spec fn requote(d: Seq<char>) -> Seq<char>
    decreases d.len(),
{
    if d.len() == 0 {
        seq![]
    } else if d[0] == '\\' && d.len() >= 2 && d[1] == '"' {
        seq!['"'] + requote(d.skip(2))
    } else if d[0] == '\'' {
        seq!['\\', '\''] + requote(d.skip(1))
    } else {
        seq![d[0]] + requote(d.skip(1))
    }
}

/// The single-quoted form of `s`: in its `Debug` rendering `\"` becomes
/// `"` and `'` becomes `\'`, and the first and last characters of the
/// result give way to single quotes.
pub open spec fn spec_quote(s: Seq<char>) -> Seq<char> {
    let q = requote(spec_debug_str(s));
    seq!['\''] + (if q.len() >= 2 { q.subrange(1, q.len() - 1) } else { seq![] }) + seq!['\'']
}

/// Returns `s` single-quoted.
pub fn quote(s: &str) -> (r: String)
    ensures
        r@ == spec_quote(s@),
{
    let d = chars_of(&debug_str(s));
    let mut q: Vec<char> = Vec::new();
    let mut i: usize = 0;
    proof {
        assert(d@.skip(0) =~= d@);
    }
    while i < d.len()
        invariant
            i <= d@.len(),
            requote(d@) == q@ + requote(d@.skip(i as int)),
        decreases d.len() - i,
    {
        let ghost rest = d@.skip(i as int);
        if d[i] == '\\' && i + 1 < d.len() && d[i + 1] == '"' {
            q.push('"');
            proof {
                assert(rest.skip(2) =~= d@.skip(i + 2));
                assert(q@ + requote(rest.skip(2)) =~= q@.drop_last() + requote(rest));
            }
            i += 2;
        } else if d[i] == '\'' {
            q.push('\\');
            q.push('\'');
            proof {
                assert(rest.skip(1) =~= d@.skip(i + 1));
                assert(q@ + requote(rest.skip(1)) =~= q@.drop_last().drop_last() + requote(rest));
            }
            i += 1;
        } else {
            q.push(d[i]);
            proof {
                assert(rest.skip(1) =~= d@.skip(i + 1));
                assert(q@ + requote(rest.skip(1)) =~= q@.drop_last() + requote(rest));
            }
            i += 1;
        }
    }
    proof {
        assert(d@.skip(i as int) =~= Seq::<char>::empty());
        assert(q@ =~= requote(d@));
    }
    let mut r = String::new();
    push_char(&mut r, '\'');
    if q.len() >= 2 {
        let body = crate::text::string_from_range(&q, 1, q.len() - 1);
        push_str(&mut r, body.as_str());
    }
    push_char(&mut r, '\'');
    proof {
        assert(r@ =~= spec_quote(s@));
    }
    r
}

// ---------------------------------------------------------------------
// misc

/// Whether `p` begins with a windows drive such as `C:\`.
pub open spec fn spec_starts_with_windows_drive(p: Seq<char>) -> bool {
    p.len() >= 3 && 'A' <= p[0] <= 'Z' && p[1] == ':' && p[2] == '\\'
}

/// Whether `p` begins with an upper-case drive letter followed by `:\`.
pub fn starts_with_windows_drive(p: &str) -> (r: bool)
    ensures
        r == spec_starts_with_windows_drive(p@),
{
    let v = chars_of(p);
    v.len() >= 3 && 'A' <= v[0] && v[0] <= 'Z' && v[1] == ':' && v[2] == '\\'
}

/// The strings of `items` separated by `sep`.
pub open spec fn spec_join(items: Seq<Seq<char>>, sep: Seq<char>) -> Seq<char>
    decreases items.len(),
{
    if items.len() == 0 {
        seq![]
    } else if items.len() == 1 {
        items[0]
    } else {
        spec_join(items.drop_last(), sep) + sep + items.last()
    }
}

/// The strings of `items` separated by `sep`.
pub fn join_iter(items: &Vec<String>, sep: &str) -> (r: String)
    ensures
        r@ == spec_join(items@.map_values(|s: String| s@), sep@),
{
    let ghost views = items@.map_values(|s: String| s@);
    let mut r = String::new();
    let mut i: usize = 0;
    while i < items.len()
        invariant
            i <= items@.len(),
            views == items@.map_values(|s: String| s@),
            r@ == spec_join(views.take(i as int), sep@),
        decreases items.len() - i,
    {
        if i > 0 {
            push_str(&mut r, sep);
        }
        push_str(&mut r, items[i].as_str());
        proof {
            assert(views.take(i + 1).drop_last() =~= views.take(i as int));
            if i == 0 {
                assert(Seq::<char>::empty() + items@[0]@ =~= items@[0]@);
            }
        }
        i += 1;
    }
    proof {
        assert(views.take(items@.len() as int) =~= views);
    }
    r
}

} // verus!

verus! {

// ---------------------------------------------------------------------
// json pointers and fragments

/// A json-pointer, such as `/a/b`.
#[derive(Debug, PartialEq, Eq)]
pub struct JsonPointer(pub String);

impl JsonPointer {
    /// `token` escaped for use in a json-pointer.
    pub fn escape(token: &str) -> (r: String)
        ensures
            r@ == spec_escape(token@),
    {
        escape(token)
    }

    /// The token that json-pointer token `tok` denotes.
    pub fn unescape(tok: &str) -> (r: Result<String, ()>)
        ensures
            r matches Ok(s) ==> spec_unescape(tok@) == Some(s@),
            r is Err ==> spec_unescape(tok@) is None,
    {
        unescape(tok)
    }

    /// The pointer as text.
    pub fn as_str(&self) -> (r: &str)
        ensures
            r@ == self.0@,
    {
        self.0.as_str()
    }

    /// Whether the pointer is empty, pointing at the whole document.
    pub fn is_empty(&self) -> (r: bool)
        ensures
            r == (self.0@.len() == 0),
    {
        self.0.as_str().unicode_len() == 0
    }

    /// This pointer followed by `next`.
    pub fn concat(&self, next: &JsonPointer) -> (r: JsonPointer)
        ensures
            r.0@ == self.0@ + next.0@,
    {
        let mut s = self.0.clone();
        push_str(&mut s, next.0.as_str());
        JsonPointer(s)
    }

    /// This pointer extended by the token `tok`.
    pub fn append(&self, tok: &str) -> (r: JsonPointer)
        ensures
            r.0@ == self.0@ + seq!['/'] + spec_escape(tok@),
    {
        let mut s = self.0.clone();
        push_char(&mut s, '/');
        push_str(&mut s, escape(tok).as_str());
        JsonPointer(s)
    }

    /// This pointer extended by the tokens `tok1` and `tok2`.
    pub fn append2(&self, tok1: &str, tok2: &str) -> (r: JsonPointer)
        ensures
            r.0@ == self.0@ + seq!['/'] + spec_escape(tok1@) + seq!['/'] + spec_escape(tok2@),
    {
        let mut s = self.0.clone();
        push_char(&mut s, '/');
        push_str(&mut s, escape(tok1).as_str());
        push_char(&mut s, '/');
        push_str(&mut s, escape(tok2).as_str());
        JsonPointer(s)
    }
}

/// A fragment of a url: an anchor, or a json-pointer (empty or starting
/// with `/`).
#[derive(Debug, PartialEq, Eq)]
pub enum Fragment {
    Anchor(String),
    JsonPointer(JsonPointer),
}

/// Whether a decoded fragment is a json-pointer rather than an anchor.
pub open spec fn is_pointer_text(f: Seq<char>) -> bool {
    f.len() == 0 || f[0] == '/'
}

/// The decoded fragment of `s`: its part after the first `#`,
/// percent-decoded as UTF-8 (`None` when that fails).
pub open spec fn spec_fragment(s: Seq<char>) -> Option<Seq<char>> {
    let b = crate::outside::pct_decode(vstd::utf8::encode_utf8(spec_split(s).1));
    if vstd::utf8::valid_utf8(b) {
        Some(vstd::utf8::decode_utf8(b))
    } else {
        None
    }
}

/// Whether `b` is percent-encoded in a fragment: non-ASCII bytes,
/// controls, and `%`, space, `"`, `<`, `>` and backquote.
pub open spec fn in_fragment_set(b: u8) -> bool {
    b >= 0x80 || b < 0x20 || b == 0x7F || b == 0x25 || b == 0x20 || b == 0x22 || b == 0x3C || b == 0x3E
        || b == 0x60
}

/// The upper-case hex digit of `d`.
pub open spec fn hex_upper(d: u8) -> char {
    if d < 10 {
        (0x30 + d) as char
    } else {
        (0x41 + d - 10) as char
    }
}

/// The percent-encoding of the bytes `b` with the fragment set.
pub open spec fn pct_encode(b: Seq<u8>) -> Seq<char>
    decreases b.len(),
{
    if b.len() == 0 {
        seq![]
    } else {
        pct_encode(b.drop_last()) + if in_fragment_set(b.last()) {
            seq!['%', hex_upper(b.last() / 16), hex_upper(b.last() % 16)]
        } else {
            seq![b.last() as char]
        }
    }
}

fn hex_upper_exec(d: u8) -> (r: char)
    requires
        d < 16,
    ensures
        r == hex_upper(d),
{
    if d < 10 {
        (0x30 + d) as char
    } else {
        (0x41 + d - 10) as char
    }
}

impl Fragment {
    /// Splits `s` at its first `#` into the part before and the decoded
    /// fragment; an error when the fragment is not percent-encoded UTF-8.
    pub fn split(s: &str) -> (r: Result<(String, Fragment), String>)
        ensures
            r matches Ok((u, f)) ==> u@ == spec_split(s@).0 && spec_fragment(s@) == Some(f.text())
                && (f is JsonPointer <==> is_pointer_text(f.text())),
            r is Err <==> spec_fragment(s@) is None,
    {
        let (u, frag) = split(s);
        match crate::outside::percent_decode_utf8(frag.as_str()) {
            Ok(f) => {
                let v = chars_of(f.as_str());
                if v.len() == 0 || v[0] == '/' {
                    Ok((u, Fragment::JsonPointer(JsonPointer(f))))
                } else {
                    Ok((u, Fragment::Anchor(f)))
                }
            },
            Err(e) => Err(e),
        }
    }

    /// The fragment percent-encoded for use in a url: non-ASCII bytes,
    /// controls, and `%`, space, `"`, `<`, `>` and backquote become `%XX`.
    pub fn encode(frag: &str) -> (r: String)
        ensures
            r@ == pct_encode(vstd::utf8::encode_utf8(frag@)),
    {
        let bytes = frag.as_bytes_vec();
        let mut r = String::new();
        let mut i: usize = 0;
        proof {
            assert(bytes@.take(0) =~= Seq::<u8>::empty());
        }
        while i < bytes.len()
            invariant
                i <= bytes@.len(),
                bytes@ == vstd::utf8::encode_utf8(frag@),
                r@ == pct_encode(bytes@.take(i as int)),
            decreases bytes.len() - i,
        {
            let b = bytes[i];
            if b >= 0x80 || b < 0x20 || b == 0x7F || b == 0x25 || b == 0x20 || b == 0x22 || b == 0x3C
                || b == 0x3E || b == 0x60 {
                push_char(&mut r, '%');
                push_char(&mut r, hex_upper_exec(b / 16));
                push_char(&mut r, hex_upper_exec(b % 16));
            } else {
                push_char(&mut r, b as char);
            }
            proof {
                assert(bytes@.take(i + 1).drop_last() =~= bytes@.take(i as int));
            }
            i += 1;
        }
        proof {
            assert(bytes@.take(bytes@.len() as int) =~= bytes@);
        }
        r
    }

    /// The text of the fragment.
    pub open spec fn text(&self) -> Seq<char> {
        match self {
            Fragment::Anchor(s) => s@,
            Fragment::JsonPointer(p) => p.0@,
        }
    }

    /// The text of the fragment.
    pub fn as_str(&self) -> (r: &str)
        ensures
            r@ == self.text(),
    {
        match self {
            Fragment::Anchor(s) => s.as_str(),
            Fragment::JsonPointer(p) => p.0.as_str(),
        }
    }
}

/// `url` followed by `#` and the encoded fragment, or `url` alone when the
/// fragment is empty.
pub open spec fn spec_url_frag(url: Seq<char>, frag: Seq<char>) -> Seq<char> {
    if frag.len() == 0 {
        url
    } else {
        url + seq!['#'] + pct_encode(vstd::utf8::encode_utf8(frag))
    }
}

/// `url` followed by `#` and the encoded fragment `frag`, or `url` alone
/// when `frag` is empty.
pub fn url_frag_format(url: &str, frag: &str) -> (r: String)
    ensures
        r@ == spec_url_frag(url@, frag@),
{
    if frag.unicode_len() == 0 {
        url.to_string()
    } else {
        let mut s = url.to_string();
        push_char(&mut s, '#');
        push_str(&mut s, Fragment::encode(frag).as_str());
        s
    }
}

} // verus!
