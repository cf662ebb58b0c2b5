//! The library's calls into outside crates, each behind a trusted item.

use vstd::prelude::*;
use base64::Engine;

verus! {

// ---------------------------------------------------------------------
// fluent-uri

/// What `fluent_uri::Uri::parse` yields for `s`: `None` when it fails,
/// else whether the parsed reference is relative.
pub uninterp spec fn spec_uri_parse(s: Seq<char>) -> Option<bool>;

/// Whether `s` is short enough for fluent-uri: its UTF-8 form is at most
/// `i32::MAX` bytes long (longer input makes `Uri::parse` panic).
pub open spec fn uri_len_ok(s: Seq<char>) -> bool {
    crate::formats::utf8_len(s) <= 0x7fff_ffff
}

/// `fluent_uri::Uri::parse(s)`, then `Uri::is_relative`.
///
/// Trusted: the outcome is `spec_uri_parse(s)`; the error message is
/// fluent-uri's and is not stated. Longer input than `uri_len_ok` allows
/// makes fluent-uri panic, so it is left out.
#[verifier::external_body]
pub fn uri_parse(s: &str) -> (r: Result<bool, String>)
    requires
        uri_len_ok(s@),
    ensures
        r matches Ok(rel) ==> spec_uri_parse(s@) == Some(rel),
        r is Err ==> spec_uri_parse(s@) is None,
{
    match fluent_uri::Uri::parse(s) {
        Ok(u) => Ok(u.is_relative()),
        Err(e) => Err(e.to_string()),
    }
}

// ---------------------------------------------------------------------
// url

/// Why `url::Url::parse` failed.
pub enum UrlError {
    /// The input is a relative reference and no base was given.
    RelativeWithoutBase,
    /// Any other failure, with url's message.
    Other(String),
}

/// What `url::Url::parse` yields for `s`: the serialized url, or whether
/// the failure was `RelativeUrlWithoutBase`.
pub uninterp spec fn spec_url_parse(s: Seq<char>) -> Result<Seq<char>, bool>;

/// `url::Url::parse(s)`, serialized.
///
/// Trusted: the outcome is `spec_url_parse(s)` (with the
/// `RelativeUrlWithoutBase` error told apart); messages are url's.
#[verifier::external_body]
pub fn url_parse(s: &str) -> (r: Result<String, UrlError>)
    ensures
        r matches Ok(u) ==> (spec_url_parse(s@) matches Ok(x) && x == u@),
        r matches Err(e) ==> (spec_url_parse(s@) matches Err(rel) && rel == (e is RelativeWithoutBase)),
{
    match url::Url::parse(s) {
        Ok(u) => Ok(u.into()),
        Err(url::ParseError::RelativeUrlWithoutBase) => Err(UrlError::RelativeWithoutBase),
        Err(e) => Err(UrlError::Other(e.to_string())),
    }
}

/// What `url::Url::join` yields for `input` against the url `base`
/// (`None` when `base` does not parse or the join fails).
pub uninterp spec fn spec_url_join(base: Seq<char>, input: Seq<char>) -> Option<Seq<char>>;

/// `url::Url::parse(base)` then `Url::join(input)`, serialized.
///
/// Trusted: the outcome is `spec_url_join(base, input)`; messages are url's.
#[verifier::external_body]
pub fn url_join(base: &str, input: &str) -> (r: Result<String, String>)
    ensures
        r matches Ok(u) ==> spec_url_join(base@, input@) == Some(u@),
        r is Err ==> spec_url_join(base@, input@) is None,
{
    let b = url::Url::parse(base).map_err(|e| e.to_string())?;
    b.join(input).map(|u| u.into()).map_err(|e| e.to_string())
}

/// The path of the url `u` (`None` when `u` does not parse).
pub uninterp spec fn spec_url_path(u: Seq<char>) -> Option<Seq<char>>;

/// `url::Url::parse(u)` then `Url::path`.
///
/// Trusted: the outcome is `spec_url_path(u)`.
#[verifier::external_body]
pub fn url_path(u: &str) -> (r: Option<String>)
    ensures
        r matches Some(p) ==> spec_url_path(u@) == Some(p@),
        r is None ==> spec_url_path(u@) is None,
{
    match url::Url::parse(u) {
        Ok(x) => Some(x.path().to_owned()),
        Err(_) => None,
    }
}

// ---------------------------------------------------------------------
// idna

/// What `idna::domain_to_ascii_strict` yields for `s` (`None` on error).
pub uninterp spec fn spec_idna_to_ascii_strict(s: Seq<char>) -> Option<Seq<char>>;

/// `idna::domain_to_ascii_strict(s)`.
///
/// Trusted: the outcome is `spec_idna_to_ascii_strict(s)`; the error
/// message is idna's.
#[verifier::external_body]
pub fn idna_to_ascii_strict(s: &str) -> (r: Result<String, String>)
    ensures
        r matches Ok(a) ==> spec_idna_to_ascii_strict(s@) == Some(a@),
        r is Err ==> spec_idna_to_ascii_strict(s@) is None,
{
    idna::domain_to_ascii_strict(s).map_err(|e| e.to_string())
}

/// The string `idna::domain_to_unicode` yields for `s`.
pub uninterp spec fn spec_idna_to_unicode(s: Seq<char>) -> Seq<char>;

/// `idna::domain_to_unicode(s).0`.
///
/// Trusted: the result is `spec_idna_to_unicode(s)`.
#[verifier::external_body]
pub fn idna_to_unicode(s: &str) -> (r: String)
    ensures
        r@ == spec_idna_to_unicode(s@),
{
    idna::domain_to_unicode(s).0
}

} // verus!

verus! {

// ---------------------------------------------------------------------
// percent-encoding

/// The value of ASCII hex digit `b`.
pub open spec fn hex_val(b: u8) -> Option<u8> {
    if 0x30 <= b <= 0x39 {
        Some((b - 0x30) as u8)
    } else if 0x61 <= b <= 0x66 {
        Some((b - 0x61 + 10) as u8)
    } else if 0x41 <= b <= 0x46 {
        Some((b - 0x41 + 10) as u8)
    } else {
        None
    }
}

/// Percent-decoding of bytes: `%` followed by two hex digits stands for
/// that byte; every other byte stands for itself.
pub open spec fn pct_decode(b: Seq<u8>) -> Seq<u8>
    decreases b.len(),
{
    if b.len() == 0 {
        seq![]
    } else if b[0] == 0x25 && b.len() >= 3 && hex_val(b[1]) is Some && hex_val(b[2]) is Some {
        seq![(hex_val(b[1])->0 * 16 + hex_val(b[2])->0) as u8] + pct_decode(b.skip(3))
    } else {
        seq![b[0]] + pct_decode(b.skip(1))
    }
}

/// `percent_encoding::percent_decode_str(s).decode_utf8()`.
///
/// Trusted: the bytes of `s` are percent-decoded as `pct_decode` states,
/// and the result is their UTF-8 decoding, an error exactly when they are
/// not valid UTF-8 (as the crate's source shows).
#[verifier::external_body]
pub fn percent_decode_utf8(s: &str) -> (r: Result<String, String>)
    ensures
        r matches Ok(t) ==> vstd::utf8::valid_utf8(pct_decode(vstd::utf8::encode_utf8(s@)))
            && t@ == vstd::utf8::decode_utf8(pct_decode(vstd::utf8::encode_utf8(s@))),
        r is Err ==> !vstd::utf8::valid_utf8(pct_decode(vstd::utf8::encode_utf8(s@))),
{
    match percent_encoding::percent_decode_str(s).decode_utf8() {
        Ok(t) => Ok(t.into_owned()),
        Err(e) => Err(e.to_string()),
    }
}

} // verus!

verus! {

// ---------------------------------------------------------------------
// regex

/// `regex::Regex`, carried as an opaque value.
#[verifier::external_type_specification]
#[verifier::external_body]
pub struct ExRegex(regex::Regex);

/// Whether `regex::Regex::new` accepts pattern `p`.
pub uninterp spec fn spec_regex_compiles(p: Seq<char>) -> bool;

/// Whether the regex compiled from `p` matches somewhere in `s`
/// (`regex::Regex::is_match`).
pub uninterp spec fn spec_regex_is_match(p: Seq<char>, s: Seq<char>) -> bool;

/// A compiled regular expression together with its source.
pub struct Pattern {
    source: String,
    compiled: regex::Regex,
}

impl Pattern {
    /// The source the pattern was compiled from.
    pub closed spec fn source_view(&self) -> Seq<char> {
        self.source@
    }

    /// `regex::Regex::new(p)`.
    ///
    /// Trusted: succeeds exactly when `spec_regex_compiles(p)`, and the
    /// pattern keeps `p` as its source; the message is regex's.
    #[verifier::external_body]
    pub fn new(p: &str) -> (r: Result<Pattern, String>)
        ensures
            r matches Ok(x) ==> x.source_view() == p@ && spec_regex_compiles(p@),
            r is Err ==> !spec_regex_compiles(p@),
    {
        match regex::Regex::new(p) {
            Ok(compiled) => Ok(Pattern { source: p.to_owned(), compiled }),
            Err(e) => Err(e.to_string()),
        }
    }

    /// `regex::Regex::is_match(s)`.
    ///
    /// Trusted: the result is `spec_regex_is_match` of the source and `s`;
    /// this holds because the only constructor compiles the source.
    #[verifier::external_body]
    pub fn is_match(&self, s: &str) -> (r: bool)
        ensures
            r == spec_regex_is_match(self.source_view(), s@),
    {
        self.compiled.is_match(s)
    }

    /// The source of the pattern.
    pub fn as_str(&self) -> (r: &str)
        ensures
            r@ == self.source_view(),
    {
        self.source.as_str()
    }
}

// ---------------------------------------------------------------------
// base64

/// What the standard base64 engine decodes `s` to (`None` on error).
pub uninterp spec fn spec_base64_decode(s: Seq<char>) -> Option<Seq<u8>>;

/// `base64::engine::general_purpose::STANDARD.decode(s)`.
///
/// Trusted: the outcome is `spec_base64_decode(s)`; the message is base64's.
#[verifier::external_body]
pub fn base64_decode(s: &str) -> (r: Result<Vec<u8>, String>)
    ensures
        r matches Ok(b) ==> spec_base64_decode(s@) == Some(b@),
        r is Err ==> spec_base64_decode(s@) is None,
{
    base64::engine::general_purpose::STANDARD.decode(s).map_err(|e| e.to_string())
}

} // verus!

verus! {

// ---------------------------------------------------------------------
// serde_json

/// The lowercase hexadecimal digit of `d` (below 16).
pub open spec fn hex_digit(d: u32) -> char {
    if d < 10 { ((48 + d) as u32) as char } else { ((87 + d) as u32) as char }
}

/// How a JSON string writes the character `c`: `"` and `\` escaped, the
/// controls with a short escape as such (`\b \f \n \r \t`), the other
/// controls below 0x20 as `\u00XX` in lowercase hex, anything else as it
/// is.
pub open spec fn json_char_escape(c: char) -> Seq<char> {
    let n = c as u32;
    if c == '"' {
        seq!['\\', '"']
    } else if c == '\\' {
        seq!['\\', '\\']
    } else if n == 8 {
        seq!['\\', 'b']
    } else if n == 12 {
        seq!['\\', 'f']
    } else if c == '\n' {
        seq!['\\', 'n']
    } else if c == '\r' {
        seq!['\\', 'r']
    } else if c == '\t' {
        seq!['\\', 't']
    } else if n < 32 {
        seq!['\\', 'u', '0', '0', hex_digit(n / 16), hex_digit(n % 16)]
    } else {
        seq![c]
    }
}

/// The characters of `s`, each written as a JSON string writes it.
pub open spec fn json_escape(s: Seq<char>) -> Seq<char>
    decreases s.len(),
{
    if s.len() == 0 {
        seq![]
    } else {
        json_char_escape(s[0]) + json_escape(s.skip(1))
    }
}

/// The JSON text `serde_json::to_string` gives for the string `s`: `s`
/// escaped between double quotes.
pub open spec fn spec_json_quote(s: Seq<char>) -> Seq<char> {
    seq!['"'] + json_escape(s) + seq!['"']
}

/// `serde_json::to_string(s)` for a string: `s` quoted and escaped as a
/// JSON string.
///
/// Trusted: the result is `spec_json_quote(s)`, as the crate's escape
/// table and escape writer show; serializing a string to a `String` cannot
/// fail, and the unreachable error arm gives the empty string.
#[verifier::external_body]
pub fn json_quote(s: &str) -> (r: String)
    ensures
        r@ == spec_json_quote(s@),
{
    match serde_json::to_string(s) {
        Ok(t) => t,
        Err(_) => String::new(),
    }
}

} // verus!
