//! Supported JSON-Schema drafts and their keyword tables.

use vstd::prelude::*;
use crate::formats::{first_index, lemma_first_index, slice_chars};
use crate::text::{chars_of, parse_usize, spec_parse_uint, str_eq, string_from};
use vstd::string::StrSliceExecFns;
use crate::util::{spec_split, split};

verus! {

/// Supported draft versions.
#[derive(PartialEq, Eq, Structural, Clone, Copy, Debug)]
pub enum Draft {
    /// Draft for `http://json-schema.org/draft-04/schema`
    V4,
    /// Draft for `http://json-schema.org/draft-06/schema`
    V6,
    /// Draft for `http://json-schema.org/draft-07/schema`
    V7,
    /// Draft for `https://json-schema.org/draft/2019-09/schema`
    V2019_09,
    /// Draft for `https://json-schema.org/draft/2020-12/schema`
    V2020_12,
}

/// The version number of a draft.
pub open spec fn draft_version(d: Draft) -> nat {
    match d {
        Draft::V4 => 4,
        Draft::V6 => 6,
        Draft::V7 => 7,
        Draft::V2019_09 => 2019,
        Draft::V2020_12 => 2020,
    }
}

/// The draft a metaschema url names, after its scheme `http://` or
/// `https://` is removed; `None` for other urls.
pub open spec fn draft_of_path(u: Seq<char>) -> Option<Draft> {
    if u == "json-schema.org/schema"@ {
        Some(Draft::V2020_12)
    } else if u == "json-schema.org/draft/2020-12/schema"@ {
        Some(Draft::V2020_12)
    } else if u == "json-schema.org/draft/2019-09/schema"@ {
        Some(Draft::V2019_09)
    } else if u == "json-schema.org/draft-07/schema"@ {
        Some(Draft::V7)
    } else if u == "json-schema.org/draft-06/schema"@ {
        Some(Draft::V6)
    } else if u == "json-schema.org/draft-04/schema"@ {
        Some(Draft::V4)
    } else {
        None
    }
}

/// `s` with prefix `p` removed, when it has it.
pub open spec fn strip_prefix(s: Seq<char>, p: Seq<char>) -> Seq<char> {
    if p.len() <= s.len() && s.take(p.len() as int) == p {
        s.skip(p.len() as int)
    } else {
        s
    }
}

/// The draft whose metaschema `url` names, its fragment ignored: the url
/// before any `#`, with `http://` and then `https://` stripped, must be
/// one of the known metaschema locations.
pub open spec fn spec_draft_from_url(url: Seq<char>) -> Option<Draft> {
    draft_of_path(strip_prefix(strip_prefix(spec_split(url).0, "http://"@), "https://"@))
}

/// The draft whose metaschema is exactly at `url`: as
/// `spec_draft_from_url`, but a url with a non-empty fragment names a
/// part of a metaschema, not a metaschema.
pub open spec fn spec_metaschema_draft(url: Seq<char>) -> Option<Draft> {
    if spec_split(url).1.len() != 0 {
        None
    } else {
        spec_draft_from_url(url)
    }
}

/// The first draft version in which keyword `kw` holds subschemas, and at
/// which positions; `None` for other keywords.
pub open spec fn subschema_keyword(kw: Seq<char>) -> Option<(nat, bool, bool, bool)> {
    if kw == "definitions"@ { Some((4, false, true, false)) }
    else if kw == "not"@ { Some((4, true, false, false)) }
    else if kw == "allOf"@ { Some((4, false, false, true)) }
    else if kw == "anyOf"@ { Some((4, false, false, true)) }
    else if kw == "oneOf"@ { Some((4, false, false, true)) }
    else if kw == "properties"@ { Some((4, false, true, false)) }
    else if kw == "additionalProperties"@ { Some((4, true, false, false)) }
    else if kw == "patternProperties"@ { Some((4, false, true, false)) }
    else if kw == "items"@ { Some((4, true, false, true)) }
    else if kw == "additionalItems"@ { Some((4, true, false, false)) }
    else if kw == "dependencies"@ { Some((4, false, true, false)) }
    else if kw == "propertyNames"@ { Some((6, true, false, false)) }
    else if kw == "contains"@ { Some((6, true, false, false)) }
    else if kw == "if"@ { Some((7, true, false, false)) }
    else if kw == "then"@ { Some((7, true, false, false)) }
    else if kw == "else"@ { Some((7, true, false, false)) }
    else if kw == "$defs"@ { Some((2019, false, true, false)) }
    else if kw == "dependentSchemas"@ { Some((2019, false, true, false)) }
    else if kw == "unevaluatedProperties"@ { Some((2019, true, false, false)) }
    else if kw == "unevaluatedItems"@ { Some((2019, true, false, false)) }
    else if kw == "contentSchema"@ { Some((2019, true, false, false)) }
    else if kw == "prefixItems"@ { Some((2020, false, false, true)) }
    else { None }
}

/// The subschema positions of keyword `kw` in draft version `version`.
pub open spec fn spec_positions(version: nat, kw: Seq<char>) -> (bool, bool, bool) {
    match subschema_keyword(kw) {
        Some((since, s, p, i)) => if since <= version { (s, p, i) } else { (false, false, false) },
        None => (false, false, false),
    }
}

/// Splits a json-pointer `/tok/rest...` into `tok` and `/rest...`.
pub open spec fn split_token(p: Seq<char>) -> (Seq<char>, Seq<char>) {
    let q = p.skip(1);
    let i = first_index(q, '/');
    if i < 0 {
        (q, seq![])
    } else {
        (q.take(i), q.skip(i))
    }
}

/// `split_token` yields a shorter remainder.
pub proof fn lemma_split_token(p: Seq<char>)
    requires
        p.len() > 0,
    ensures
        split_token(p).1.len() < p.len(),
        split_token(p).1.len() == 0 || split_token(p).1[0] == '/',
{
    let q = p.skip(1);
    lemma_first_index(q, '/');
}

/// Whether json-pointer `p` points to a subschema position in a schema of
/// draft version `version`.
pub open spec fn spec_is_subschema(version: nat, p: Seq<char>) -> bool
    decreases p.len(),
{
    if p.len() == 0 {
        true
    } else {
        proof {
            lemma_split_token(p);
        }
        let (tok, rest) = split_token(p);
        let (s, pr, it) = spec_positions(version, tok);
        ||| s && spec_is_subschema(version, rest)
        ||| rest.len() > 0 && pr && {
            proof {
                lemma_split_token(rest);
            }
            spec_is_subschema(version, split_token(rest).1)
        }
        ||| rest.len() > 0 && it && {
            proof {
                lemma_split_token(rest);
            }
            &&& spec_parse_uint(split_token(rest).0) matches Some(n)
            &&& n <= usize::MAX
            &&& spec_is_subschema(version, split_token(rest).1)
        }
    }
}

/// The latest supported draft.
pub fn latest() -> (r: Draft)
    ensures
        r == Draft::V2020_12,
{
    Draft::V2020_12
}

impl Draft {
    /// The draft used when a schema names none: the latest.
    pub fn default() -> (r: Draft)
        ensures
            r == Draft::V2020_12,
    {
        latest()
    }

    /// The draft's version number.
    pub fn version(&self) -> (r: usize)
        ensures
            r == draft_version(*self),
    {
        match self {
            Draft::V4 => 4,
            Draft::V6 => 6,
            Draft::V7 => 7,
            Draft::V2019_09 => 2019,
            Draft::V2020_12 => 2020,
        }
    }

    /// The draft's internal description (this library keeps none beyond
    /// the draft itself).
    pub fn internal(&self) -> (r: Draft)
        ensures
            r == *self,
    {
        *self
    }

    /// The draft whose metaschema `url` names: `http` and `https` are both
    /// accepted, and any fragment is ignored.
    pub fn from_url(url: &str) -> (r: Option<Draft>)
        ensures
            r == spec_draft_from_url(url@),
    {
        let (u, _) = split(url);
        let v = chars_of(u.as_str());
        let http: Vec<char> = chars_of("http://");
        let https: Vec<char> = chars_of("https://");
        let v1 = strip_prefix_exec(&v, &http);
        let v2 = strip_prefix_exec(&v1, &https);
        let p = string_from(&v2);
        draft_of_path_exec(p.as_str())
    }

    /// The draft whose metaschema is exactly at `url` (an empty fragment
    /// allowed), as `$schema` names one.
    pub fn from_metaschema_url(url: &str) -> (r: Option<Draft>)
        ensures
            r == spec_metaschema_draft(url@),
    {
        let (_, frag) = split(url);
        if frag.as_str().unicode_len() != 0 {
            return None;
        }
        Self::from_url(url)
    }

    /// Whether json-pointer `ptr` points to a subschema position in a
    /// schema of this draft.
    pub fn is_subschema(&self, ptr: &str) -> (r: bool)
        ensures
            r == spec_is_subschema(draft_version(*self), ptr@),
    {
        let v = chars_of(ptr);
        proof {
            assert(v@.skip(0) =~= v@);
        }
        is_subschema_from(self.version(), &v, 0)
    }

    /// The keyword holding a schema's id in this draft.
    pub fn id_keyword(&self) -> (r: &'static str)
        ensures
            r@ == if draft_version(*self) == 4 { "id"@ } else { "$id"@ },
    {
        match self {
            Draft::V4 => "id",
            _ => "$id",
        }
    }
}

fn strip_prefix_exec(v: &Vec<char>, p: &Vec<char>) -> (r: Vec<char>)
    ensures
        r@ == strip_prefix(v@, p@),
{
    if p.len() <= v.len() && crate::text::has_prefix_at(v, 0, p) {
        proof {
            assert(v@.skip(0) =~= v@);
        }
        let r = slice_chars(v, p.len(), v.len());
        proof {
            assert(r@ =~= v@.skip(p@.len() as int));
        }
        r
    } else {
        proof {
            assert(v@.skip(0) =~= v@);
        }
        slice_chars(v, 0, v.len())
    }
}

fn draft_of_path_exec(u: &str) -> (r: Option<Draft>)
    ensures
        r == draft_of_path(u@),
{
    if str_eq(u, "json-schema.org/schema") {
        Some(Draft::V2020_12)
    } else if str_eq(u, "json-schema.org/draft/2020-12/schema") {
        Some(Draft::V2020_12)
    } else if str_eq(u, "json-schema.org/draft/2019-09/schema") {
        Some(Draft::V2019_09)
    } else if str_eq(u, "json-schema.org/draft-07/schema") {
        Some(Draft::V7)
    } else if str_eq(u, "json-schema.org/draft-06/schema") {
        Some(Draft::V6)
    } else if str_eq(u, "json-schema.org/draft-04/schema") {
        Some(Draft::V4)
    } else {
        None
    }
}

/// The subschema positions of keyword `v[from..to]` in draft `version`.
pub fn positions(version: usize, v: &Vec<char>, from: usize, to: usize) -> (r: (bool, bool, bool))
    requires
        from <= to <= v@.len(),
    ensures
        r == spec_positions(version as nat, v@.subrange(from as int, to as int)),
{
    let kw = string_from(&slice_chars(v, from, to));
    let k = kw.as_str();
    let (since, s, p, i): (usize, bool, bool, bool) =
        if str_eq(k, "definitions") { (4, false, true, false) }
        else if str_eq(k, "not") { (4, true, false, false) }
        else if str_eq(k, "allOf") { (4, false, false, true) }
        else if str_eq(k, "anyOf") { (4, false, false, true) }
        else if str_eq(k, "oneOf") { (4, false, false, true) }
        else if str_eq(k, "properties") { (4, false, true, false) }
        else if str_eq(k, "additionalProperties") { (4, true, false, false) }
        else if str_eq(k, "patternProperties") { (4, false, true, false) }
        else if str_eq(k, "items") { (4, true, false, true) }
        else if str_eq(k, "additionalItems") { (4, true, false, false) }
        else if str_eq(k, "dependencies") { (4, false, true, false) }
        else if str_eq(k, "propertyNames") { (6, true, false, false) }
        else if str_eq(k, "contains") { (6, true, false, false) }
        else if str_eq(k, "if") { (7, true, false, false) }
        else if str_eq(k, "then") { (7, true, false, false) }
        else if str_eq(k, "else") { (7, true, false, false) }
        else if str_eq(k, "$defs") { (2019, false, true, false) }
        else if str_eq(k, "dependentSchemas") { (2019, false, true, false) }
        else if str_eq(k, "unevaluatedProperties") { (2019, true, false, false) }
        else if str_eq(k, "unevaluatedItems") { (2019, true, false, false) }
        else if str_eq(k, "contentSchema") { (2019, true, false, false) }
        else if str_eq(k, "prefixItems") { (2020, false, false, true) }
        else { (usize::MAX, false, false, false) };
    if since <= version {
        (s, p, i)
    } else {
        (false, false, false)
    }
}

/// The end of the token starting after the `/` at `from`.
fn token_end(v: &Vec<char>, from: usize) -> (r: usize)
    requires
        from < v@.len(),
    ensures
        from < r <= v@.len(),
        split_token(v@.skip(from as int)).0 == v@.subrange(from + 1, r as int),
        split_token(v@.skip(from as int)).1 == v@.skip(r as int),
{
    let ghost q = v@.skip(from as int).skip(1);
    proof {
        assert(q =~= v@.subrange(from + 1, v@.len() as int));
        lemma_first_index(q, '/');
    }
    assert(v@.len() == v.len());
    let mut i = from + 1;
    while i < v.len() && v[i] != '/'
        invariant
            from < i <= v@.len(),
            q == v@.subrange(from + 1, v@.len() as int),
            forall|j: int| from + 1 <= j < i ==> v@[j] != '/',
        decreases v.len() - i,
    {
        i += 1;
    }
    proof {
        lemma_first_index(q, '/');
        let f = first_index(q, '/');
        if i < v@.len() {
            assert(q[i - from - 1] == '/');
            if f >= 0 && f < i - from - 1 {
                assert(q[f] == v@[from + 1 + f]);
            }
            assert(f == i - from - 1);
            assert(q.take(f) =~= v@.subrange(from + 1, i as int));
            assert(q.skip(f) =~= v@.skip(i as int));
        } else {
            if f >= 0 {
                assert(q[f] == v@[from + 1 + f]);
            }
            assert(q =~= v@.subrange(from + 1, i as int));
            assert(v@.skip(i as int) =~= Seq::<char>::empty());
        }
    }
    i
}

/// `spec_is_subschema` of `v[from..]`.
fn is_subschema_from(version: usize, v: &Vec<char>, from: usize) -> (r: bool)
    requires
        from <= v@.len(),
    ensures
        r == spec_is_subschema(version as nat, v@.skip(from as int)),
    decreases v@.len() - from,
{
    if from == v.len() {
        return true;
    }
    let ghost p = v@.skip(from as int);
    let e = token_end(v, from);
    let (s, pr, it) = positions(version, v, from + 1, e);
    proof {
        lemma_split_token(p);
    }
    if s && is_subschema_from(version, v, e) {
        return true;
    }
    if e < v.len() {
        proof {
            assert(v@.skip(e as int)[0] == '/');
            assert(v@[e as int] == '/');
        }
        let e2 = token_end(v, e);
        if pr {
            if is_subschema_from(version, v, e2) {
                return true;
            }
        }
        if it {
            if parse_usize(v, e + 1, e2).is_some() && is_subschema_from(version, v, e2) {
                return true;
            }
        }
    } else {
        proof {
            assert(v@.skip(e as int).len() == 0);
        }
    }
    false
}

} // verus!
