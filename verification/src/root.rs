//! Schema documents: their resources, anchors and how locations within
//! them resolve.

use vstd::prelude::*;
use crate::draft::{Draft, draft_version, positions, spec_positions};
use crate::errors::CompileError;
use crate::json::{JsonValue, obj_get, obj_lookup};
use crate::outside::{spec_url_join, url_join};
use crate::text::{chars_of, has_prefix_at, parse_usize, starts_with, string_from, push_char, push_str, str_eq, string_from_range, spec_parse_uint};
use crate::util::{Fragment, JsonPointer, spec_unescape, split, unescape, url_frag_format};
use vstd::string::StrSliceExecFns;

verus! {

/// A schema resource: the subschema at `ptr` that has its own id.
#[derive(Debug)]
pub struct Resource {
    /// Where the resource is within its document.
    pub ptr: JsonPointer,
    /// Its absolute id (a url without fragment).
    pub id: String,
    /// Its anchors and where they point within the document.
    pub anchors: Vec<(String, JsonPointer)>,
    /// The names of its dynamic anchors.
    pub dynamic_anchors: Vec<String>,
}

impl Resource {
    /// A resource at `ptr` with id `id` and no anchors.
    pub fn new(ptr: JsonPointer, id: String) -> (r: Resource)
        ensures
            r.ptr.0@ == ptr.0@,
            r.id@ == id@,
            r.anchors@.len() == 0,
            r.dynamic_anchors@.len() == 0,
    {
        Resource { ptr, id, anchors: Vec::new(), dynamic_anchors: Vec::new() }
    }
}

/// The position of the first resource at pointer `p`.
pub open spec fn find_ptr(rs: Seq<Resource>, p: Seq<char>) -> Option<int>
    decreases rs.len(),
{
    if rs.len() == 0 {
        None
    } else {
        match find_ptr(rs.drop_last(), p) {
            Some(i) => Some(i),
            None => if rs.last().ptr.0@ == p { Some(rs.len() - 1) } else { None },
        }
    }
}

/// The position of the first resource with id `id`.
pub open spec fn find_id(rs: Seq<Resource>, id: Seq<char>) -> Option<int>
    decreases rs.len(),
{
    if rs.len() == 0 {
        None
    } else {
        match find_id(rs.drop_last(), id) {
            Some(i) => Some(i),
            None => if rs.last().id@ == id { Some(rs.len() - 1) } else { None },
        }
    }
}

/// `find_ptr` finds the first resource at `p`.
pub proof fn lemma_find_ptr(rs: Seq<Resource>, p: Seq<char>)
    ensures
        match find_ptr(rs, p) {
            Some(k) => 0 <= k < rs.len() && rs[k].ptr.0@ == p && forall|j: int| 0 <= j < k ==> (#[trigger] rs[j]).ptr.0@ != p,
            None => forall|j: int| 0 <= j < rs.len() ==> (#[trigger] rs[j]).ptr.0@ != p,
        },
    decreases rs.len(),
{
    if rs.len() > 0 {
        let d = rs.drop_last();
        lemma_find_ptr(d, p);
        assert forall|j: int| 0 <= j < d.len() implies d[j] == rs[j] by {}
    }
}

/// `find_id` finds the first resource with id `id`.
pub proof fn lemma_find_id(rs: Seq<Resource>, id: Seq<char>)
    ensures
        match find_id(rs, id) {
            Some(k) => 0 <= k < rs.len() && rs[k].id@ == id && forall|j: int| 0 <= j < k ==> (#[trigger] rs[j]).id@ != id,
            None => forall|j: int| 0 <= j < rs.len() ==> (#[trigger] rs[j]).id@ != id,
        },
    decreases rs.len(),
{
    if rs.len() > 0 {
        let d = rs.drop_last();
        lemma_find_id(d, id);
        assert forall|j: int| 0 <= j < d.len() implies d[j] == rs[j] by {}
    }
}

/// The position of the first resource at `p`.
fn position_of_ptr(rs: &Vec<Resource>, p: &str) -> (r: Option<usize>)
    ensures
        match r {
            Some(i) => find_ptr(rs@, p@) == Some(i as int) && i < rs@.len() && rs@[i as int].ptr.0@ == p@,
            None => find_ptr(rs@, p@) is None,
        },
{
    let mut i: usize = 0;
    while i < rs.len()
        invariant
            i <= rs@.len(),
            forall|j: int| 0 <= j < i ==> (#[trigger] rs@[j]).ptr.0@ != p@,
        decreases rs.len() - i,
    {
        if str_eq(rs[i].ptr.0.as_str(), p) {
            proof {
                lemma_find_ptr(rs@, p@);
            }
            return Some(i);
        }
        i += 1;
    }
    proof {
        lemma_find_ptr(rs@, p@);
    }
    None
}

/// The position of the first resource with id `id`.
fn position_of_id(rs: &Vec<Resource>, id: &str) -> (r: Option<usize>)
    ensures
        match r {
            Some(i) => find_id(rs@, id@) == Some(i as int) && i < rs@.len() && rs@[i as int].id@ == id@,
            None => find_id(rs@, id@) is None,
        },
{
    let mut i: usize = 0;
    while i < rs.len()
        invariant
            i <= rs@.len(),
            forall|j: int| 0 <= j < i ==> (#[trigger] rs@[j]).id@ != id@,
        decreases rs.len() - i,
    {
        if str_eq(rs[i].id.as_str(), id) {
            proof {
                lemma_find_id(rs@, id@);
            }
            return Some(i);
        }
        i += 1;
    }
    proof {
        lemma_find_id(rs@, id@);
    }
    None
}

/// The position of the last `/` in `p`.
pub open spec fn last_slash(p: Seq<char>) -> Option<int> {
    if exists|i: int| 0 <= i < p.len() && p[i] == '/' {
        Some(choose|i: int| 0 <= i < p.len() && p[i] == '/' && forall|j: int| i < j < p.len() ==> p[j] != '/')
    } else {
        None
    }
}

/// The resource holding the location `p`: the one at `p`, else at the
/// longest prefix of `p` cut before a `/`, else the document's.
pub open spec fn resource_at(rs: Seq<Resource>, p: Seq<char>) -> int
    decreases p.len(),
{
    match find_ptr(rs, p) {
        Some(i) => i,
        None => match last_slash(p) {
            Some(k) => if 0 <= k < p.len() { resource_at(rs, p.take(k)) } else { 0 },
            None => match find_ptr(rs, seq![]) {
                Some(i) => i,
                None => 0,
            },
        },
    }
}

/// A schema document, with the resources found in it.
pub struct Root {
    pub draft: Draft,
    pub url: String,
    pub doc: JsonValue,
    pub resources: Vec<Resource>,
    /// The vocabularies its metaschema requires, if it names them.
    pub meta_vocabs: Option<Vec<String>>,
}

/// The vocabularies a draft uses when the metaschema names none.
pub open spec fn default_vocab(version: nat, name: Seq<char>) -> bool {
    if version == 2019 {
        name == "core"@ || name == "applicator"@ || name == "validation"@
    } else if version >= 2020 {
        name == "core"@ || name == "applicator"@ || name == "unevaluated"@ || name == "validation"@
    } else {
        false
    }
}

/// The prefix of the vocabulary urls of a draft (none before 2019-09).
pub open spec fn vocab_prefix(version: nat) -> Seq<char> {
    if version == 2019 {
        "https://json-schema.org/draft/2019-09/vocab/"@
    } else if version >= 2020 {
        "https://json-schema.org/draft/2020-12/vocab/"@
    } else {
        seq![]
    }
}

/// Whether `name` is one of the vocabularies a draft knows.
pub open spec fn known_vocab(version: nat, name: Seq<char>) -> bool {
    if version == 2019 {
        name == "core"@ || name == "applicator"@ || name == "validation"@ || name == "meta-data"@
            || name == "format"@ || name == "content"@
    } else if version >= 2020 {
        name == "core"@ || name == "applicator"@ || name == "unevaluated"@ || name == "validation"@
            || name == "meta-data"@ || name == "format-annotation"@ || name == "format-assertion"@
            || name == "content"@
    } else {
        false
    }
}

/// The vocabulary that url `key` names in a draft, if it is a known one.
pub open spec fn vocab_of_url(version: nat, key: Seq<char>) -> Option<Seq<char>> {
    let p = vocab_prefix(version);
    if starts_with(key, p) && known_vocab(version, key.skip(p.len() as int)) {
        Some(key.skip(p.len() as int))
    } else {
        None
    }
}

/// The vocabularies required by `$vocabulary` members `m` (those set to
/// `true`), in order; or the url of the first required one that is not
/// known.
pub open spec fn required_vocabs(version: nat, m: Seq<(String, JsonValue)>) -> Result<Seq<Seq<char>>, Seq<char>>
    decreases m.len(),
{
    if m.len() == 0 {
        Ok(seq![])
    } else {
        let rest = required_vocabs(version, m.skip(1));
        if m[0].1 == JsonValue::Bool(true) {
            match vocab_of_url(version, m[0].0@) {
                Some(n) => match rest {
                    Ok(ns) => Ok(seq![n] + ns),
                    Err(e) => Err(e),
                },
                None => Err(m[0].0@),
            }
        } else {
            rest
        }
    }
}

/// `acc` in front of the names of `r`, or its error.
pub open spec fn prepend_vocabs(acc: Seq<Seq<char>>, r: Result<Seq<Seq<char>>, Seq<char>>) -> Result<Seq<Seq<char>>, Seq<char>> {
    match r {
        Ok(ns) => Ok(acc + ns),
        Err(e) => Err(e),
    }
}

/// What the vocabulary check of a metaschema document gives under a
/// draft: `Ok(None)` before 2019-09 or without a `$vocabulary` object,
/// else the required vocabularies, or (as `Err`) the url of the first
/// required vocabulary the draft does not know.
pub open spec fn spec_reqd_vocabs(version: nat, doc: JsonValue) -> Result<Option<Seq<Seq<char>>>, Seq<char>> {
    if version < 2019 {
        Ok(None)
    } else {
        match doc {
            JsonValue::Object(o) => match obj_get(o@, "$vocabulary"@) {
                Some(JsonValue::Object(v)) => match required_vocabs(version, v@) {
                    Ok(ns) => Ok(Some(ns)),
                    Err(k) => Err(k),
                },
                _ => Ok(None),
            },
            _ => Ok(None),
        }
    }
}

/// Whether `r` reports what `spec_reqd_vocabs` gives, `url` being the
/// metaschema's url.
pub open spec fn reqd_vocabs_reported(r: Result<Option<Vec<String>>, CompileError>, url: Seq<char>, want: Result<Option<Seq<Seq<char>>>, Seq<char>>) -> bool {
    match want {
        Ok(None) => r == Ok::<Option<Vec<String>>, CompileError>(None),
        Ok(Some(ns)) => r matches Ok(Some(v)) && v@.map_values(|t: String| t@) == ns,
        Err(k) => r matches Err(CompileError::UnsupprtedVocabulary { url: u, vocabulary: voc }) && u@ == url && voc@ == k,
    }
}

/// The vocabularies that metaschema `doc` at `url` requires under `draft`.
pub fn reqd_vocabs(draft: Draft, url: &str, doc: &JsonValue) -> (r: Result<Option<Vec<String>>, CompileError>)
    ensures
        reqd_vocabs_reported(r, url@, spec_reqd_vocabs(draft_version(draft), *doc)),
{
    let version = draft.version();
    if version < 2019 {
        return Ok(None);
    }
    let obj = match doc {
        JsonValue::Object(o) => o,
        _ => return Ok(None),
    };
    proof {
        reveal_strlit("$vocabulary");
    }
    let m = match obj_lookup(obj, "$vocabulary") {
        Some(JsonValue::Object(m)) => m,
        _ => return Ok(None),
    };
    let prefix = if version == 2019 {
        chars_of("https://json-schema.org/draft/2019-09/vocab/")
    } else {
        chars_of("https://json-schema.org/draft/2020-12/vocab/")
    };
    let mut out: Vec<String> = Vec::new();
    let mut i: usize = 0;
    proof {
        assert(m@.skip(0) =~= m@);
        assert(out@.map_values(|t: String| t@) =~= Seq::<Seq<char>>::empty());
    }
    while i < m.len()
        invariant
            i <= m@.len(),
            version == draft_version(draft),
            version >= 2019,
            prefix@ == vocab_prefix(version as nat),
            *doc == JsonValue::Object(*obj),
            obj_get(obj@, "$vocabulary"@) == Some(JsonValue::Object(*m)),
            required_vocabs(version as nat, m@) == prepend_vocabs(out@.map_values(|t: String| t@), required_vocabs(version as nat, m@.skip(i as int))),
        decreases m.len() - i,
    {
        let ghost rest = m@.skip(i as int);
        proof {
            assert(rest[0] == m@[i as int]);
            assert(rest.skip(1) =~= m@.skip(i + 1));
        }
        let (key, val) = &m[i];
        let required = match val {
            JsonValue::Bool(b) => *b,
            _ => false,
        };
        if required {
            let k = chars_of(key.as_str());
            let name = if has_prefix_at(&k, 0, &prefix) {
                proof {
                    assert(k@.skip(0) =~= k@);
                }
                Some(crate::formats::slice_chars(&k, prefix.len(), k.len()))
            } else {
                proof {
                    assert(k@.skip(0) =~= k@);
                }
                None
            };
            let known = match &name {
                Some(n) => {
                    let t = string_from(n);
                    known_vocab_exec(version, t.as_str())
                },
                None => false,
            };
            if !known {
                proof {
                    assert(vocab_of_url(version as nat, key@) is None);
                    assert(rest[0].1 == JsonValue::Bool(true));
                    assert(required_vocabs(version as nat, rest) == Err::<Seq<Seq<char>>, Seq<char>>(key@));
                    assert(required_vocabs(version as nat, m@) == Err::<Seq<Seq<char>>, Seq<char>>(key@));
                    assert(obj_get(obj@, "$vocabulary"@) == Some(JsonValue::Object(*m)));
                    assert(spec_reqd_vocabs(draft_version(draft), *doc) == Err::<Option<Seq<Seq<char>>>, Seq<char>>(key@));
                }
                return Err(CompileError::UnsupprtedVocabulary { url: url.to_string(), vocabulary: string_from(&k) });
            }
            let t = match name {
                Some(n) => string_from(&n),
                None => String::new(),
            };
            proof {
                let acc = out@.map_values(|t: String| t@);
                assert(vocab_of_url(version as nat, key@) == Some(t@));
                assert(out@.push(t).map_values(|t: String| t@) =~= acc + seq![t@]);
                assert(acc + seq![t@] + seq![] =~= acc + seq![t@]);
                match required_vocabs(version as nat, m@.skip(i + 1)) {
                    Ok(ns) => { assert(acc + (seq![t@] + ns) =~= acc + seq![t@] + ns); },
                    Err(_) => {},
                }
            }
            out.push(t);
        } else {
            proof {
                assert(m@[i as int].1 != JsonValue::Bool(true));
            }
        }
        i += 1;
    }
    proof {
        assert(m@.skip(i as int) =~= Seq::<(String, JsonValue)>::empty());
        assert(out@.map_values(|t: String| t@) + seq![] =~= out@.map_values(|t: String| t@));
    }
    Ok(Some(out))
}

/// Whether `name` is a vocabulary that a draft of `version` knows.
fn known_vocab_exec(version: usize, name: &str) -> (r: bool)
    ensures
        r == known_vocab(version as nat, name@),
{
    proof {
        reveal_strlit("core");
        reveal_strlit("applicator");
        reveal_strlit("validation");
        reveal_strlit("meta-data");
        reveal_strlit("format");
        reveal_strlit("content");
        reveal_strlit("unevaluated");
        reveal_strlit("format-annotation");
        reveal_strlit("format-assertion");
    }
    if version == 2019 {
        str_eq(name, "core") || str_eq(name, "applicator") || str_eq(name, "validation")
            || str_eq(name, "meta-data") || str_eq(name, "format") || str_eq(name, "content")
    } else if version >= 2020 {
        str_eq(name, "core") || str_eq(name, "applicator") || str_eq(name, "unevaluated")
            || str_eq(name, "validation") || str_eq(name, "meta-data") || str_eq(name, "format-annotation")
            || str_eq(name, "format-assertion") || str_eq(name, "content")
    } else {
        false
    }
}

impl Root {
    /// The vocabularies this document requires of the schemas that name
    /// it as their metaschema.
    pub fn get_reqd_vocabs(&self) -> (r: Result<Option<Vec<String>>, CompileError>)
        ensures
            reqd_vocabs_reported(r, self.url@, spec_reqd_vocabs(draft_version(self.draft), self.doc)),
    {
        reqd_vocabs(self.draft, self.url.as_str(), &self.doc)
    }
}

/// Whether the root document has a resource at the empty pointer.
pub open spec fn has_root_resource(rs: Seq<Resource>) -> bool {
    find_ptr(rs, seq![]) is Some
}

impl Root {
    #[verifier::loop_isolation(false)]
    /// Whether keywords of vocabulary `name` apply: always before draft
    /// 2019-09 and for `core`; else those the metaschema requires, or the
    /// draft's defaults.
    pub fn has_vocab(&self, name: &str) -> (r: bool)
        ensures
            r == (draft_version(self.draft) < 2019 || name@ == "core"@ || match self.meta_vocabs {
                Some(v) => exists|i: int| 0 <= i < v@.len() && (#[trigger] v@[i])@ == name@,
                None => default_vocab(draft_version(self.draft), name@),
            }),
    {
        proof {
            reveal_strlit("core");
            reveal_strlit("applicator");
            reveal_strlit("validation");
            reveal_strlit("unevaluated");
        }
        if self.draft.version() < 2019 || str_eq(name, "core") {
            return true;
        }
        match &self.meta_vocabs {
            Some(vocabs) => {
                let mut i: usize = 0;
                while i < vocabs.len()
                    invariant
                        i <= vocabs@.len(),
                        forall|j: int| 0 <= j < i ==> (#[trigger] vocabs@[j])@ != name@,
                    decreases vocabs.len() - i,
                {
                    if str_eq(vocabs[i].as_str(), name) {
                        proof {
                            assert(vocabs@[i as int]@ == name@);
                        }
                        return true;
                    }
                    i += 1;
                }
                false
            },
            None => {
                if self.draft.version() == 2019 {
                    str_eq(name, "core") || str_eq(name, "applicator") || str_eq(name, "validation")
                } else {
                    str_eq(name, "core") || str_eq(name, "applicator") || str_eq(name, "unevaluated")
                        || str_eq(name, "validation")
                }
            },
        }
    }

    /// The position of the resource holding location `ptr` (see
    /// `resource_at`).
    pub fn resource(&self, ptr: &str) -> (r: usize)
        requires
            has_root_resource(self.resources@),
        ensures
            r == resource_at(self.resources@, ptr@),
            r < self.resources@.len(),
    {
        let v = chars_of(ptr);
        let mut end = v.len();
        proof {
            assert(v@.take(end as int) =~= v@);
        }
        loop
            invariant
                end <= v@.len(),
                has_root_resource(self.resources@),
                resource_at(self.resources@, ptr@) == resource_at(self.resources@, v@.take(end as int)),
            decreases end,
        {
            let p = string_from_range(&v, 0, end);
            proof {
                assert(p@ =~= v@.take(end as int));
            }
            if let Some(i) = position_of_ptr(&self.resources, p.as_str()) {
                proof {
                    assert(resource_at(self.resources@, v@.take(end as int)) == i);
                }
                return i;
            }
            // cut at the last '/'
            let mut k = end;
            while k > 0 && v[k - 1] != '/'
                invariant
                    k <= end,
                    end <= v@.len(),
                    forall|j: int| k <= j < end ==> v@[j] != '/',
                decreases k,
            {
                k -= 1;
            }
            let ghost t = v@.take(end as int);
            if k == 0 {
                proof {
                    assert forall|j: int| 0 <= j < t.len() implies t[j] != '/' by {}
                    assert(last_slash(t) is None);
                }
                let root = position_of_ptr(&self.resources, "");
                proof {
                    reveal_strlit("");
                }
                match root {
                    Some(i) => {
                        proof {
                            assert(""@ =~= Seq::<char>::empty());
                            assert(resource_at(self.resources@, t) == i);
                        }
                        return i;
                    },
                    None => {
                        proof {
                            assert(""@ =~= Seq::<char>::empty());
                        }
                        return 0;
                    },
                }
            }
            proof {
                let s = k - 1;
                assert(t[s as int] == '/');
                let c = choose|i: int| 0 <= i < t.len() && t[i] == '/' && forall|j: int| i < j < t.len() ==> t[j] != '/';
                assert(c == s as int) by {
                    if c < s {
                        assert(t[s as int] == '/');
                    } else if c > s {
                    }
                }
                assert(t.take(s as int) =~= v@.take(s as int));
            }
            end = k - 1;
        }
    }

    /// The position of the resource exactly at `ptr`, if any.
    pub fn resource_exactly_at(&self, ptr: &str) -> (r: Option<usize>)
        ensures
            match r {
                Some(i) => i < self.resources@.len() && self.resources@[i as int].ptr.0@ == ptr@,
                None => find_ptr(self.resources@, ptr@) is None,
            },
    {
        position_of_ptr(&self.resources, ptr)
    }

    /// The id of the resource holding location `ptr`.
    pub fn base_url(&self, ptr: &str) -> (r: &str)
        requires
            has_root_resource(self.resources@),
        ensures
            r@ == self.resources@[resource_at(self.resources@, ptr@)].id@,
    {
        let i = self.resource(ptr);
        self.resources[i].id.as_str()
    }
}

} // verus!

verus! {

/// The position of the first `/` at or after `from`, or the length.
pub open spec fn seg_end(p: Seq<char>, from: int) -> int
    decreases p.len() - from,
{
    if from >= p.len() {
        p.len() as int
    } else if p[from] == '/' {
        from
    } else {
        seg_end(p, from + 1)
    }
}

/// The tokens of `p` after the `/` at `i` (none when `i` is past the end).
pub open spec fn rest_tokens(p: Seq<char>, i: int) -> Seq<Seq<char>>
    decreases p.len() - i,
{
    if i < 0 || i >= p.len() {
        seq![]
    } else {
        let e = seg_end(p, i + 1);
        if e <= i || e > p.len() {
            seq![]
        } else {
            seq![p.subrange(i + 1, e)] + rest_tokens(p, e)
        }
    }
}

/// The tokens of json-pointer `p`: what follows each `/` up to the next.
pub open spec fn ptr_tokens(p: Seq<char>) -> Seq<Seq<char>> {
    rest_tokens(p, seg_end(p, 0))
}

/// Where the tokens `toks` lead from `v`: `None` when a token is not
/// properly escaped, `Some(None)` when a token names nothing.
pub open spec fn lookup_tokens(v: JsonValue, toks: Seq<Seq<char>>) -> Option<Option<JsonValue>>
    decreases toks.len(),
{
    if toks.len() == 0 {
        Some(Some(v))
    } else {
        match spec_unescape(toks[0]) {
            None => None,
            Some(t) => match v {
                JsonValue::Object(o) => match obj_get(o@, t) {
                    Some(c) => lookup_tokens(c, toks.skip(1)),
                    None => Some(None),
                },
                JsonValue::Array(a) => match spec_parse_uint(t) {
                    Some(k) => if k < a@.len() { lookup_tokens(a@[k as int], toks.skip(1)) } else { Some(None) },
                    None => Some(None),
                },
                _ => Some(None),
            },
        }
    }
}

pub proof fn lemma_seg_end(p: Seq<char>, from: int)
    requires
        0 <= from,
    ensures
        from <= seg_end(p, from) <= p.len() || (from > p.len() && seg_end(p, from) == p.len()),
        seg_end(p, from) < p.len() ==> p[seg_end(p, from)] == '/',
        forall|j: int| from <= j < seg_end(p, from) ==> p[j] != '/',
    decreases p.len() - from,
{
    if from < p.len() && p[from] != '/' {
        lemma_seg_end(p, from + 1);
    }
}

fn seg_end_exec(v: &Vec<char>, from: usize) -> (r: usize)
    requires
        from <= v@.len(),
    ensures
        r == seg_end(v@, from as int),
        from <= r <= v@.len(),
{
    let mut i = from;
    while i < v.len() && v[i] != '/'
        invariant
            from <= i <= v@.len(),
            seg_end(v@, from as int) == seg_end(v@, i as int),
        decreases v.len() - i,
    {
        i += 1;
    }
    i
}

impl JsonPointer {
    /// The value this pointer points at in `v`, a document at `v_url`.
    pub fn lookup<'a>(&self, v: &'a JsonValue, v_url: &str) -> (r: Result<&'a JsonValue, CompileError>)
        ensures
            match lookup_tokens(*v, ptr_tokens(self.0@)) {
                Some(Some(x)) => r matches Ok(y) && *y == x,
                Some(None) => r matches Err(CompileError::JsonPointerNotFound(loc))
                    && loc@ == crate::util::spec_url_frag(v_url@, self.0@),
                None => r matches Err(CompileError::InvalidJsonPointer(loc))
                    && loc@ == crate::util::spec_url_frag(v_url@, self.0@),
            },
    {
        let p = chars_of(self.0.as_str());
        let mut cur: &'a JsonValue = v;
        let mut i = seg_end_exec(&p, 0);
        proof {
            lemma_seg_end(p@, 0);
        }
        while i < p.len()
            invariant
                i <= p@.len(),
                p@ == self.0@,
                lookup_tokens(*v, ptr_tokens(p@)) == lookup_tokens(*cur, rest_tokens(p@, i as int)),
            decreases p.len() - i,
        {
            let start = i + 1;
            let e = seg_end_exec(&p, start);
            proof {
                lemma_seg_end(p@, start as int);
                let tok = p@.subrange(start as int, e as int);
                assert(rest_tokens(p@, i as int) == seq![tok] + rest_tokens(p@, e as int));
                assert((seq![tok] + rest_tokens(p@, e as int)).skip(1) =~= rest_tokens(p@, e as int));
                assert((seq![tok] + rest_tokens(p@, e as int))[0] == tok);
            }
            let tok = string_from_range(&p, start, e);
            let t = match unescape(tok.as_str()) {
                Ok(t) => t,
                Err(_) => {
                    return Err(CompileError::InvalidJsonPointer(url_frag_format(v_url, self.0.as_str())));
                },
            };
            match cur {
                JsonValue::Object(o) => {
                    match obj_lookup(o, t.as_str()) {
                        Some(c) => {
                            cur = c;
                        },
                        None => {
                            return Err(CompileError::JsonPointerNotFound(url_frag_format(v_url, self.0.as_str())));
                        },
                    }
                },
                JsonValue::Array(a) => {
                    let alen = a.len();
                    let tv = chars_of(t.as_str());
                    match parse_usize(&tv, 0, tv.len()) {
                        Some(k) => {
                            proof {
                                assert(tv@.subrange(0, tv@.len() as int) =~= tv@);
                            }
                            if k < a.len() {
                                cur = &a[k];
                            } else {
                                return Err(CompileError::JsonPointerNotFound(url_frag_format(v_url, self.0.as_str())));
                            }
                        },
                        None => {
                            proof {
                                assert(tv@.subrange(0, tv@.len() as int) =~= tv@);
                            }
                            return Err(CompileError::JsonPointerNotFound(url_frag_format(v_url, self.0.as_str())));
                        },
                    }
                },
                _ => {
                    return Err(CompileError::JsonPointerNotFound(url_frag_format(v_url, self.0.as_str())));
                },
            }
            i = e;
        }
        Ok(cur)
    }
}

} // verus!

verus! {

/// Where anchor `name` points, as the first entry of `anchors` names it.
pub open spec fn anchor_ptr(anchors: Seq<(String, JsonPointer)>, name: Seq<char>) -> Option<Seq<char>>
    decreases anchors.len(),
{
    if anchors.len() == 0 {
        None
    } else if anchors[0].0@ == name {
        Some(anchors[0].1.0@)
    } else {
        anchor_ptr(anchors.skip(1), name)
    }
}

/// Where anchor `name` points in `anchors`.
pub fn lookup_anchor<'a>(anchors: &'a Vec<(String, JsonPointer)>, name: &str) -> (r: Option<&'a JsonPointer>)
    ensures
        match anchor_ptr(anchors@, name@) {
            Some(p) => r matches Some(q) && q.0@ == p,
            None => r is None,
        },
{
    let mut i: usize = 0;
    proof {
        assert(anchors@.skip(0) =~= anchors@);
    }
    while i < anchors.len()
        invariant
            i <= anchors@.len(),
            anchor_ptr(anchors@, name@) == anchor_ptr(anchors@.skip(i as int), name@),
        decreases anchors.len() - i,
    {
        proof {
            assert(anchors@.skip(i as int)[0] == anchors@[i as int]);
            assert(anchors@.skip(i as int).skip(1) =~= anchors@.skip(i + 1));
        }
        if str_eq(anchors[i].0.as_str(), name) {
            return Some(&anchors[i].1);
        }
        i += 1;
    }
    None
}

/// What `Root::resolve` gives for `loc` in a document at `url` with
/// resources `rs`: `Err(None)` for a fragment that is not percent-encoded
/// UTF-8, `Err(Some(()))` for an unknown anchor.
pub open spec fn spec_resolve(url: Seq<char>, rs: Seq<Resource>, loc: Seq<char>) -> Result<Seq<char>, Option<()>> {
    match crate::util::spec_fragment(loc) {
        None => Err(None),
        Some(f) => {
            let u = crate::util::spec_split(loc).0;
            let res = if u == url { find_ptr(rs, seq![]) } else { find_id(rs, u) };
            match res {
                None => Ok(loc),
                Some(i) => if crate::util::is_pointer_text(f) {
                    Ok(url + seq!['#'] + rs[i].ptr.0@ + f)
                } else {
                    match anchor_ptr(rs[i].anchors@, f) {
                        Some(p) => Ok(url + seq!['#'] + p),
                        None => Err(Some(())),
                    }
                },
            }
        },
    }
}

impl Root {
    #[verifier::rlimit(40)]
    /// Resolves `loc` against this document: a location in one of its
    /// resources becomes `url#ptr`, with anchors replaced by where they
    /// point; a location outside the document is returned as it is.
    pub fn resolve(&self, loc: &str) -> (r: Result<String, CompileError>)
        ensures
            match spec_resolve(self.url@, self.resources@, loc@) {
                Ok(s) => r matches Ok(t) && t@ == s,
                Err(None) => r matches Err(CompileError::ParseUrlError { url, .. }) && url@ == loc@,
                Err(Some(_)) => r matches Err(CompileError::AnchorNotFound { url, .. }) && url@ == self.url@,
            },
    {
        let (u, frag) = match Fragment::split(loc) {
            Ok(x) => x,
            Err(e) => {
                return Err(CompileError::ParseUrlError { url: loc.to_string(), src: e });
            },
        };
        let found = if str_eq(u.as_str(), self.url.as_str()) {
            let e = position_of_ptr(&self.resources, "");
            proof {
                reveal_strlit("");
                assert(""@ =~= Seq::<char>::empty());
            }
            e
        } else {
            position_of_id(&self.resources, u.as_str())
        };
        let i = match found {
            Some(i) => i,
            None => {
                return Ok(loc.to_string());
            },
        };
        let res = &self.resources[i];
        let mut out = self.url.clone();
        push_char(&mut out, '#');
        match &frag {
            Fragment::Anchor(a) => {
                match lookup_anchor(&res.anchors, a.as_str()) {
                    Some(p) => push_str(&mut out, p.0.as_str()),
                    None => {
                        let reference = url_frag_format(res.id.as_str(), a.as_str());
                        return Err(CompileError::AnchorNotFound { url: self.url.clone(), reference });
                    },
                }
            },
            Fragment::JsonPointer(p) => {
                push_str(&mut out, res.ptr.0.as_str());
                push_str(&mut out, p.0.as_str());
            },
        }
        Ok(out)
    }
}

/// The id a schema object declares: its id keyword's value without
/// fragment, unless empty; before draft 2019-09 none next to `$ref`.
pub open spec fn spec_get_id(d: Draft, obj: Seq<(String, JsonValue)>) -> Option<Seq<char>> {
    let idk = if draft_version(d) == 4 { "id"@ } else { "$id"@ };
    if draft_version(d) < 2019 && obj_get(obj, "$ref"@) is Some {
        None
    } else {
        match obj_get(obj, idk) {
            Some(JsonValue::String(id)) => {
                let u = crate::util::spec_split(id@).0;
                if u.len() > 0 { Some(u) } else { None }
            },
            _ => None,
        }
    }
}

/// The part of `s` before its first `#` holds no `#`.
proof fn lemma_split_head(s: Seq<char>)
    ensures
        !crate::text::has_char(crate::util::spec_split(s).0, '#'),
{
    if crate::text::has_char(s, '#') {
        let k = choose|k: int| 0 <= k < s.len() && s[k] == '#';
        lemma_first_hash_exists(s, k);
        let i = choose|i: int| 0 <= i < s.len() && s[i] == '#' && forall|j: int| 0 <= j < i ==> s[j] != '#';
        let h = s.take(i);
        assert forall|j: int| 0 <= j < h.len() implies h[j] != '#' by {
            assert(h[j] == s[j]);
        }
    }
}

/// A `#` at `j` means there is a first one, at or before `j`.
proof fn lemma_first_hash_exists(s: Seq<char>, j: int)
    requires
        0 <= j < s.len(),
        s[j] == '#',
    ensures
        exists|i: int| 0 <= i < s.len() && s[i] == '#' && forall|m: int| 0 <= m < i ==> s[m] != '#',
    decreases j,
{
    if exists|m: int| 0 <= m < j && s[m] == '#' {
        let m = choose|m: int| 0 <= m < j && s[m] == '#';
        lemma_first_hash_exists(s, m);
    } else {
        assert(forall|m: int| 0 <= m < j ==> s[m] != '#');
    }
}

/// A sequence starts with itself.
proof fn lemma_starts_with_self(p: Seq<char>)
    ensures
        starts_with(p, p),
{
    assert(p.take(p.len() as int) =~= p);
}

/// What starts with `p + q` starts with `p`.
proof fn lemma_starts_with_prefix(x: Seq<char>, p: Seq<char>, q: Seq<char>)
    requires
        starts_with(x, p + q),
    ensures
        starts_with(x, p),
{
    assert(x.take(p.len() as int) =~= (p + q).take(p.len() as int));
    assert((p + q).take(p.len() as int) =~= p);
}

/// An id holds no `#`, so splitting it keeps it whole.
proof fn lemma_get_id_unsplit(d: Draft, obj: Seq<(String, JsonValue)>)
    ensures
        spec_get_id(d, obj) matches Some(u) ==> crate::util::spec_split(u) == (u, Seq::<char>::empty()),
{
    let idk = if draft_version(d) == 4 { "id"@ } else { "$id"@ };
    if let Some(JsonValue::String(id)) = obj_get(obj, idk) {
        lemma_split_head(id@);
    }
}

/// The id a schema object declares (see `spec_get_id`).
pub fn get_id(d: Draft, obj: &Vec<(String, JsonValue)>) -> (r: Option<String>)
    ensures
        match spec_get_id(d, obj@) {
            Some(u) => r matches Some(s) && s@ == u,
            None => r is None,
        },
{
    if d.version() < 2019 && crate::json::obj_contains(obj, "$ref") {
        return None;
    }
    match obj_lookup(obj, d.id_keyword()) {
        Some(JsonValue::String(id)) => {
            let (u, _) = split(id.as_str());
            if u.as_str().unicode_len() > 0 {
                Some(u)
            } else {
                None
            }
        },
        _ => None,
    }
}

/// Adds anchor `name` pointing at `ptr` to `res`: nothing to do when it
/// already points there, an error when it points elsewhere.
/// An error that collecting the resources and anchors of a document can
/// give: an `$id` or anchor that does not parse, or is declared twice.
pub open spec fn collect_error(e: CompileError) -> bool {
    ||| e is ParseIdError
    ||| e is DuplicateId
    ||| e is ParseAnchorError
    ||| e is DuplicateAnchor
}

fn add_anchor(res: &mut Resource, name: &str, ptr: &JsonPointer, url: &str) -> (r: Result<(), CompileError>)
    ensures
        r matches Err(e) ==> collect_error(e),
        final(res).ptr == old(res).ptr,
        final(res).id == old(res).id,
        final(res).dynamic_anchors == old(res).dynamic_anchors,
        old(res).anchors@.len() <= final(res).anchors@.len(),
        match anchor_ptr(old(res).anchors@, name@) {
            Some(p) => final(res).anchors@ == old(res).anchors@ && (r is Ok <==> p == ptr.0@),
            None => r is Ok && anchor_ptr(final(res).anchors@, name@) == Some(ptr.0@),
        },
        forall|n: Seq<char>| anchor_ptr(old(res).anchors@, n) is Some
            ==> #[trigger] anchor_ptr(final(res).anchors@, n) == anchor_ptr(old(res).anchors@, n),
{
    match lookup_anchor(&res.anchors, name) {
        Some(p) => {
            if str_eq(p.0.as_str(), ptr.0.as_str()) {
                Ok(())
            } else {
                Err(CompileError::DuplicateAnchor {
                    url: url.to_string(),
                    anchor: name.to_string(),
                    ptr1: p.0.clone(),
                    ptr2: ptr.0.clone(),
                })
            }
        },
        None => {
            let entry = (name.to_string(), JsonPointer(ptr.0.clone()));
            let ghost e = entry;
            res.anchors.push(entry);
            proof {
                lemma_anchor_ptr_push(old(res).anchors@, e, name@);
                assert forall|n: Seq<char>| anchor_ptr(old(res).anchors@, n) is Some implies
                    #[trigger] anchor_ptr(res.anchors@, n) == anchor_ptr(old(res).anchors@, n) by {
                    lemma_anchor_ptr_keep(old(res).anchors@, e, n);
                }
            }
            Ok(())
        },
    }
}

/// Adding an anchor keeps where the anchors already there point.
proof fn lemma_anchor_ptr_keep(a: Seq<(String, JsonPointer)>, x: (String, JsonPointer), name: Seq<char>)
    requires
        anchor_ptr(a, name) is Some,
    ensures
        anchor_ptr(a.push(x), name) == anchor_ptr(a, name),
    decreases a.len(),
{
    if a.len() > 0 && a[0].0@ != name {
        assert(a.push(x).skip(1) =~= a.skip(1).push(x));
        lemma_anchor_ptr_keep(a.skip(1), x, name);
    }
}

proof fn lemma_anchor_ptr_push(a: Seq<(String, JsonPointer)>, x: (String, JsonPointer), name: Seq<char>)
    requires
        anchor_ptr(a, name) is None,
        x.0@ == name,
    ensures
        anchor_ptr(a.push(x), name) == Some(x.1.0@),
    decreases a.len(),
{
    if a.len() > 0 {
        assert(a.push(x).skip(1) =~= a.skip(1).push(x));
        lemma_anchor_ptr_push(a.skip(1), x, name);
    } else {
        assert(a.push(x)[0] == x);
    }
}

} // verus!

verus! {

/// The string member `key` of object `o`, if it is a string.
pub open spec fn str_member(o: Seq<(String, JsonValue)>, key: Seq<char>) -> Option<Seq<char>> {
    match obj_get(o, key) {
        Some(JsonValue::String(s)) => Some(s@),
        _ => None,
    }
}

/// Whether schema object `o` declares anchor `a` under draft `d`: before
/// 2019-09 as the fragment of its id (unless it has `$ref`), later by
/// `$anchor`, and from 2020-12 also by `$dynamicAnchor`.
pub open spec fn declared_anchor(d: Draft, o: Seq<(String, JsonValue)>, a: Seq<char>) -> bool {
    if draft_version(d) < 2019 {
        &&& obj_get(o, "$ref"@) is None
        &&& str_member(o, if draft_version(d) == 4 { "id"@ } else { "$id"@ }) matches Some(id)
        &&& crate::util::spec_fragment(id) == Some(a)
        &&& !crate::util::is_pointer_text(a)
    } else {
        ||| str_member(o, "$anchor"@) == Some(a)
        ||| (draft_version(d) >= 2020 && str_member(o, "$dynamicAnchor"@) == Some(a))
    }
}

/// The resources have pairwise distinct ids.
pub open spec fn ids_distinct(rs: Seq<Resource>) -> bool {
    forall|i: int, j: int| 0 <= i < j < rs.len() ==> (#[trigger] rs[i]).id@ != (#[trigger] rs[j]).id@
}

/// The resources sit at pairwise distinct pointers.
pub open spec fn ptrs_distinct(rs: Seq<Resource>) -> bool {
    forall|i: int, j: int| 0 <= i < j < rs.len() ==> (#[trigger] rs[i]).ptr.0@ != (#[trigger] rs[j]).ptr.0@
}

impl Draft {
    /// Collects the anchors and dynamic anchors that schema `sch`, at
    /// `sch_ptr` in the document at `url`, declares into `res` (not those
    /// of its subschemas).
    pub fn collect_anchors(&self, sch: &JsonValue, sch_ptr: &JsonPointer, res: &mut Resource, url: &str)
        -> (r: Result<(), CompileError>)
        ensures
            r matches Err(e) ==> collect_error(e),
            final(res).ptr == old(res).ptr,
            final(res).id == old(res).id,
            old(res).anchors@.len() <= final(res).anchors@.len(),
            old(res).dynamic_anchors@.len() <= final(res).dynamic_anchors@.len(),
            !(*sch is Object) ==> r is Ok && final(res).anchors@ == old(res).anchors@,
            r is Ok ==> match *sch {
                JsonValue::Object(o) => forall|a: Seq<char>| #[trigger] declared_anchor(*self, o@, a)
                    ==> anchor_ptr(final(res).anchors@, a) == Some(sch_ptr.0@),
                _ => true,
            },
            r is Ok && draft_version(*self) >= 2020 ==> match *sch {
                JsonValue::Object(o) => match str_member(o@, "$dynamicAnchor"@) {
                    Some(a) => exists|i: int| 0 <= i < final(res).dynamic_anchors@.len()
                        && (#[trigger] final(res).dynamic_anchors@[i])@ == a,
                    None => true,
                },
                _ => true,
            },
    {
        let obj = match sch {
            JsonValue::Object(o) => o,
            _ => {
                return Ok(());
            },
        };
        let version = self.version();
        if version < 2019 {
            if crate::json::obj_contains(obj, "$ref") {
                return Ok(());
            }
            if let Some(JsonValue::String(id)) = obj_lookup(obj, self.id_keyword()) {
                match Fragment::split(id.as_str()) {
                    Err(_) => {
                        let loc = url_frag_format(url, sch_ptr.0.as_str());
                        return Err(CompileError::ParseAnchorError { loc });
                    },
                    Ok((_, Fragment::Anchor(anchor))) => {
                        add_anchor(res, anchor.as_str(), sch_ptr, url)?;
                    },
                    Ok(_) => {},
                }
                return Ok(());
            }
        }
        if version >= 2019 {
            if let Some(JsonValue::String(anchor)) = obj_lookup(obj, "$anchor") {
                add_anchor(res, anchor.as_str(), sch_ptr, url)?;
            }
        }
        if version >= 2020 {
            if let Some(JsonValue::String(anchor)) = obj_lookup(obj, "$dynamicAnchor") {
                add_anchor(res, anchor.as_str(), sch_ptr, url)?;
                let mut present = false;
                let mut i: usize = 0;
                while i < res.dynamic_anchors.len()
                    invariant
                        i <= res.dynamic_anchors@.len(),
                        present ==> exists|j: int| 0 <= j < res.dynamic_anchors@.len()
                            && (#[trigger] res.dynamic_anchors@[j])@ == anchor@,
                    decreases res.dynamic_anchors.len() - i,
                {
                    if str_eq(res.dynamic_anchors[i].as_str(), anchor.as_str()) {
                        proof {
                            assert(res.dynamic_anchors@[i as int]@ == anchor@);
                        }
                        present = true;
                    }
                    i += 1;
                }
                if !present {
                    let a = crate::text::string_from(&chars_of(anchor.as_str()));
                    res.dynamic_anchors.push(a);
                    proof {
                        assert(res.dynamic_anchors@[res.dynamic_anchors@.len() - 1]@ == anchor@);
                    }
                }
            }
        }
        Ok(())
    }

    #[verifier::rlimit(80)]
    /// Collects the resources of schema `sch`, at `sch_ptr` in the document
    /// at `url`, whose base url is `base`, and of its subschemas, with
    /// their anchors, into `resources`; a location already collected is
    /// left alone. Fails on an id that does not join onto its base, on an
    /// id used twice, and on bad or duplicate anchors.
    pub fn collect_resources(&self, sch: &JsonValue, base: &str, sch_ptr: JsonPointer, url: &str,
        resources: &mut Vec<Resource>) -> (r: Result<(), CompileError>)
        ensures
            old(resources)@.len() <= final(resources)@.len(),
            forall|i: int| 0 <= i < old(resources)@.len() ==> (#[trigger] final(resources)@[i]).ptr == old(resources)@[i].ptr
                && final(resources)@[i].id == old(resources)@[i].id,
            r is Ok && ids_distinct(old(resources)@) && (sch_ptr.0@.len() > 0 || old(resources)@.len() == 0)
                ==> ids_distinct(final(resources)@),
            ptrs_distinct(old(resources)@) ==> ptrs_distinct(final(resources)@),
            r is Ok && find_ptr(old(resources)@, sch_ptr.0@) is None && sch_ptr.0@.len() == 0
                && (*sch is Object || *sch is Bool) ==> find_ptr(final(resources)@, seq![]) is Some,
            forall|i: int| old(resources)@.len() <= i < final(resources)@.len()
                ==> starts_with((#[trigger] final(resources)@[i]).ptr.0@, sch_ptr.0@),
            r is Ok && find_ptr(old(resources)@, sch_ptr.0@) is None ==> match *sch {
                JsonValue::Object(o) => match spec_get_id(*self, o@) {
                    Some(id) => exists|i: int| 0 <= i < final(resources)@.len()
                        && (#[trigger] final(resources)@[i]).ptr.0@ == sch_ptr.0@
                        && spec_url_join(base@, id) == Some(final(resources)@[i].id@),
                    None => true,
                },
                _ => true,
            },
            !(*sch is Object || *sch is Bool) ==> r is Ok && final(resources)@ == old(resources)@,
            *sch is Bool ==> r is Ok,
            r matches Err(e) ==> collect_error(e),
        decreases sch,
    {
        if position_of_ptr(&*resources, sch_ptr.0.as_str()).is_some() {
            return Ok(());
        }
        let obj = match sch {
            JsonValue::Bool(_) => {
                if sch_ptr.is_empty() {
                    let ghost p = sch_ptr.0@;
                    resources.push(Resource::new(sch_ptr, base.to_string()));
                    proof {
                        lemma_find_push(old(resources)@, resources@.last(), p);
                        lemma_find_ptr(old(resources)@, p);
                        assert(p =~= Seq::<char>::empty());
                        lemma_starts_with_self(p);
                        if ptrs_distinct(old(resources)@) {
                            assert forall|i: int, j: int| 0 <= i < j < resources@.len() implies
                                (#[trigger] resources@[i]).ptr.0@ != (#[trigger] resources@[j]).ptr.0@ by {
                                assert(old(resources)@.push(resources@.last()) == resources@);
                                if j == resources@.len() - 1 {
                                    assert(old(resources)@[i] == resources@[i]);
                                } else {
                                    assert(old(resources)@[i] == resources@[i]);
                                    assert(old(resources)@[j] == resources@[j]);
                                }
                            }
                        }
                    }
                }
                return Ok(());
            },
            JsonValue::Object(o) => o,
            _ => {
                return Ok(());
            },
        };

        let ghost base0 = base@;
        let mut base = base.to_string();
        let mut new_res: Option<Resource> = None;
        assert(new_res matches Some(x) ==> x.id@ == base@ && x.ptr.0@ == sch_ptr.0@);
        proof {
            lemma_get_id_unsplit(*self, obj@);
        }
        match get_id(*self, obj) {
            Some(id) => {
                let joined = match Fragment::split(id.as_str()) {
                    Ok((input, _)) => {
                        if input.as_str().unicode_len() == 0 {
                            Ok(base.clone())
                        } else {
                            url_join(base.as_str(), input.as_str())
                        }
                    },
                    Err(e) => Err(e),
                };
                match joined {
                    Ok(u) => {
                        assert(spec_get_id(*self, obj@) matches Some(i) && spec_url_join(base0, i) == Some(u@));
                        base = u;
                        new_res = Some(Resource::new(JsonPointer(sch_ptr.0.clone()), base.clone()));
                        assert(new_res matches Some(x) && x.id@ == base@ && x.ptr.0@ == sch_ptr.0@);
                    },
                    Err(_) => {
                        let loc = url_frag_format(url, sch_ptr.0.as_str());
                        return Err(CompileError::ParseIdError { loc });
                    },
                }
            },
            None => {
                if sch_ptr.is_empty() {
                    new_res = Some(Resource::new(JsonPointer(sch_ptr.0.clone()), base.clone()));
                    assert(new_res matches Some(x) && x.id@ == base@ && x.ptr.0@ == sch_ptr.0@);
                }
            },
        }
        proof {
            lemma_find_ptr(old(resources)@, sch_ptr.0@);
        }
        assert(sch_ptr.0@.len() == 0 ==> new_res is Some);
        assert(spec_get_id(*self, obj@) matches Some(i) ==> new_res is Some && spec_url_join(base0, i) == Some(base@));
        let ghost mut node_idx: int = 0;
        if let Some(res) = new_res {
            if let Some(d) = position_of_id(&*resources, base.as_str()) {
                return Err(CompileError::DuplicateId {
                    url: url.to_string(),
                    id: base.clone(),
                    ptr1: res.ptr.0.clone(),
                    ptr2: resources[d].ptr.0.clone(),
                });
            }
            proof {
                lemma_find_id(old(resources)@, base@);
                assert(res.id@ == base@);
                assert(res.ptr.0@ == sch_ptr.0@);
            }
            let ghost p = sch_ptr.0@;
            let ghost o = resources@;
            resources.push(res);
            proof {
                node_idx = o.len() as int;
                lemma_starts_with_self(p);
                lemma_find_push(o, resources@.last(), p);
                assert(o.push(resources@.last()) == resources@);
                if ptrs_distinct(o) {
                    assert forall|i: int, j: int| 0 <= i < j < resources@.len() implies
                        (#[trigger] resources@[i]).ptr.0@ != (#[trigger] resources@[j]).ptr.0@ by {
                        assert(o[i] == resources@[i]);
                        if j < resources@.len() - 1 {
                            assert(o[j] == resources@[j]);
                        }
                    }
                }
                if ids_distinct(o) {
                    assert forall|i: int, j: int| 0 <= i < j < resources@.len() implies
                        (#[trigger] resources@[i]).id@ != (#[trigger] resources@[j]).id@ by {
                        assert(o[i] == resources@[i]);
                        if j < resources@.len() - 1 {
                            assert(o[j] == resources@[j]);
                        }
                    }
                }
            }
        }
        let ghost mid = resources@;
        assert(spec_get_id(*self, obj@) matches Some(i) ==> 0 <= node_idx < mid.len()
            && mid[node_idx].ptr.0@ == sch_ptr.0@ && spec_url_join(base0, i) == Some(mid[node_idx].id@));
        assert(forall|i: int| old(resources)@.len() <= i < mid.len() ==> starts_with((#[trigger] mid[i]).ptr.0@, sch_ptr.0@));
        proof {
            if find_ptr(old(resources)@, sch_ptr.0@) is None && sch_ptr.0@.len() == 0 {
                assert(sch_ptr.0@ =~= Seq::<char>::empty());
                assert(find_ptr(mid, seq![]) is Some);
            }
        }

        // collect anchors into base resource
        if let Some(k) = position_of_id(resources, base.as_str()) {
            let mut res = resources.remove(k);
            let result = self.collect_anchors(sch, &sch_ptr, &mut res, url);
            resources.insert(k, res);
            proof {
                assert forall|i: int| 0 <= i < mid.len() implies (#[trigger] resources@[i]).ptr == mid[i].ptr
                    && resources@[i].id == mid[i].id by {
                    if i < k {
                    } else if i > k {
                        assert(resources@[i] == mid[i]);
                    }
                }
                assert forall|i: int| old(resources)@.len() <= i < resources@.len() implies
                    starts_with((#[trigger] resources@[i]).ptr.0@, sch_ptr.0@) by {
                    assert(resources@[i].ptr == mid[i].ptr);
                }
            }
            result?;
        }
        let ghost mid2 = resources@;
        assert(spec_get_id(*self, obj@) matches Some(i) ==> 0 <= node_idx < mid2.len()
            && mid2[node_idx].ptr.0@ == sch_ptr.0@ && spec_url_join(base0, i) == Some(mid2[node_idx].id@));
        proof {
            if find_ptr(old(resources)@, sch_ptr.0@) is None && sch_ptr.0@.len() == 0 {
                lemma_find_ptr_kept(mid, mid2, seq![]);
            }
            assert(ids_distinct(mid) ==> ids_distinct(mid2)) by {
                if ids_distinct(mid) {
                    assert forall|i: int, j: int| 0 <= i < j < mid2.len() implies
                        (#[trigger] mid2[i]).id@ != (#[trigger] mid2[j]).id@ by {
                        assert(mid2[i].id == mid[i].id);
                        assert(mid2[j].id == mid[j].id);
                    }
                }
            }
            assert(ptrs_distinct(mid) ==> ptrs_distinct(mid2)) by {
                if ptrs_distinct(mid) {
                    assert forall|i: int, j: int| 0 <= i < j < mid2.len() implies
                        (#[trigger] mid2[i]).ptr.0@ != (#[trigger] mid2[j]).ptr.0@ by {
                        assert(mid2[i].ptr == mid[i].ptr);
                        assert(mid2[j].ptr == mid[j].ptr);
                    }
                }
            }
        }

        let version = self.version();
        let mut m: usize = 0;
        while m < obj.len()
            invariant
                m <= obj@.len(),
                decreases_to!(*sch => obj@),
                mid2.len() <= resources@.len(),
                forall|i: int| 0 <= i < old(resources)@.len() ==> (#[trigger] resources@[i]).ptr == old(resources)@[i].ptr
                    && resources@[i].id == old(resources)@[i].id,
                ids_distinct(old(resources)@) ==> ids_distinct(resources@),
                ptrs_distinct(old(resources)@) ==> ptrs_distinct(resources@),
                old(resources)@.len() <= mid.len() <= mid2.len(),
                forall|i: int| 0 <= i < mid2.len() ==> (#[trigger] resources@[i]).ptr == mid2[i].ptr
                    && resources@[i].id == mid2[i].id,
                forall|i: int| old(resources)@.len() <= i < resources@.len()
                    ==> starts_with((#[trigger] resources@[i]).ptr.0@, sch_ptr.0@),
                find_ptr(old(resources)@, sch_ptr.0@) is None && sch_ptr.0@.len() == 0 ==> find_ptr(mid2, seq![]) is Some,
                spec_get_id(*self, obj@) matches Some(i) ==> 0 <= node_idx < mid2.len()
                    && mid2[node_idx].ptr.0@ == sch_ptr.0@ && spec_url_join(base0, i) == Some(mid2[node_idx].id@),
                *sch is Object,
            decreases obj.len() - m,
        {
            proof {
                assert(decreases_to!(obj@ => obj@[m as int]));
                assert(decreases_to!(obj@[m as int] => obj@[m as int].1));
            }
            let kw = &obj[m].0;
            let v = &obj[m].1;
            let kwc = chars_of(kw.as_str());
            let (pos_self, pos_prop, pos_item) = positions(version, &kwc, 0, kwc.len());
            if pos_self {
                let child = sch_ptr.append(kw.as_str());
                let ghost cp = child.0@;
                let ghost before = resources@;
                let rr = self.collect_resources(v, base.as_str(), child, url, resources);
                proof {
                    assert forall|i: int| old(resources)@.len() <= i < resources@.len() implies
                        starts_with((#[trigger] resources@[i]).ptr.0@, sch_ptr.0@) by {
                        if i >= before.len() {
                            assert(cp =~= sch_ptr.0@ + (seq!['/'] + crate::util::spec_escape(kw@)));
                            lemma_starts_with_prefix(resources@[i].ptr.0@, sch_ptr.0@, seq!['/'] + crate::util::spec_escape(kw@));
                        } else {
                            assert(resources@[i].ptr == before[i].ptr);
                        }
                    }
                }
                rr?;
            }
            if pos_item {
                if let JsonValue::Array(arr) = v {
                    proof {
                        assert(decreases_to!(*v => arr@));
                        assert(decreases_to!(*sch => arr@));
                    }
                    let mut i: usize = 0;
                    while i < arr.len()
                        invariant
                            i <= arr@.len(),
                            decreases_to!(*sch => arr@),
                            decreases_to!(*sch => obj@),
                            decreases_to!(obj@ => obj@[m as int]),
                            decreases_to!(obj@[m as int] => obj@[m as int].1),
                            *v == obj@[m as int].1,
                            mid2.len() <= resources@.len(),
                            forall|i: int| 0 <= i < old(resources)@.len() ==> (#[trigger] resources@[i]).ptr == old(resources)@[i].ptr
                                && resources@[i].id == old(resources)@[i].id,
                            ids_distinct(old(resources)@) ==> ids_distinct(resources@),
                            ptrs_distinct(old(resources)@) ==> ptrs_distinct(resources@),
                            old(resources)@.len() <= mid.len() <= mid2.len(),
                            forall|i: int| 0 <= i < mid2.len() ==> (#[trigger] resources@[i]).ptr == mid2[i].ptr
                                && resources@[i].id == mid2[i].id,
                            forall|i: int| old(resources)@.len() <= i < resources@.len()
                                ==> starts_with((#[trigger] resources@[i]).ptr.0@, sch_ptr.0@),
                            spec_get_id(*self, obj@) matches Some(i) ==> 0 <= node_idx < mid2.len()
                                && mid2[node_idx].ptr.0@ == sch_ptr.0@ && spec_url_join(base0, i) == Some(mid2[node_idx].id@),
                            *sch is Object,
                        decreases arr.len() - i,
                    {
                        proof {
                            assert(decreases_to!(arr@ => arr@[i as int]));
                        }
                        let idx = crate::text::usize_to_string(i);
                        let child = sch_ptr.append2(kw.as_str(), idx.as_str());
                        let ghost cp = child.0@;
                        let ghost before = resources@;
                        let rr = self.collect_resources(&arr[i], base.as_str(), child, url, resources);
                        proof {
                            assert forall|j: int| old(resources)@.len() <= j < resources@.len() implies
                                starts_with((#[trigger] resources@[j]).ptr.0@, sch_ptr.0@) by {
                                if j >= before.len() {
                                    let rest = seq!['/'] + crate::util::spec_escape(kw@) + seq!['/'] + crate::util::spec_escape(idx@);
                                    assert(cp =~= sch_ptr.0@ + rest);
                                    lemma_starts_with_prefix(resources@[j].ptr.0@, sch_ptr.0@, rest);
                                } else {
                                    assert(resources@[j].ptr == before[j].ptr);
                                }
                            }
                        }
                        rr?;
                        i += 1;
                    }
                }
            }
            if pos_prop {
                if let JsonValue::Object(props) = v {
                    proof {
                        assert(decreases_to!(*v => props@));
                        assert(decreases_to!(*sch => props@));
                    }
                    let mut i: usize = 0;
                    while i < props.len()
                        invariant
                            i <= props@.len(),
                            decreases_to!(*sch => props@),
                            decreases_to!(*sch => obj@),
                            decreases_to!(obj@ => obj@[m as int]),
                            decreases_to!(obj@[m as int] => obj@[m as int].1),
                            *v == obj@[m as int].1,
                            mid2.len() <= resources@.len(),
                            forall|i: int| 0 <= i < old(resources)@.len() ==> (#[trigger] resources@[i]).ptr == old(resources)@[i].ptr
                                && resources@[i].id == old(resources)@[i].id,
                            ids_distinct(old(resources)@) ==> ids_distinct(resources@),
                            ptrs_distinct(old(resources)@) ==> ptrs_distinct(resources@),
                            old(resources)@.len() <= mid.len() <= mid2.len(),
                            forall|i: int| 0 <= i < mid2.len() ==> (#[trigger] resources@[i]).ptr == mid2[i].ptr
                                && resources@[i].id == mid2[i].id,
                            forall|i: int| old(resources)@.len() <= i < resources@.len()
                                ==> starts_with((#[trigger] resources@[i]).ptr.0@, sch_ptr.0@),
                            spec_get_id(*self, obj@) matches Some(i) ==> 0 <= node_idx < mid2.len()
                                && mid2[node_idx].ptr.0@ == sch_ptr.0@ && spec_url_join(base0, i) == Some(mid2[node_idx].id@),
                            *sch is Object,
                        decreases props.len() - i,
                    {
                        proof {
                            assert(decreases_to!(props@ => props@[i as int]));
                            assert(decreases_to!(props@[i as int] => props@[i as int].1));
                        }
                        let child = sch_ptr.append2(kw.as_str(), props[i].0.as_str());
                        let ghost cp = child.0@;
                        let ghost before = resources@;
                        let rr = self.collect_resources(&props[i].1, base.as_str(), child, url, resources);
                        proof {
                            assert forall|j: int| old(resources)@.len() <= j < resources@.len() implies
                                starts_with((#[trigger] resources@[j]).ptr.0@, sch_ptr.0@) by {
                                if j >= before.len() {
                                    let rest = seq!['/'] + crate::util::spec_escape(kw@) + seq!['/']
                                        + crate::util::spec_escape(props@[i as int].0@);
                                    assert(cp =~= sch_ptr.0@ + rest);
                                    lemma_starts_with_prefix(resources@[j].ptr.0@, sch_ptr.0@, rest);
                                } else {
                                    assert(resources@[j].ptr == before[j].ptr);
                                }
                            }
                        }
                        rr?;
                        i += 1;
                    }
                }
            }
            m += 1;
        }
        proof {
            if find_ptr(old(resources)@, sch_ptr.0@) is None && sch_ptr.0@.len() == 0 {
                lemma_find_ptr_kept(mid2, resources@, seq![]);
            }
            if spec_get_id(*self, obj@) is Some {
                assert(resources@[node_idx].ptr == mid2[node_idx].ptr);
                assert(resources@[node_idx].id == mid2[node_idx].id);
            }
        }
        Ok(())
    }
}

/// After pushing a resource at `p` where none was, one is found there.
proof fn lemma_find_push(rs: Seq<Resource>, x: Resource, p: Seq<char>)
    requires
        x.ptr.0@ == p,
    ensures
        find_ptr(rs.push(x), p) is Some,
{
    let t = rs.push(x);
    assert(t[t.len() - 1].ptr.0@ == p);
    lemma_find_ptr_some(t, p, t.len() - 1);
}

/// A resource at `p` in the sequence is found.
proof fn lemma_find_ptr_some(rs: Seq<Resource>, p: Seq<char>, k: int)
    requires
        0 <= k < rs.len(),
        rs[k].ptr.0@ == p,
    ensures
        find_ptr(rs, p) is Some,
{
    lemma_find_ptr(rs, p);
}

impl Root {
    /// Collects the resources and anchors found at `ptr`, a location that
    /// need not be a subschema position of the draft (so that it was not
    /// visited when the document was loaded), so that references within
    /// it resolve. Resources already known are left alone.
    pub fn add_subschema(&mut self, ptr: &JsonPointer) -> (r: Result<(), CompileError>)
        requires
            has_root_resource(old(self).resources@),
        ensures
            has_root_resource(final(self).resources@),
            final(self).url == old(self).url,
            final(self).draft == old(self).draft,
            final(self).doc == old(self).doc,
            final(self).meta_vocabs == old(self).meta_vocabs,
            old(self).resources@.len() <= final(self).resources@.len(),
            forall|i: int| 0 <= i < old(self).resources@.len() ==> (#[trigger] final(self).resources@[i]).ptr
                == old(self).resources@[i].ptr && final(self).resources@[i].id == old(self).resources@[i].id,
            ptrs_distinct(old(self).resources@) ==> ptrs_distinct(final(self).resources@),
            match lookup_tokens(old(self).doc, ptr_tokens(ptr.0@)) {
                Some(Some(v)) => r is Ok ==> (v matches JsonValue::Object(o) ==> (spec_get_id(old(self).draft, o@) is Some
                    ==> find_ptr(final(self).resources@, ptr.0@) is Some)),
                Some(None) => r matches Err(CompileError::JsonPointerNotFound(_)) && final(self).resources@ == old(self).resources@,
                None => r matches Err(CompileError::InvalidJsonPointer(_)) && final(self).resources@ == old(self).resources@,
            },
            forall|i: int| old(self).resources@.len() <= i < final(self).resources@.len()
                ==> starts_with((#[trigger] final(self).resources@[i]).ptr.0@, ptr.0@),
    {
        let v = ptr.lookup(&self.doc, self.url.as_str())?;
        let base = self.base_url(ptr.as_str()).to_string();
        let ghost before = self.resources@;
        let collected = self.draft.collect_resources(v, base.as_str(), JsonPointer(ptr.0.clone()), self.url.as_str(),
            &mut self.resources);
        proof {
            lemma_find_ptr_kept(before, self.resources@, seq![]);
            if collected is Ok {
                if find_ptr(before, ptr.0@) is Some {
                    lemma_find_ptr_kept(before, self.resources@, ptr.0@);
                } else {
                    let vv = *v;
                    if vv is Object && spec_get_id(self.draft, vv->Object_0@) is Some {
                        let id = spec_get_id(self.draft, vv->Object_0@)->0;
                        let k = choose|k: int| 0 <= k < self.resources@.len() && (#[trigger] self.resources@[k]).ptr.0@ == ptr.0@
                            && spec_url_join(base@, id) == Some(self.resources@[k].id@);
                        lemma_find_ptr_some(self.resources@, ptr.0@, k);
                    }
                }
            }
        }
        collected?;
        if position_of_ptr(&self.resources, ptr.0.as_str()).is_none() {
            let k = self.resource(ptr.as_str());
            let ghost mid = self.resources@;
            let mut res = self.resources.remove(k);
            let result = self.draft.collect_anchors(v, ptr, &mut res, self.url.as_str());
            self.resources.insert(k, res);
            proof {
                assert forall|i: int| 0 <= i < mid.len() implies (#[trigger] self.resources@[i]).ptr == mid[i].ptr
                    && self.resources@[i].id == mid[i].id by {
                    if i < k {
                    } else if i > k {
                        assert(self.resources@[i] == mid[i]);
                    }
                }
                lemma_find_ptr_kept(mid, self.resources@, seq![]);
                if ptrs_distinct(before) {
                    assert forall|i: int, j: int| 0 <= i < j < self.resources@.len() implies
                        (#[trigger] self.resources@[i]).ptr.0@ != (#[trigger] self.resources@[j]).ptr.0@ by {
                        assert(self.resources@[i].ptr == mid[i].ptr);
                        assert(self.resources@[j].ptr == mid[j].ptr);
                    }
                }
            }
            result?;
        }
        Ok(())
    }
}

/// Resources whose first pointers stay put keep being found.
proof fn lemma_find_ptr_kept(a: Seq<Resource>, b: Seq<Resource>, p: Seq<char>)
    requires
        a.len() <= b.len(),
        forall|i: int| 0 <= i < a.len() ==> (#[trigger] b[i]).ptr == a[i].ptr,
        find_ptr(a, p) is Some,
    ensures
        find_ptr(b, p) is Some,
{
    lemma_find_ptr(a, p);
    let k = find_ptr(a, p)->0;
    assert(b[k].ptr == a[k].ptr);
    lemma_find_ptr_some(b, p, k);
}

} // verus!
