//! The decisions made while documents are loaded: which draft a document
//! follows (through a chain of metaschemas), which metaschema names its
//! vocabularies, and the document's resources once it is known.

use vstd::prelude::*;
use crate::draft::{Draft, spec_metaschema_draft};
use crate::errors::CompileError;
use crate::json::{JsonValue, obj_get, obj_lookup};
use crate::outside::{spec_url_parse, url_parse, UrlError};
use crate::root::{has_root_resource, ptrs_distinct, Root};
use crate::text::{push_char, push_str, str_eq};
use crate::util::{Fragment, JsonPointer, pct_encode, spec_split, split};

verus! {

/// The `$schema` member of `doc`, when `doc` is an object and the member
/// a string.
pub open spec fn spec_schema_member(doc: JsonValue) -> Option<Seq<char>> {
    match doc {
        JsonValue::Object(o) => match obj_get(o@, "$schema"@) {
            Some(JsonValue::String(s)) => Some(s@),
            _ => None,
        },
        _ => None,
    }
}

/// The `$schema` member of `doc`, if it is a string.
fn schema_member(doc: &JsonValue) -> (r: Option<&String>)
    ensures
        match spec_schema_member(*doc) {
            Some(s) => r matches Some(t) && t@ == s,
            None => r is None,
        },
{
    proof {
        reveal_strlit("$schema");
    }
    match doc {
        JsonValue::Object(o) => match obj_lookup(o, "$schema") {
            Some(JsonValue::String(s)) => Some(s),
            _ => None,
        },
        _ => None,
    }
}

/// Whether `s` is among `names`.
pub open spec fn seen_has(names: Seq<String>, s: Seq<char>) -> bool {
    exists|i: int| 0 <= i < names.len() && (#[trigger] names[i])@ == s
}

/// What looking at one document of the chain of metaschemas gives.
pub enum DraftStep {
    /// The document follows this draft.
    Found(Draft),
    /// The document follows the draft of the metaschema at this url,
    /// which is to be loaded and looked at next.
    Follow(String),
}

/// `url#ptr`, the fragment percent-encoded.
pub open spec fn spec_url_ptr(url: Seq<char>, ptr: Seq<char>) -> Seq<char> {
    url + seq!['#'] + pct_encode(vstd::utf8::encode_utf8(ptr))
}

/// Which draft the schema `doc`, at `ptr` in the document at `url`,
/// follows: the default without `$schema`, a standard draft its
/// `$schema` names, or else the draft of the metaschema it names (whose
/// url must parse, must not be the document itself, and must not have
/// been followed already: `seen` lists the metaschemas followed so far).
#[verifier::loop_isolation(false)]
pub fn draft_step(url: &str, ptr: &str, doc: &JsonValue, default_draft: Draft, seen: &Vec<String>)
    -> (r: Result<DraftStep, CompileError>)
    ensures
        match spec_schema_member(*doc) {
            None => r matches Ok(DraftStep::Found(d)) && d == default_draft,
            Some(sch) => match spec_metaschema_draft(sch) {
                Some(d) => r matches Ok(DraftStep::Found(d2)) && d2 == d,
                None => match spec_url_parse(spec_split(sch).0) {
                    Err(_) => r matches Err(CompileError::InvalidMetaSchemaUrl { url: u, .. })
                        && u@ == spec_url_ptr(url@, ptr@),
                    Ok(s) => if ptr@.len() == 0 && s == url@ {
                        r matches Err(CompileError::UnsupportedDraft { url: u }) && u@ == s
                    } else if seen_has(seen@, s) {
                        r matches Err(CompileError::MetaSchemaCycle { url: u }) && u@ == s
                    } else {
                        r matches Ok(DraftStep::Follow(u)) && u@ == s
                    },
                },
            },
        },
{
    let sch = match schema_member(doc) {
        Some(s) => s,
        None => {
            return Ok(DraftStep::Found(default_draft));
        },
    };
    if let Some(d) = Draft::from_metaschema_url(sch.as_str()) {
        return Ok(DraftStep::Found(d));
    }
    let (u, _) = split(sch.as_str());
    let s = match url_parse(u.as_str()) {
        Ok(s) => s,
        Err(e) => {
            let mut loc = url.to_string();
            push_char(&mut loc, '#');
            push_str(&mut loc, Fragment::encode(ptr).as_str());
            let msg = match e {
                UrlError::RelativeWithoutBase => "relative URL without a base".to_string(),
                UrlError::Other(m) => m,
            };
            return Err(CompileError::InvalidMetaSchemaUrl { url: loc, src: msg });
        },
    };
    if ptr.unicode_len() == 0 && str_eq(s.as_str(), url) {
        return Err(CompileError::UnsupportedDraft { url: s });
    }
    let mut i: usize = 0;
    while i < seen.len()
        invariant
            i <= seen@.len(),
            forall|j: int| 0 <= j < i ==> (#[trigger] seen@[j])@ != s@,
        decreases seen.len() - i,
    {
        if str_eq(seen[i].as_str(), s.as_str()) {
            proof {
                assert(seen@[i as int]@ == s@);
                assert(seen_has(seen@, s@));
            }
            return Err(CompileError::MetaSchemaCycle { url: s });
        }
        i += 1;
    }
    Ok(DraftStep::Follow(s))
}

/// The metaschema whose `$vocabulary` says which vocabularies `doc`
/// uses: `None` when `doc` names no `$schema` or a standard draft; else
/// the `$schema` url without its fragment, which must parse.
pub fn meta_vocab_url(doc: &JsonValue) -> (r: Result<Option<String>, CompileError>)
    ensures
        match spec_schema_member(*doc) {
            None => r matches Ok(None),
            Some(sch) => if spec_metaschema_draft(sch) is Some {
                r matches Ok(None)
            } else {
                match spec_url_parse(spec_split(sch).0) {
                    Ok(s) => r matches Ok(Some(u)) && u@ == s,
                    Err(_) => r matches Err(CompileError::ParseUrlError { url: u, .. }) && u@ == spec_split(sch).0,
                }
            },
        },
{
    let sch = match schema_member(doc) {
        Some(s) => s,
        None => {
            return Ok(None);
        },
    };
    if Draft::from_metaschema_url(sch.as_str()).is_some() {
        return Ok(None);
    }
    let (u, _) = split(sch.as_str());
    match url_parse(u.as_str()) {
        Ok(s) => Ok(Some(s)),
        Err(e) => {
            let msg = match e {
                UrlError::RelativeWithoutBase => "relative URL without a base".to_string(),
                UrlError::Other(m) => m,
            };
            Err(CompileError::ParseUrlError { url: u, src: msg })
        },
    }
}

impl Root {
    /// The document `doc` at `url`, following `draft`, with the
    /// vocabularies `meta_vocabs` its metaschema requires: its resources
    /// and anchors are collected. A schema document is an object or a
    /// boolean.
    pub fn new(url: String, doc: JsonValue, draft: Draft, meta_vocabs: Option<Vec<String>>)
        -> (r: Result<Root, CompileError>)
        requires
            doc is Object || doc is Bool,
        ensures
            r matches Ok(root) ==> {
                &&& root.url@ == url@
                &&& root.doc == doc
                &&& root.draft == draft
                &&& root.meta_vocabs == meta_vocabs
                &&& has_root_resource(root.resources@)
                &&& ptrs_distinct(root.resources@)
            },
            doc is Bool ==> r is Ok,
            r matches Err(e) ==> crate::root::collect_error(e),
    {
        let mut resources = Vec::new();
        proof {
            assert(ptrs_distinct(resources@));
        }
        draft.collect_resources(&doc, url.as_str(), JsonPointer(String::new()), url.as_str(), &mut resources)?;
        proof {
            assert(crate::root::find_ptr(Seq::<crate::root::Resource>::empty(), seq![]) is None);
        }
        Ok(Root { draft, url, doc, resources, meta_vocabs })
    }
}

} // verus!
