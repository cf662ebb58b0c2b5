//! Compilation of schema documents into `Schemas`.

use vstd::prelude::*;
use crate::draft::{Draft, draft_version};
use crate::errors::CompileError;
use crate::formats::BuiltinFormat;
use crate::json::{JsonNumber, JsonValue, Type, clone_number, clone_value, obj_get, obj_lookup};
use crate::outside::{Pattern, percent_decode_utf8, url_join, url_parse};
use crate::root::{Root, has_root_resource};
use crate::schema::{
    Additional, Decoder, DecoderCheck, Dependency, DynamicRef, Enum, Format, FormatCheck, Items, MediaType,
    Schema, SchemaIndex, Schemas, Types, opt_below, all_below, pairs_below, dep_below, lemma_refs_below_mono,
    enqueue_result, views,
};
use crate::text::{chars_of, push_char, push_str, str_eq, usize_to_string};
use crate::util::{Fragment, JsonPointer, escape, split};
use vstd::string::StrSliceExecFns;

verus! {

/// Turns the pattern syntax of JSON-Schema (ECMA-262) into that of the
/// regex engine; supplied by the code that embeds the compiler.
pub trait PatternTranslator {
    /// The regex-engine form of `pattern`, or why it cannot be converted.
    fn translate(&self, pattern: &str) -> Result<String, String>;
}

/// JsonSchema compiler settings: the draft to assume, which assertions
/// to enable, and the formats, content encodings and media types
/// registered (each checked, outside the library, under its position).
pub struct Compiler {
    pub default_draft: Draft,
    pub assert_format: bool,
    pub assert_content: bool,
    /// Formats checked outside the library; the first six are standard.
    pub formats: Vec<String>,
    /// Content encodings registered.
    pub decoders: Vec<String>,
    /// Media types known, with whether each can be read as JSON; the first
    /// is `application/json`.
    pub media_types: Vec<(String, bool)>,
}

/// Whether `name` is among `names`.
pub open spec fn names_have(names: Seq<String>, name: Seq<char>) -> bool {
    exists|i: int| 0 <= i < names.len() && (#[trigger] names[i])@ == name
}

/// The position of the first of `names` equal to `name`.
fn position_of_name(names: &Vec<String>, name: &str) -> (r: Option<usize>)
    ensures
        r matches Some(i) ==> i < names@.len() && names@[i as int]@ == name@
            && forall|j: int| 0 <= j < i ==> (#[trigger] names@[j])@ != name@,
        r is None ==> !names_have(names@, name@),
{
    let mut i: usize = 0;
    while i < names.len()
        invariant
            i <= names@.len(),
            forall|j: int| 0 <= j < i ==> (#[trigger] names@[j])@ != name@,
        decreases names.len() - i,
    {
        if str_eq(names[i].as_str(), name) {
            return Some(i);
        }
        i += 1;
    }
    None
}

impl Compiler {
    /// A compiler for the latest draft, with format and content assertions
    /// off, knowing the standard formats checked outside the library
    /// (`regex`, `ipv4`, `ipv6`, `email`, `idn-email`, `uuid`, at positions
    /// 0 to 5) and the media type `application/json`.
    pub fn new() -> (r: Compiler)
        ensures
            r.default_draft == Draft::V2020_12,
            !r.assert_format,
            !r.assert_content,
            r.formats@.len() == 6,
            r.formats@[0]@ == "regex"@,
            r.decoders@.len() == 0,
            r.media_types@.len() == 1,
            r.media_types@[0].0@ == "application/json"@ && r.media_types@[0].1,
    {
        let mut formats: Vec<String> = Vec::new();
        formats.push("regex".to_string());
        formats.push("ipv4".to_string());
        formats.push("ipv6".to_string());
        formats.push("email".to_string());
        formats.push("idn-email".to_string());
        formats.push("uuid".to_string());
        let mut media_types: Vec<(String, bool)> = Vec::new();
        media_types.push(("application/json".to_string(), true));
        Compiler {
            default_draft: Draft::default(),
            assert_format: false,
            assert_content: false,
            formats,
            decoders: Vec::new(),
            media_types,
        }
    }

    /// Overrides the draft used for schemas without `$schema`.
    pub fn set_default_draft(&mut self, d: Draft)
        ensures
            final(self).default_draft == d,
            final(self).formats == old(self).formats,
            final(self).assert_format == old(self).assert_format,
            final(self).assert_content == old(self).assert_content,
    {
        self.default_draft = d;
    }

    /// Always enables format assertions.
    pub fn enable_format_assertions(&mut self)
        ensures
            final(self).assert_format,
            final(self).default_draft == old(self).default_draft,
            final(self).assert_content == old(self).assert_content,
    {
        self.assert_format = true;
    }

    /// Always enables content assertions.
    pub fn enable_content_assertions(&mut self)
        ensures
            final(self).assert_content,
            final(self).default_draft == old(self).default_draft,
            final(self).assert_format == old(self).assert_format,
    {
        self.assert_content = true;
    }

    /// Registers format `name`, whose check then runs under the returned
    /// position (replacing an earlier registration of the name); `regex`
    /// cannot be overridden and gives `None`.
    pub fn register_format(&mut self, name: &str) -> (r: Option<usize>)
        ensures
            name@ == "regex"@ ==> r is None && final(self).formats@ == old(self).formats@,
            name@ != "regex"@ ==> (r matches Some(i) && i < final(self).formats@.len()
                && final(self).formats@[i as int]@ == name@),
            names_have(old(self).formats@, name@) ==> final(self).formats@ == old(self).formats@,
            !names_have(old(self).formats@, name@) && name@ != "regex"@
                ==> final(self).formats@.len() == old(self).formats@.len() + 1,
    {
        if str_eq(name, "regex") {
            return None;
        }
        match position_of_name(&self.formats, name) {
            Some(i) => Some(i),
            None => {
                self.formats.push(name.to_string());
                Some(self.formats.len() - 1)
            },
        }
    }

    /// Registers content encoding `name`, decoded then under the returned
    /// position (replacing an earlier registration of the name).
    pub fn register_content_encoding(&mut self, name: &str) -> (r: usize)
        ensures
            r < final(self).decoders@.len(),
            final(self).decoders@[r as int]@ == name@,
            names_have(old(self).decoders@, name@) ==> final(self).decoders@ == old(self).decoders@,
    {
        match position_of_name(&self.decoders, name) {
            Some(i) => i,
            None => {
                self.decoders.push(name.to_string());
                self.decoders.len() - 1
            },
        }
    }

    /// Registers media type `name`, checked then under the returned
    /// position (replacing an earlier registration of the name).
    pub fn register_content_media_type(&mut self, name: &str, json_compatible: bool) -> (r: usize)
        ensures
            r < final(self).media_types@.len(),
            final(self).media_types@[r as int] == (final(self).media_types@[r as int].0, json_compatible),
            final(self).media_types@[r as int].0@ == name@,
            final(self).media_types@.len() >= old(self).media_types@.len(),
    {
        let mut i: usize = 0;
        while i < self.media_types.len()
            invariant
                i <= self.media_types@.len(),
                self.media_types@ == old(self).media_types@,
            decreases self.media_types.len() - i,
        {
            if str_eq(self.media_types[i].0.as_str(), name) {
                let entry = (self.media_types[i].0.clone(), json_compatible);
                self.media_types.set(i, entry);
                return i;
            }
            i += 1;
        }
        self.media_types.push((name.to_string(), json_compatible));
        self.media_types.len() - 1
    }

    /// How format `name` is checked: by a registered check first, else by
    /// the library; `None` for a format nobody knows.
    pub fn format_check(&self, name: &str) -> (r: Option<FormatCheck>)
        ensures
            r matches Some(FormatCheck::Registered(i)) ==> i < self.formats@.len() && self.formats@[i as int]@ == name@,
            r matches Some(FormatCheck::Builtin(f)) ==> !names_have(self.formats@, name@)
                && crate::formats::builtin_format_name(f) == name@,
            r is None ==> !names_have(self.formats@, name@)
                && forall|f: BuiltinFormat| crate::formats::builtin_format_name(f) != name@,
    {
        match position_of_name(&self.formats, name) {
            Some(i) => Some(FormatCheck::Registered(i)),
            None => match BuiltinFormat::from_name(name) {
                Some(f) => Some(FormatCheck::Builtin(f)),
                None => None,
            },
        }
    }
}

/// The strings among the items of `v`, if it is an array.
pub open spec fn spec_to_strings(v: JsonValue) -> Seq<Seq<char>> {
    match v {
        JsonValue::Array(a) => strings_of(a@),
        _ => seq![],
    }
}

/// The strings among `items`, in order.
pub open spec fn strings_of(items: Seq<JsonValue>) -> Seq<Seq<char>>
    decreases items.len(),
{
    if items.len() == 0 {
        seq![]
    } else {
        strings_of(items.drop_last()) + match items.last() {
            JsonValue::String(s) => seq![s@],
            _ => seq![],
        }
    }
}

/// The strings among the items of `v`, if it is an array.
pub fn to_strings(v: &JsonValue) -> (r: Vec<String>)
    ensures
        r@.map_values(|s: String| s@) == spec_to_strings(*v),
{
    let mut r: Vec<String> = Vec::new();
    if let JsonValue::Array(a) = v {
        let mut i: usize = 0;
        proof {
            assert(a@.take(0) =~= Seq::<JsonValue>::empty());
            assert(r@.map_values(|s: String| s@) =~= Seq::<Seq<char>>::empty());
        }
        while i < a.len()
            invariant
                i <= a@.len(),
                r@.map_values(|s: String| s@) == strings_of(a@.take(i as int)),
            decreases a.len() - i,
        {
            proof {
                assert(a@.take(i + 1).drop_last() =~= a@.take(i as int));
                assert(a@.take(i + 1).last() == a@[i as int]);
            }
            if let JsonValue::String(t) = &a[i] {
                r.push(t.clone());
                proof {
                    assert(r@.map_values(|s: String| s@) =~= strings_of(a@.take(i as int)) + seq![t@]);
                }
            }
            i += 1;
        }
        proof {
            assert(a@.take(a@.len() as int) =~= a@);
        }
    } else {
        proof {
            assert(r@.map_values(|s: String| s@) =~= Seq::<Seq<char>>::empty());
        }
    }
    r
}

} // verus!

verus! {

/// `b` extends `a`.
pub open spec fn extends(a: Seq<String>, b: Seq<String>) -> bool {
    a.len() <= b.len() && forall|i: int| 0 <= i < a.len() ==> b[i] == a[i]
}

/// Compiles the keywords of one schema object.
pub struct ObjCompiler<'a> {
    pub c: &'a Compiler,
    pub obj: &'a Vec<(String, JsonValue)>,
    pub loc: &'a str,
    pub schemas: &'a Schemas,
    pub root: &'a Root,
    pub roots: &'a Vec<Root>,
}

impl<'a> ObjCompiler<'a> {
    /// How many schemas the compiled ones and `queue` hold together.
    pub open spec fn bound(&self, queue: Seq<String>) -> nat {
        self.schemas.list@.len() + queue.len()
    }

    /// No more schema can be queued after `queue`: its index would not
    /// fit in a `usize`.
    pub open spec fn full(&self, queue: Seq<String>) -> bool {
        self.bound(queue) >= usize::MAX - 1
    }

    /// The value of keyword `pname`.
    pub open spec fn spec_value(&self, pname: Seq<char>) -> Option<JsonValue> {
        obj_get(self.obj@, pname)
    }


    // ---------------------------------------------------------------
    // query helpers

    /// The draft version of the document.
    pub fn draft_version(&self) -> (r: usize)
        ensures
            r == draft_version(self.root.draft),
    {
        self.root.draft.version()
    }

    /// Whether vocabulary `name` applies.
    pub fn has_vocab(&self, name: &str) -> (r: bool)
        ensures
            r == (draft_version(self.root.draft) < 2019 || name@ == "core"@ || match self.root.meta_vocabs {
                Some(v) => exists|i: int| 0 <= i < v@.len() && (#[trigger] v@[i])@ == name@,
                None => crate::root::default_vocab(draft_version(self.root.draft), name@),
            }),
    {
        self.root.has_vocab(name)
    }

    /// The value of keyword `pname`.
    pub fn value(&self, pname: &str) -> (r: Option<&'a JsonValue>)
        ensures
            match self.spec_value(pname@) {
                Some(v) => r matches Some(x) && *x == v,
                None => r is None,
            },
    {
        obj_lookup(self.obj, pname)
    }

    /// Whether keyword `pname` is `true`.
    pub fn bool(&self, pname: &str) -> (r: bool)
        ensures
            r == (self.spec_value(pname@) == Some(JsonValue::Bool(true))),
    {
        match obj_lookup(self.obj, pname) {
            Some(JsonValue::Bool(b)) => *b,
            _ => false,
        }
    }

    /// Keyword `pname` as a count: a non-negative whole number.
    pub fn usize(&self, pname: &str) -> (r: Option<usize>)
        ensures
            match self.spec_value(pname@) {
                Some(JsonValue::Number(n)) => match n.as_u64 {
                    Some(x) => r == Some(x as usize),
                    None => r == n.float_as_usize,
                },
                _ => r is None,
            },
    {
        match obj_lookup(self.obj, pname) {
            Some(JsonValue::Number(n)) => match n.as_u64 {
                Some(x) => Some(x as usize),
                None => n.float_as_usize,
            },
            _ => None,
        }
    }

    /// Keyword `pname` as a number.
    pub fn num(&self, pname: &str) -> (r: Option<JsonNumber>)
        ensures
            match self.spec_value(pname@) {
                Some(JsonValue::Number(n)) => r matches Some(x) && crate::json::same_number(x, n),
                _ => r is None,
            },
    {
        match obj_lookup(self.obj, pname) {
            Some(JsonValue::Number(n)) => Some(clone_number(n)),
            _ => None,
        }
    }

    /// Whether keyword `pname` is the boolean `b`.
    pub fn bool_schema(&self, pname: &str, b: bool) -> (r: bool)
        ensures
            r == (self.spec_value(pname@) == Some(JsonValue::Bool(b))),
    {
        match obj_lookup(self.obj, pname) {
            Some(JsonValue::Bool(v)) => *v == b,
            _ => false,
        }
    }

    // ---------------------------------------------------------------
    // enqueue helpers

    /// The index of the schema at `loc`, queued if new; an error only when
    /// the indices would overflow.
    pub fn enqueue_loc(&self, queue: &mut Vec<String>, loc: String) -> (r: Result<SchemaIndex, CompileError>)
        ensures
            extends(old(queue)@, final(queue)@),
            r matches Ok(i) ==> i.0 < self.bound(final(queue)@),
            r matches Ok(i) ==> (i.0 as nat, views(final(queue)@)) == enqueue_result(self.schemas.locs(), views(old(queue)@), loc@),
            r is Err <==> (self.schemas.list@.len() >= usize::MAX - 1
                || old(queue)@.len() >= usize::MAX - 1 - self.schemas.list@.len()),
    {
        enqueue_checked(self.schemas, queue, loc)
    }

    /// The index of the subschema at `path` below this object.
    pub fn enqueue_path(&self, queue: &mut Vec<String>, path: &str) -> (r: Result<SchemaIndex, CompileError>)
        ensures
            extends(old(queue)@, final(queue)@),
            r matches Ok(i) ==> i.0 < self.bound(final(queue)@),
            r matches Ok(i) ==> (i.0 as nat, views(final(queue)@))
                == enqueue_result(self.schemas.locs(), views(old(queue)@), self.loc@ + seq!['/'] + path@),
            r is Err <==> (self.schemas.list@.len() >= usize::MAX - 1
                || old(queue)@.len() >= usize::MAX - 1 - self.schemas.list@.len()),
    {
        let mut loc = self.loc.to_string();
        push_char(&mut loc, '/');
        push_str(&mut loc, path);
        assert(loc@ =~= self.loc@ + seq!['/'] + path@);
        self.enqueue_loc(queue, loc)
    }

    /// The index of the subschema of keyword `pname`, if present.
    pub fn enqueue_prop(&self, queue: &mut Vec<String>, pname: &str) -> (r: Result<Option<SchemaIndex>, CompileError>)
        ensures
            extends(old(queue)@, final(queue)@),
            r matches Ok(o) ==> opt_below(o, self.bound(final(queue)@)),
            r matches Ok(o) ==> (o is Some <==> self.spec_value(pname@) is Some),
            r is Err <==> self.spec_value(pname@) is Some && self.full(old(queue)@),
    {
        if crate::json::obj_contains(self.obj, pname) {
            let i = self.enqueue_path(queue, pname)?;
            Ok(Some(i))
        } else {
            Ok(None)
        }
    }

    /// The indices of the subschemas of array keyword `pname`.
    pub fn enqueue_arr(&self, queue: &mut Vec<String>, pname: &str) -> (r: Result<Vec<SchemaIndex>, CompileError>)
        ensures
            extends(old(queue)@, final(queue)@),
            r matches Ok(v) ==> all_below(v@, self.bound(final(queue)@)),
            r matches Ok(v) ==> v@.len() == match self.spec_value(pname@) {
                Some(JsonValue::Array(a)) => a@.len(),
                _ => 0,
            },
            r is Err ==> self.full(final(queue)@),
    {
        let mut out: Vec<SchemaIndex> = Vec::new();
        if let Some(JsonValue::Array(arr)) = obj_lookup(self.obj, pname) {
            let mut i: usize = 0;
            while i < arr.len()
                invariant
                    i <= arr@.len(),
                    out@.len() == i,
                    extends(old(queue)@, queue@),
                    all_below(out@, self.bound(queue@)),
                decreases arr.len() - i,
            {
                let mut path = pname.to_string();
                push_char(&mut path, '/');
                push_str(&mut path, usize_to_string(i).as_str());
                let idx = self.enqueue_path(queue, path.as_str())?;
                out.push(idx);
                i += 1;
            }
        }
        Ok(out)
    }

    /// The names and subschema indices of object keyword `pname`.
    pub fn enqueue_map(&self, queue: &mut Vec<String>, pname: &str) -> (r: Result<Vec<(String, SchemaIndex)>, CompileError>)
        ensures
            extends(old(queue)@, final(queue)@),
            r matches Ok(v) ==> pairs_below(v@, self.bound(final(queue)@)),
            r matches Ok(v) ==> v@.len() == match self.spec_value(pname@) {
                Some(JsonValue::Object(o)) => o@.len(),
                _ => 0,
            },
            r matches Ok(v) ==> forall|i: int| 0 <= i < v@.len() ==> match self.spec_value(pname@) {
                Some(JsonValue::Object(o)) => (#[trigger] v@[i]).0@ == o@[i].0@,
                _ => true,
            },
            r is Err ==> self.full(final(queue)@),
    {
        let mut out: Vec<(String, SchemaIndex)> = Vec::new();
        if let Some(JsonValue::Object(o)) = obj_lookup(self.obj, pname) {
            let mut i: usize = 0;
            while i < o.len()
                invariant
                    i <= o@.len(),
                    out@.len() == i,
                    extends(old(queue)@, queue@),
                    pairs_below(out@, self.bound(queue@)),
                    forall|j: int| 0 <= j < i ==> (#[trigger] out@[j]).0@ == o@[j].0@,
                decreases o.len() - i,
            {
                let mut path = pname.to_string();
                push_char(&mut path, '/');
                push_str(&mut path, escape(o[i].0.as_str()).as_str());
                let idx = self.enqueue_path(queue, path.as_str())?;
                out.push((o[i].0.clone(), idx));
                i += 1;
            }
        }
        Ok(out)
    }

    /// `additionalItems` / `additionalProperties`: the boolean, or the
    /// index of the subschema.
    pub fn enqueue_additional(&self, queue: &mut Vec<String>, pname: &str) -> (r: Result<Option<Additional>, CompileError>)
        ensures
            extends(old(queue)@, final(queue)@),
            r matches Ok(Some(Additional::SchemaRef(i))) ==> i.0 < self.bound(final(queue)@),
            r matches Ok(o) ==> (o is Some <==> self.spec_value(pname@) is Some),
            r matches Ok(o) ==> match self.spec_value(pname@) {
                Some(JsonValue::Bool(b)) => o == Some(Additional::Bool(b)),
                _ => true,
            },
            r is Err <==> self.spec_value(pname@) is Some && !(self.spec_value(pname@) matches Some(JsonValue::Bool(_)))
                && self.full(old(queue)@),
    {
        if let Some(JsonValue::Bool(b)) = obj_lookup(self.obj, pname) {
            Ok(Some(Additional::Bool(*b)))
        } else {
            match self.enqueue_prop(queue, pname)? {
                Some(i) => Ok(Some(Additional::SchemaRef(i))),
                None => Ok(None),
            }
        }
    }

    /// The index of the schema that reference keyword `pname` names,
    /// resolved against this document (and, for an anchor in another
    /// loaded document, against that one).
    pub fn enqueue_ref(&self, queue: &mut Vec<String>, pname: &str) -> (r: Result<Option<SchemaIndex>, CompileError>)
        requires
            has_root_resource(self.root.resources@),
            forall|i: int| 0 <= i < self.roots@.len() ==> has_root_resource((#[trigger] self.roots@[i]).resources@),
        ensures
            extends(old(queue)@, final(queue)@),
            r matches Ok(o) ==> opt_below(o, self.bound(final(queue)@)),
            r matches Ok(Some(_)) ==> self.spec_value(pname@) matches Some(JsonValue::String(_)),
            !(self.spec_value(pname@) matches Some(JsonValue::String(_))) ==> r matches Ok(None),
            r is Err ==> self.spec_value(pname@) matches Some(JsonValue::String(_)),
    {
        let ref_ = match obj_lookup(self.obj, pname) {
            Some(JsonValue::String(s)) => s,
            _ => {
                return Ok(None);
            },
        };
        let (_, frag) = split(self.loc);
        let ptr = match percent_decode_utf8(frag.as_str()) {
            Ok(p) => p,
            Err(e) => {
                return Err(CompileError::LoadUrlError { url: self.loc.to_string(), src: e });
            },
        };
        let abs_ref = match url_join(self.root.base_url(ptr.as_str()), ref_.as_str()) {
            Ok(u) => u,
            Err(e) => {
                return Err(CompileError::ParseUrlError { url: ref_.clone(), src: e });
            },
        };
        let mut resolved_ref = self.root.resolve(abs_ref.as_str())?;

        // handle if external anchor
        let (url, frag) = split(resolved_ref.as_str());
        let fv = chars_of(frag.as_str());
        if fv.len() > 0 && fv[0] != '/' {
            let u = match url_parse(url.as_str()) {
                Ok(u) => u,
                Err(_) => {
                    return Err(CompileError::ParseUrlError { url: url.clone(), src: "invalid url".to_string() });
                },
            };
            let mut k: usize = 0;
            while k < self.roots.len()
                invariant
                    k <= self.roots@.len(),
                    self.spec_value(pname@) matches Some(JsonValue::String(_)),
                    forall|i: int| 0 <= i < self.roots@.len() ==> has_root_resource((#[trigger] self.roots@[i]).resources@),
                decreases self.roots.len() - k,
            {
                if str_eq(self.roots[k].url.as_str(), u.as_str()) {
                    resolved_ref = self.roots[k].resolve(abs_ref.as_str())?;
                    break;
                }
                k += 1;
            }
        }
        let i = self.enqueue_loc(queue, resolved_ref)?;
        Ok(Some(i))
    }
}

} // verus!

verus! {

/// Whether the keywords of vocabulary `name` apply in `root`.
pub open spec fn vocab_on(root: Root, name: Seq<char>) -> bool {
    draft_version(root.draft) < 2019 || name == "core"@ || match root.meta_vocabs {
        Some(v) => exists|i: int| 0 <= i < v@.len() && (#[trigger] v@[i])@ == name,
        None => crate::root::default_vocab(draft_version(root.draft), name),
    }
}

/// A keyword value read as a count.
pub open spec fn spec_count(v: Option<JsonValue>) -> Option<usize> {
    match v {
        Some(JsonValue::Number(n)) => match n.as_u64 {
            Some(x) => Some(x as usize),
            None => n.float_as_usize,
        },
        _ => None,
    }
}

/// The number of items of a keyword value that is an array (else none).
pub open spec fn arr_len(v: Option<JsonValue>) -> nat {
    match v {
        Some(JsonValue::Array(a)) => a@.len(),
        _ => 0,
    }
}

/// The number of members of a keyword value that is an object (else none).
pub open spec fn obj_len(v: Option<JsonValue>) -> nat {
    match v {
        Some(JsonValue::Object(o)) => o@.len(),
        _ => 0,
    }
}

/// A keyword of schema object `o` whose compilation a step outside the
/// library decides: a reference to resolve against a url, or a pattern to
/// translate and compile.
pub open spec fn outside_decides(o: Seq<(String, JsonValue)>) -> bool {
    ||| obj_get(o, "$ref"@) matches Some(JsonValue::String(_))
    ||| obj_get(o, "$recursiveRef"@) matches Some(JsonValue::String(_))
    ||| obj_get(o, "$dynamicRef"@) matches Some(JsonValue::String(_))
    ||| obj_get(o, "pattern"@) matches Some(JsonValue::String(_))
    ||| obj_len(obj_get(o, "patternProperties"@)) > 0
}

/// The entries of `dependencies` (`d`) as compiled (`list`): the same
/// names in order, an array naming required properties, anything else a
/// subschema.
pub open spec fn deps_compiled(d: Seq<(String, JsonValue)>, list: Seq<(String, Dependency)>) -> bool {
    &&& list.len() == d.len()
    &&& forall|k: int| 0 <= k < d.len() ==> (#[trigger] list[k]).0@ == d[k].0@ && match list[k].1 {
        Dependency::Props(p) => d[k].1 is Array && p@.map_values(|x: String| x@) == spec_to_strings(d[k].1),
        Dependency::SchemaRef(_) => !(d[k].1 is Array),
    }
}

/// `properties`, `patternProperties`, `additionalProperties` and
/// `dependencies` of schema object `o` as compiled into `s`, which was `a`
/// before.
pub open spec fn props_compiled(o: Seq<(String, JsonValue)>, a: Schema, s: Schema) -> bool {
    &&& s.properties@.len() == obj_len(obj_get(o, "properties"@))
    &&& (obj_get(o, "properties"@) matches Some(JsonValue::Object(p)) ==> forall|i: int| 0 <= i < p@.len()
        ==> (#[trigger] s.properties@[i]).0@ == p@[i].0@)
    &&& s.pattern_properties@.len() == obj_len(obj_get(o, "patternProperties"@))
    &&& (s.additional_properties is Some <==> obj_get(o, "additionalProperties"@) is Some)
    &&& (obj_get(o, "additionalProperties"@) matches Some(JsonValue::Bool(b))
        ==> s.additional_properties == Some(Additional::Bool(b)))
    &&& match obj_get(o, "dependencies"@) {
        Some(JsonValue::Object(d)) => deps_compiled(d@, s.dependencies@),
        _ => s.dependencies == a.dependencies,
    }
}

/// The schemas `a` and `b` are at the same location in the same draft.
pub open spec fn same_place(a: Schema, b: Schema) -> bool {
    a.loc == b.loc && a.draft_version == b.draft_version
}

/// A number keyword `v` as compiled (`r`): the same number, or nothing
/// when the keyword is absent or not a number.
pub open spec fn num_compiled(v: Option<JsonValue>, r: Option<JsonNumber>) -> bool {
    match v {
        Some(JsonValue::Number(n)) => r matches Some(x) && crate::json::same_number(x, n),
        _ => r is None,
    }
}

/// The value `v` of a `type` keyword names type `t`, as a string or as
/// one of the strings of an array.
pub open spec fn type_named(v: Option<JsonValue>, t: Type) -> bool {
    match v {
        Some(JsonValue::String(x)) => crate::json::spec_type_from_str(x@) == Some(t),
        Some(JsonValue::Array(a)) => exists|i: int| 0 <= i < a@.len()
            && (#[trigger] a@[i] matches JsonValue::String(x) && crate::json::spec_type_from_str(x@) == Some(t)),
        _ => false,
    }
}

/// A bound and its exclusive form as compiled from schema object `o`
/// (`max_kw` and `excl_kw` name the keywords): before draft 6 the
/// exclusive keyword is a flag that makes the bound exclusive; later it is
/// a number of its own; `excl0` is what the exclusive bound was before.
pub open spec fn bound_compiled(o: Seq<(String, JsonValue)>, max_kw: Seq<char>, excl_kw: Seq<char>,
    excl0: Option<JsonNumber>, bound: Option<JsonNumber>, excl: Option<JsonNumber>) -> bool {
    match obj_get(o, excl_kw) {
        Some(JsonValue::Bool(true)) => bound is None && num_compiled(obj_get(o, max_kw), excl),
        Some(JsonValue::Bool(false)) => num_compiled(obj_get(o, max_kw), bound) && excl == excl0,
        x => num_compiled(obj_get(o, max_kw), bound) && num_compiled(x, excl),
    }
}

/// `type`, `enum`, `multipleOf`, the bounds, `required` and `pattern` of
/// schema object `o` as compiled into `s`, where before `s` had the types
/// `types0`, the enum `enum0`, the exclusive bounds `exmax0` and `exmin0`,
/// the required names `req0` and the pattern `pattern0`.
pub open spec fn values_compiled_from(o: Seq<(String, JsonValue)>, types0: Set<Type>, enum0: Option<Enum>,
    exmax0: Option<JsonNumber>, exmin0: Option<JsonNumber>, req0: Seq<Seq<char>>, pattern0: Option<Pattern>,
    s: Schema) -> bool {
    &&& forall|t: Type| #[trigger] s.types.has(t) == (types0.contains(t) || type_named(obj_get(o, "type"@), t))
    &&& match obj_get(o, "enum"@) {
        Some(JsonValue::Array(e)) => s.enum_ matches Some(en) && {
            &&& en.values@.len() == e@.len()
            &&& forall|i: int| 0 <= i < e@.len() ==> crate::json::same_value(#[trigger] en.values@[i], e@[i])
            &&& forall|t: Type| #[trigger] en.types.has(t) == exists|i: int| 0 <= i < e@.len()
                && crate::json::spec_type_of(#[trigger] e@[i]) == t
        },
        _ => s.enum_ == enum0,
    }
    &&& num_compiled(obj_get(o, "multipleOf"@), s.multiple_of)
    &&& bound_compiled(o, "maximum"@, "exclusiveMaximum"@, exmax0, s.maximum, s.exclusive_maximum)
    &&& bound_compiled(o, "minimum"@, "exclusiveMinimum"@, exmin0, s.minimum, s.exclusive_minimum)
    &&& s.required@.map_values(|x: String| x@) == match obj_get(o, "required"@) {
        Some(req) => spec_to_strings(req),
        None => req0,
    }
    &&& (obj_get(o, "pattern"@) matches Some(JsonValue::String(_)) ==> s.pattern is Some)
    &&& (!(obj_get(o, "pattern"@) matches Some(JsonValue::String(_))) ==> s.pattern == pattern0)
}

/// `type`, `enum`, `multipleOf`, the bounds, `required` and `pattern` of
/// schema object `o` as compiled into `s`, which was `a` before.
pub open spec fn values_compiled(o: Seq<(String, JsonValue)>, a: Schema, s: Schema) -> bool {
    values_compiled_from(o, Set::new(|t: Type| a.types.has(t)), a.enum_, a.exclusive_maximum,
        a.exclusive_minimum, a.required@.map_values(|x: String| x@), a.pattern, s)
}

/// `type`, `enum`, `multipleOf`, the bounds, `required` and `pattern` of
/// schema object `o` as compiled into a fresh schema `s`.
pub open spec fn values_compiled_fresh(o: Seq<(String, JsonValue)>, s: Schema) -> bool {
    values_compiled_from(o, Set::empty(), None, None, None, seq![], None, s)
}

/// The fields that `values_compiled` speaks of are the same in `a` and `b`.
pub open spec fn same_values(a: Schema, b: Schema) -> bool {
    &&& a.types == b.types
    &&& a.enum_ == b.enum_
    &&& a.multiple_of == b.multiple_of
    &&& a.maximum == b.maximum
    &&& a.exclusive_maximum == b.exclusive_maximum
    &&& a.minimum == b.minimum
    &&& a.exclusive_minimum == b.exclusive_minimum
    &&& a.required == b.required
    &&& a.pattern == b.pattern
}

/// The schemas `a` and `b` name the same schemas.
pub open spec fn same_refs(a: Schema, b: Schema) -> bool {
    &&& a.resource == b.resource
    &&& a.dynamic_anchors == b.dynamic_anchors
    &&& a.ref_ == b.ref_
    &&& a.recursive_ref == b.recursive_ref
    &&& a.dynamic_ref == b.dynamic_ref
    &&& a.not == b.not
    &&& a.all_of == b.all_of
    &&& a.any_of == b.any_of
    &&& a.one_of == b.one_of
    &&& a.if_ == b.if_
    &&& a.then_ == b.then_
    &&& a.else_ == b.else_
    &&& a.properties == b.properties
    &&& a.pattern_properties == b.pattern_properties
    &&& a.property_names == b.property_names
    &&& a.additional_properties == b.additional_properties
    &&& a.dependent_schemas == b.dependent_schemas
    &&& a.dependencies == b.dependencies
    &&& a.unevaluated_properties == b.unevaluated_properties
    &&& a.contains == b.contains
    &&& a.items == b.items
    &&& a.additional_items == b.additional_items
    &&& a.prefix_items == b.prefix_items
    &&& a.items2020 == b.items2020
    &&& a.unevaluated_items == b.unevaluated_items
    &&& a.content_schema == b.content_schema
}

/// The counts and flags of the validation vocabulary that `s` takes from
/// the schema object `o`.
pub open spec fn counts_compiled(o: Seq<(String, JsonValue)>, s: Schema) -> bool {
    &&& s.min_length == spec_count(obj_get(o, "minLength"@))
    &&& s.max_length == spec_count(obj_get(o, "maxLength"@))
    &&& s.min_items == spec_count(obj_get(o, "minItems"@))
    &&& s.max_items == spec_count(obj_get(o, "maxItems"@))
    &&& s.min_properties == spec_count(obj_get(o, "minProperties"@))
    &&& s.max_properties == spec_count(obj_get(o, "maxProperties"@))
    &&& s.unique_items == (obj_get(o, "uniqueItems"@) == Some(JsonValue::Bool(true)))
}

/// How `s` checks `format`, given how it did before (`f`): as compiler
/// `c` checks the format that schema object `o` of document `root` names
/// when format assertions apply, else as before.
pub open spec fn format_set(c: Compiler, root: Root, o: Seq<(String, JsonValue)>, f: Option<Format>, s: Schema) -> bool {
    match obj_get(o, "format"@) {
        Some(JsonValue::String(name)) => if c.assert_format || vocab_on(root, format_vocab(draft_version(root.draft))) {
            format_compiled(c, name@, s.format)
        } else {
            s.format == f
        },
        _ => s.format == f,
    }
}

/// `b` keeps what compiling the draft 4 keywords put in `a`.
pub open spec fn keeps_draft4(a: Schema, b: Schema) -> bool {
    &&& a.min_length == b.min_length
    &&& a.max_length == b.max_length
    &&& a.min_items == b.min_items
    &&& a.max_items == b.max_items
    &&& a.min_properties == b.min_properties
    &&& a.max_properties == b.max_properties
    &&& a.unique_items == b.unique_items
    &&& a.all_of == b.all_of
    &&& a.any_of == b.any_of
    &&& a.one_of == b.one_of
    &&& a.not == b.not
    &&& a.format == b.format
    &&& a.ref_ == b.ref_
    &&& same_values(a, b)
}

/// The keywords draft 6 adds are compiled the same in `a` and `b`.
pub open spec fn keeps_draft6(a: Schema, b: Schema) -> bool {
    a.contains == b.contains && a.property_names == b.property_names && a.constant == b.constant
}

/// The keywords draft 7 adds (`if`, `then`, `else`) are compiled the same
/// in `a` and `b`.
pub open spec fn keeps_draft7(a: Schema, b: Schema) -> bool {
    a.if_ == b.if_ && a.then_ == b.then_ && a.else_ == b.else_
}

/// Some keywords draft 2019-09 adds are compiled the same in `a` and `b`.
pub open spec fn keeps_draft2019(a: Schema, b: Schema) -> bool {
    &&& a.min_contains == b.min_contains
    &&& a.max_contains == b.max_contains
    &&& a.dependent_schemas == b.dependent_schemas
    &&& a.unevaluated_items == b.unevaluated_items
    &&& a.unevaluated_properties == b.unevaluated_properties
    &&& a.recursive_anchor == b.recursive_anchor
}

/// `s` has a subschema for each of `allOf`, `anyOf` and `oneOf` of the
/// schema object `o`, and `not` exactly when the object has it.
pub open spec fn applicators_compiled(o: Seq<(String, JsonValue)>, s: Schema) -> bool {
    &&& s.all_of@.len() == arr_len(obj_get(o, "allOf"@))
    &&& s.any_of@.len() == arr_len(obj_get(o, "anyOf"@))
    &&& s.one_of@.len() == arr_len(obj_get(o, "oneOf"@))
    &&& (s.not is Some <==> obj_get(o, "not"@) is Some)
}

impl<'a> ObjCompiler<'a> {
    /// Compiles `allOf`, `anyOf`, `oneOf`, `not`, and `items` with
    /// `additionalItems` before draft 2020-12.
    fn compile_applicators<T: PatternTranslator>(&self, queue: &mut Vec<String>, s: &mut Schema, tr: &T)
        -> (r: Result<(), CompileError>)
        ensures
            final(s).dependent_required == old(s).dependent_required,
            final(s).format == old(s).format,
            same_values(*old(s), *final(s)),
            keeps_draft7(*old(s), *final(s)),
            extends(old(queue)@, final(queue)@),
            r is Ok && old(s).refs_below(self.bound(old(queue)@)) ==> final(s).refs_below(self.bound(final(queue)@)),
            same_place(*old(s), *final(s)),
            r is Ok ==> applicators_compiled(self.obj@, *final(s)),
            r is Err ==> self.full(final(queue)@),
    {
        let ghost s0 = *s;
        let all_of = self.enqueue_arr(queue, "allOf")?;
        let any_of = self.enqueue_arr(queue, "anyOf")?;
        let one_of = self.enqueue_arr(queue, "oneOf")?;
        let not = self.enqueue_prop(queue, "not")?;
        let mut items = s.items.take();
        let mut additional_items = s.additional_items.take();
        proof {
            assert(items == s0.items);
            assert(additional_items == s0.additional_items);
        }
        if self.draft_version() < 2020 {
            match self.value("items") {
                Some(JsonValue::Array(_)) => {
                    items = Some(Items::SchemaRefs(self.enqueue_arr(queue, "items")?));
                    additional_items = self.enqueue_additional(queue, "additionalItems")?;
                },
                _ => {
                    items = match self.enqueue_prop(queue, "items")? {
                        Some(i) => Some(Items::SchemaRef(i)),
                        None => None,
                    };
                },
            }
        }
        s.all_of = all_of;
        s.any_of = any_of;
        s.one_of = one_of;
        s.not = not;
        s.items = items;
        s.additional_items = additional_items;
        proof {
            let n = self.bound(queue@);
            let ss = *s;
            if s0.refs_below(self.bound(old(queue)@)) {
                match ss.items {
                    Some(Items::SchemaRefs(l)) => {
                        assert(all_below(l@, n));
                    },
                    _ => {},
                }
                assert forall|i: int| 0 <= i < s.dependencies@.len() implies dep_below(#[trigger] s.dependencies@[i].1, n) by {
                    assert(dep_below(s0.dependencies@[i].1, self.bound(old(queue)@)));
                }
            }
        }
        Ok(())
    }

    /// Compiles `properties`, `patternProperties`, `additionalProperties`
    /// and `dependencies`.
    fn compile_properties<T: PatternTranslator>(&self, queue: &mut Vec<String>, s: &mut Schema, tr: &T)
        -> (r: Result<(), CompileError>)
        ensures
            final(s).dependent_required == old(s).dependent_required,
            final(s).format == old(s).format,
            final(s).all_of == old(s).all_of && final(s).any_of == old(s).any_of
                && final(s).one_of == old(s).one_of && final(s).not == old(s).not,
            same_values(*old(s), *final(s)),
            keeps_draft7(*old(s), *final(s)),
            extends(old(queue)@, final(queue)@),
            r is Ok && old(s).refs_below(self.bound(old(queue)@)) ==> final(s).refs_below(self.bound(final(queue)@)),
            same_place(*old(s), *final(s)),
            r is Ok ==> props_compiled(self.obj@, *old(s), *final(s)),
            r is Err ==> self.full(final(queue)@) || obj_len(self.spec_value("patternProperties"@)) > 0,
    {
        let ghost s0 = *s;
        let properties = self.enqueue_map(queue, "properties")?;
        let ghost b1 = self.bound(queue@);
        assert(pairs_below(properties@, b1));
        let mut pattern_properties: Vec<(Pattern, SchemaIndex)> = Vec::new();
        if let Some(JsonValue::Object(pp)) = self.value("patternProperties") {
            let mut i: usize = 0;
            while i < pp.len()
                invariant
                    i <= pp@.len(),
                    pattern_properties@.len() == i,
                    obj_len(self.spec_value("patternProperties"@)) == pp@.len(),
                    extends(old(queue)@, queue@),
                    b1 <= self.bound(queue@),
                    pairs_below(pattern_properties@, self.bound(queue@)),
                decreases pp.len() - i,
            {
                let pname = &pp[i].0;
                let mut url = self.loc.to_string();
                push_str(&mut url, "/patternProperties");
                let ecma = match tr.translate(pname.as_str()) {
                    Ok(e) => e,
                    Err(src) => {
                        return Err(CompileError::InvalidRegex { url, regex: pname.clone(), src });
                    },
                };
                let regex = match Pattern::new(ecma.as_str()) {
                    Ok(x) => x,
                    Err(src) => {
                        return Err(CompileError::InvalidRegex { url, regex: ecma, src });
                    },
                };
                let mut path = "patternProperties".to_string();
                push_char(&mut path, '/');
                push_str(&mut path, escape(pname.as_str()).as_str());
                let sch = self.enqueue_path(queue, path.as_str())?;
                pattern_properties.push((regex, sch));
                i += 1;
            }
        }
        let ghost b2 = self.bound(queue@);
        assert(b1 <= b2);
        assert(pairs_below(pattern_properties@, b2));
        let additional_properties = self.enqueue_additional(queue, "additionalProperties")?;
        let ghost b3 = self.bound(queue@);
        assert(b2 <= b3);
        let mut dependencies: Option<Vec<(String, Dependency)>> = None;
        if let Some(JsonValue::Object(deps)) = self.value("dependencies") {
            let mut list: Vec<(String, Dependency)> = Vec::new();
            let mut i: usize = 0;
            while i < deps.len()
                invariant
                    i <= deps@.len(),
                    extends(old(queue)@, queue@),
                    b3 <= self.bound(queue@),
                    forall|k: int| 0 <= k < list@.len() ==> dep_below(#[trigger] list@[k].1, self.bound(queue@)),
                    deps_compiled(deps@.take(i as int), list@),
                decreases deps.len() - i,
            {
                let k = &deps[i].0;
                let d = match &deps[i].1 {
                    JsonValue::Array(_) => Dependency::Props(to_strings(&deps[i].1)),
                    _ => {
                        let mut path = "dependencies".to_string();
                        push_char(&mut path, '/');
                        push_str(&mut path, escape(k.as_str()).as_str());
                        Dependency::SchemaRef(self.enqueue_path(queue, path.as_str())?)
                    },
                };
                list.push((k.clone(), d));
                i += 1;
            }
            dependencies = Some(list);
        }
        let ghost b4 = self.bound(queue@);
        assert(b3 <= b4);
        assert(dependencies matches Some(list) ==> forall|k: int| 0 <= k < list@.len() ==> dep_below(#[trigger] list@[k].1, b4));
        s.properties = properties;
        s.pattern_properties = pattern_properties;
        s.additional_properties = additional_properties;
        if let Some(list) = dependencies {
            s.dependencies = list;
        }
        proof {
            let n = self.bound(queue@);
            let ss = *s;
            assert(self.bound(old(queue)@) <= b1);
            assert(pairs_below(ss.properties@, n));
            assert(pairs_below(ss.pattern_properties@, n));
            if s0.refs_below(self.bound(old(queue)@)) {
                match ss.items {
                    Some(Items::SchemaRefs(l)) => {
                        assert(all_below(l@, n));
                    },
                    _ => {},
                }
                assert forall|i: int| 0 <= i < ss.dependencies@.len() implies dep_below(#[trigger] ss.dependencies@[i].1, n) by {
                    if ss.dependencies == s0.dependencies {
                        assert(dep_below(s0.dependencies@[i].1, self.bound(old(queue)@)));
                    }
                }
            }
        }
        Ok(())
    }

    /// Compiles the validation keywords of draft 4 (and their later
    /// forms); no subschema is involved.
    #[verifier::rlimit(80)]
    fn compile_validation<T: PatternTranslator>(&self, s: &mut Schema, tr: &T) -> (r: Result<(), CompileError>)
        ensures
            final(s).dependent_required == old(s).dependent_required,
            same_refs(*old(s), *final(s)),
            same_place(*old(s), *final(s)),
            r is Ok ==> values_compiled(self.obj@, *old(s), *final(s)),
            r is Ok ==> {
                &&& final(s).min_length == spec_count(self.spec_value("minLength"@))
                &&& final(s).max_length == spec_count(self.spec_value("maxLength"@))
                &&& final(s).min_items == spec_count(self.spec_value("minItems"@))
                &&& final(s).max_items == spec_count(self.spec_value("maxItems"@))
                &&& final(s).min_properties == spec_count(self.spec_value("minProperties"@))
                &&& final(s).max_properties == spec_count(self.spec_value("maxProperties"@))
                &&& final(s).unique_items == (self.spec_value("uniqueItems"@) == Some(JsonValue::Bool(true)))
            },
            final(s).format == old(s).format,
            r is Err ==> self.spec_value("pattern"@) matches Some(JsonValue::String(_)),
    {
        match self.value("type") {
            Some(JsonValue::String(t)) => {
                if let Some(t) = Type::from_str(t.as_str()) {
                    s.types.add(t);
                }
            },
            Some(JsonValue::Array(arr)) => {
                let mut i: usize = 0;
                while i < arr.len()
                    invariant
                        i <= arr@.len(),
                        same_refs(*old(s), *s),
                        same_place(*old(s), *s),
                        s.format == old(s).format,
                        *s == (Schema { types: s.types, ..*old(s) }),
                        forall|t: Type| #[trigger] s.types.has(t) == (old(s).types.has(t) || exists|j: int| 0 <= j < i
                            && (#[trigger] arr@[j] matches JsonValue::String(x) && crate::json::spec_type_from_str(x@) == Some(t))),
                    decreases arr.len() - i,
                {
                    if let JsonValue::String(t) = &arr[i] {
                        if let Some(t) = Type::from_str(t.as_str()) {
                            s.types.add(t);
                        }
                    }
                    i += 1;
                }
            },
            _ => {},
        }

        if let Some(JsonValue::Array(e)) = self.value("enum") {
            let mut types = Types::new();
            let mut values: Vec<JsonValue> = Vec::new();
            let mut i: usize = 0;
            while i < e.len()
                invariant
                    i <= e@.len(),
                    values@.len() == i,
                    forall|j: int| 0 <= j < i ==> crate::json::same_value(#[trigger] values@[j], e@[j]),
                    forall|t: Type| #[trigger] types.has(t) == exists|j: int| 0 <= j < i
                        && crate::json::spec_type_of(#[trigger] e@[j]) == t,
                decreases e.len() - i,
            {
                types.add(Type::of(&e[i]));
                values.push(clone_value(&e[i]));
                i += 1;
            }
            s.enum_ = Some(Enum { types, values });
        }

        s.multiple_of = self.num("multipleOf");

        s.maximum = self.num("maximum");
        if let Some(JsonValue::Bool(exclusive)) = self.value("exclusiveMaximum") {
            if *exclusive {
                s.exclusive_maximum = s.maximum.take();
            }
        } else {
            s.exclusive_maximum = self.num("exclusiveMaximum");
        }

        s.minimum = self.num("minimum");
        if let Some(JsonValue::Bool(exclusive)) = self.value("exclusiveMinimum") {
            if *exclusive {
                s.exclusive_minimum = s.minimum.take();
            }
        } else {
            s.exclusive_minimum = self.num("exclusiveMinimum");
        }

        s.max_length = self.usize("maxLength");
        s.min_length = self.usize("minLength");

        if let Some(JsonValue::String(p)) = self.value("pattern") {
            let converted = match tr.translate(p.as_str()) {
                Ok(c) => c,
                Err(e) => {
                    return Err(CompileError::Bug(e));
                },
            };
            let compiled = match Pattern::new(converted.as_str()) {
                Ok(x) => x,
                Err(e) => {
                    return Err(CompileError::Bug(e));
                },
            };
            s.pattern = Some(compiled);
        }

        s.max_items = self.usize("maxItems");
        s.min_items = self.usize("minItems");
        s.unique_items = self.bool("uniqueItems");

        s.max_properties = self.usize("maxProperties");
        s.min_properties = self.usize("minProperties");

        if let Some(req) = self.value("required") {
            s.required = to_strings(req);
        }
        Ok(())
    }

    /// Compiles the keywords of draft 4 (and their later forms).
    pub fn compile_draft4<T: PatternTranslator>(&self, queue: &mut Vec<String>, s: &mut Schema, tr: &T)
        -> (r: Result<(), CompileError>)
        requires
            has_root_resource(self.root.resources@),
            forall|i: int| 0 <= i < self.roots@.len() ==> has_root_resource((#[trigger] self.roots@[i]).resources@),
        ensures
            final(s).dependent_required == old(s).dependent_required,
            extends(old(queue)@, final(queue)@),
            r is Ok && old(s).refs_below(self.bound(old(queue)@)) ==> final(s).refs_below(self.bound(final(queue)@)),
            same_place(*old(s), *final(s)),
            r is Ok && vocab_on(*self.root, "validation"@) && !(final(s).ref_ is Some && draft_version(self.root.draft) < 2019)
                ==> counts_compiled(self.obj@, *final(s)),
            r is Ok && vocab_on(*self.root, "applicator"@) && !(final(s).ref_ is Some && draft_version(self.root.draft) < 2019)
                ==> applicators_compiled(self.obj@, *final(s)),
            r is Ok && !(final(s).ref_ is Some && draft_version(self.root.draft) < 2019)
                ==> format_set(*self.c, *self.root, self.obj@, old(s).format, *final(s)),
            r is Ok && vocab_on(*self.root, "validation"@) && !(final(s).ref_ is Some && draft_version(self.root.draft) < 2019)
                ==> values_compiled(self.obj@, *old(s), *final(s)),
            !vocab_on(*self.root, "validation"@) ==> same_values(*old(s), *final(s)),
            keeps_draft7(*old(s), *final(s)),
            r is Err ==> self.full(final(queue)@) || outside_decides(self.obj@),
    {
        if self.has_vocab("core") {
            let ghost s0 = *s;
            let ref_ = self.enqueue_ref(queue, "$ref")?;
            s.ref_ = ref_;
            proof {
                if s0.refs_below(self.bound(old(queue)@)) {
                    lemma_refs_below_mono(s0, self.bound(old(queue)@), self.bound(queue@));
                }
            }
            if s.ref_.is_some() && self.draft_version() < 2019 {
                // All other properties in a "$ref" object MUST be ignored
                return Ok(());
            }
        }
        let ghost q1 = queue@;
        let ghost s1 = *s;
        if self.has_vocab("applicator") {
            self.compile_applicators(queue, s, tr)?;
            self.compile_properties(queue, s, tr)?;
        }
        let ghost s2 = *s;
        if self.has_vocab("validation") {
            self.compile_validation(s, tr)?;
            proof {
                lemma_same_refs(s2, *s, self.bound(queue@));
            }
        }

        // format --
        let version = self.draft_version();
        let format_vocab = if version < 2019 {
            "core"
        } else if version == 2019 {
            "format"
        } else {
            "format-assertion"
        };
        proof {
            reveal_strlit("core");
            reveal_strlit("format");
            reveal_strlit("format-assertion");
            assert(format_vocab@ == crate::compiler::format_vocab(version as nat));
        }
        if self.c.assert_format || self.has_vocab(format_vocab) {
            if let Some(JsonValue::String(format)) = self.value("format") {
                s.format = match self.c.format_check(format.as_str()) {
                    Some(check) => Some(Format { name: format.clone(), check }),
                    None => None,
                };
                proof {
                    reveal(format_compiled);
                    assert(format_compiled(*self.c, format@, s.format));
                }
            }
        }
        Ok(())
    }
}

/// The vocabulary under which `format` asserts in a draft (before
/// 2019-09 the core one, which always applies).
pub open spec fn format_vocab(version: nat) -> Seq<char> {
    if version < 2019 {
        "core"@
    } else if version == 2019 {
        "format"@
    } else {
        "format-assertion"@
    }
}

/// `f` is how compiler `c` checks format `name`: by a registered check
/// first, else by the library; nothing for a format nobody knows.
#[verifier::opaque]
pub open spec fn format_compiled(c: Compiler, name: Seq<char>, f: Option<Format>) -> bool {
    match f {
        Some(x) => x.name@ == name && match x.check {
            FormatCheck::Registered(i) => i < c.formats@.len() && c.formats@[i as int]@ == name,
            FormatCheck::Builtin(b) => !names_have(c.formats@, name) && crate::formats::builtin_format_name(b) == name,
        },
        None => !names_have(c.formats@, name) && forall|b: BuiltinFormat| crate::formats::builtin_format_name(b) != name,
    }
}

/// Schemas naming the same schemas are below the same bounds.
pub proof fn lemma_same_refs(a: Schema, b: Schema, n: nat)
    requires
        same_refs(a, b),
    ensures
        a.refs_below(n) ==> b.refs_below(n),
{
}

impl<'a> ObjCompiler<'a> {
    /// Compiles the keywords added by draft 6.
    pub fn compile_draft6(&self, queue: &mut Vec<String>, s: &mut Schema) -> (r: Result<(), CompileError>)
        ensures
            final(s).dependent_required == old(s).dependent_required,
            extends(old(queue)@, final(queue)@),
            r is Ok && old(s).refs_below(self.bound(old(queue)@)) ==> final(s).refs_below(self.bound(final(queue)@)),
            same_place(*old(s), *final(s)),
            keeps_draft4(*old(s), *final(s)),
            keeps_draft7(*old(s), *final(s)),
            r is Ok ==> draft6_compiled(*self.root, self.obj@, *final(s)),
            r is Err ==> self.full(final(queue)@),
    {
        let ghost s0 = *s;
        let mut contains = s.contains;
        let mut property_names = s.property_names;
        if self.has_vocab("applicator") {
            contains = self.enqueue_prop(queue, "contains")?;
            let ghost b1 = self.bound(queue@);
            property_names = self.enqueue_prop(queue, "propertyNames")?;
            assert(b1 <= self.bound(queue@));
        }
        if self.has_vocab("validation") {
            s.constant = match self.value("const") {
                Some(c) => Some(clone_value(c)),
                None => None,
            };
        }
        s.contains = contains;
        s.property_names = property_names;
        proof {
            let n = self.bound(queue@);
            let ss = *s;
            if s0.refs_below(self.bound(old(queue)@)) {
                match ss.items {
                    Some(Items::SchemaRefs(l)) => {
                        assert(all_below(l@, n));
                    },
                    _ => {},
                }
                assert forall|i: int| 0 <= i < ss.dependencies@.len() implies dep_below(#[trigger] ss.dependencies@[i].1, n) by {
                    assert(dep_below(s0.dependencies@[i].1, self.bound(old(queue)@)));
                }
            }
        }
        Ok(())
    }

    /// Compiles the keywords added by draft 7.
    pub fn compile_draft7(&self, queue: &mut Vec<String>, s: &mut Schema) -> (r: Result<(), CompileError>)
        ensures
            final(s).dependent_required == old(s).dependent_required,
            extends(old(queue)@, final(queue)@),
            r is Ok && old(s).refs_below(self.bound(old(queue)@)) ==> final(s).refs_below(self.bound(final(queue)@)),
            same_place(*old(s), *final(s)),
            keeps_draft4(*old(s), *final(s)),
            keeps_draft6(*old(s), *final(s)),
            r is Ok ==> draft7_compiled(*self.root, self.obj@, old(s).then_, old(s).else_, *final(s)),
            r is Err ==> self.full(final(queue)@),
    {
        let ghost s0 = *s;
        let mut if_ = s.if_;
        let mut then_ = s.then_;
        let mut else_ = s.else_;
        if self.has_vocab("applicator") {
            if_ = self.enqueue_prop(queue, "if")?;
            if if_.is_some() {
                let ghost b1 = self.bound(queue@);
                if !self.bool_schema("if", false) {
                    then_ = self.enqueue_prop(queue, "then")?;
                }
                let ghost b2 = self.bound(queue@);
                if !self.bool_schema("if", true) {
                    else_ = self.enqueue_prop(queue, "else")?;
                }
                assert(b1 <= b2 <= self.bound(queue@));
            }
        }

        if self.c.assert_content {
            if let Some(JsonValue::String(encoding)) = self.value("contentEncoding") {
                s.content_encoding = match position_of_name(&self.c.decoders, encoding.as_str()) {
                    Some(i) => Some(Decoder { name: encoding.clone(), check: DecoderCheck::Registered(i) }),
                    None => if str_eq(encoding.as_str(), "base64") {
                        Some(Decoder { name: encoding.clone(), check: DecoderCheck::Base64 })
                    } else {
                        None
                    },
                };
            }

            if let Some(JsonValue::String(media_type)) = self.value("contentMediaType") {
                let mut found: Option<MediaType> = None;
                let mut i: usize = 0;
                while i < self.c.media_types.len()
                    invariant
                        i <= self.c.media_types@.len(),
                    decreases self.c.media_types.len() - i,
                {
                    if str_eq(self.c.media_types[i].0.as_str(), media_type.as_str()) {
                        found = Some(MediaType {
                            name: media_type.clone(),
                            json_compatible: self.c.media_types[i].1,
                            id: i,
                        });
                        break;
                    }
                    i += 1;
                }
                s.content_media_type = found;
            }
        }
        s.if_ = if_;
        s.then_ = then_;
        s.else_ = else_;
        proof {
            let n = self.bound(queue@);
            let ss = *s;
            if s0.refs_below(self.bound(old(queue)@)) {
                match ss.items {
                    Some(Items::SchemaRefs(l)) => {
                        assert(all_below(l@, n));
                    },
                    _ => {},
                }
                assert forall|i: int| 0 <= i < ss.dependencies@.len() implies dep_below(#[trigger] ss.dependencies@[i].1, n) by {
                    assert(dep_below(s0.dependencies@[i].1, self.bound(old(queue)@)));
                }
            }
        }
        Ok(())
    }

    /// Compiles the keywords added by draft 2019-09.
    #[verifier::rlimit(80)]
    pub fn compile_draft2019(&self, queue: &mut Vec<String>, s: &mut Schema) -> (r: Result<(), CompileError>)
        requires
            has_root_resource(self.root.resources@),
            forall|i: int| 0 <= i < self.roots@.len() ==> has_root_resource((#[trigger] self.roots@[i]).resources@),
        ensures
            extends(old(queue)@, final(queue)@),
            r is Ok && old(s).refs_below(self.bound(old(queue)@)) ==> final(s).refs_below(self.bound(final(queue)@)),
            same_place(*old(s), *final(s)),
            keeps_draft4(*old(s), *final(s)),
            keeps_draft6(*old(s), *final(s)),
            keeps_draft7(*old(s), *final(s)),
            r is Ok ==> draft2019_compiled(*self.root, self.obj@, *final(s)),
            r is Ok ==> dep_required_view(final(s).dependent_required@)
                == dep_required_view(old(s).dependent_required@) + dep_required_of(*self.root, self.obj@),
            r is Err ==> self.full(final(queue)@) || outside_decides(self.obj@),
    {
        let ghost s0 = *s;
        let mut recursive_ref = s.recursive_ref;
        if self.has_vocab("core") {
            recursive_ref = self.enqueue_ref(queue, "$recursiveRef")?;
            s.recursive_anchor = self.bool("$recursiveAnchor");
        }
        let ghost b1 = self.bound(queue@);

        if self.has_vocab("validation") {
            if s.contains.is_some() {
                s.max_contains = self.usize("maxContains");
                s.min_contains = self.usize("minContains");
            }

            if let Some(JsonValue::Object(dep_req)) = self.value("dependentRequired") {
                let ghost before = s.dependent_required@;
                let mut more = required_lists(dep_req);
                let ghost added = more@;
                s.dependent_required.append(&mut more);
                proof {
                    assert(dep_required_view(s.dependent_required@) =~= dep_required_view(before)
                        + dep_required_view(added));
                }
            }
        }

        let mut dependent_schemas: Option<Vec<(String, SchemaIndex)>> = None;
        if self.has_vocab("applicator") {
            dependent_schemas = Some(self.enqueue_map(queue, "dependentSchemas")?);
        }
        let ghost b2 = self.bound(queue@);
        assert(b1 <= b2);

        let mut unevaluated_items = s.unevaluated_items;
        let mut unevaluated_properties = s.unevaluated_properties;
        let uneval_vocab = if self.draft_version() == 2019 { "applicator" } else { "unevaluated" };
        proof {
            reveal_strlit("applicator");
            reveal_strlit("unevaluated");
        }
        if self.has_vocab(uneval_vocab) {
            unevaluated_items = self.enqueue_prop(queue, "unevaluatedItems")?;
            let ghost b3 = self.bound(queue@);
            unevaluated_properties = self.enqueue_prop(queue, "unevaluatedProperties")?;
            assert(b3 <= self.bound(queue@));
        }
        let ghost b4 = self.bound(queue@);
        assert(b2 <= b4);

        let mut content_schema = s.content_schema;
        let json_media = match &s.content_media_type {
            Some(mt) => mt.json_compatible,
            None => false,
        };
        if self.c.assert_content && json_media {
            content_schema = self.enqueue_prop(queue, "contentSchema")?;
        }
        assert(b4 <= self.bound(queue@));

        s.recursive_ref = recursive_ref;
        if let Some(d) = dependent_schemas {
            s.dependent_schemas = d;
        }
        s.unevaluated_items = unevaluated_items;
        s.unevaluated_properties = unevaluated_properties;
        s.content_schema = content_schema;
        proof {
            let n = self.bound(queue@);
            let ss = *s;
            if s0.refs_below(self.bound(old(queue)@)) {
                match ss.items {
                    Some(Items::SchemaRefs(l)) => {
                        assert(all_below(l@, n));
                    },
                    _ => {},
                }
                assert forall|i: int| 0 <= i < ss.dependencies@.len() implies dep_below(#[trigger] ss.dependencies@[i].1, n) by {
                    assert(dep_below(s0.dependencies@[i].1, self.bound(old(queue)@)));
                }
            }
        }
        Ok(())
    }

    /// Compiles the keywords added by draft 2020-12.
    pub fn compile_draft2020(&self, queue: &mut Vec<String>, s: &mut Schema) -> (r: Result<(), CompileError>)
        requires
            has_root_resource(self.root.resources@),
            forall|i: int| 0 <= i < self.roots@.len() ==> has_root_resource((#[trigger] self.roots@[i]).resources@),
        ensures
            final(s).dependent_required == old(s).dependent_required,
            extends(old(queue)@, final(queue)@),
            r is Ok && old(s).refs_below(self.bound(old(queue)@)) ==> final(s).refs_below(self.bound(final(queue)@)),
            same_place(*old(s), *final(s)),
            keeps_draft4(*old(s), *final(s)),
            keeps_draft6(*old(s), *final(s)),
            keeps_draft7(*old(s), *final(s)),
            keeps_draft2019(*old(s), *final(s)),
            r is Ok ==> draft2020_compiled(*self.root, self.obj@, *final(s)),
            r is Err ==> self.full(final(queue)@) || outside_decides(self.obj@),
    {
        let ghost s0 = *s;
        let mut dynamic_ref: Option<DynamicRef> = None;
        let mut has_dynamic_ref = false;
        if self.has_vocab("core") {
            if let Some(sch) = self.enqueue_ref(queue, "$dynamicRef")? {
                if let Some(JsonValue::String(dref)) = self.value("$dynamicRef") {
                    let anchor = match Fragment::split(dref.as_str()) {
                        Ok((_, Fragment::Anchor(a))) => Some(a),
                        Ok(_) => None,
                        Err(_) => {
                            let mut loc = self.loc.to_string();
                            push_str(&mut loc, "/$dynamicRef");
                            return Err(CompileError::ParseAnchorError { loc });
                        },
                    };
                    dynamic_ref = Some(DynamicRef { sch, anchor });
                    has_dynamic_ref = true;
                }
            }

            if let Some(JsonValue::String(anchor)) = self.value("$dynamicAnchor") {
                s.dynamic_anchor = Some(anchor.clone());
            }
        }
        let ghost b1 = self.bound(queue@);

        let mut prefix_items: Option<Vec<SchemaIndex>> = None;
        let mut items2020 = s.items2020;
        if self.has_vocab("applicator") {
            prefix_items = Some(self.enqueue_arr(queue, "prefixItems")?);
            let ghost b2 = self.bound(queue@);
            items2020 = self.enqueue_prop(queue, "items")?;
            assert(b2 <= self.bound(queue@));
        }
        assert(b1 <= self.bound(queue@));
        if has_dynamic_ref {
            s.dynamic_ref = dynamic_ref;
        }
        if let Some(p) = prefix_items {
            s.prefix_items = p;
        }
        s.items2020 = items2020;
        proof {
            let n = self.bound(queue@);
            let ss = *s;
            if s0.refs_below(self.bound(old(queue)@)) {
                match ss.items {
                    Some(Items::SchemaRefs(l)) => {
                        assert(all_below(l@, n));
                    },
                    _ => {},
                }
                assert forall|i: int| 0 <= i < ss.dependencies@.len() implies dep_below(#[trigger] ss.dependencies@[i].1, n) by {
                    assert(dep_below(s0.dependencies@[i].1, self.bound(old(queue)@)));
                }
            }
        }
        Ok(())
    }

    /// Compiles the keywords of this object for its draft.
    pub fn compile_obj<T: PatternTranslator>(&self, queue: &mut Vec<String>, s: &mut Schema, tr: &T)
        -> (r: Result<(), CompileError>)
        requires
            has_root_resource(self.root.resources@),
            forall|i: int| 0 <= i < self.roots@.len() ==> has_root_resource((#[trigger] self.roots@[i]).resources@),
        ensures
            extends(old(queue)@, final(queue)@),
            r is Ok && old(s).refs_below(self.bound(old(queue)@)) ==> final(s).refs_below(self.bound(final(queue)@)),
            same_place(*old(s), *final(s)),
            r is Ok && vocab_on(*self.root, "validation"@) && !(final(s).ref_ is Some && draft_version(self.root.draft) < 2019)
                ==> counts_compiled(self.obj@, *final(s)),
            r is Ok && vocab_on(*self.root, "applicator"@) && !(final(s).ref_ is Some && draft_version(self.root.draft) < 2019)
                ==> applicators_compiled(self.obj@, *final(s)),
            r is Ok && !(final(s).ref_ is Some && draft_version(self.root.draft) < 2019)
                ==> format_set(*self.c, *self.root, self.obj@, old(s).format, *final(s)),
            r is Ok && vocab_on(*self.root, "validation"@) && !(final(s).ref_ is Some && draft_version(self.root.draft) < 2019)
                ==> values_compiled(self.obj@, *old(s), *final(s)),
            r is Ok && draft_version(self.root.draft) >= 6 ==> draft6_compiled(*self.root, self.obj@, *final(s)),
            r is Ok && draft_version(self.root.draft) >= 7 ==> draft7_compiled(*self.root, self.obj@, old(s).then_, old(s).else_, *final(s)),
            r is Ok && draft_version(self.root.draft) >= 2019 ==> draft2019_compiled(*self.root, self.obj@, *final(s)),
            r is Ok ==> dep_required_view(final(s).dependent_required@) == dep_required_view(old(s).dependent_required@)
                + if draft_version(self.root.draft) >= 2019 { dep_required_of(*self.root, self.obj@) } else { seq![] },
            r is Ok && draft_version(self.root.draft) >= 2020 ==> draft2020_compiled(*self.root, self.obj@, *final(s)),
            r is Err ==> self.full(final(queue)@) || outside_decides(self.obj@),
    {
        self.compile_draft4(queue, s, tr)?;
        if self.draft_version() >= 6 {
            self.compile_draft6(queue, s)?;
        }
        if self.draft_version() >= 7 {
            self.compile_draft7(queue, s)?;
        }
        if self.draft_version() >= 2019 {
            self.compile_draft2019(queue, s)?;
        }
        if self.draft_version() >= 2020 {
            self.compile_draft2020(queue, s)?;
        }
        Ok(())
    }
}

/// What `const`, `contains` and `propertyNames` (added by draft 6) of
/// schema object `o` of document `root` compile to in `s`, under the
/// vocabularies they belong to.
pub open spec fn draft6_compiled(root: Root, o: Seq<(String, JsonValue)>, s: Schema) -> bool {
    &&& vocab_on(root, "validation"@) ==> match obj_get(o, "const"@) {
        Some(c) => s.constant matches Some(x) && crate::json::same_value(x, c),
        None => s.constant is None,
    }
    &&& vocab_on(root, "applicator"@) ==> {
        &&& (s.contains is Some <==> obj_get(o, "contains"@) is Some)
        &&& (s.property_names is Some <==> obj_get(o, "propertyNames"@) is Some)
    }
}

/// What `if`, `then` and `else` (added by draft 7) of schema object `o`
/// of document `root` compile to in `s`: `then` is left as it was
/// (`then0`) when `if` is `false`, `else` (`else0`) when it is `true`.
pub open spec fn draft7_compiled(root: Root, o: Seq<(String, JsonValue)>, then0: Option<SchemaIndex>,
    else0: Option<SchemaIndex>, s: Schema) -> bool {
    vocab_on(root, "applicator"@) ==> {
        &&& (s.if_ is Some <==> obj_get(o, "if"@) is Some)
        &&& (obj_get(o, "if"@) is Some ==> if obj_get(o, "if"@) == Some(JsonValue::Bool(false)) {
            s.then_ == then0
        } else {
            s.then_ is Some <==> obj_get(o, "then"@) is Some
        })
        &&& (obj_get(o, "if"@) is Some ==> if obj_get(o, "if"@) == Some(JsonValue::Bool(true)) {
            s.else_ == else0
        } else {
            s.else_ is Some <==> obj_get(o, "else"@) is Some
        })
    }
}

/// What `minContains`, `maxContains`, `dependentSchemas` and the
/// `unevaluated` keywords (added by draft 2019-09) of schema object `o`
/// of document `root` compile to in `s`.
pub open spec fn draft2019_compiled(root: Root, o: Seq<(String, JsonValue)>, s: Schema) -> bool {
    &&& vocab_on(root, "validation"@) && s.contains is Some ==> {
        &&& s.min_contains == spec_count(obj_get(o, "minContains"@))
        &&& s.max_contains == spec_count(obj_get(o, "maxContains"@))
    }
    &&& vocab_on(root, "applicator"@) ==> s.dependent_schemas@.len() == match obj_get(o, "dependentSchemas"@) {
        Some(JsonValue::Object(o)) => o@.len(),
        _ => 0,
    }
    &&& vocab_on(root, "applicator"@) ==> match obj_get(o, "dependentSchemas"@) {
        Some(JsonValue::Object(d)) => forall|i: int| 0 <= i < s.dependent_schemas@.len()
            ==> (#[trigger] s.dependent_schemas@[i]).0@ == d@[i].0@,
        _ => true,
    }
    &&& s.recursive_anchor == (obj_get(o, "$recursiveAnchor"@) == Some(JsonValue::Bool(true)))
    &&& vocab_on(root, (if draft_version(root.draft) == 2019 { "applicator"@ } else { "unevaluated"@ })) ==> {
        &&& (s.unevaluated_items is Some <==> obj_get(o, "unevaluatedItems"@) is Some)
        &&& (s.unevaluated_properties is Some <==> obj_get(o, "unevaluatedProperties"@) is Some)
    }
}

/// The `dependentRequired` entries of schema object `o`, under the
/// vocabularies of `root`: each member's name with every string its array
/// names, in order.
pub open spec fn dep_required_of(root: Root, o: Seq<(String, JsonValue)>) -> Seq<(Seq<char>, Seq<Seq<char>>)> {
    if vocab_on(root, "validation"@) {
        match obj_get(o, "dependentRequired"@) {
            Some(JsonValue::Object(d)) => d@.map_values(|m: (String, JsonValue)| (m.0@, spec_to_strings(m.1))),
            _ => seq![],
        }
    } else {
        seq![]
    }
}

/// The compiled `dependentRequired` entries `l` as names and lists of names.
pub open spec fn dep_required_view(l: Seq<(String, Vec<String>)>) -> Seq<(Seq<char>, Seq<Seq<char>>)> {
    l.map_values(|p: (String, Vec<String>)| (p.0@, p.1@.map_values(|x: String| x@)))
}

/// The compiled `dependentRequired` entries of the members `d`: each
/// name with the strings its value names.
pub fn required_lists(d: &Vec<(String, JsonValue)>) -> (r: Vec<(String, Vec<String>)>)
    ensures
        dep_required_view(r@) == d@.map_values(|m: (String, JsonValue)| (m.0@, spec_to_strings(m.1))),
{
    let mut r: Vec<(String, Vec<String>)> = Vec::new();
    let mut i: usize = 0;
    proof {
        assert(d@.take(0).map_values(|m: (String, JsonValue)| (m.0@, spec_to_strings(m.1)))
            =~= dep_required_view(r@));
    }
    while i < d.len()
        invariant
            i <= d@.len(),
            dep_required_view(r@) == d@.take(i as int).map_values(|m: (String, JsonValue)| (m.0@, spec_to_strings(m.1))),
        decreases d.len() - i,
    {
        let ghost before = r@;
        let names = to_strings(&d[i].1);
        let name = d[i].0.clone();
        r.push((name, names));
        proof {
            assert(dep_required_view(r@) =~= dep_required_view(before).push((d@[i as int].0@, spec_to_strings(d@[i as int].1))));
            assert(d@.take(i + 1).map_values(|m: (String, JsonValue)| (m.0@, spec_to_strings(m.1)))
                =~= d@.take(i as int).map_values(|m: (String, JsonValue)| (m.0@, spec_to_strings(m.1)))
                .push((d@[i as int].0@, spec_to_strings(d@[i as int].1))));
        }
        i += 1;
    }
    proof {
        assert(d@.take(d@.len() as int) =~= d@);
    }
    r
}

/// What `prefixItems` and `items` (in draft 2020-12) of schema object
/// `o` of document `root` compile to in `s`.
pub open spec fn draft2020_compiled(root: Root, o: Seq<(String, JsonValue)>, s: Schema) -> bool {
    vocab_on(root, "applicator"@) ==> {
        &&& s.prefix_items@.len() == arr_len(obj_get(o, "prefixItems"@))
        &&& (s.items2020 is Some <==> obj_get(o, "items"@) is Some)
    }
}

/// The json-pointer the fragment of `loc` holds, percent-decoded.
pub open spec fn loc_ptr(loc: Seq<char>) -> Seq<char> {
    vstd::utf8::decode_utf8(crate::outside::pct_decode(vstd::utf8::encode_utf8(crate::util::spec_split(loc).1)))
}

/// The location `loc` in document `root` cannot be set up for compiling:
/// its fragment does not percent-decode to UTF-8, the id of the resource
/// holding it does not resolve, or (from draft 2020-12) a resource at it
/// has a dynamic anchor without an anchor entry.
pub open spec fn loc_unresolved(root: Root, loc: Seq<char>) -> bool {
    ||| !vstd::utf8::valid_utf8(crate::outside::pct_decode(vstd::utf8::encode_utf8(crate::util::spec_split(loc).1)))
    ||| crate::root::spec_resolve(root.url@, root.resources@,
        root.resources@[crate::root::resource_at(root.resources@, loc_ptr(loc))].id@) is Err
    ||| (draft_version(root.draft) >= 2020 && exists|i: int, j: int| 0 <= i < root.resources@.len()
        && (#[trigger] root.resources@[i]).ptr.0@ == loc_ptr(loc) && 0 <= j < root.resources@[i].dynamic_anchors@.len()
        && crate::root::anchor_ptr(root.resources@[i].anchors@, (#[trigger] root.resources@[i].dynamic_anchors@[j])@) is None)
}

/// The index `schemas.enqueue` gives `loc`; an error only when the
/// indices would overflow `usize`.
pub fn enqueue_checked(schemas: &Schemas, queue: &mut Vec<String>, loc: String) -> (r: Result<SchemaIndex, CompileError>)
    ensures
        extends(old(queue)@, final(queue)@),
        r matches Ok(i) ==> i.0 < schemas.list@.len() + final(queue)@.len(),
        r matches Ok(i) ==> (i.0 as nat, views(final(queue)@)) == enqueue_result(schemas.locs(), views(old(queue)@), loc@),
        r is Err <==> (schemas.list@.len() >= usize::MAX - 1 || old(queue)@.len() >= usize::MAX - 1 - schemas.list@.len()),
        r is Err ==> final(queue)@ == old(queue)@,
        final(queue)@.len() <= old(queue)@.len() + 1,
{
    let n = schemas.list.len();
    let q = queue.len();
    if n >= usize::MAX - 1 || q >= usize::MAX - 1 - n {
        return Err(CompileError::Bug("too many schemas to index".to_string()));
    }
    Ok(schemas.enqueue(queue, loc))
}

/// The compiled schemas each name only schemas of `target` or of `queue`.
pub open spec fn pending_ok(target: Schemas, queue: Seq<String>, compiled: Seq<Schema>) -> bool {
    forall|k: int| 0 <= k < compiled.len() ==> (#[trigger] compiled[k]).refs_below(target.list@.len() + queue.len())
}

/// What one step of compilation leads to.
pub enum CompileStep {
    /// Every queued location is compiled.
    Done,
    /// The next queued location lies in the document at this url, which
    /// must be loaded first.
    NeedRoot(String),
    /// The next queued location was compiled.
    Compiled,
}

/// Whether compiling the location `loc` of the document `root` may fail:
/// an anchor fragment that does not resolve, a fragment that does not
/// percent-decode to UTF-8, a location the draft does not know as a schema
/// (its resources are collected first, which may fail), a pointer that finds
/// nothing, or what compiling the value found may meet (`loc_unresolved`,
/// `outside_decides`).
pub open spec fn next_may_fail(root: Root, loc: Seq<char>) -> bool {
    let frag = crate::util::spec_split(loc).1;
    let resolved = if frag.len() > 0 && frag[0] != '/' {
        crate::root::spec_resolve(root.url@, root.resources@, loc)
    } else {
        Ok(loc)
    };
    match resolved {
        Err(_) => true,
        Ok(l) => {
            let bytes = crate::outside::pct_decode(vstd::utf8::encode_utf8(crate::util::spec_split(l).1));
            let p = vstd::utf8::decode_utf8(bytes);
            ||| !vstd::utf8::valid_utf8(bytes)
            ||| !crate::draft::spec_is_subschema(draft_version(root.draft), p)
            ||| match crate::root::lookup_tokens(root.doc, crate::root::ptr_tokens(p)) {
                Some(Some(v)) => loc_unresolved(root, l) || (v matches JsonValue::Object(o) && outside_decides(o@)),
                _ => true,
            }
        },
    }
}

/// The position of the first of `roots` at `url`.
pub open spec fn first_root(roots: Seq<Root>, url: Seq<char>) -> Option<int>
    decreases roots.len(),
{
    if roots.len() == 0 {
        None
    } else if roots[0].url@ == url {
        Some(0)
    } else {
        match first_root(roots.skip(1), url) {
            Some(i) => Some(i + 1),
            None => None,
        }
    }
}

/// `first_root` is the least position of a root at `url`.
proof fn lemma_first_root(roots: Seq<Root>, url: Seq<char>)
    ensures
        match first_root(roots, url) {
            Some(i) => 0 <= i < roots.len() && roots[i].url@ == url
                && forall|j: int| 0 <= j < i ==> (#[trigger] roots[j]).url@ != url,
            None => forall|j: int| 0 <= j < roots.len() ==> (#[trigger] roots[j]).url@ != url,
        },
    decreases roots.len(),
{
    if roots.len() > 0 && roots[0].url@ != url {
        let t = roots.skip(1);
        lemma_first_root(t, url);
        match first_root(t, url) {
            Some(i) => {
                assert forall|j: int| 0 <= j < i + 1 implies (#[trigger] roots[j]).url@ != url by {
                    if j > 0 {
                        assert(roots[j] == t[j - 1]);
                    }
                }
                assert(roots[i + 1] == t[i]);
            },
            None => {
                assert forall|j: int| 0 <= j < roots.len() implies (#[trigger] roots[j]).url@ != url by {
                    if j > 0 {
                        assert(roots[j] == t[j - 1]);
                    }
                }
            },
        }
    }
}

/// The location compilation starts from for `loc`: an anchor is resolved
/// in the loaded document at its url, when there is one.
pub open spec fn spec_start_loc(loc: Seq<char>, roots: Seq<Root>) -> Result<Seq<char>, Option<()>> {
    let (url, frag) = crate::util::spec_split(loc);
    if frag.len() > 0 && frag[0] != '/' {
        match first_root(roots, url) {
            Some(k) => crate::root::spec_resolve(roots[k].url@, roots[k].resources@, loc),
            None => Ok(loc),
        }
    } else {
        Ok(loc)
    }
}

/// The root of `roots` at `url`, if any: the first.
fn root_position(roots: &Vec<Root>, url: &str) -> (r: Option<usize>)
    ensures
        r matches Some(i) ==> i < roots@.len() && roots@[i as int].url@ == url@,
        r is None ==> forall|i: int| 0 <= i < roots@.len() ==> (#[trigger] roots@[i]).url@ != url@,
        r matches Some(i) ==> first_root(roots@, url@) == Some(i as int),
        r is None ==> first_root(roots@, url@) is None,
{
    let mut i: usize = 0;
    while i < roots.len()
        invariant
            i <= roots@.len(),
            forall|j: int| 0 <= j < i ==> (#[trigger] roots@[j]).url@ != url@,
        decreases roots.len() - i,
    {
        if str_eq(roots[i].url.as_str(), url) {
            proof {
                lemma_first_root(roots@, url@);
            }
            return Some(i);
        }
        i += 1;
    }
    proof {
        lemma_first_root(roots@, url@);
    }
    None
}

impl Compiler {
    /// Compiles the value `v` at location `loc` of the document `root`,
    /// queueing the locations of the schemas it names.
    pub fn compile_value<T: PatternTranslator>(&self, schemas: &Schemas, v: &JsonValue, loc: &str, root: &Root,
        roots: &Vec<Root>, queue: &mut Vec<String>, tr: &T) -> (r: Result<Schema, CompileError>)
        requires
            has_root_resource(root.resources@),
            forall|i: int| 0 <= i < roots@.len() ==> has_root_resource((#[trigger] roots@[i]).resources@),
        ensures
            extends(old(queue)@, final(queue)@),
            r matches Ok(s) ==> s.refs_below(schemas.list@.len() + final(queue)@.len()),
            r matches Ok(s) ==> s.loc@ == loc@ && s.draft_version == draft_version(root.draft),
            r matches Ok(s) ==> match *v {
                JsonValue::Bool(b) => s.boolean == Some(b),
                JsonValue::Object(o) => o@.len() == 0 ==> s.boolean == Some(true),
                _ => s.boolean is None,
            },
            r matches Ok(s) ==> match *v {
                JsonValue::Object(o) => o@.len() > 0 && !(s.ref_ is Some && draft_version(root.draft) < 2019) ==> {
                    &&& (vocab_on(*root, "validation"@) ==> counts_compiled(o@, s))
                    &&& (vocab_on(*root, "applicator"@) ==> applicators_compiled(o@, s))
                    &&& (vocab_on(*root, "validation"@) ==> values_compiled_fresh(o@, s))
                    &&& (draft_version(root.draft) >= 6 ==> draft6_compiled(*root, o@, s))
                    &&& (draft_version(root.draft) >= 7 ==> draft7_compiled(*root, o@, None, None, s))
                    &&& (draft_version(root.draft) >= 2019 ==> draft2019_compiled(*root, o@, s))
                    &&& (draft_version(root.draft) >= 2020 ==> draft2020_compiled(*root, o@, s))
                    &&& format_set(*self, *root, o@, None, s)
                },
                _ => true,
            },
            r matches Ok(s) ==> match *v {
                JsonValue::Object(o) => o@.len() > 0 ==> dep_required_view(s.dependent_required@)
                    == if draft_version(root.draft) >= 2019 { dep_required_of(*root, o@) } else { seq![] },
                _ => true,
            },
            r is Err ==> schemas.list@.len() + final(queue)@.len() >= usize::MAX - 1 || loc_unresolved(*root, loc@)
                || (*v matches JsonValue::Object(o) && outside_decides(o@)),
    {
        let mut s = Schema::new(loc.to_string());
        s.draft_version = root.draft.version();

        // we know it is already in queue, we just want to get its index
        s.idx = enqueue_checked(schemas, queue, loc.to_string())?;
        let ghost b1 = schemas.list@.len() + queue@.len();

        let (url, frag) = split(loc);
        let ptr = match percent_decode_utf8(frag.as_str()) {
            Ok(p) => p,
            Err(e) => {
                return Err(CompileError::LoadUrlError { url: loc.to_string(), src: e });
            },
        };
        let base_loc = root.resolve(root.base_url(ptr.as_str()))?;
        s.resource = enqueue_checked(schemas, queue, base_loc)?;
        let ghost b2 = schemas.list@.len() + queue@.len();
        assert(s.resource.0 < b2);

        // if resource, enqueue dynamicAnchors for compilation
        let mut dynamic_anchors: Vec<(String, SchemaIndex)> = Vec::new();
        if s.idx == s.resource && root.draft.version() >= 2020 {
            if let Some(ri) = root.resource_exactly_at(ptr.as_str()) {
                let res = &root.resources[ri];
                let mut i: usize = 0;
                while i < res.dynamic_anchors.len()
                    invariant
                        i <= res.dynamic_anchors@.len(),
                        (ri as int) < root.resources@.len(),
                        *res == root.resources@[ri as int],
                        res.ptr.0@ == loc_ptr(loc@),
                        draft_version(root.draft) >= 2020,
                        extends(old(queue)@, queue@),
                        b2 <= schemas.list@.len() + queue@.len(),
                        pairs_below(dynamic_anchors@, schemas.list@.len() + queue@.len()),
                    decreases res.dynamic_anchors.len() - i,
                {
                    let danchor = &res.dynamic_anchors[i];
                    let danchor_ptr = match crate::root::lookup_anchor(&res.anchors, danchor.as_str()) {
                        Some(p) => p,
                        None => {
                            proof {
                                assert(root.resources@[ri as int].dynamic_anchors@[i as int] == *danchor);
                                assert(loc_unresolved(*root, loc@));
                            }
                            return Err(CompileError::Bug("dynamicAnchor must be collected in resource".to_string()));
                        },
                    };
                    let mut l = url.clone();
                    push_char(&mut l, '#');
                    push_str(&mut l, danchor_ptr.0.as_str());
                    let danchor_sch = enqueue_checked(schemas, queue, l)?;
                    dynamic_anchors.push((danchor.clone(), danchor_sch));
                    i += 1;
                }
            }
        }
        s.dynamic_anchors = dynamic_anchors;
        proof {
            let n = schemas.list@.len() + queue@.len();
            assert(s.refs_below(n));
        }

        match v {
            JsonValue::Object(obj) => {
                if obj.len() == 0 {
                    s.boolean = Some(true);
                } else {
                    let oc = ObjCompiler { c: self, obj, loc, schemas, root, roots };
                    let ghost s0 = s;
                    oc.compile_obj(queue, &mut s, tr)?;
                    proof {
                        assert(dep_required_view(s0.dependent_required@) =~= Seq::<(Seq<char>, Seq<Seq<char>>)>::empty());
                        assert(Set::new(|t: Type| s0.types.has(t)) =~= Set::<Type>::empty());
                        assert(s0.required@.map_values(|x: String| x@) =~= Seq::<Seq<char>>::empty());
                    }
                }
            },
            JsonValue::Bool(b) => {
                s.boolean = Some(*b);
            },
            _ => {},
        }

        s.all_props_evaluated = s.additional_properties.is_some();
        s.all_items_evaluated = if s.draft_version < 2020 {
            s.additional_items.is_some() || match &s.items {
                Some(Items::SchemaRef(_)) => true,
                _ => false,
            }
        } else {
            s.items2020.is_some()
        };
        s.num_items_evaluated = match &s.items {
            Some(Items::SchemaRefs(list)) => list.len(),
            _ => s.prefix_items.len(),
        };
        Ok(s)
    }

    /// Where compilation starts for `loc` (`url#fragment`): an anchor is
    /// first resolved in the loaded document at `url`; the index is that
    /// of the location, queued unless already compiled.
    pub fn start(&self, target: &Schemas, loc: &str, roots: &Vec<Root>) -> (r: Result<(SchemaIndex, Vec<String>), CompileError>)
        requires
            forall|i: int| 0 <= i < roots@.len() ==> has_root_resource((#[trigger] roots@[i]).resources@),
        ensures
            r matches Ok((i, q)) ==> i.0 < target.list@.len() + q@.len() && q@.len() <= 1,
            match spec_start_loc(loc@, roots@) {
                Ok(l) => if target.list@.len() < usize::MAX - 1 {
                    r matches Ok((i, q)) && (i.0 as nat, views(q@)) == enqueue_result(target.locs(), seq![], l)
                } else {
                    r is Err
                },
                Err(None) => r matches Err(CompileError::ParseUrlError { .. }),
                Err(Some(_)) => r matches Err(CompileError::AnchorNotFound { .. }),
            },
    {
        let (url, frag) = split(loc);
        let fv = chars_of(frag.as_str());
        let mut l = loc.to_string();
        if fv.len() > 0 && fv[0] != '/' {
            if let Some(k) = root_position(roots, url.as_str()) {
                l = roots[k].resolve(loc)?;
            }
        }
        assert(spec_start_loc(loc@, roots@) == Ok::<Seq<char>, Option<()>>(l@));
        let mut queue: Vec<String> = Vec::new();
        proof {
            assert(views(queue@) =~= Seq::<Seq<char>>::empty());
        }
        let i = enqueue_checked(target, &mut queue, l)?;
        Ok((i, queue))
    }

    /// One step of compilation: compiles the first queued location not yet
    /// compiled, or asks for the document it lies in, or reports that all
    /// are compiled.
    #[verifier::rlimit(60)]
    pub fn compile_next<T: PatternTranslator>(&self, target: &Schemas, queue: &mut Vec<String>,
        compiled: &mut Vec<Schema>, roots: &mut Vec<Root>, tr: &T) -> (r: Result<CompileStep, CompileError>)
        requires
            forall|i: int| 0 <= i < old(roots)@.len() ==> has_root_resource((#[trigger] old(roots)@[i]).resources@),
            old(compiled)@.len() <= old(queue)@.len(),
        ensures
            forall|i: int| 0 <= i < final(roots)@.len() ==> has_root_resource((#[trigger] final(roots)@[i]).resources@),
            final(roots)@.len() == old(roots)@.len(),
            forall|i: int| 0 <= i < old(roots)@.len() ==> (#[trigger] final(roots)@[i]).url == old(roots)@[i].url
                && final(roots)@[i].doc == old(roots)@[i].doc && final(roots)@[i].draft == old(roots)@[i].draft,
            extends(old(queue)@, final(queue)@),
            final(compiled)@.len() <= final(queue)@.len(),
            r matches Ok(CompileStep::Done) ==> final(compiled)@.len() == final(queue)@.len() && final(compiled)@ == old(compiled)@,
            r matches Ok(CompileStep::NeedRoot(u)) ==> final(compiled)@ == old(compiled)@
                && forall|i: int| 0 <= i < old(roots)@.len() ==> (#[trigger] old(roots)@[i]).url@ != u@,
            r matches Ok(CompileStep::Compiled) ==> final(compiled)@.len() == old(compiled)@.len() + 1
                && final(compiled)@.drop_last() == old(compiled)@,
            r is Err ==> final(compiled)@ == old(compiled)@,
            pending_ok(*target, old(queue)@, old(compiled)@) ==> pending_ok(*target, final(queue)@, final(compiled)@),
            old(compiled)@.len() >= old(queue)@.len() ==> r matches Ok(CompileStep::Done),
            old(compiled)@.len() < old(queue)@.len() && first_root(old(roots)@,
                crate::util::spec_split(old(queue)@[old(compiled)@.len() as int]@).0) is None
                ==> (r matches Ok(CompileStep::NeedRoot(u))
                    && u@ == crate::util::spec_split(old(queue)@[old(compiled)@.len() as int]@).0),
            old(compiled)@.len() < old(queue)@.len() && r is Err ==> {
                ||| target.list@.len() + final(queue)@.len() >= usize::MAX - 1
                ||| first_root(old(roots)@, crate::util::spec_split(old(queue)@[old(compiled)@.len() as int]@).0)
                    matches Some(k) && next_may_fail(old(roots)@[k], old(queue)@[old(compiled)@.len() as int]@)
            },
    {
        if compiled.len() >= queue.len() {
            return Ok(CompileStep::Done);
        }
        let ghost q0 = queue@;
        let mut loc = queue[compiled.len()].clone();
        let (url, frag) = split(loc.as_str());
        let k = match root_position(roots, url.as_str()) {
            Some(k) => k,
            None => {
                return Ok(CompileStep::NeedRoot(url));
            },
        };
        let ghost root0 = roots@[k as int];
        let fv = chars_of(frag.as_str());
        if fv.len() > 0 && fv[0] != '/' {
            loc = roots[k].resolve(loc.as_str())?;
        }
        let (_, frag) = split(loc.as_str());
        let ptr = match percent_decode_utf8(frag.as_str()) {
            Ok(p) => p,
            Err(e) => {
                return Err(CompileError::LoadUrlError { url: url.clone(), src: e });
            },
        };
        let ptr = JsonPointer(ptr);
        if !roots[k].draft.is_subschema(ptr.as_str()) {
            // a location the draft does not know as a schema: make what
            // it declares known before compiling it
            let ghost before = roots@;
            let mut root = roots.remove(k);
            let added = root.add_subschema(&ptr);
            roots.insert(k, root);
            proof {
                assert forall|i: int| 0 <= i < roots@.len() implies has_root_resource((#[trigger] roots@[i]).resources@)
                    && roots@[i].url == before[i].url && roots@[i].doc == before[i].doc
                    && roots@[i].draft == before[i].draft by {
                    if i != k {
                        assert(roots@[i] == before[i]);
                    }
                }
            }
            added?;
        }
        let root = &roots[k];
        let v = match ptr.lookup(&root.doc, url.as_str()) {
            Ok(v) => v,
            Err(CompileError::JsonPointerNotFound(_)) => {
                return Err(CompileError::JsonPointerNotFound(loc));
            },
            Err(_) => {
                return Err(CompileError::InvalidJsonPointer(loc));
            },
        };
        let sch = self.compile_value(target, v, loc.as_str(), root, &*roots, queue, tr)?;
        proof {
            if pending_ok(*target, q0, compiled@) {
                assert forall|j: int| 0 <= j < compiled@.len() implies (#[trigger] compiled@[j]).refs_below(target.list@.len() + queue@.len()) by {
                    lemma_refs_below_mono(compiled@[j], target.list@.len() + q0.len(), target.list@.len() + queue@.len());
                }
            }
        }
        compiled.push(sch);
        Ok(CompileStep::Compiled)
    }
}

} // verus!
