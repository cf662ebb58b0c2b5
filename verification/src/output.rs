//! Output formats of validation errors: keyword locations, the flag,
//! basic and detailed structures, and the indented listing.

use vstd::prelude::*;
use crate::errors::{ErrorKind, InstanceLocation, ValidationError, tokens_text};
use crate::text::{chars_of, push_char, push_decimal, push_str, spec_decimal, string_from_range};
use crate::util::{escape, quote, spec_escape, spec_quote, spec_split, split};

verus! {

/// Token for schema.
#[derive(Debug, PartialEq, Eq)]
pub enum SchemaToken {
    /// Token for property.
    Prop(String),
    /// Token for array item.
    Item(usize),
}

/// The json-pointer text of a schema token.
pub open spec fn schema_token_text(t: SchemaToken) -> Seq<char> {
    match t {
        SchemaToken::Prop(p) => spec_escape(p@),
        SchemaToken::Item(i) => spec_decimal(i as nat),
    }
}

impl SchemaToken {
    /// The token as json-pointer text.
    pub fn to_string(&self) -> (r: String)
        ensures
            r@ == schema_token_text(*self),
    {
        match self {
            SchemaToken::Prop(p) => escape(p.as_str()),
            SchemaToken::Item(i) => {
                let mut s = String::new();
                push_decimal(&mut s, *i);
                s
            },
        }
    }
}

/// JsonPointer in schema.
#[derive(Debug, PartialEq, Eq)]
pub struct KeywordPath {
    /// The first token.
    pub keyword: String,
    /// Optional token within keyword.
    pub token: Option<SchemaToken>,
}

/// The text of a keyword path: the keyword, then `/` and the token.
pub open spec fn keyword_path_text(p: KeywordPath) -> Seq<char> {
    match p.token {
        Some(t) => p.keyword@ + seq!['/'] + schema_token_text(t),
        None => p.keyword@,
    }
}

impl KeywordPath {
    /// The path as json-pointer text.
    pub fn to_string(&self) -> (r: String)
        ensures
            r@ == keyword_path_text(*self),
    {
        let mut s = self.keyword.clone();
        if let Some(t) = &self.token {
            push_char(&mut s, '/');
            let t = t.to_string();
            push_str(&mut s, t.as_str());
        }
        s
    }
}

/// The keyword an error of `k` is about, if any.
pub open spec fn kind_keyword(k: ErrorKind) -> Option<Seq<char>> {
    match k {
        ErrorKind::Group => None,
        ErrorKind::Schema { .. } => None,
        ErrorKind::ContentSchema => Some("contentSchema"@),
        ErrorKind::PropertyName { .. } => Some("propertyNames"@),
        ErrorKind::Reference { kw, .. } => Some(kw@),
        ErrorKind::RefCycle { .. } => None,
        ErrorKind::FalseSchema => None,
        ErrorKind::Type { .. } => Some("type"@),
        ErrorKind::Enum { .. } => Some("enum"@),
        ErrorKind::Const { .. } => Some("const"@),
        ErrorKind::Format { .. } => Some("format"@),
        ErrorKind::MinProperties { .. } => Some("minProperties"@),
        ErrorKind::MaxProperties { .. } => Some("maxProperties"@),
        ErrorKind::AdditionalProperties { .. } => Some("additionalProperties"@),
        ErrorKind::Required { .. } => Some("required"@),
        ErrorKind::Dependency { .. } => Some("dependencies"@),
        ErrorKind::DependentRequired { .. } => Some("dependentRequired"@),
        ErrorKind::MinItems { .. } => Some("minItems"@),
        ErrorKind::MaxItems { .. } => Some("maxItems"@),
        ErrorKind::Contains => Some("contains"@),
        ErrorKind::MinContains { .. } => Some("minContains"@),
        ErrorKind::MaxContains { .. } => Some("maxContains"@),
        ErrorKind::UniqueItems { .. } => Some("uniqueItems"@),
        ErrorKind::AdditionalItems { .. } => Some("additionalItems"@),
        ErrorKind::MinLength { .. } => Some("minLength"@),
        ErrorKind::MaxLength { .. } => Some("maxLength"@),
        ErrorKind::Pattern { .. } => Some("pattern"@),
        ErrorKind::ContentEncoding { .. } => Some("contentEncoding"@),
        ErrorKind::ContentMediaType { .. } => Some("contentMediaType"@),
        ErrorKind::Minimum { .. } => Some("minimum"@),
        ErrorKind::Maximum { .. } => Some("maximum"@),
        ErrorKind::ExclusiveMinimum { .. } => Some("exclusiveMinimum"@),
        ErrorKind::ExclusiveMaximum { .. } => Some("exclusiveMaximum"@),
        ErrorKind::MultipleOf { .. } => Some("multipleOf"@),
        ErrorKind::Not => Some("not"@),
        ErrorKind::AllOf => Some("allOf"@),
        ErrorKind::AnyOf => Some("anyOf"@),
        ErrorKind::OneOf(_) => Some("oneOf"@),
    }
}

/// The property within the keyword an error of `k` is about, if any.
pub open spec fn kind_prop(k: ErrorKind) -> Option<Seq<char>> {
    match k {
        ErrorKind::Dependency { prop, .. } => Some(prop@),
        ErrorKind::DependentRequired { prop, .. } => Some(prop@),
        _ => None,
    }
}

fn kw(name: &str) -> (r: Option<KeywordPath>)
    ensures
        r matches Some(p) && p.keyword@ == name@ && p.token is None,
{
    Some(KeywordPath { keyword: name.to_string(), token: None })
}

fn kw_prop(name: &str, prop: &String) -> (r: Option<KeywordPath>)
    ensures
        r matches Some(p) && p.keyword@ == name@ && (p.token matches Some(SchemaToken::Prop(q)) && q@ == prop@),
{
    Some(KeywordPath { keyword: name.to_string(), token: Some(SchemaToken::Prop(prop.clone())) })
}

impl ErrorKind {
    /// The location of the failing keyword within its schema.
    pub fn keyword_path(&self) -> (r: Option<KeywordPath>)
        ensures
            r is Some <==> kind_keyword(*self) is Some,
            r matches Some(p) ==> {
                &&& Some(p.keyword@) == kind_keyword(*self)
                &&& match kind_prop(*self) {
                    Some(q) => p.token matches Some(SchemaToken::Prop(t)) && t@ == q,
                    None => p.token is None,
                }
            },
    {
        proof {
            reveal_strlit("contentSchema");
            reveal_strlit("propertyNames");
            reveal_strlit("type");
            reveal_strlit("enum");
            reveal_strlit("const");
            reveal_strlit("format");
            reveal_strlit("minProperties");
            reveal_strlit("maxProperties");
            reveal_strlit("additionalProperties");
            reveal_strlit("required");
            reveal_strlit("dependencies");
            reveal_strlit("dependentRequired");
            reveal_strlit("minItems");
            reveal_strlit("maxItems");
            reveal_strlit("contains");
            reveal_strlit("minContains");
            reveal_strlit("maxContains");
            reveal_strlit("uniqueItems");
            reveal_strlit("additionalItems");
            reveal_strlit("minLength");
            reveal_strlit("maxLength");
            reveal_strlit("pattern");
            reveal_strlit("contentEncoding");
            reveal_strlit("contentMediaType");
            reveal_strlit("minimum");
            reveal_strlit("maximum");
            reveal_strlit("exclusiveMinimum");
            reveal_strlit("exclusiveMaximum");
            reveal_strlit("multipleOf");
            reveal_strlit("not");
            reveal_strlit("allOf");
            reveal_strlit("anyOf");
            reveal_strlit("oneOf");
        }
        match self {
            ErrorKind::Group => None,
            ErrorKind::Schema { .. } => None,
            ErrorKind::ContentSchema => kw("contentSchema"),
            ErrorKind::PropertyName { .. } => kw("propertyNames"),
            ErrorKind::Reference { kw: kword, .. } => kw(kword.as_str()),
            ErrorKind::RefCycle { .. } => None,
            ErrorKind::FalseSchema => None,
            ErrorKind::Type { .. } => kw("type"),
            ErrorKind::Enum { .. } => kw("enum"),
            ErrorKind::Const { .. } => kw("const"),
            ErrorKind::Format { .. } => kw("format"),
            ErrorKind::MinProperties { .. } => kw("minProperties"),
            ErrorKind::MaxProperties { .. } => kw("maxProperties"),
            ErrorKind::AdditionalProperties { .. } => kw("additionalProperties"),
            ErrorKind::Required { .. } => kw("required"),
            ErrorKind::Dependency { prop, .. } => kw_prop("dependencies", prop),
            ErrorKind::DependentRequired { prop, .. } => kw_prop("dependentRequired", prop),
            ErrorKind::MinItems { .. } => kw("minItems"),
            ErrorKind::MaxItems { .. } => kw("maxItems"),
            ErrorKind::Contains => kw("contains"),
            ErrorKind::MinContains { .. } => kw("minContains"),
            ErrorKind::MaxContains { .. } => kw("maxContains"),
            ErrorKind::UniqueItems { .. } => kw("uniqueItems"),
            ErrorKind::AdditionalItems { .. } => kw("additionalItems"),
            ErrorKind::MinLength { .. } => kw("minLength"),
            ErrorKind::MaxLength { .. } => kw("maxLength"),
            ErrorKind::Pattern { .. } => kw("pattern"),
            ErrorKind::ContentEncoding { .. } => kw("contentEncoding"),
            ErrorKind::ContentMediaType { .. } => kw("contentMediaType"),
            ErrorKind::Minimum { .. } => kw("minimum"),
            ErrorKind::Maximum { .. } => kw("maximum"),
            ErrorKind::ExclusiveMinimum { .. } => kw("exclusiveMinimum"),
            ErrorKind::ExclusiveMaximum { .. } => kw("exclusiveMaximum"),
            ErrorKind::MultipleOf { .. } => kw("multipleOf"),
            ErrorKind::Not => kw("not"),
            ErrorKind::AllOf => kw("allOf"),
            ErrorKind::AnyOf => kw("anyOf"),
            ErrorKind::OneOf(_) => kw("oneOf"),
        }
    }
}

/// The absolute, dereferenced location of the validating keyword.
#[derive(Debug, PartialEq, Eq)]
pub struct AbsoluteKeywordLocation {
    /// The absolute, dereferenced schema location.
    pub schema_url: String,
    /// Location within the `schema_url`.
    pub keyword_path: Option<KeywordPath>,
}

/// The text of an absolute keyword location.
pub open spec fn abs_loc_text(a: AbsoluteKeywordLocation) -> Seq<char> {
    match a.keyword_path {
        Some(p) => a.schema_url@ + seq!['/'] + keyword_path_text(p),
        None => a.schema_url@,
    }
}

impl AbsoluteKeywordLocation {
    /// The location as text.
    pub fn to_string(&self) -> (r: String)
        ensures
            r@ == abs_loc_text(*self),
    {
        let mut s = self.schema_url.clone();
        if let Some(p) = &self.keyword_path {
            push_char(&mut s, '/');
            let t = p.to_string();
            push_str(&mut s, t.as_str());
        }
        s
    }
}

/// Simplest output format, merely the boolean result.
#[derive(Debug, PartialEq, Eq)]
pub struct FlagOutput {
    pub valid: bool,
}

/// Single output unit used in the basic and detailed output formats.
pub struct OutputUnit<'e> {
    pub valid: bool,
    pub keyword_location: String,
    /// The absolute, dereferenced location of the validating keyword.
    pub absolute_keyword_location: Option<AbsoluteKeywordLocation>,
    /// The location of the JSON value within the instance being validated.
    pub instance_location: &'e InstanceLocation,
    pub error: OutputError<'e>,
}

/// Error of an output unit.
pub enum OutputError<'e> {
    /// Single.
    Leaf(&'e ErrorKind),
    /// Nested.
    Branch(Vec<OutputUnit<'e>>),
}

/// The schema location an error stands for: the target of a reference,
/// the schema of a `Schema` error, else the error's schema.
pub open spec fn error_url(e: ValidationError) -> Seq<char> {
    match e.kind {
        ErrorKind::Schema { url } => url@,
        ErrorKind::Reference { url, .. } => url@,
        _ => e.schema_url@,
    }
}

/// The error is a reference with a single cause, which stands in for it
/// in the output.
pub open spec fn spec_skip(e: ValidationError) -> bool {
    e.causes@.len() == 1 && e.kind is Reference
}

impl ValidationError {
    /// The absolute location of the failing keyword: a reference's target,
    /// else the error's schema and the keyword's path in it.
    pub fn absolute_keyword_location(&self) -> (r: AbsoluteKeywordLocation)
        ensures
            self.kind matches ErrorKind::Reference { url, .. } ==> r.schema_url@ == url@ && r.keyword_path is None,
            !(self.kind is Reference) ==> r.schema_url@ == self.schema_url@
                && (r.keyword_path is Some <==> kind_keyword(self.kind) is Some)
                && (r.keyword_path matches Some(p) ==> Some(p.keyword@) == kind_keyword(self.kind)),
            abs_loc_text(r) == abs_text(*self),
    {
        match &self.kind {
            ErrorKind::Reference { url, .. } => AbsoluteKeywordLocation { schema_url: url.clone(), keyword_path: None },
            _ => {
                let r = AbsoluteKeywordLocation { schema_url: self.schema_url.clone(), keyword_path: self.kind.keyword_path() };
                proof {
                    if r.keyword_path is Some {
                        assert(abs_loc_text(r) =~= abs_text(*self));
                    }
                }
                r
            },
        }
    }

    /// Whether the error is a reference with a single cause.
    pub fn skip(&self) -> (r: bool)
        ensures
            r == spec_skip(*self),
    {
        self.causes.len() == 1 && match self.kind {
            ErrorKind::Reference { .. } => true,
            _ => false,
        }
    }

    /// The `Flag` output format, merely the boolean result.
    pub fn flag_output(&self) -> (r: FlagOutput)
        ensures
            !r.valid,
    {
        FlagOutput { valid: false }
    }
}

// ---------------------------------------------------------------------
// walking the tree of errors

/// Whether the errors entered so far include a reference.
pub struct InRef {
    pub stack: Vec<bool>,
}

impl InRef {
    /// Nothing entered.
    pub fn new() -> (r: InRef)
        ensures
            r.stack@.len() == 0,
    {
        InRef { stack: Vec::new() }
    }

    /// Enters `e`.
    pub fn pre(&mut self, e: &ValidationError)
        ensures
            final(self).stack@ == old(self).stack@.push(
                (old(self).stack@.len() > 0 && old(self).stack@.last()) || e.kind is Reference),
    {
        let in_ref = self.get() || match e.kind {
            ErrorKind::Reference { .. } => true,
            _ => false,
        };
        self.stack.push(in_ref);
    }

    /// Leaves the innermost error.
    pub fn post(&mut self)
        ensures
            old(self).stack@.len() > 0 ==> final(self).stack@ == old(self).stack@.drop_last(),
            old(self).stack@.len() == 0 ==> final(self).stack@ == old(self).stack@,
    {
        self.stack.pop();
    }

    /// Whether the innermost error is, or is inside, a reference.
    pub fn get(&self) -> (r: bool)
        ensures
            r == (self.stack@.len() > 0 && self.stack@.last()),
    {
        if self.stack.len() > 0 {
            self.stack[self.stack.len() - 1]
        } else {
            false
        }
    }
}

/// The keyword location of the error being visited, relative to the
/// outermost schema.
pub struct KeywordLocation {
    pub loc: String,
    /// For each error entered: the schema location it stands for, and the
    /// length of `loc` after entering it.
    pub stack: Vec<(String, usize)>,
}

impl KeywordLocation {
    /// Nothing entered.
    pub fn new() -> (r: KeywordLocation)
        ensures
            r.loc@.len() == 0,
            r.stack@.len() == 0,
    {
        KeywordLocation { loc: String::new(), stack: Vec::new() }
    }

    /// Enters `e`: the part of its schema location past the enclosing one
    /// is appended, and for a reference its keyword.
    pub fn pre(&mut self, e: &ValidationError)
        ensures
            final(self).loc@ == old(self).loc@ + (if old(self).stack@.len() > 0 {
                crate::validator::loc_suffix(e.schema_url@, old(self).stack@.last().0@)
                    + match e.kind {
                        ErrorKind::Reference { kw, .. } => seq!['/'] + kw@,
                        _ => seq![],
                    }
            } else {
                seq![]
            }),
            final(self).stack@.len() == old(self).stack@.len() + 1,
            final(self).stack@.drop_last() == old(self).stack@,
            final(self).stack@.last().0@ == error_url(*e),
            final(self).stack@.last().1 == final(self).loc@.len(),
    {
        let cur = match &e.kind {
            ErrorKind::Schema { url } => url.clone(),
            ErrorKind::Reference { url, .. } => url.clone(),
            _ => e.schema_url.clone(),
        };
        let ghost before = self.loc@;
        if self.stack.len() > 0 {
            let prev = chars_of(self.stack[self.stack.len() - 1].0.as_str());
            let url = chars_of(e.schema_url.as_str());
            if prev.len() <= url.len() {
                let mut j = prev.len();
                while j < url.len()
                    invariant
                        prev@.len() <= j <= url@.len(),
                        self.stack@ == old(self).stack@,
                        self.loc@ == before + url@.subrange(prev@.len() as int, j as int),
                    decreases url.len() - j,
                {
                    push_char(&mut self.loc, url[j]);
                    proof {
                        assert(url@.subrange(prev@.len() as int, j + 1) =~= url@.subrange(prev@.len() as int, j as int).push(url@[j as int]));
                    }
                    j += 1;
                }
                proof {
                    assert(url@.subrange(prev@.len() as int, url@.len() as int) =~= url@.skip(prev@.len() as int));
                }
            } else {
                proof {
                    assert(self.loc@ =~= before + Seq::<char>::empty());
                }
            }
            if let ErrorKind::Reference { kw, .. } = &e.kind {
                push_char(&mut self.loc, '/');
                push_str(&mut self.loc, kw.as_str());
            }
            proof {
                assert(self.loc@ =~= before + (crate::validator::loc_suffix(e.schema_url@, old(self).stack@.last().0@)
                    + match e.kind {
                        ErrorKind::Reference { kw, .. } => seq!['/'] + kw@,
                        _ => seq![],
                    }));
            }
        } else {
            proof {
                assert(self.loc@ =~= before + Seq::<char>::empty());
            }
        }
        let n = self.loc.as_str().unicode_len();
        self.stack.push((cur, n));
    }

    /// Leaves the innermost error; the location goes back to what it was
    /// inside the error around it.
    pub fn post(&mut self)
        ensures
            final(self).stack@ == if old(self).stack@.len() > 0 { old(self).stack@.drop_last() } else { old(self).stack@ },
            final(self).stack@.len() > 0 && final(self).stack@.last().1 <= old(self).loc@.len()
                ==> final(self).loc@ == old(self).loc@.take(final(self).stack@.last().1 as int),
            !(final(self).stack@.len() > 0 && final(self).stack@.last().1 <= old(self).loc@.len())
                ==> final(self).loc@ == old(self).loc@,
    {
        self.stack.pop();
        if self.stack.len() > 0 {
            let len = self.stack[self.stack.len() - 1].1;
            let v = chars_of(self.loc.as_str());
            if len <= v.len() {
                self.loc = string_from_range(&v, 0, len);
                proof {
                    assert(v@.subrange(0, len as int) =~= v@.take(len as int));
                }
            }
        }
    }

    /// The keyword location of `cur`: that of the error itself for a
    /// reference, else extended by the path of the failing keyword.
    pub fn get(&self, cur: &ValidationError) -> (r: String)
        ensures
            r@ == if cur.kind is Reference || kind_keyword(cur.kind) is None {
                self.loc@
            } else {
                self.loc@ + seq!['/'] + kind_keyword(cur.kind)->0 + match kind_prop(cur.kind) {
                    Some(q) => seq!['/'] + spec_escape(q),
                    None => seq![],
                }
            },
    {
        if let ErrorKind::Reference { .. } = &cur.kind {
            self.loc.clone()
        } else if let Some(kw_path) = cur.kind.keyword_path() {
            let mut s = self.loc.clone();
            push_char(&mut s, '/');
            let t = kw_path.to_string();
            push_str(&mut s, t.as_str());
            proof {
                assert(s@ =~= self.loc@ + seq!['/'] + kind_keyword(cur.kind)->0 + match kind_prop(cur.kind) {
                    Some(q) => seq!['/'] + spec_escape(q),
                    None => seq![],
                });
            }
            s
        } else {
            self.loc.clone()
        }
    }
}

/// Depth of the error being listed, for indentation.
pub struct Indent {
    pub n: usize,
}

/// `k` copies of two spaces.
pub open spec fn spaces(k: nat) -> Seq<char>
    decreases k,
{
    if k == 0 {
        seq![]
    } else {
        spaces((k - 1) as nat) + seq![' ', ' ']
    }
}

impl Indent {
    /// Starts the line of an error: below the first, a new line indented
    /// by its depth and a dash. The depth saturates at `usize::MAX`.
    pub fn pre(&mut self, out: &mut String)
        ensures
            final(out)@ == old(out)@ + if old(self).n > 0 {
                seq!['\n'] + spaces((old(self).n - 1) as nat) + seq!['-', ' ']
            } else {
                seq![]
            },
            final(self).n == pre_depth(old(self).n),
    {
        if self.n > 0 {
            push_char(out, '\n');
            let ghost start = out@;
            let mut i: usize = 0;
            while i < self.n - 1
                invariant
                    self.n > 0,
                    i <= self.n - 1,
                    out@ == start + spaces(i as nat),
                decreases self.n - 1 - i,
            {
                push_char(out, ' ');
                push_char(out, ' ');
                i += 1;
            }
            push_char(out, '-');
            push_char(out, ' ');
            proof {
                assert(out@ =~= old(out)@ + (seq!['\n'] + spaces((old(self).n - 1) as nat) + seq!['-', ' ']));
            }
        } else {
            proof {
                assert(out@ =~= old(out)@ + Seq::<char>::empty());
            }
        }
        if self.n < usize::MAX {
            self.n += 1;
        }
    }

    /// Ends the errors listed below one error: one level less deep.
    pub fn post(&mut self)
        requires
            old(self).n > 0,
        ensures
            final(self).n == post_depth(old(self).n),
    {
        self.n -= 1;
    }
}

/// The depth after `Indent::pre`: one more, saturating at `usize::MAX`.
pub open spec fn pre_depth(n: usize) -> usize {
    if n < usize::MAX { (n + 1) as usize } else { n }
}

/// The depth after `Indent::post`: one less.
pub open spec fn post_depth(n: usize) -> usize {
    (n - 1) as usize
}

} // verus!

verus! {

/// Whether the error gets a unit of the basic output.
pub open spec fn in_basic(e: ValidationError) -> bool {
    !spec_skip(e) && !(e.kind is Schema)
}

/// The number of units of the basic output the errors of the tree of `e`
/// give.
pub open spec fn unit_count(e: ValidationError) -> nat
    decreases e, 1int,
{
    (if in_basic(e) { 1nat } else { 0nat }) + causes_count(e.causes@)
}

/// The number of units of the basic output the trees of `cs` give.
pub open spec fn causes_count(cs: Seq<ValidationError>) -> nat
    decreases cs, 0int,
{
    if cs.len() == 0 {
        0
    } else {
        causes_count(cs.subrange(0, cs.len() - 1)) + unit_count(cs[cs.len() - 1])
    }
}

/// The keyword location of error `e` entered below an error whose
/// keyword location is `loc` and whose schema location is `parent` (none
/// at the root): the part of its schema location past the enclosing one,
/// and for a reference its keyword, are appended.
pub open spec fn entered_loc(e: ValidationError, loc: Seq<char>, parent: Option<Seq<char>>) -> Seq<char> {
    match parent {
        Some(p) => loc + crate::validator::loc_suffix(e.schema_url@, p) + match e.kind {
            ErrorKind::Reference { kw, .. } => seq!['/'] + kw@,
            _ => seq![],
        },
        None => loc,
    }
}

/// The keyword location a unit of `e` shows, `loc` being that of `e`: for
/// an error other than a reference, extended by the failing keyword.
pub open spec fn unit_kw_loc(e: ValidationError, loc: Seq<char>) -> Seq<char> {
    if e.kind is Reference || kind_keyword(e.kind) is None {
        loc
    } else {
        loc + seq!['/'] + kind_keyword(e.kind)->0 + match kind_prop(e.kind) {
            Some(q) => seq!['/'] + spec_escape(q),
            None => seq![],
        }
    }
}

/// What the basic output reports, in pre-order, of the errors of the tree
/// of `e` that get a unit: each error, whether it is or is inside a
/// reference, and its keyword location; `e` is entered below an error that
/// is inside a reference (`in_ref`), with keyword location `loc` and
/// schema location `parent`.
pub open spec fn basic_errors(e: ValidationError, in_ref: bool, loc: Seq<char>, parent: Option<Seq<char>>)
    -> Seq<(ValidationError, bool, Seq<char>)>
    decreases e, 1int,
{
    let r = in_ref || e.kind is Reference;
    let l = entered_loc(e, loc, parent);
    (if in_basic(e) { seq![(e, r, unit_kw_loc(e, l))] } else { Seq::empty() })
        + causes_errors(e.causes@, r, l, Some(error_url(e)))
}

/// What the basic output reports of the trees of `cs`, in pre-order.
pub open spec fn causes_errors(cs: Seq<ValidationError>, in_ref: bool, loc: Seq<char>, parent: Option<Seq<char>>)
    -> Seq<(ValidationError, bool, Seq<char>)>
    decreases cs, 0int,
{
    if cs.len() == 0 {
        Seq::empty()
    } else {
        causes_errors(cs.subrange(0, cs.len() - 1), in_ref, loc, parent)
            + basic_errors(cs[cs.len() - 1], in_ref, loc, parent)
    }
}

/// Unit `u` reports `x` (see `basic_errors`): invalid, at the error's
/// instance location, with its kind and keyword location, and its absolute
/// keyword location exactly when it is inside a reference.
pub open spec fn reports(u: OutputUnit, x: (ValidationError, bool, Seq<char>)) -> bool {
    &&& !u.valid
    &&& u.instance_location == &x.0.instance_location
    &&& u.error == OutputError::Leaf(&x.0.kind)
    &&& u.keyword_location@ == x.2
    &&& if x.1 {
        u.absolute_keyword_location matches Some(a) && abs_loc_text(a) == abs_text(x.0)
    } else {
        u.absolute_keyword_location is None
    }
}

/// Whether the innermost entered error is, or is inside, a reference.
pub open spec fn ref_ctx(stack: Seq<bool>) -> bool {
    stack.len() > 0 && stack.last()
}

/// The schema location of the innermost entered error, if any.
pub open spec fn parent_ctx(stack: Seq<(String, usize)>) -> Option<Seq<char>> {
    if stack.len() > 0 { Some(stack.last().0@) } else { None }
}

/// There are as many units as errors to report.
pub proof fn lemma_unit_count(e: ValidationError, in_ref: bool, loc: Seq<char>, parent: Option<Seq<char>>)
    ensures
        unit_count(e) == basic_errors(e, in_ref, loc, parent).len(),
    decreases e, 1int,
{
    let r = in_ref || e.kind is Reference;
    let l = entered_loc(e, loc, parent);
    lemma_causes_count(e.causes@, r, l, Some(error_url(e)));
}

/// There are as many units as errors to report, for the trees of `cs`.
pub proof fn lemma_causes_count(cs: Seq<ValidationError>, in_ref: bool, loc: Seq<char>, parent: Option<Seq<char>>)
    ensures
        causes_count(cs) == causes_errors(cs, in_ref, loc, parent).len(),
    decreases cs, 0int,
{
    if cs.len() > 0 {
        lemma_causes_count(cs.subrange(0, cs.len() - 1), in_ref, loc, parent);
        lemma_unit_count(cs[cs.len() - 1], in_ref, loc, parent);
    }
}

/// The stack of a keyword location records the length of its text.
pub open spec fn kw_loc_ok(k: KeywordLocation) -> bool {
    k.stack@.len() > 0 ==> k.stack@.last().1 == k.loc@.len()
}

/// Appends a unit for each error of the tree of `e` that is not skipped
/// and not a `Schema` error, in pre-order.
fn basic_walk<'e>(e: &'e ValidationError, in_ref: &mut InRef, kw_loc: &mut KeywordLocation,
    outputs: &mut Vec<OutputUnit<'e>>)
    requires
        kw_loc_ok(*old(kw_loc)),
    ensures
        final(in_ref).stack@ == old(in_ref).stack@,
        final(kw_loc).stack@ == old(kw_loc).stack@,
        final(kw_loc).loc@ == old(kw_loc).loc@,
        final(outputs)@.len() == old(outputs)@.len() + unit_count(*e),
        forall|i: int| 0 <= i < old(outputs)@.len() ==> final(outputs)@[i] == old(outputs)@[i],
        forall|i: int| old(outputs)@.len() <= i < final(outputs)@.len() ==> !(#[trigger] final(outputs)@[i]).valid,
        forall|k: int| 0 <= k < basic_errors(*e, ref_ctx(old(in_ref).stack@), old(kw_loc).loc@,
            parent_ctx(old(kw_loc).stack@)).len() ==> reports(#[trigger] final(outputs)@[old(outputs)@.len() + k],
            basic_errors(*e, ref_ctx(old(in_ref).stack@), old(kw_loc).loc@, parent_ctx(old(kw_loc).stack@))[k]),
    decreases e,
{
    let ghost loc0 = kw_loc.loc@;
    let ghost n0 = outputs@.len();
    in_ref.pre(e);
    kw_loc.pre(e);
    let ghost loc1 = kw_loc.loc@;
    if !e.skip() && !matches!(e.kind, ErrorKind::Schema { .. }) {
        let absolute_keyword_location = if in_ref.get() {
            Some(e.absolute_keyword_location())
        } else {
            None
        };
        let keyword_location = kw_loc.get(e);
        outputs.push(OutputUnit {
            valid: false,
            keyword_location,
            absolute_keyword_location,
            instance_location: &e.instance_location,
            error: OutputError::Leaf(&e.kind),
        });
    }
    let ghost n1 = outputs@.len();
    let ghost r1 = ref_ctx(in_ref.stack@);
    let ghost p1 = Some(error_url(*e));
    let ghost head = if in_basic(*e) { seq![(*e, r1, unit_kw_loc(*e, loc1))] } else { Seq::<(ValidationError, bool, Seq<char>)>::empty() };
    assert(r1 == (ref_ctx(old(in_ref).stack@) || e.kind is Reference));
    assert(loc1 == entered_loc(*e, loc0, parent_ctx(old(kw_loc).stack@)));
    assert(n1 == n0 + head.len());
    assert(forall|k: int| 0 <= k < head.len() ==> reports(#[trigger] outputs@[n0 + k], head[k]));
    let ghost in1 = in_ref.stack@;
    let ghost st1 = kw_loc.stack@;
    let mut i: usize = 0;
    proof {
        assert(e.causes@.subrange(0, 0) =~= Seq::<ValidationError>::empty());
    }
    while i < e.causes.len()
        invariant
            i <= e.causes@.len(),
            in_ref.stack@ == in1,
            kw_loc.stack@ == st1,
            kw_loc.loc@ == loc1,
            st1.len() > 0 && st1.last().1 == loc1.len(),
            outputs@.len() == n1 + causes_count(e.causes@.subrange(0, i as int)),
            n1 >= n0,
            forall|k: int| 0 <= k < n0 ==> outputs@[k] == old(outputs)@[k],
            forall|k: int| n0 <= k < outputs@.len() ==> !(#[trigger] outputs@[k]).valid,
            n1 == n0 + head.len(),
            head == (if in_basic(*e) { seq![(*e, r1, unit_kw_loc(*e, loc1))] } else { Seq::<(ValidationError, bool, Seq<char>)>::empty() }),
            r1 == ref_ctx(in1),
            p1 == parent_ctx(st1),
            forall|k: int| 0 <= k < head.len() ==> reports(#[trigger] outputs@[n0 + k], head[k]),
            outputs@.len() == n1 + causes_errors(e.causes@.subrange(0, i as int), r1, loc1, p1).len(),
            forall|k: int| 0 <= k < causes_errors(e.causes@.subrange(0, i as int), r1, loc1, p1).len() ==> reports(
                #[trigger] outputs@[n1 + k], causes_errors(e.causes@.subrange(0, i as int), r1, loc1, p1)[k]),
        decreases e.causes.len() - i,
    {
        proof {
            assert(decreases_to!(*e => e.causes@));
            assert(decreases_to!(e.causes@ => e.causes@[i as int]));
        }
        let ghost before = outputs@;
        let ghost done = causes_errors(e.causes@.subrange(0, i as int), r1, loc1, p1);
        basic_walk(&e.causes[i], in_ref, kw_loc, outputs);
        proof {
            let t = e.causes@.subrange(0, i + 1);
            assert(t.subrange(0, t.len() - 1) =~= e.causes@.subrange(0, i as int));
            assert(t[t.len() - 1] == e.causes@[i as int]);
            let more = basic_errors(e.causes@[i as int], r1, loc1, p1);
            assert(causes_errors(t, r1, loc1, p1) == done + more);
            lemma_unit_count(e.causes@[i as int], r1, loc1, p1);
            assert forall|k: int| 0 <= k < head.len() implies reports(#[trigger] outputs@[n0 + k], head[k]) by {
                assert(outputs@[n0 + k] == before[n0 + k]);
            }
            assert forall|k: int| 0 <= k < causes_errors(t, r1, loc1, p1).len() implies reports(
                #[trigger] outputs@[n1 + k], causes_errors(t, r1, loc1, p1)[k]) by {
                if k < done.len() {
                    assert(outputs@[n1 + k] == before[n1 + k]);
                    assert(causes_errors(t, r1, loc1, p1)[k] == done[k]);
                } else {
                    assert(outputs@[n1 + k] == outputs@[before.len() + (k - done.len())]);
                    assert(causes_errors(t, r1, loc1, p1)[k] == more[k - done.len()]);
                }
            }
        }
        i += 1;
    }
    proof {
        assert(e.causes@.subrange(0, e.causes@.len() as int) =~= e.causes@);
        let all = basic_errors(*e, ref_ctx(old(in_ref).stack@), loc0, parent_ctx(old(kw_loc).stack@));
        let tail = causes_errors(e.causes@, r1, loc1, p1);
        assert(all == head + tail);
        assert forall|k: int| 0 <= k < all.len() implies reports(#[trigger] outputs@[n0 + k], all[k]) by {
            if k < head.len() {
                assert(all[k] == head[k]);
            } else {
                assert(all[k] == tail[k - head.len()]);
                assert(outputs@[n0 + k] == outputs@[n1 + (k - head.len())]);
            }
        }
    }
    in_ref.post();
    kw_loc.post();
    proof {
        assert(kw_loc.loc@ =~= loc0) by {
            if old(kw_loc).stack@.len() > 0 {
                assert(loc1.take(loc0.len() as int) =~= loc0);
            }
        }
    }
}

/// The error units the detailed output attaches at the place of `e`: a
/// skipped error gives those of its causes.
pub open spec fn detailed_count(e: ValidationError) -> nat
    decreases e, 1int,
{
    if spec_skip(e) {
        detailed_causes_count(e.causes@)
    } else {
        1
    }
}

/// The error units the detailed output attaches for the trees of `cs`.
pub open spec fn detailed_causes_count(cs: Seq<ValidationError>) -> nat
    decreases cs, 0int,
{
    if cs.len() == 0 {
        0
    } else {
        detailed_causes_count(cs.subrange(0, cs.len() - 1)) + detailed_count(cs[cs.len() - 1])
    }
}

/// Every tree gives at least one unit of the detailed output; a tree
/// whose root is not skipped gives exactly one.
pub proof fn lemma_detailed_count(e: ValidationError)
    ensures
        detailed_count(e) >= 1,
    decreases e,
{
    if spec_skip(e) {
        let c = e.causes@;
        assert(decreases_to!(e => e.causes@));
        assert(decreases_to!(c => c[0]));
        lemma_detailed_count(c[0]);
        assert(c.subrange(0, 0) =~= Seq::<ValidationError>::empty());
    }
}

/// Unit `u` is the detailed unit of error `e` entered below an error that
/// is inside a reference (`in_ref`), with keyword location `loc` and
/// schema location `parent`: it reports `e` as the basic output does, and
/// holds the units of the causes of `e`, if any.
pub open spec fn unit_for(u: OutputUnit, e: ValidationError, in_ref: bool, loc: Seq<char>, parent: Option<Seq<char>>) -> bool
    decreases e, 1int,
{
    let r = in_ref || e.kind is Reference;
    let l = entered_loc(e, loc, parent);
    &&& !u.valid
    &&& u.instance_location == &e.instance_location
    &&& u.keyword_location@ == unit_kw_loc(e, l)
    &&& (if r {
        u.absolute_keyword_location matches Some(a) && abs_loc_text(a) == abs_text(e)
    } else {
        u.absolute_keyword_location is None
    })
    &&& if e.causes@.len() == 0 {
        u.error == OutputError::Leaf(&e.kind)
    } else {
        u.error matches OutputError::Branch(us) && units_for(us@, e.causes@, r, l, Some(error_url(e)))
    }
}

/// `us` are the units the detailed output attaches at the place of `e`:
/// its own unit, or, for a skipped error, those of its causes.
pub open spec fn list_for(us: Seq<OutputUnit>, e: ValidationError, in_ref: bool, loc: Seq<char>, parent: Option<Seq<char>>) -> bool
    decreases e, 2int,
{
    if spec_skip(e) {
        units_for(us, e.causes@, in_ref || e.kind is Reference, entered_loc(e, loc, parent), Some(error_url(e)))
    } else {
        us.len() == 1 && unit_for(us[0], e, in_ref, loc, parent)
    }
}

/// `us` are the units the detailed output attaches for the trees of `cs`,
/// one after the other.
pub open spec fn units_for(us: Seq<OutputUnit>, cs: Seq<ValidationError>, in_ref: bool, loc: Seq<char>, parent: Option<Seq<char>>) -> bool
    decreases cs, 0int,
{
    if cs.len() == 0 {
        us.len() == 0
    } else {
        let k = us.len() - detailed_count(cs.last());
        &&& k >= 0
        &&& units_for(us.take(k), cs.drop_last(), in_ref, loc, parent)
        &&& list_for(us.skip(k), cs.last(), in_ref, loc, parent)
    }
}

/// The units of the detailed output for the tree of `e`: one for `e`
/// holding those of its causes, or, for a skipped error, those of its
/// cause.
fn detailed_walk<'e>(e: &'e ValidationError, in_ref: &mut InRef, kw_loc: &mut KeywordLocation)
    -> (r: Vec<OutputUnit<'e>>)
    requires
        kw_loc_ok(*old(kw_loc)),
    ensures
        final(in_ref).stack@ == old(in_ref).stack@,
        final(kw_loc).stack@ == old(kw_loc).stack@,
        final(kw_loc).loc@ == old(kw_loc).loc@,
        r@.len() == detailed_count(*e),
        forall|i: int| 0 <= i < r@.len() ==> !(#[trigger] r@[i]).valid,
        !spec_skip(*e) ==> r@.len() == 1 && r@[0].instance_location == &e.instance_location && !r@[0].valid
            && (e.causes@.len() == 0 ==> r@[0].error == OutputError::Leaf(&e.kind)),
        !spec_skip(*e) && e.causes@.len() > 0 ==> (r@[0].error matches OutputError::Branch(units)
            && units@.len() == detailed_causes_count(e.causes@)),
        list_for(r@, *e, ref_ctx(old(in_ref).stack@), old(kw_loc).loc@, parent_ctx(old(kw_loc).stack@)),
    decreases e,
{
    let ghost loc0 = kw_loc.loc@;
    in_ref.pre(e);
    kw_loc.pre(e);
    let ghost loc1 = kw_loc.loc@;
    let skip = e.skip();
    let mut unit: Option<OutputUnit<'e>> = None;
    if !skip {
        let absolute_keyword_location = if in_ref.get() {
            Some(e.absolute_keyword_location())
        } else {
            None
        };
        let keyword_location = kw_loc.get(e);
        unit = Some(OutputUnit {
            valid: false,
            keyword_location,
            absolute_keyword_location,
            instance_location: &e.instance_location,
            error: OutputError::Leaf(&e.kind),
        });
    }
    let ghost in1 = in_ref.stack@;
    let ghost st1 = kw_loc.stack@;
    let ghost r1 = ref_ctx(in1);
    let ghost p1 = Some(error_url(*e));
    assert(r1 == (ref_ctx(old(in_ref).stack@) || e.kind is Reference));
    assert(loc1 == entered_loc(*e, loc0, parent_ctx(old(kw_loc).stack@)));
    assert(p1 == parent_ctx(st1));
    let mut children: Vec<OutputUnit<'e>> = Vec::new();
    let mut i: usize = 0;
    proof {
        assert(e.causes@.subrange(0, 0) =~= Seq::<ValidationError>::empty());
    }
    while i < e.causes.len()
        invariant
            i <= e.causes@.len(),
            in_ref.stack@ == in1,
            kw_loc.stack@ == st1,
            kw_loc.loc@ == loc1,
            st1.len() > 0 && st1.last().1 == loc1.len(),
            children@.len() == detailed_causes_count(e.causes@.subrange(0, i as int)),
            forall|k: int| 0 <= k < children@.len() ==> !(#[trigger] children@[k]).valid,
            unit matches Some(u) ==> !u.valid && u.instance_location == &e.instance_location
                && u.error == OutputError::Leaf(&e.kind),
            unit matches Some(u) ==> u.keyword_location@ == unit_kw_loc(*e, loc1) && (if r1 {
                u.absolute_keyword_location matches Some(a) && abs_loc_text(a) == abs_text(*e)
            } else {
                u.absolute_keyword_location is None
            }),
            unit is Some <==> !skip,
            r1 == ref_ctx(in1),
            p1 == parent_ctx(st1),
            units_for(children@, e.causes@.subrange(0, i as int), r1, loc1, p1),
        decreases e.causes.len() - i,
    {
        proof {
            assert(decreases_to!(*e => e.causes@));
            assert(decreases_to!(e.causes@ => e.causes@[i as int]));
        }
        let ghost before = children@;
        let mut more = detailed_walk(&e.causes[i], in_ref, kw_loc);
        let ghost added = more@;
        children.append(&mut more);
        proof {
            let t = e.causes@.subrange(0, i + 1);
            assert(t.subrange(0, t.len() - 1) =~= e.causes@.subrange(0, i as int));
            assert(t.drop_last() =~= e.causes@.subrange(0, i as int));
            assert(t.last() == e.causes@[i as int]);
            assert(children@.take(before.len() as int) =~= before);
            assert(children@.skip(before.len() as int) =~= added);
        }
        i += 1;
    }
    proof {
        assert(e.causes@.subrange(0, e.causes@.len() as int) =~= e.causes@);
        if skip {
            let c = e.causes@;
            assert(c.subrange(0, 0) =~= Seq::<ValidationError>::empty());
        }
        if e.causes@.len() > 0 {
            let c = e.causes@;
            assert(decreases_to!(*e => e.causes@));
            assert(decreases_to!(c => c[c.len() - 1]));
            lemma_detailed_count(c[c.len() - 1]);
        }
    }
    in_ref.post();
    kw_loc.post();
    proof {
        assert(kw_loc.loc@ =~= loc0) by {
            if old(kw_loc).stack@.len() > 0 {
                assert(loc1.take(loc0.len() as int) =~= loc0);
            }
        }
    }
    match unit {
        Some(mut u) => {
            if children.len() > 0 {
                u.error = OutputError::Branch(children);
            }
            let mut r: Vec<OutputUnit<'e>> = Vec::new();
            r.push(u);
            r
        },
        None => children,
    }
}

impl ValidationError {
    /// The `Basic` structure, a flat list of output units.
    pub fn basic_output<'e>(&'e self) -> (r: OutputUnit<'e>)
        ensures
            !r.valid,
            r.keyword_location@.len() == 0,
            r.absolute_keyword_location is None,
            r.instance_location == &self.instance_location,
            unit_count(*self) == 0 ==> r.error == OutputError::Leaf(&self.kind),
            unit_count(*self) > 0 ==> r.error is Branch,
            r.error matches OutputError::Branch(units) ==> units@.len() == unit_count(*self)
                && forall|i: int| 0 <= i < units@.len() ==> !(#[trigger] units@[i]).valid,
            r.error matches OutputError::Branch(units) ==> units@.len() == basic_errors(*self, false, seq![], None).len()
                && forall|k: int| 0 <= k < units@.len() ==> reports(#[trigger] units@[k], basic_errors(*self, false, seq![], None)[k]),
    {
        let mut outputs: Vec<OutputUnit<'e>> = Vec::new();
        let mut in_ref = InRef::new();
        let mut kw_loc = KeywordLocation::new();
        proof {
            assert(kw_loc.loc@ =~= Seq::<char>::empty());
            assert(ref_ctx(in_ref.stack@) == false);
            assert(parent_ctx(kw_loc.stack@) is None);
        }
        basic_walk(self, &mut in_ref, &mut kw_loc, &mut outputs);
        proof {
            lemma_unit_count(*self, false, seq![], None);
            assert forall|k: int| 0 <= k < outputs@.len() implies reports(#[trigger] outputs@[k], basic_errors(*self, false, seq![], None)[k]) by {
                assert(outputs@[0 + k] == outputs@[k]);
            }
        }
        let error = if outputs.len() == 0 {
            OutputError::Leaf(&self.kind)
        } else {
            OutputError::Branch(outputs)
        };
        OutputUnit {
            valid: false,
            keyword_location: String::new(),
            absolute_keyword_location: None,
            instance_location: &self.instance_location,
            error,
        }
    }

    /// The `Detailed` structure, based on the schema: one unit for each
    /// error that is not skipped, holding the units of its causes.
    pub fn detailed_output<'e>(&'e self) -> (r: OutputUnit<'e>)
        ensures
            !r.valid,
            !spec_skip(*self) ==> r.instance_location == &self.instance_location,
            !spec_skip(*self) && self.causes@.len() == 0 ==> r.error == OutputError::Leaf(&self.kind),
            !spec_skip(*self) && self.causes@.len() > 0 ==> (r.error matches OutputError::Branch(units)
                && units@.len() == detailed_causes_count(self.causes@)),
            !spec_skip(*self) ==> unit_for(r, *self, false, seq![], None),
    {
        let mut in_ref = InRef::new();
        let mut kw_loc = KeywordLocation::new();
        proof {
            assert(kw_loc.loc@ =~= Seq::<char>::empty());
            assert(ref_ctx(in_ref.stack@) == false);
            assert(parent_ctx(kw_loc.stack@) is None);
        }
        let mut units = detailed_walk(self, &mut in_ref, &mut kw_loc);
        proof {
            lemma_detailed_count(*self);
        }
        units.pop().unwrap()
    }
}

} // verus!

verus! {

/// The text of the absolute keyword location of `e`.
pub open spec fn abs_text(e: ValidationError) -> Seq<char> {
    match e.kind {
        ErrorKind::Reference { url, .. } => url@,
        _ => match kind_keyword(e.kind) {
            Some(k) => e.schema_url@ + seq!['/'] + k + match kind_prop(e.kind) {
                Some(q) => seq!['/'] + spec_escape(q),
                None => seq![],
            },
            None => e.schema_url@,
        },
    }
}

/// The location the alternate listing shows for the innermost error of
/// `stack`: relative to the document of the error around it (`S#` and the
/// fragment) when both are in the same document, else absolute.
pub open spec fn schema_location_text(stack: Seq<ValidationError>) -> Seq<char> {
    let cur = stack.last();
    let cur_url = match cur.kind {
        ErrorKind::Schema { url } => url@,
        ErrorKind::Reference { url, .. } => url@,
        _ => abs_text(cur),
    };
    if stack.len() < 2 {
        cur_url
    } else {
        let p = spec_split(error_url(stack[stack.len() - 2])).0;
        let (c, frag) = spec_split(cur_url);
        if c == p {
            seq!['S', '#'] + frag
        } else {
            cur_url
        }
    }
}

/// The location the alternate listing shows for the innermost error.
fn schema_location(stack: &Vec<&ValidationError>) -> (r: String)
    requires
        stack@.len() > 0,
    ensures
        r@ == schema_location_text(stack@.map_values(|e: &ValidationError| *e)),
{
    let ghost s = stack@.map_values(|e: &ValidationError| *e);
    let cur = stack[stack.len() - 1];
    let cur_url = match &cur.kind {
        ErrorKind::Schema { url } => url.clone(),
        ErrorKind::Reference { url, .. } => url.clone(),
        _ => {
            let a = cur.absolute_keyword_location();
            let t = a.to_string();
            proof {
                assert(t@ =~= abs_text(*cur));
            }
            t
        },
    };
    if stack.len() < 2 {
        return cur_url;
    }
    let prev = stack[stack.len() - 2];
    let prev_url = match &prev.kind {
        ErrorKind::Schema { url } => url.clone(),
        ErrorKind::Reference { url, .. } => url.clone(),
        _ => prev.schema_url.clone(),
    };
    let (p, _) = split(prev_url.as_str());
    let (c, frag) = split(cur_url.as_str());
    if crate::text::str_eq(c.as_str(), p.as_str()) {
        let mut r = String::new();
        push_char(&mut r, 'S');
        push_char(&mut r, '#');
        push_str(&mut r, frag.as_str());
        r
    } else {
        cur_url
    }
}

/// The depth of the causes of an error shown at depth `n`; it saturates
/// at `usize::MAX`.
pub open spec fn deeper(n: nat) -> nat {
    if n < usize::MAX { n + 1 } else { n }
}

/// What precedes the line of an error shown at depth `n`: below the
/// first, a new line indented by the depth and a dash.
pub open spec fn line_start(n: nat) -> Seq<char> {
    if n > 0 { seq!['\n'] + spaces((n - 1) as nat) + seq!['-', ' '] } else { seq![] }
}

/// The line of error `e`: a `Schema` error shows its message, others their
/// instance location, in the alternate form the schema location of the
/// errors shown from the root down to `e` (`stack`), and their message.
pub open spec fn line_text(e: ValidationError, alternate: bool, stack: Seq<ValidationError>) -> Seq<char> {
    match e.kind {
        ErrorKind::Schema { .. } => "jsonschema "@ + crate::messages::spec_message(e.kind),
        _ => "at "@ + spec_quote(tokens_text(e.instance_location.tokens@))
            + (if alternate { " ["@ + schema_location_text(stack) + "]"@ } else { seq![] })
            + ": "@ + crate::messages::spec_message(e.kind),
    }
}

/// The listing of the tree of `e` shown at depth `n` below the errors
/// `stack`: one line for each error that is not skipped, the causes of a
/// shown error one level deeper.
pub open spec fn listing(e: ValidationError, alternate: bool, n: nat, stack: Seq<ValidationError>) -> Seq<char>
    decreases e, 1int,
{
    if spec_skip(e) {
        causes_listing(e.causes@, alternate, n, stack)
    } else {
        let st = if alternate { stack.push(e) } else { stack };
        line_start(n) + line_text(e, alternate, st) + causes_listing(e.causes@, alternate, deeper(n), st)
    }
}

/// The listings of the errors `cs`, one after the other.
pub open spec fn causes_listing(cs: Seq<ValidationError>, alternate: bool, n: nat, stack: Seq<ValidationError>) -> Seq<char>
    decreases cs, 0int,
{
    if cs.len() == 0 {
        seq![]
    } else {
        causes_listing(cs.drop_last(), alternate, n, stack) + listing(cs.last(), alternate, n, stack)
    }
}

/// The errors of a stack of references.
pub open spec fn derefs(s: Seq<&ValidationError>) -> Seq<ValidationError> {
    s.map_values(|x: &ValidationError| *x)
}

/// Appends the listing of the tree of `e` at depth `depth`; in the
/// alternate form `sloc` holds the errors shown above `e`.
fn display_walk<'e>(e: &'e ValidationError, alternate: bool, depth: usize,
    sloc: &mut Vec<&'e ValidationError>, out: &mut String)
    ensures
        final(out)@ == old(out)@ + listing(*e, alternate, depth as nat,
            if alternate { derefs(old(sloc)@) } else { seq![] }),
        alternate ==> final(sloc)@ == old(sloc)@,
    decreases e,
{
    let ghost out0 = out@;
    let ghost stk: Seq<ValidationError> = if alternate { derefs(sloc@) } else { seq![] };
    let skip = e.skip();
    let mut child_depth = depth;
    if !skip {
        if alternate {
            sloc.push(e);
            proof {
                assert(derefs(sloc@) =~= stk.push(*e));
            }
        }
        child_depth = show_line(e, alternate, depth, sloc, out);
    }
    let ghost st: Seq<ValidationError> = if !skip && alternate { stk.push(*e) } else { stk };
    let ghost head: Seq<char> = if skip { seq![] } else { line_start(depth as nat) + line_text(*e, alternate, st) };
    assert(out@ =~= out0 + head);
    assert(child_depth as nat == if skip { depth as nat } else { deeper(depth as nat) });
    let ghost s_after = sloc@;
    assert(!skip && alternate ==> s_after == old(sloc)@.push(e));
    assert(skip || !alternate ==> s_after == old(sloc)@);
    let mut i: usize = 0;
    proof {
        assert(e.causes@.take(0) =~= Seq::<ValidationError>::empty());
    }
    while i < e.causes.len()
        invariant
            i <= e.causes@.len(),
            alternate ==> sloc@ == s_after,
            out@ == out0 + head + causes_listing(e.causes@.take(i as int), alternate, child_depth as nat, st),
            alternate ==> derefs(sloc@) == st,
            !alternate ==> st == Seq::<ValidationError>::empty(),
        decreases e.causes.len() - i,
    {
        proof {
            assert(decreases_to!(*e => e.causes@));
            assert(decreases_to!(e.causes@ => e.causes@[i as int]));
        }
        let ghost before = out@;
        let ghost sb: Seq<ValidationError> = if alternate { derefs(sloc@) } else { seq![] };
        assert(sb == st);
        display_walk(&e.causes[i], alternate, child_depth, sloc, out);
        proof {
            assert(out@ == before + listing(e.causes@[i as int], alternate, child_depth as nat, sb));
            let t = e.causes@.take(i + 1);
            assert(t.drop_last() =~= e.causes@.take(i as int));
            assert(t.last() == e.causes@[i as int]);
            let a = causes_listing(e.causes@.take(i as int), alternate, child_depth as nat, st);
            let b = listing(e.causes@[i as int], alternate, child_depth as nat, st);
            assert(causes_listing(t, alternate, child_depth as nat, st) == a + b);
            assert(out@ =~= out0 + head + (a + b));
        }
        i += 1;
    }
    proof {
        assert(e.causes@.take(e.causes@.len() as int) =~= e.causes@);
    }
    if !skip && alternate {
        let ghost pre = sloc@;
        sloc.pop();
        proof {
            assert(sloc@ =~= pre.drop_last());
            assert(derefs(sloc@) =~= derefs(pre).drop_last());
            assert(derefs(sloc@) =~= stk);
        }
    }
}

/// Appends the line of `e` shown at depth `depth`, in the alternate form
/// with `sloc` the errors shown from the root down to `e`; the depth of
/// its causes is returned.
fn show_line(e: &ValidationError, alternate: bool, depth: usize, sloc: &Vec<&ValidationError>, out: &mut String)
    -> (r: usize)
    requires
        alternate ==> sloc@.len() > 0,
    ensures
        final(out)@ == old(out)@ + line_start(depth as nat) + line_text(*e, alternate,
            if alternate { derefs(sloc@) } else { seq![] }),
        r as nat == deeper(depth as nat),
{
    let ghost out0 = out@;
    let mut ind = Indent { n: depth };
    ind.pre(out);
    proof {
        reveal_strlit("jsonschema ");
        reveal_strlit("at ");
        reveal_strlit(" [");
        reveal_strlit("]");
        reveal_strlit(": ");
    }
    let ghost stk: Seq<ValidationError> = if alternate { derefs(sloc@) } else { seq![] };
    if let ErrorKind::Schema { .. } = &e.kind {
        push_str(out, "jsonschema ");
        push_str(out, e.kind.message().as_str());
        proof {
            assert(out@ =~= out0 + line_start(depth as nat) + line_text(*e, alternate, stk));
        }
    } else {
        let ghost s1 = out@;
        push_str(out, "at ");
        push_str(out, quote(e.instance_location.to_string().as_str()).as_str());
        let ghost s2 = out@;
        if alternate && sloc.len() > 0 {
            push_str(out, " [");
            push_str(out, schema_location(sloc).as_str());
            push_str(out, "]");
        }
        let ghost s3 = out@;
        push_str(out, ": ");
        push_str(out, e.kind.message().as_str());
        proof {
            assert(s3 =~= s2 + (if alternate { " ["@ + schema_location_text(stk) + "]"@ } else { seq![] }));
            assert(out@ =~= out0 + line_start(depth as nat) + line_text(*e, alternate, stk));
        }
    }
    ind.n
}

impl ValidationError {
    /// The listing of the errors: a line for each error that is not
    /// skipped, the causes of each indented one level below it.
    pub fn to_string(&self) -> (r: String)
        ensures
            r@ == listing(*self, false, 0, seq![]),
    {
        let mut out = String::new();
        let mut sloc: Vec<&ValidationError> = Vec::new();
        display_walk(self, false, 0, &mut sloc, &mut out);
        proof {
            assert(out@ =~= Seq::<char>::empty() + listing(*self, false, 0, seq![]));
        }
        out
    }

    /// The listing of the errors in the alternate form, which also shows
    /// where in the schemas each error arose.
    pub fn to_string_alternate(&self) -> (r: String)
        ensures
            r@ == listing(*self, true, 0, seq![]),
    {
        let mut out = String::new();
        let mut sloc: Vec<&ValidationError> = Vec::new();
        proof {
            assert(derefs(sloc@) =~= Seq::<ValidationError>::empty());
        }
        display_walk(self, true, 0, &mut sloc, &mut out);
        proof {
            assert(out@ =~= Seq::<char>::empty() + listing(*self, true, 0, seq![]));
        }
        out
    }
}

} // verus!
