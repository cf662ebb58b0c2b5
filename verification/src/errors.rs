//! Validation errors and the locations they point at.

use vstd::prelude::*;
use crate::json::{JsonNumber, JsonValue, Type};
use crate::schema::Types;
use crate::text::{push_char, push_str};
use crate::text::push_decimal;
use crate::text::spec_decimal;
use crate::util::{escape, spec_escape};

verus! {

/// Token in an instance location json-pointer.
#[derive(Debug, PartialEq, Eq)]
pub enum InstanceToken {
    /// Token for property.
    Prop(String),
    /// Token for array item.
    Item(usize),
}

impl InstanceToken {
    /// A copy of the token.
    pub fn clone_token(&self) -> (r: InstanceToken)
        ensures
            same_token(r, *self),
    {
        match self {
            InstanceToken::Prop(p) => InstanceToken::Prop(p.clone()),
            InstanceToken::Item(i) => InstanceToken::Item(*i),
        }
    }
}

/// Two tokens hold the same property name or the same index.
pub open spec fn same_token(a: InstanceToken, b: InstanceToken) -> bool {
    match (a, b) {
        (InstanceToken::Prop(x), InstanceToken::Prop(y)) => x@ == y@,
        (InstanceToken::Item(x), InstanceToken::Item(y)) => x == y,
        _ => false,
    }
}

/// Two token sequences agree token by token.
pub open spec fn same_tokens(a: Seq<InstanceToken>, b: Seq<InstanceToken>) -> bool {
    a.len() == b.len() && forall|i: int| 0 <= i < a.len() ==> same_token(#[trigger] a[i], b[i])
}

/// The json-pointer text of a token: `/` and the escaped name or index.
pub open spec fn token_text(t: InstanceToken) -> Seq<char> {
    match t {
        InstanceToken::Prop(p) => seq!['/'] + spec_escape(p@),
        InstanceToken::Item(i) => seq!['/'] + spec_decimal(i as nat),
    }
}

/// The json-pointer text of a token sequence.
pub open spec fn tokens_text(t: Seq<InstanceToken>) -> Seq<char>
    decreases t.len(),
{
    if t.len() == 0 {
        seq![]
    } else {
        tokens_text(t.drop_last()) + token_text(t.last())
    }
}

/// The location of the JSON value within the instance being validated.
#[derive(Debug, PartialEq, Eq)]
pub struct InstanceLocation {
    pub tokens: Vec<InstanceToken>,
}

impl InstanceLocation {
    /// The location of the instance itself.
    pub fn new() -> (r: InstanceLocation)
        ensures
            r.tokens@.len() == 0,
    {
        InstanceLocation { tokens: Vec::new() }
    }

    /// The location with every token owned; tokens here always own their
    /// names, so this is the location itself.
    pub fn clone_static(self) -> (r: InstanceLocation)
        ensures
            r.tokens@ == self.tokens@,
    {
        self
    }

    /// The location as a json-pointer.
    pub fn to_string(&self) -> (r: String)
        ensures
            r@ == tokens_text(self.tokens@),
    {
        let mut s = String::new();
        let mut i: usize = 0;
        proof {
            assert(self.tokens@.take(0) =~= Seq::<InstanceToken>::empty());
        }
        while i < self.tokens.len()
            invariant
                i <= self.tokens@.len(),
                s@ == tokens_text(self.tokens@.take(i as int)),
            decreases self.tokens.len() - i,
        {
            proof {
                assert(self.tokens@.take(i + 1).drop_last() =~= self.tokens@.take(i as int));
            }
            push_char(&mut s, '/');
            match &self.tokens[i] {
                InstanceToken::Prop(p) => {
                    let e = escape(p.as_str());
                    push_str(&mut s, e.as_str());
                },
                InstanceToken::Item(k) => {
                    push_decimal(&mut s, *k);
                },
            }
            proof {
                assert(s@ =~= tokens_text(self.tokens@.take(i + 1)));
            }
            i += 1;
        }
        proof {
            assert(self.tokens@.take(self.tokens@.len() as int) =~= self.tokens@);
        }
        s
    }
}

/// A list specifying general categories of validation errors.
#[derive(Debug)]
pub enum ErrorKind {
    Group,
    Schema { url: String },
    ContentSchema,
    PropertyName { prop: String },
    Reference { kw: String, url: String },
    RefCycle { url: String, kw_loc1: String, kw_loc2: String },
    FalseSchema,
    Type { got: Type, want: Types },
    Enum { want: Vec<JsonValue> },
    Const { want: JsonValue },
    Format { got: JsonValue, want: String, err: String },
    MinProperties { got: usize, want: usize },
    MaxProperties { got: usize, want: usize },
    AdditionalProperties { got: Vec<String> },
    Required { want: Vec<String> },
    Dependency { prop: String, missing: Vec<String> },
    DependentRequired { prop: String, missing: Vec<String> },
    MinItems { got: usize, want: usize },
    MaxItems { got: usize, want: usize },
    Contains,
    MinContains { got: Vec<usize>, want: usize },
    MaxContains { got: Vec<usize>, want: usize },
    UniqueItems { got: (usize, usize) },
    AdditionalItems { got: usize },
    MinLength { got: usize, want: usize },
    MaxLength { got: usize, want: usize },
    Pattern { got: String, want: String },
    ContentEncoding { want: String, err: String },
    ContentMediaType { got: Vec<u8>, want: String, err: String },
    Minimum { got: JsonNumber, want: JsonNumber },
    Maximum { got: JsonNumber, want: JsonNumber },
    ExclusiveMinimum { got: JsonNumber, want: JsonNumber },
    ExclusiveMaximum { got: JsonNumber, want: JsonNumber },
    MultipleOf { got: JsonNumber, want: JsonNumber },
    Not,
    AllOf,
    AnyOf,
    OneOf(Option<(usize, usize)>),
}

/// Error type for validation failures.
#[derive(Debug)]
pub struct ValidationError {
    /// The absolute, dereferenced schema location.
    pub schema_url: String,
    /// The location of the JSON value within the instance being validated.
    pub instance_location: InstanceLocation,
    /// The kind of error.
    pub kind: ErrorKind,
    /// Holds nested errors.
    pub causes: Vec<ValidationError>,
}

impl ErrorKind {
    /// The kind with all its data owned; a kind here always owns its data,
    /// so this is the kind itself.
    pub fn clone_static(self) -> (r: ErrorKind)
        ensures
            r == self,
    {
        self
    }
}

impl ValidationError {
    /// The error with all its data owned; errors here always own their
    /// data, so this is the error itself.
    pub fn clone_static(self) -> (r: ValidationError)
        ensures
            r == self,
    {
        self
    }
}

} // verus!

verus! {

/// Error type for compilation failures.
#[derive(Debug)]
pub enum CompileError {
    /// Error in parsing `url`.
    ParseUrlError { url: String, src: String },
    /// Failed loading `url`.
    LoadUrlError { url: String, src: String },
    /// No loader registered for the scheme of `url`.
    UnsupportedUrlScheme { url: String },
    /// Error in parsing `$schema` url.
    InvalidMetaSchemaUrl { url: String, src: String },
    /// Draft `url` is not supported.
    UnsupportedDraft { url: String },
    /// Cycle in resolving `$schema` in `url`.
    MetaSchemaCycle { url: String },
    /// `url` is not valid against metaschema.
    ValidationError { url: String, src: ValidationError },
    /// Error in parsing id at `loc`.
    ParseIdError { loc: String },
    /// Error in parsing anchor at `loc`.
    ParseAnchorError { loc: String },
    /// Duplicate id `id` in `url` at `ptr1` and `ptr2`.
    DuplicateId { url: String, id: String, ptr1: String, ptr2: String },
    /// Duplicate anchor `anchor` in `url` at `ptr1` and `ptr2`.
    DuplicateAnchor { anchor: String, url: String, ptr1: String, ptr2: String },
    /// Not a valid json pointer.
    InvalidJsonPointer(String),
    /// JsonPointer evaluated to nothing.
    JsonPointerNotFound(String),
    /// Anchor in `reference` not found in `url`.
    AnchorNotFound { url: String, reference: String },
    /// Unsupported vocabulary `vocabulary` in `url`.
    UnsupprtedVocabulary { url: String, vocabulary: String },
    /// Invalid regex `regex` at `url`.
    InvalidRegex { url: String, regex: String, src: String },
    /// Encountered bug in compiler implementation.
    Bug(String),
}

} // verus!
