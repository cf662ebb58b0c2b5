//! The messages that describe validation errors.

use vstd::prelude::*;
use crate::errors::{CompileError, ErrorKind};
use crate::output::spec_skip;
use crate::json::{JsonValue, Type, push_json_text, spec_json_text, spec_type_str};
use crate::schema::Types;
use crate::text::{push_char, push_decimal, push_str, spec_decimal};
use crate::util::{debug_str, quote, spec_debug_str, spec_join, spec_quote};

verus! {

/// `items` quoted one by one and separated by `sep`.
pub open spec fn quoted_join(items: Seq<String>, sep: Seq<char>) -> Seq<char> {
    spec_join(items.map_values(|s: String| spec_quote(s@)), sep)
}

/// The decimal renderings of `items` separated by `sep`.
pub open spec fn numbers_join(items: Seq<usize>, sep: Seq<char>) -> Seq<char> {
    spec_join(items.map_values(|i: usize| spec_decimal(i as nat)), sep)
}

/// The names of the types of `ts`, in declaration order, separated by
/// `, `.
pub open spec fn types_text(ts: Types) -> Seq<char> {
    spec_join(ts.members().map_values(|t: Type| spec_type_str(t)), ", "@)
}

/// The `Debug` rendering of a primitive value: `Null`, `Bool(true)`,
/// `Number(1)`, `String("a")`.
pub open spec fn debug_value(v: JsonValue) -> Seq<char> {
    match v {
        JsonValue::Null => "Null"@,
        JsonValue::Bool(b) => "Bool("@ + (if b { "true"@ } else { "false"@ }) + ")"@,
        JsonValue::Number(n) => "Number("@ + n.text@ + ")"@,
        JsonValue::String(s) => "String("@ + spec_debug_str(s@) + ")"@,
        _ => spec_json_text(v),
    }
}

/// Whether every value is a primitive (neither array nor object).
pub open spec fn all_primitive(vs: Seq<JsonValue>) -> bool {
    forall|i: int| 0 <= i < vs.len() ==> !((#[trigger] vs[i]) is Array || vs[i] is Object)
}

/// The message of an `enum` failure.
pub open spec fn enum_message(want: Seq<JsonValue>) -> Seq<char> {
    if all_primitive(want) {
        if want.len() == 1 {
            "value must be ["@ + debug_value(want[0]) + "]"@
        } else {
            "value must be one of "@ + spec_join(want.map_values(|v: JsonValue| debug_value(v)), " or "@)
        }
    } else {
        "enum failed"@
    }
}

/// The message that describes an error of kind `k`.
pub open spec fn spec_message(k: ErrorKind) -> Seq<char> {
    match k {
        ErrorKind::Group => "validation failed"@,
        ErrorKind::Schema { url } => "validation failed with "@ + url@,
        ErrorKind::ContentSchema => "contentSchema failed"@,
        ErrorKind::PropertyName { prop } => "invalid property "@ + spec_quote(prop@),
        ErrorKind::Reference { url, .. } => "validation failed with "@ + url@,
        ErrorKind::RefCycle { url, kw_loc1, kw_loc2 } => "both "@ + spec_quote(kw_loc1@) + " and "@
            + spec_quote(kw_loc2@) + " resolve to "@ + url@ + " causing reference cycle"@,
        ErrorKind::FalseSchema => "false schema"@,
        ErrorKind::Type { got, want } => "want "@ + types_text(want) + ", but got "@ + spec_type_str(got),
        ErrorKind::Enum { want } => enum_message(want@),
        ErrorKind::Const { want } => if !(want is Array || want is Object) {
            "value must be "@ + spec_json_text(want)
        } else {
            "const failed"@
        },
        ErrorKind::Format { got, want, err } => spec_json_text(got) + " is not valid "@ + want@ + ": "@ + err@,
        ErrorKind::MinProperties { got, want } => "minimum "@ + spec_decimal(want as nat)
            + " properties required, but got "@ + spec_decimal(got as nat) + " properties"@,
        ErrorKind::MaxProperties { got, want } => "maximum "@ + spec_decimal(want as nat)
            + " properties required, but got "@ + spec_decimal(got as nat) + " properties"@,
        ErrorKind::AdditionalProperties { got } => "additionalProperties "@ + quoted_join(got@, ", "@)
            + " not allowed"@,
        ErrorKind::Required { want } => "missing properties "@ + quoted_join(want@, ", "@),
        ErrorKind::Dependency { prop, missing } => "properties "@ + quoted_join(missing@, ", "@)
            + " required, if "@ + spec_quote(prop@) + " property exists"@,
        ErrorKind::DependentRequired { prop, missing } => "properties "@ + quoted_join(missing@, ", "@)
            + " required, if "@ + spec_quote(prop@) + " property exists"@,
        ErrorKind::MinItems { got, want } => "minimum "@ + spec_decimal(want as nat)
            + " items required, but got "@ + spec_decimal(got as nat) + " items"@,
        ErrorKind::MaxItems { got, want } => "maximum "@ + spec_decimal(want as nat)
            + " items required, but got "@ + spec_decimal(got as nat) + " items"@,
        ErrorKind::Contains => "no items match contains schema"@,
        ErrorKind::MinContains { got, want } => if got@.len() == 0 {
            "minimum "@ + spec_decimal(want as nat) + " items required to match contains schema, but found none"@
        } else {
            "minimum "@ + spec_decimal(want as nat) + " items required to match contains schema, but found "@
                + spec_decimal(got@.len()) + " items at "@ + numbers_join(got@, ", "@)
        },
        ErrorKind::MaxContains { got, want } => "maximum "@ + spec_decimal(want as nat)
            + " items required to match contains schema, but found "@ + spec_decimal(got@.len()) + " items at "@
            + numbers_join(got@, ", "@),
        ErrorKind::UniqueItems { got } => "items at "@ + spec_decimal(got.0 as nat) + " and "@
            + spec_decimal(got.1 as nat) + " are equal"@,
        ErrorKind::AdditionalItems { got } => "got "@ + spec_decimal(got as nat) + " additionalItems"@,
        ErrorKind::MinLength { got, want } => "length must be >="@ + spec_decimal(want as nat) + ", but got "@
            + spec_decimal(got as nat),
        ErrorKind::MaxLength { got, want } => "length must be <="@ + spec_decimal(want as nat) + ", but got "@
            + spec_decimal(got as nat),
        ErrorKind::Pattern { got, want } => spec_quote(got@) + " does not match pattern "@ + spec_quote(want@),
        ErrorKind::ContentEncoding { want, err } => "value is not "@ + spec_quote(want@) + " encoded: "@ + err@,
        ErrorKind::ContentMediaType { want, err, .. } => "value is not of mediatype "@ + spec_quote(want@)
            + ": "@ + err@,
        ErrorKind::Minimum { got, want } => "must be >="@ + want.text@ + ", but got "@ + got.text@,
        ErrorKind::Maximum { got, want } => "must be <="@ + want.text@ + ", but got "@ + got.text@,
        ErrorKind::ExclusiveMinimum { got, want } => "must be > "@ + want.text@ + " but got "@ + got.text@,
        ErrorKind::ExclusiveMaximum { got, want } => "must be < "@ + want.text@ + " but got "@ + got.text@,
        ErrorKind::MultipleOf { got, want } => got.text@ + " is not multipleOf "@ + want.text@,
        ErrorKind::Not => "not failed"@,
        ErrorKind::AllOf => "allOf failed"@,
        ErrorKind::AnyOf => "anyOf failed, none matched"@,
        ErrorKind::OneOf(got) => match got {
            None => "oneOf failed, none matched"@,
            Some((i, j)) => "want valid against oneOf subschema, but valid against subschemas "@
                + spec_decimal(i as nat) + " and "@ + spec_decimal(j as nat),
        },
    }
}

/// Appends `items`, quoted one by one and separated by `sep`.
fn push_quoted_join(out: &mut String, items: &Vec<String>, sep: &str)
    ensures
        final(out)@ == old(out)@ + quoted_join(items@, sep@),
{
    let ghost views = items@.map_values(|s: String| spec_quote(s@));
    let ghost start = out@;
    let mut i: usize = 0;
    proof {
        assert(views.take(0) =~= Seq::<Seq<char>>::empty());
        assert(start + Seq::<char>::empty() =~= start);
    }
    while i < items.len()
        invariant
            i <= items@.len(),
            views == items@.map_values(|s: String| spec_quote(s@)),
            out@ == start + spec_join(views.take(i as int), sep@),
        decreases items.len() - i,
    {
        if i > 0 {
            push_str(out, sep);
        }
        let q = quote(items[i].as_str());
        push_str(out, q.as_str());
        proof {
            assert(views.take(i + 1).drop_last() =~= views.take(i as int));
            assert(views.take(i + 1).last() == views[i as int]);
            if i == 0 {
                assert(out@ =~= start + views[0]);
            }
            assert(out@ =~= start + spec_join(views.take(i + 1), sep@));
        }
        i += 1;
    }
    proof {
        assert(views.take(items@.len() as int) =~= views);
    }
}

/// Appends the decimal renderings of `items` separated by `sep`.
fn push_numbers_join(out: &mut String, items: &Vec<usize>, sep: &str)
    ensures
        final(out)@ == old(out)@ + numbers_join(items@, sep@),
{
    let ghost views = items@.map_values(|i: usize| spec_decimal(i as nat));
    let ghost start = out@;
    let mut i: usize = 0;
    proof {
        assert(views.take(0) =~= Seq::<Seq<char>>::empty());
        assert(start + Seq::<char>::empty() =~= start);
    }
    while i < items.len()
        invariant
            i <= items@.len(),
            views == items@.map_values(|i: usize| spec_decimal(i as nat)),
            out@ == start + spec_join(views.take(i as int), sep@),
        decreases items.len() - i,
    {
        if i > 0 {
            push_str(out, sep);
        }
        push_decimal(out, items[i]);
        proof {
            assert(views.take(i + 1).drop_last() =~= views.take(i as int));
            assert(views.take(i + 1).last() == views[i as int]);
            if i == 0 {
                assert(out@ =~= start + views[0]);
            }
            assert(out@ =~= start + spec_join(views.take(i + 1), sep@));
        }
        i += 1;
    }
    proof {
        assert(views.take(items@.len() as int) =~= views);
    }
}

/// Appends the names of the types of `ts` separated by `, `.
fn push_types(out: &mut String, ts: &Types)
    ensures
        final(out)@ == old(out)@ + types_text(*ts),
{
    let list = ts.to_vec();
    let ghost views = list@.map_values(|t: Type| spec_type_str(t));
    let ghost start = out@;
    let mut i: usize = 0;
    proof {
        assert(views.take(0) =~= Seq::<Seq<char>>::empty());
        assert(start + Seq::<char>::empty() =~= start);
        reveal_strlit(", ");
    }
    while i < list.len()
        invariant
            i <= list@.len(),
            views == list@.map_values(|t: Type| spec_type_str(t)),
            out@ == start + spec_join(views.take(i as int), ", "@),
        decreases list.len() - i,
    {
        if i > 0 {
            push_str(out, ", ");
        }
        let name = list[i].to_string();
        push_str(out, name.as_str());
        proof {
            assert(views.take(i + 1).drop_last() =~= views.take(i as int));
            assert(views.take(i + 1).last() == views[i as int]);
            if i == 0 {
                assert(out@ =~= start + views[0]);
            }
            assert(out@ =~= start + spec_join(views.take(i + 1), ", "@));
        }
        i += 1;
    }
    proof {
        assert(views.take(list@.len() as int) =~= views);
    }
}

/// Appends the `Debug` rendering of a primitive value (see `debug_value`).
fn push_debug_value(out: &mut String, v: &JsonValue)
    ensures
        final(out)@ == old(out)@ + debug_value(*v),
{
    proof {
        reveal_strlit("Null");
        reveal_strlit("Bool(");
        reveal_strlit("true");
        reveal_strlit("false");
        reveal_strlit(")");
        reveal_strlit("Number(");
        reveal_strlit("String(");
    }
    match v {
        JsonValue::Null => push_str(out, "Null"),
        JsonValue::Bool(b) => {
            push_str(out, "Bool(");
            if *b {
                push_str(out, "true");
            } else {
                push_str(out, "false");
            }
            push_str(out, ")");
        },
        JsonValue::Number(n) => {
            push_str(out, "Number(");
            push_str(out, n.text.as_str());
            push_str(out, ")");
        },
        JsonValue::String(s) => {
            push_str(out, "String(");
            let d = debug_str(s.as_str());
            push_str(out, d.as_str());
            push_str(out, ")");
        },
        _ => push_json_text(out, v),
    }
}

/// Whether every value is a primitive.
fn all_primitive_exec(vs: &Vec<JsonValue>) -> (r: bool)
    ensures
        r == all_primitive(vs@),
{
    let mut i: usize = 0;
    while i < vs.len()
        invariant
            i <= vs@.len(),
            forall|k: int| 0 <= k < i ==> !((#[trigger] vs@[k]) is Array || vs@[k] is Object),
        decreases vs.len() - i,
    {
        match &vs[i] {
            JsonValue::Array(_) | JsonValue::Object(_) => {
                return false;
            },
            _ => {},
        }
        i += 1;
    }
    true
}

/// Appends the message of an `enum` failure.
fn push_enum_message(out: &mut String, want: &Vec<JsonValue>)
    ensures
        final(out)@ == old(out)@ + enum_message(want@),
{
    proof {
        reveal_strlit("value must be [");
        reveal_strlit("]");
        reveal_strlit("value must be one of ");
        reveal_strlit(" or ");
        reveal_strlit("enum failed");
    }
    if all_primitive_exec(want) {
        if want.len() == 1 {
            push_str(out, "value must be [");
            push_debug_value(out, &want[0]);
            push_str(out, "]");
        } else {
            push_str(out, "value must be one of ");
            let ghost views = want@.map_values(|v: JsonValue| debug_value(v));
            let ghost start = out@;
            let mut i: usize = 0;
            proof {
                assert(views.take(0) =~= Seq::<Seq<char>>::empty());
                assert(start + Seq::<char>::empty() =~= start);
            }
            while i < want.len()
                invariant
                    i <= want@.len(),
                    views == want@.map_values(|v: JsonValue| debug_value(v)),
                    out@ == start + spec_join(views.take(i as int), " or "@),
                decreases want.len() - i,
            {
                if i > 0 {
                    push_str(out, " or ");
                }
                push_debug_value(out, &want[i]);
                proof {
                    assert(views.take(i + 1).drop_last() =~= views.take(i as int));
                    assert(views.take(i + 1).last() == views[i as int]);
                    if i == 0 {
                        assert(out@ =~= start + views[0]);
                    }
                    assert(out@ =~= start + spec_join(views.take(i + 1), " or "@));
                }
                i += 1;
            }
            proof {
                assert(views.take(want@.len() as int) =~= views);
            }
        }
    } else {
        push_str(out, "enum failed");
    }
}

} // verus!

verus! {

impl ErrorKind {
    /// The message that describes the error.
    pub fn message(&self) -> (r: String)
        ensures
            r@ == spec_message(*self),
    {
        let mut out = String::new();
        proof {
            assert(out@ =~= Seq::<char>::empty());
        }
        match self {
            ErrorKind::Group => push_str(&mut out, "validation failed"),
            ErrorKind::Schema { url } => {
                push_str(&mut out, "validation failed with ");
                push_str(&mut out, url.as_str());
            },
            ErrorKind::ContentSchema => push_str(&mut out, "contentSchema failed"),
            ErrorKind::PropertyName { prop } => {
                push_str(&mut out, "invalid property ");
                push_str(&mut out, quote(prop.as_str()).as_str());
            },
            ErrorKind::Reference { url, .. } => {
                push_str(&mut out, "validation failed with ");
                push_str(&mut out, url.as_str());
            },
            ErrorKind::RefCycle { url, kw_loc1, kw_loc2 } => {
                push_str(&mut out, "both ");
                push_str(&mut out, quote(kw_loc1.as_str()).as_str());
                push_str(&mut out, " and ");
                push_str(&mut out, quote(kw_loc2.as_str()).as_str());
                push_str(&mut out, " resolve to ");
                push_str(&mut out, url.as_str());
                push_str(&mut out, " causing reference cycle");
            },
            ErrorKind::FalseSchema => push_str(&mut out, "false schema"),
            ErrorKind::Type { got, want } => {
                push_str(&mut out, "want ");
                push_types(&mut out, want);
                push_str(&mut out, ", but got ");
                push_str(&mut out, got.to_string().as_str());
            },
            ErrorKind::Enum { want } => push_enum_message(&mut out, want),
            ErrorKind::Const { want } => {
                match want {
                    JsonValue::Array(_) | JsonValue::Object(_) => push_str(&mut out, "const failed"),
                    _ => {
                        push_str(&mut out, "value must be ");
                        push_json_text(&mut out, want);
                    },
                }
            },
            ErrorKind::Format { got, want, err } => {
                push_json_text(&mut out, got);
                push_str(&mut out, " is not valid ");
                push_str(&mut out, want.as_str());
                push_str(&mut out, ": ");
                push_str(&mut out, err.as_str());
            },
            ErrorKind::MinProperties { got, want } => {
                push_str(&mut out, "minimum ");
                push_decimal(&mut out, *want);
                push_str(&mut out, " properties required, but got ");
                push_decimal(&mut out, *got);
                push_str(&mut out, " properties");
            },
            ErrorKind::MaxProperties { got, want } => {
                push_str(&mut out, "maximum ");
                push_decimal(&mut out, *want);
                push_str(&mut out, " properties required, but got ");
                push_decimal(&mut out, *got);
                push_str(&mut out, " properties");
            },
            ErrorKind::AdditionalProperties { got } => {
                push_str(&mut out, "additionalProperties ");
                push_quoted_join(&mut out, got, ", ");
                push_str(&mut out, " not allowed");
            },
            ErrorKind::Required { want } => {
                push_str(&mut out, "missing properties ");
                push_quoted_join(&mut out, want, ", ");
            },
            ErrorKind::Dependency { prop, missing } => {
                push_str(&mut out, "properties ");
                push_quoted_join(&mut out, missing, ", ");
                push_str(&mut out, " required, if ");
                push_str(&mut out, quote(prop.as_str()).as_str());
                push_str(&mut out, " property exists");
            },
            ErrorKind::DependentRequired { prop, missing } => {
                push_str(&mut out, "properties ");
                push_quoted_join(&mut out, missing, ", ");
                push_str(&mut out, " required, if ");
                push_str(&mut out, quote(prop.as_str()).as_str());
                push_str(&mut out, " property exists");
            },
            ErrorKind::MinItems { got, want } => {
                push_str(&mut out, "minimum ");
                push_decimal(&mut out, *want);
                push_str(&mut out, " items required, but got ");
                push_decimal(&mut out, *got);
                push_str(&mut out, " items");
            },
            ErrorKind::MaxItems { got, want } => {
                push_str(&mut out, "maximum ");
                push_decimal(&mut out, *want);
                push_str(&mut out, " items required, but got ");
                push_decimal(&mut out, *got);
                push_str(&mut out, " items");
            },
            ErrorKind::Contains => push_str(&mut out, "no items match contains schema"),
            ErrorKind::MinContains { got, want } => {
                push_str(&mut out, "minimum ");
                push_decimal(&mut out, *want);
                if got.len() == 0 {
                    push_str(&mut out, " items required to match contains schema, but found none");
                } else {
                    push_str(&mut out, " items required to match contains schema, but found ");
                    push_decimal(&mut out, got.len());
                    push_str(&mut out, " items at ");
                    push_numbers_join(&mut out, got, ", ");
                }
            },
            ErrorKind::MaxContains { got, want } => {
                push_str(&mut out, "maximum ");
                push_decimal(&mut out, *want);
                push_str(&mut out, " items required to match contains schema, but found ");
                push_decimal(&mut out, got.len());
                push_str(&mut out, " items at ");
                push_numbers_join(&mut out, got, ", ");
            },
            ErrorKind::UniqueItems { got } => {
                push_str(&mut out, "items at ");
                push_decimal(&mut out, got.0);
                push_str(&mut out, " and ");
                push_decimal(&mut out, got.1);
                push_str(&mut out, " are equal");
            },
            ErrorKind::AdditionalItems { got } => {
                push_str(&mut out, "got ");
                push_decimal(&mut out, *got);
                push_str(&mut out, " additionalItems");
            },
            ErrorKind::MinLength { got, want } => {
                push_str(&mut out, "length must be >=");
                push_decimal(&mut out, *want);
                push_str(&mut out, ", but got ");
                push_decimal(&mut out, *got);
            },
            ErrorKind::MaxLength { got, want } => {
                push_str(&mut out, "length must be <=");
                push_decimal(&mut out, *want);
                push_str(&mut out, ", but got ");
                push_decimal(&mut out, *got);
            },
            ErrorKind::Pattern { got, want } => {
                push_str(&mut out, quote(got.as_str()).as_str());
                push_str(&mut out, " does not match pattern ");
                push_str(&mut out, quote(want.as_str()).as_str());
            },
            ErrorKind::ContentEncoding { want, err } => {
                push_str(&mut out, "value is not ");
                push_str(&mut out, quote(want.as_str()).as_str());
                push_str(&mut out, " encoded: ");
                push_str(&mut out, err.as_str());
            },
            ErrorKind::ContentMediaType { want, err, .. } => {
                push_str(&mut out, "value is not of mediatype ");
                push_str(&mut out, quote(want.as_str()).as_str());
                push_str(&mut out, ": ");
                push_str(&mut out, err.as_str());
            },
            ErrorKind::Minimum { got, want } => {
                push_str(&mut out, "must be >=");
                push_str(&mut out, want.text.as_str());
                push_str(&mut out, ", but got ");
                push_str(&mut out, got.text.as_str());
            },
            ErrorKind::Maximum { got, want } => {
                push_str(&mut out, "must be <=");
                push_str(&mut out, want.text.as_str());
                push_str(&mut out, ", but got ");
                push_str(&mut out, got.text.as_str());
            },
            ErrorKind::ExclusiveMinimum { got, want } => {
                push_str(&mut out, "must be > ");
                push_str(&mut out, want.text.as_str());
                push_str(&mut out, " but got ");
                push_str(&mut out, got.text.as_str());
            },
            ErrorKind::ExclusiveMaximum { got, want } => {
                push_str(&mut out, "must be < ");
                push_str(&mut out, want.text.as_str());
                push_str(&mut out, " but got ");
                push_str(&mut out, got.text.as_str());
            },
            ErrorKind::MultipleOf { got, want } => {
                push_str(&mut out, got.text.as_str());
                push_str(&mut out, " is not multipleOf ");
                push_str(&mut out, want.text.as_str());
            },
            ErrorKind::Not => push_str(&mut out, "not failed"),
            ErrorKind::AllOf => push_str(&mut out, "allOf failed"),
            ErrorKind::AnyOf => push_str(&mut out, "anyOf failed, none matched"),
            ErrorKind::OneOf(got) => {
                match got {
                    None => push_str(&mut out, "oneOf failed, none matched"),
                    Some((i, j)) => {
                        push_str(&mut out, "want valid against oneOf subschema, but valid against subschemas ");
                        push_decimal(&mut out, *i);
                        push_str(&mut out, " and ");
                        push_decimal(&mut out, *j);
                    },
                }
            },
        }
        proof {
            assert(out@ =~= spec_message(*self));
        }
        out
    }
}


/// The message that describes a compilation failure; `alternate` adds
/// the underlying cause where there is one (for a failed metaschema check,
/// the listing of the validation errors).
pub open spec fn spec_compile_message(e: CompileError, alternate: bool) -> Seq<char> {
    match e {
        CompileError::ParseUrlError { url, src } =>
            if alternate { "error parsing url "@ + url@ + ": "@ + src@ } else { "error parsing "@ + url@ },
        CompileError::LoadUrlError { url, src } =>
            if alternate { "error loading "@ + url@ + ": "@ + src@ } else { "error loading "@ + url@ },
        CompileError::UnsupportedUrlScheme { url } => "unsupported scheme in "@ + url@,
        CompileError::InvalidMetaSchemaUrl { url, src } =>
            if alternate { "invalid $schema in "@ + url@ + ": "@ + src@ } else { "invalid $schema in "@ + url@ },
        CompileError::UnsupportedDraft { url } => "draft "@ + url@ + " is unsupported"@,
        CompileError::MetaSchemaCycle { url } => "cycle in resolving $schema in "@ + url@,
        CompileError::ValidationError { url, src } =>
            if alternate {
                url@ + " is not valid against metaschema: "@ + crate::output::listing(src, false, 0, seq![])
            } else {
                url@ + " is not valid against metaschema"@
            },
        CompileError::ParseIdError { loc } => "error in parsing id at "@ + loc@,
        CompileError::ParseAnchorError { loc } => "error in parsing anchor at "@ + loc@,
        CompileError::DuplicateId { url, id, ptr1, ptr2 } =>
            "duplicate $id "@ + id@ + " in "@ + url@ + " at "@ + spec_debug_str(ptr1@) + " and "@ + spec_debug_str(ptr2@),
        CompileError::DuplicateAnchor { anchor, url, ptr1, ptr2 } =>
            "duplicate anchor "@ + spec_debug_str(anchor@) + " in "@ + url@ + " at "@ + spec_debug_str(ptr1@) + " and "@ + spec_debug_str(ptr2@),
        CompileError::InvalidJsonPointer(loc) => "invalid json-pointer "@ + loc@,
        CompileError::JsonPointerNotFound(loc) => "json-pointer in "@ + loc@ + " not found"@,
        CompileError::AnchorNotFound { url, reference } =>
            "anchor in reference "@ + reference@ + " is not found in schema "@ + url@,
        CompileError::UnsupprtedVocabulary { url, vocabulary } =>
            "unsupported vocabulary "@ + vocabulary@ + " in "@ + url@,
        CompileError::InvalidRegex { url, regex, src } =>
            if alternate { "invalid regex "@ + spec_quote(regex@) + " at "@ + url@ + ": "@ + src@ }
            else { "invalid regex "@ + spec_quote(regex@) + " at "@ + url@ },
        CompileError::Bug(src) => "encountered bug in jsonschema compiler. please report: "@ + src@,
    }
}

impl CompileError {
    /// The message that describes the failure; with `alternate`, the
    /// underlying cause follows where there is one.
    pub fn message(&self, alternate: bool) -> (r: String)
        ensures
            r@ == spec_compile_message(*self, alternate),
    {
        let mut out = String::new();
        proof {
            assert(out@ =~= Seq::<char>::empty());
        }
        match self {
            CompileError::ParseUrlError { url, src } => {
                if alternate {
                    push_str(&mut out, "error parsing url ");
                    push_str(&mut out, url.as_str());
                    push_str(&mut out, ": ");
                    push_str(&mut out, src.as_str());
                } else {
                    push_str(&mut out, "error parsing ");
                    push_str(&mut out, url.as_str());
                }
            },
            CompileError::LoadUrlError { url, src } => {
                if alternate {
                    push_str(&mut out, "error loading ");
                    push_str(&mut out, url.as_str());
                    push_str(&mut out, ": ");
                    push_str(&mut out, src.as_str());
                } else {
                    push_str(&mut out, "error loading ");
                    push_str(&mut out, url.as_str());
                }
            },
            CompileError::UnsupportedUrlScheme { url } => {
                push_str(&mut out, "unsupported scheme in ");
                push_str(&mut out, url.as_str());
            },
            CompileError::InvalidMetaSchemaUrl { url, src } => {
                push_str(&mut out, "invalid $schema in ");
                push_str(&mut out, url.as_str());
                if alternate {
                    push_str(&mut out, ": ");
                    push_str(&mut out, src.as_str());
                }
            },
            CompileError::UnsupportedDraft { url } => {
                push_str(&mut out, "draft ");
                push_str(&mut out, url.as_str());
                push_str(&mut out, " is unsupported");
            },
            CompileError::MetaSchemaCycle { url } => {
                push_str(&mut out, "cycle in resolving $schema in ");
                push_str(&mut out, url.as_str());
            },
            CompileError::ValidationError { url, src } => {
                push_str(&mut out, url.as_str());
                if alternate {
                    push_str(&mut out, " is not valid against metaschema: ");
                    let ghost head = out@;
                    let listing = src.to_string();
                    push_str(&mut out, listing.as_str());
                    proof {
                        assert(out@.take(head.len() as int) =~= head);
                        assert(out@.skip(head.len() as int) =~= listing@);
                    }
                } else {
                    push_str(&mut out, " is not valid against metaschema");
                }
            },
            CompileError::ParseIdError { loc } => {
                push_str(&mut out, "error in parsing id at ");
                push_str(&mut out, loc.as_str());
            },
            CompileError::ParseAnchorError { loc } => {
                push_str(&mut out, "error in parsing anchor at ");
                push_str(&mut out, loc.as_str());
            },
            CompileError::DuplicateId { url, id, ptr1, ptr2 } => {
                push_str(&mut out, "duplicate $id ");
                push_str(&mut out, id.as_str());
                push_str(&mut out, " in ");
                push_str(&mut out, url.as_str());
                push_str(&mut out, " at ");
                push_str(&mut out, debug_str(ptr1.as_str()).as_str());
                push_str(&mut out, " and ");
                push_str(&mut out, debug_str(ptr2.as_str()).as_str());
            },
            CompileError::DuplicateAnchor { anchor, url, ptr1, ptr2 } => {
                push_str(&mut out, "duplicate anchor ");
                push_str(&mut out, debug_str(anchor.as_str()).as_str());
                push_str(&mut out, " in ");
                push_str(&mut out, url.as_str());
                push_str(&mut out, " at ");
                push_str(&mut out, debug_str(ptr1.as_str()).as_str());
                push_str(&mut out, " and ");
                push_str(&mut out, debug_str(ptr2.as_str()).as_str());
            },
            CompileError::InvalidJsonPointer(loc) => {
                push_str(&mut out, "invalid json-pointer ");
                push_str(&mut out, loc.as_str());
            },
            CompileError::JsonPointerNotFound(loc) => {
                push_str(&mut out, "json-pointer in ");
                push_str(&mut out, loc.as_str());
                push_str(&mut out, " not found");
            },
            CompileError::AnchorNotFound { url, reference } => {
                push_str(&mut out, "anchor in reference ");
                push_str(&mut out, reference.as_str());
                push_str(&mut out, " is not found in schema ");
                push_str(&mut out, url.as_str());
            },
            CompileError::UnsupprtedVocabulary { url, vocabulary } => {
                push_str(&mut out, "unsupported vocabulary ");
                push_str(&mut out, vocabulary.as_str());
                push_str(&mut out, " in ");
                push_str(&mut out, url.as_str());
            },
            CompileError::InvalidRegex { url, regex, src } => {
                push_str(&mut out, "invalid regex ");
                push_str(&mut out, quote(regex.as_str()).as_str());
                push_str(&mut out, " at ");
                push_str(&mut out, url.as_str());
                if alternate {
                    push_str(&mut out, ": ");
                    push_str(&mut out, src.as_str());
                }
            },
            CompileError::Bug(src) => {
                push_str(&mut out, "encountered bug in jsonschema compiler. please report: ");
                push_str(&mut out, src.as_str());
            },
        }
        proof {
            assert(out@ =~= spec_compile_message(*self, alternate) || (alternate && self is ValidationError));
        }
        out
    }
}

} // verus!
