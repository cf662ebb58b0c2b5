//! The JSON data model the library validates.

use vstd::prelude::*;
use crate::text::{chars_of, str_eq};

verus! {

/// A JSON number, held as the plain facts that validation reads of it.
///
/// A number has an exact integer reading when it fits `u64` or `i64`;
/// every number also has a binary floating-point reading, of which only
/// ordering, equality and integrality are kept here.
#[derive(Debug)]
pub struct JsonNumber {
    /// Its rendering, used in messages.
    pub text: String,
    /// Its value, when it is an integer that fits `u64`.
    pub as_u64: Option<u64>,
    /// Its value, when it is an integer that fits `i64`.
    pub as_i64: Option<i64>,
    /// A key that orders numbers as their floating-point readings are
    /// ordered, and is equal exactly when those readings are equal.
    pub order_key: u64,
    /// Whether the floating-point reading has no fractional part.
    pub float_is_integer: bool,
    /// The floating-point reading as a `usize` (saturating), when it is a
    /// non-negative whole number.
    pub float_as_usize: Option<usize>,
}

/// A JSON value. An object keeps its members in order, each key once.
#[derive(Debug)]
pub enum JsonValue {
    Null,
    Bool(bool),
    Number(JsonNumber),
    String(String),
    Array(Vec<JsonValue>),
    Object(Vec<(String, JsonValue)>),
}

/// JSON data types for JSON-Schema.
#[derive(PartialEq, Eq, Structural, Clone, Copy, Debug)]
pub enum Type {
    Null,
    Bool,
    Number,
    /// Matches any number with a zero fractional part.
    Integer,
    String,
    Array,
    Object,
}

/// The type of a value (`Integer` is never the type of a value).
pub open spec fn spec_type_of(v: JsonValue) -> Type {
    match v {
        JsonValue::Null => Type::Null,
        JsonValue::Bool(_) => Type::Bool,
        JsonValue::Number(_) => Type::Number,
        JsonValue::String(_) => Type::String,
        JsonValue::Array(_) => Type::Array,
        JsonValue::Object(_) => Type::Object,
    }
}

/// The name a schema uses for a type.
pub open spec fn spec_type_str(t: Type) -> Seq<char> {
    match t {
        Type::Null => "null"@,
        Type::Bool => "boolean"@,
        Type::Number => "number"@,
        Type::Integer => "integer"@,
        Type::String => "string"@,
        Type::Array => "array"@,
        Type::Object => "object"@,
    }
}

/// The type a schema names with `s`, if any.
pub open spec fn spec_type_from_str(s: Seq<char>) -> Option<Type> {
    if s == "null"@ {
        Some(Type::Null)
    } else if s == "boolean"@ {
        Some(Type::Bool)
    } else if s == "number"@ {
        Some(Type::Number)
    } else if s == "integer"@ {
        Some(Type::Integer)
    } else if s == "string"@ {
        Some(Type::String)
    } else if s == "array"@ {
        Some(Type::Array)
    } else if s == "object"@ {
        Some(Type::Object)
    } else {
        None
    }
}

impl Type {
    /// The type of `v`.
    pub fn of(v: &JsonValue) -> (r: Type)
        ensures
            r == spec_type_of(*v),
    {
        match v {
            JsonValue::Null => Type::Null,
            JsonValue::Bool(_) => Type::Bool,
            JsonValue::Number(_) => Type::Number,
            JsonValue::String(_) => Type::String,
            JsonValue::Array(_) => Type::Array,
            JsonValue::Object(_) => Type::Object,
        }
    }

    /// The type named `value`, as written in a schema's `type` keyword.
    pub fn from_str(value: &str) -> (r: Option<Type>)
        ensures
            r == spec_type_from_str(value@),
    {
        proof {
            reveal_strlit("null");
            reveal_strlit("boolean");
            reveal_strlit("number");
            reveal_strlit("integer");
            reveal_strlit("string");
            reveal_strlit("array");
            reveal_strlit("object");
        }
        if str_eq(value, "null") {
            Some(Type::Null)
        } else if str_eq(value, "boolean") {
            Some(Type::Bool)
        } else if str_eq(value, "number") {
            Some(Type::Number)
        } else if str_eq(value, "integer") {
            Some(Type::Integer)
        } else if str_eq(value, "string") {
            Some(Type::String)
        } else if str_eq(value, "array") {
            Some(Type::Array)
        } else if str_eq(value, "object") {
            Some(Type::Object)
        } else {
            None
        }
    }

    /// Whether a value of type `t` is neither array nor object.
    pub open spec fn spec_primitive(v: JsonValue) -> bool {
        !(v is Array || v is Object)
    }

    /// Whether `v` is neither an array nor an object.
    pub fn primitive(v: &JsonValue) -> (r: bool)
        ensures
            r == Type::spec_primitive(*v),
    {
        !matches!(Type::of(v), Type::Array | Type::Object)
    }

    /// The name of this type as written in schemas.
    pub fn to_string(&self) -> (r: String)
        ensures
            r@ == spec_type_str(*self),
    {
        let s = match self {
            Type::Null => "null",
            Type::Bool => "boolean",
            Type::Number => "number",
            Type::Integer => "integer",
            Type::String => "string",
            Type::Array => "array",
            Type::Object => "object",
        };
        let r = crate::text::concat(s, "");
        proof {
            reveal_strlit("null");
            reveal_strlit("boolean");
            reveal_strlit("number");
            reveal_strlit("integer");
            reveal_strlit("string");
            reveal_strlit("array");
            reveal_strlit("object");
            reveal_strlit("");
            assert(s@ + ""@ =~= s@);
        }
        r
    }
}

/// Whether `v` is a number with no fractional part.
pub open spec fn spec_is_integer(v: JsonValue) -> bool {
    match v {
        JsonValue::Number(n) => n.as_i64 is Some || n.as_u64 is Some || n.float_is_integer,
        _ => false,
    }
}

/// Whether `v` is a number with no fractional part.
pub fn is_integer(v: &JsonValue) -> (r: bool)
    ensures
        r == spec_is_integer(*v),
{
    match v {
        JsonValue::Number(n) => n.as_i64.is_some() || n.as_u64.is_some() || n.float_is_integer,
        _ => false,
    }
}

/// Equality of numbers: exact when both readings are `u64` or both `i64`,
/// otherwise equality of floating-point readings (so `1` equals `1.0`).
pub open spec fn num_eq(a: JsonNumber, b: JsonNumber) -> bool {
    if a.as_u64 is Some && b.as_u64 is Some {
        a.as_u64 == b.as_u64
    } else if a.as_i64 is Some && b.as_i64 is Some {
        a.as_i64 == b.as_i64
    } else {
        a.order_key == b.order_key
    }
}

/// The value stored under `key` (the first member with that key).
pub open spec fn obj_get(obj: Seq<(String, JsonValue)>, key: Seq<char>) -> Option<JsonValue>
    decreases obj.len(),
{
    if obj.len() == 0 {
        None
    } else if obj[0].0@ == key {
        Some(obj[0].1)
    } else {
        obj_get(obj.skip(1), key)
    }
}

/// JSON equality: numbers compare by value, arrays item by item, objects
/// member by member regardless of order.
pub open spec fn json_eq(a: JsonValue, b: JsonValue) -> bool
    decreases a, 1int,
{
    match (a, b) {
        (JsonValue::Null, JsonValue::Null) => true,
        (JsonValue::Bool(x), JsonValue::Bool(y)) => x == y,
        (JsonValue::Number(x), JsonValue::Number(y)) => num_eq(x, y),
        (JsonValue::String(x), JsonValue::String(y)) => x@ == y@,
        (JsonValue::Array(x), JsonValue::Array(y)) => x@.len() == y@.len() && items_eq(x@, y@),
        (JsonValue::Object(x), JsonValue::Object(y)) => x@.len() == y@.len() && members_in(x@, y@),
        _ => false,
    }
}

/// Item-wise JSON equality of two equally long sequences.
pub open spec fn items_eq(x: Seq<JsonValue>, y: Seq<JsonValue>) -> bool
    decreases x, 0int,
{
    if x.len() == 0 {
        true
    } else {
        json_eq(x[0], y[0]) && items_eq(x.skip(1), y.skip(1))
    }
}

/// Every member of `x` is present in `y` with a JSON-equal value.
pub open spec fn members_in(x: Seq<(String, JsonValue)>, y: Seq<(String, JsonValue)>) -> bool
    decreases x, 0int,
{
    if x.len() == 0 {
        true
    } else {
        match obj_get(y, x[0].0@) {
            Some(v) => json_eq(x[0].1, v) && members_in(x.skip(1), y),
            None => false,
        }
    }
}

/// The value stored under `key` in `obj`.
pub fn obj_lookup<'a>(obj: &'a Vec<(String, JsonValue)>, key: &str) -> (r: Option<&'a JsonValue>)
    ensures
        r matches Some(v) ==> obj_get(obj@, key@) == Some(*v),
        r is None ==> obj_get(obj@, key@) is None,
{
    let mut i: usize = 0;
    proof {
        assert(obj@.skip(0) =~= obj@);
    }
    while i < obj.len()
        invariant
            i <= obj@.len(),
            obj_get(obj@, key@) == obj_get(obj@.skip(i as int), key@),
        decreases obj.len() - i,
    {
        proof {
            assert(obj@.skip(i as int)[0] == obj@[i as int]);
            assert(obj@.skip(i as int).skip(1) =~= obj@.skip(i + 1));
        }
        if str_eq(obj[i].0.as_str(), key) {
            return Some(&obj[i].1);
        }
        i += 1;
    }
    None
}

/// Whether `obj` has a member named `key`.
pub fn obj_contains(obj: &Vec<(String, JsonValue)>, key: &str) -> (r: bool)
    ensures
        r == obj_get(obj@, key@) is Some,
{
    obj_lookup(obj, key).is_some()
}

/// Equality of two numbers, as `num_eq`.
pub fn number_equals(a: &JsonNumber, b: &JsonNumber) -> (r: bool)
    ensures
        r == num_eq(*a, *b),
{
    match (a.as_u64, b.as_u64) {
        (Some(x), Some(y)) => return x == y,
        _ => {},
    }
    match (a.as_i64, b.as_i64) {
        (Some(x), Some(y)) => return x == y,
        _ => {},
    }
    a.order_key == b.order_key
}

/// JSON equality of `v1` and `v2`.
pub fn equals(v1: &JsonValue, v2: &JsonValue) -> (r: bool)
    ensures
        r == json_eq(*v1, *v2),
    decreases *v1, 1int,
{
    match (v1, v2) {
        (JsonValue::Null, JsonValue::Null) => true,
        (JsonValue::Bool(x), JsonValue::Bool(y)) => *x == *y,
        (JsonValue::Number(x), JsonValue::Number(y)) => number_equals(x, y),
        (JsonValue::String(x), JsonValue::String(y)) => str_eq(x.as_str(), y.as_str()),
        (JsonValue::Array(x), JsonValue::Array(y)) => {
            if x.len() != y.len() {
                return false;
            }
            proof {
                assert(x@.skip(0) =~= x@);
                assert(y@.skip(0) =~= y@);
                assert(decreases_to!(*v1 => x@));
            }
            arr_equals(x, y, 0)
        },
        (JsonValue::Object(x), JsonValue::Object(y)) => {
            if x.len() != y.len() {
                return false;
            }
            proof {
                assert(x@.skip(0) =~= x@);
                assert(decreases_to!(*v1 => x@));
            }
            obj_equals(x, y, 0)
        },
        _ => false,
    }
}

/// `items_eq` of the suffixes of `x` and `y` from `i`.
fn arr_equals(x: &Vec<JsonValue>, y: &Vec<JsonValue>, i: usize) -> (r: bool)
    requires
        x@.len() == y@.len(),
        i <= x@.len(),
    ensures
        r == items_eq(x@.skip(i as int), y@.skip(i as int)),
    decreases x@.skip(i as int), 0int,
{
    if i == x.len() {
        return true;
    }
    proof {
        assert(x@.skip(i as int)[0] == x@[i as int]);
        assert(y@.skip(i as int)[0] == y@[i as int]);
        assert(x@.skip(i as int).skip(1) =~= x@.skip(i + 1));
        assert(y@.skip(i as int).skip(1) =~= y@.skip(i + 1));
        assert(decreases_to!(x@.skip(i as int) => x@.skip(i as int)[0]));
        assert(decreases_to!(x@.skip(i as int) => x@.skip(i + 1)));
    }
    if !equals(&x[i], &y[i]) {
        return false;
    }
    arr_equals(x, y, i + 1)
}

/// `members_in` of the suffix of `x` from `i`, in `y`.
fn obj_equals(x: &Vec<(String, JsonValue)>, y: &Vec<(String, JsonValue)>, i: usize) -> (r: bool)
    requires
        i <= x@.len(),
    ensures
        r == members_in(x@.skip(i as int), y@),
    decreases x@.skip(i as int), 0int,
{
    if i == x.len() {
        return true;
    }
    proof {
        assert(x@.skip(i as int)[0] == x@[i as int]);
        assert(x@.skip(i as int).skip(1) =~= x@.skip(i + 1));
        assert(decreases_to!(x@.skip(i as int) => x@.skip(i as int)[0]));
        assert(decreases_to!(x@.skip(i as int)[0] => x@.skip(i as int)[0].1));
        assert(decreases_to!(x@.skip(i as int) => x@.skip(i + 1)));
    }
    match obj_lookup(y, x[i].0.as_str()) {
        Some(v) => {
            if !equals(&x[i].1, v) {
                return false;
            }
            obj_equals(x, y, i + 1)
        },
        None => false,
    }
}

} // verus!


verus! {

/// Two numbers hold the same facts.
pub open spec fn same_number(a: JsonNumber, b: JsonNumber) -> bool {
    &&& a.text@ == b.text@
    &&& a.as_u64 == b.as_u64
    &&& a.as_i64 == b.as_i64
    &&& a.order_key == b.order_key
    &&& a.float_is_integer == b.float_is_integer
    &&& a.float_as_usize == b.float_as_usize
}

/// Two values are identical: same kind, same contents, members in the
/// same order.
pub open spec fn same_value(a: JsonValue, b: JsonValue) -> bool
    decreases a, 1int,
{
    match (a, b) {
        (JsonValue::Null, JsonValue::Null) => true,
        (JsonValue::Bool(x), JsonValue::Bool(y)) => x == y,
        (JsonValue::Number(x), JsonValue::Number(y)) => same_number(x, y),
        (JsonValue::String(x), JsonValue::String(y)) => x@ == y@,
        (JsonValue::Array(x), JsonValue::Array(y)) => x@.len() == y@.len() && same_items(x@, y@),
        (JsonValue::Object(x), JsonValue::Object(y)) => x@.len() == y@.len() && same_members(x@, y@),
        _ => false,
    }
}

/// Item-wise identity of two equally long sequences.
pub open spec fn same_items(x: Seq<JsonValue>, y: Seq<JsonValue>) -> bool
    decreases x, 0int,
{
    if x.len() == 0 {
        true
    } else {
        same_value(x[0], y[0]) && same_items(x.skip(1), y.skip(1))
    }
}

/// Member-wise identity of two equally long member sequences.
pub open spec fn same_members(x: Seq<(String, JsonValue)>, y: Seq<(String, JsonValue)>) -> bool
    decreases x, 0int,
{
    if x.len() == 0 {
        true
    } else {
        x[0].0@ == y[0].0@ && same_value(x[0].1, y[0].1) && same_members(x.skip(1), y.skip(1))
    }
}

/// A copy of `n`.
pub fn clone_number(n: &JsonNumber) -> (r: JsonNumber)
    ensures
        same_number(r, *n),
{
    JsonNumber {
        text: n.text.clone(),
        as_u64: n.as_u64,
        as_i64: n.as_i64,
        order_key: n.order_key,
        float_is_integer: n.float_is_integer,
        float_as_usize: n.float_as_usize,
    }
}

/// A copy of `v`.
pub fn clone_value(v: &JsonValue) -> (r: JsonValue)
    ensures
        same_value(r, *v),
    decreases *v, 1int,
{
    match v {
        JsonValue::Null => JsonValue::Null,
        JsonValue::Bool(b) => JsonValue::Bool(*b),
        JsonValue::Number(n) => JsonValue::Number(clone_number(n)),
        JsonValue::String(s) => JsonValue::String(s.clone()),
        JsonValue::Array(a) => {
            proof {
                assert(decreases_to!(*v => a@));
            }
            let mut r: Vec<JsonValue> = Vec::new();
            let mut i: usize = 0;
            while i < a.len()
                invariant
                    i <= a@.len(),
                    r@.len() == i,
                    decreases_to!(*v => a@),
                    forall|j: int| 0 <= j < i ==> same_value(#[trigger] r@[j], a@[j]),
                decreases a.len() - i,
            {
                proof {
                    assert(decreases_to!(a@ => a@[i as int]));
                }
                r.push(clone_value(&a[i]));
                i += 1;
            }
            proof {
                lemma_same_items(r@, a@);
            }
            JsonValue::Array(r)
        },
        JsonValue::Object(o) => {
            proof {
                assert(decreases_to!(*v => o@));
            }
            let mut r: Vec<(String, JsonValue)> = Vec::new();
            let mut i: usize = 0;
            while i < o.len()
                invariant
                    i <= o@.len(),
                    r@.len() == i,
                    decreases_to!(*v => o@),
                    forall|j: int| 0 <= j < i ==> (#[trigger] r@[j]).0@ == o@[j].0@ && same_value(r@[j].1, o@[j].1),
                decreases o.len() - i,
            {
                proof {
                    assert(decreases_to!(o@ => o@[i as int]));
                    assert(decreases_to!(o@[i as int] => o@[i as int].1));
                }
                let e = (o[i].0.clone(), clone_value(&o[i].1));
                r.push(e);
                i += 1;
            }
            proof {
                lemma_same_members(r@, o@);
            }
            JsonValue::Object(r)
        },
    }
}

proof fn lemma_same_items(x: Seq<JsonValue>, y: Seq<JsonValue>)
    requires
        x.len() == y.len(),
        forall|j: int| 0 <= j < x.len() ==> same_value(#[trigger] x[j], y[j]),
    ensures
        same_items(x, y),
    decreases x.len(),
{
    if x.len() > 0 {
        assert forall|j: int| 0 <= j < x.skip(1).len() implies same_value(#[trigger] x.skip(1)[j], y.skip(1)[j]) by {
            assert(x.skip(1)[j] == x[j + 1]);
            assert(y.skip(1)[j] == y[j + 1]);
        }
        lemma_same_items(x.skip(1), y.skip(1));
    }
}

proof fn lemma_same_members(x: Seq<(String, JsonValue)>, y: Seq<(String, JsonValue)>)
    requires
        x.len() == y.len(),
        forall|j: int| 0 <= j < x.len() ==> (#[trigger] x[j]).0@ == y[j].0@ && same_value(x[j].1, y[j].1),
    ensures
        same_members(x, y),
    decreases x.len(),
{
    if x.len() > 0 {
        assert forall|j: int| 0 <= j < x.skip(1).len() implies (#[trigger] x.skip(1)[j]).0@ == y.skip(1)[j].0@
            && same_value(x.skip(1)[j].1, y.skip(1)[j].1) by {
            assert(x.skip(1)[j] == x[j + 1]);
            assert(y.skip(1)[j] == y[j + 1]);
        }
        lemma_same_members(x.skip(1), y.skip(1));
    }
}

} // verus!

verus! {

/// Whether `a` has two JSON-equal items at `i < j`.
pub open spec fn dup_at(a: Seq<JsonValue>, i: int, j: int) -> bool {
    0 <= i < j < a.len() && json_eq(a[i], a[j])
}

/// The result `duplicates` gives for `a`: for at most twenty items the
/// first equal pair in the order of `(i, j)`; for more, the first item
/// equal to an earlier one, with the first such earlier item.
pub open spec fn spec_duplicates(a: Seq<JsonValue>, r: Option<(usize, usize)>) -> bool {
    match r {
        None => forall|i: int, j: int| !dup_at(a, i, j),
        Some((i, j)) => {
            &&& dup_at(a, i as int, j as int)
            &&& if a.len() <= 20 {
                forall|x: int, y: int| dup_at(a, x, y) ==> (i < x || (i == x && j <= y))
            } else {
                forall|x: int, y: int| dup_at(a, x, y) ==> (j < y || (j == y && i <= x))
            }
        },
    }
}

/// A pair of equal items of `arr`, as `spec_duplicates` says.
pub fn duplicates(arr: &Vec<JsonValue>) -> (r: Option<(usize, usize)>)
    requires
        arr@.len() > 0,
    ensures
        spec_duplicates(arr@, r),
{
    let len = arr.len();
    if len <= 20 {
        let mut i: usize = 0;
        while i < len - 1
            invariant
                len == arr@.len(),
                1 <= len <= 20,
                i <= len - 1,
                forall|x: int, y: int| x < i ==> !dup_at(arr@, x, y),
            decreases len - i,
        {
            let mut j: usize = i + 1;
            while j < len
                invariant
                    len == arr@.len(),
                    1 <= len <= 20,
                    i < len - 1,
                    i + 1 <= j <= len,
                    forall|x: int, y: int| x < i ==> !dup_at(arr@, x, y),
                    forall|y: int| y < j ==> !dup_at(arr@, i as int, y),
                decreases len - j,
            {
                if equals(&arr[i], &arr[j]) {
                    return Some((i, j));
                }
                j += 1;
            }
            i += 1;
        }
        None
    } else {
        let mut i: usize = 1;
        while i < len
            invariant
                len == arr@.len(),
                len > 20,
                1 <= i <= len,
                forall|x: int, y: int| y < i ==> !dup_at(arr@, x, y),
            decreases len - i,
        {
            let mut j: usize = 0;
            while j < i
                invariant
                    len == arr@.len(),
                    len > 20,
                    1 <= i < len,
                    j <= i,
                    forall|x: int, y: int| y < i ==> !dup_at(arr@, x, y),
                    forall|x: int| x < j ==> !dup_at(arr@, x, i as int),
                decreases i - j,
            {
                if equals(&arr[j], &arr[i]) {
                    return Some((j, i));
                }
                j += 1;
            }
            i += 1;
        }
        None
    }
}

} // verus!

verus! {

/// The compact JSON text of `v`, members in their order.
pub open spec fn spec_json_text(v: JsonValue) -> Seq<char>
    decreases v, 1int,
{
    match v {
        JsonValue::Null => "null"@,
        JsonValue::Bool(b) => if b { "true"@ } else { "false"@ },
        JsonValue::Number(n) => n.text@,
        JsonValue::String(s) => crate::outside::spec_json_quote(s@),
        JsonValue::Array(a) => seq!['['] + items_text(a@) + seq![']'],
        JsonValue::Object(o) => seq!['{'] + members_text(o@) + seq!['}'],
    }
}

/// The JSON texts of `x`, separated by commas.
pub open spec fn items_text(x: Seq<JsonValue>) -> Seq<char>
    decreases x, 0int,
{
    if x.len() == 0 {
        seq![]
    } else if x.len() == 1 {
        spec_json_text(x[0])
    } else {
        items_text(x.subrange(0, x.len() - 1)) + seq![','] + spec_json_text(x[x.len() - 1])
    }
}

/// The JSON texts of the members `x`, separated by commas.
pub open spec fn members_text(x: Seq<(String, JsonValue)>) -> Seq<char>
    decreases x, 0int,
{
    if x.len() == 0 {
        seq![]
    } else if x.len() == 1 {
        crate::outside::spec_json_quote(x[0].0@) + seq![':'] + spec_json_text(x[0].1)
    } else {
        members_text(x.subrange(0, x.len() - 1)) + seq![','] + crate::outside::spec_json_quote(x[x.len() - 1].0@)
            + seq![':'] + spec_json_text(x[x.len() - 1].1)
    }
}

/// Appends the compact JSON text of `v` to `out`.
pub fn push_json_text(out: &mut String, v: &JsonValue)
    ensures
        final(out)@ == old(out)@ + spec_json_text(*v),
    decreases *v, 1int,
{
    match v {
        JsonValue::Null => {
            crate::text::push_str(out, "null");
            proof { reveal_strlit("null"); }
        },
        JsonValue::Bool(b) => {
            if *b {
                crate::text::push_str(out, "true");
            } else {
                crate::text::push_str(out, "false");
            }
            proof { reveal_strlit("true"); reveal_strlit("false"); }
        },
        JsonValue::Number(n) => crate::text::push_str(out, n.text.as_str()),
        JsonValue::String(s) => {
            let q = crate::outside::json_quote(s.as_str());
            crate::text::push_str(out, q.as_str());
        },
        JsonValue::Array(a) => {
            proof {
                assert(decreases_to!(*v => a@));
            }
            crate::text::push_char(out, '[');
            let ghost start = out@;
            let mut i: usize = 0;
            proof {
                assert(a@.take(0) =~= Seq::<JsonValue>::empty());
                assert(start + Seq::<char>::empty() =~= start);
            }
            while i < a.len()
                invariant
                    i <= a@.len(),
                    decreases_to!(*v => a@),
                    out@ == start + items_text(a@.take(i as int)),
                decreases a.len() - i,
            {
                proof {
                    assert(decreases_to!(a@ => a@[i as int]));
                }
                if i > 0 {
                    crate::text::push_char(out, ',');
                }
                push_json_text(out, &a[i]);
                proof {
                    let t = a@.take(i + 1);
                    assert(t.subrange(0, t.len() - 1) =~= a@.take(i as int));
                    assert(t[t.len() - 1] == a@[i as int]);
                    if i == 0 {
                        assert(out@ =~= start + items_text(t));
                    } else {
                        assert(out@ =~= start + items_text(t));
                    }
                }
                i += 1;
            }
            proof {
                assert(a@.take(a@.len() as int) =~= a@);
            }
            crate::text::push_char(out, ']');
            proof {
                assert(out@ =~= old(out)@ + spec_json_text(*v));
            }
        },
        JsonValue::Object(o) => {
            proof {
                assert(decreases_to!(*v => o@));
            }
            crate::text::push_char(out, '{');
            let ghost start = out@;
            let mut i: usize = 0;
            proof {
                assert(o@.take(0) =~= Seq::<(String, JsonValue)>::empty());
                assert(start + Seq::<char>::empty() =~= start);
            }
            while i < o.len()
                invariant
                    i <= o@.len(),
                    decreases_to!(*v => o@),
                    out@ == start + members_text(o@.take(i as int)),
                decreases o.len() - i,
            {
                proof {
                    assert(decreases_to!(o@ => o@[i as int]));
                    assert(decreases_to!(o@[i as int] => o@[i as int].1));
                }
                if i > 0 {
                    crate::text::push_char(out, ',');
                }
                let q = crate::outside::json_quote(o[i].0.as_str());
                crate::text::push_str(out, q.as_str());
                crate::text::push_char(out, ':');
                push_json_text(out, &o[i].1);
                proof {
                    let t = o@.take(i + 1);
                    assert(t.subrange(0, t.len() - 1) =~= o@.take(i as int));
                    assert(t[t.len() - 1] == o@[i as int]);
                    assert(out@ =~= start + members_text(t));
                }
                i += 1;
            }
            proof {
                assert(o@.take(o@.len() as int) =~= o@);
            }
            crate::text::push_char(out, '}');
            proof {
                assert(out@ =~= old(out)@ + spec_json_text(*v));
            }
        },
    }
}

} // verus!
