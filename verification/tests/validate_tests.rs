use boon::compiler::{CompileStep, Compiler, PatternTranslator};
use boon::draft::Draft;
use boon::errors::{CompileError, ErrorKind, ValidationError};
use boon::json::{JsonNumber, JsonValue};
use boon::root::Root;
use boon::schema::{shift_checks, Decoder, DecoderCheck, Format, FormatCheck, MediaType, Schema, SchemaIndex, Schemas};
use boon::util::{split, JsonPointer};
use boon::validator::Hooks;

fn number(n: &serde_json::Number) -> JsonNumber {
    let f = n.as_f64().unwrap_or(0.0);
    let g = if f == 0.0 { 0.0 } else { f };
    let bits = g.to_bits();
    let order_key = if bits >> 63 == 1 { !bits } else { bits | (1u64 << 63) };
    JsonNumber {
        text: n.to_string(),
        as_u64: n.as_u64(),
        as_i64: n.as_i64(),
        order_key,
        float_is_integer: f.fract() == 0.0,
        float_as_usize: if f.is_sign_positive() && f.fract() == 0.0 { Some(f as usize) } else { None },
    }
}

fn value(v: &serde_json::Value) -> JsonValue {
    match v {
        serde_json::Value::Null => JsonValue::Null,
        serde_json::Value::Bool(b) => JsonValue::Bool(*b),
        serde_json::Value::Number(n) => JsonValue::Number(number(n)),
        serde_json::Value::String(s) => JsonValue::String(s.clone()),
        serde_json::Value::Array(a) => JsonValue::Array(a.iter().map(value).collect()),
        serde_json::Value::Object(o) => {
            JsonValue::Object(o.iter().map(|(k, v)| (k.clone(), value(v))).collect())
        }
    }
}

fn parse(text: &str) -> JsonValue {
    let v: serde_json::Value = serde_json::from_str(text).unwrap();
    value(&v)
}

struct Plain;

impl PatternTranslator for Plain {
    fn translate(&self, pattern: &str) -> Result<String, String> {
        Ok(pattern.to_string())
    }
}

struct TestHooks {
    palindrome: Option<usize>,
}

impl Hooks for TestHooks {
    fn decodes(&self, id: usize, s: String) -> bool {
        self.decode(id, &s).is_ok()
    }

    fn format_ok(&self, id: usize, v: JsonValue) -> bool {
        self.check_format(id, &v).is_ok()
    }

    fn check_format(&self, id: usize, v: &JsonValue) -> Result<(), String> {
        if Some(id) == self.palindrome {
            if let JsonValue::String(s) = v {
                let r: String = s.chars().rev().collect();
                if *s != r {
                    return Err("not palindrome".to_string());
                }
            }
        }
        Ok(())
    }

    fn is_multiple_of(&self, num: &JsonNumber, by: &JsonNumber) -> bool {
        let n: f64 = num.text.parse().unwrap();
        let b: f64 = by.text.parse().unwrap();
        (n / b).fract() == 0.0
    }

    fn decode(&self, _id: usize, _s: &String) -> Result<Vec<u8>, String> {
        Err("no decoder".to_string())
    }

    fn check_media_type(&self, _id: usize, _bytes: &Vec<u8>, _deserialize: bool) -> Result<Option<JsonValue>, String> {
        Ok(None)
    }
}

fn root_of(url: &str, text: &str, draft: Draft) -> Root {
    let doc = parse(text);
    let mut resources = Vec::new();
    draft.collect_resources(&doc, url, JsonPointer(String::new()), url, &mut resources).unwrap();
    Root { draft, url: url.to_string(), doc, resources, meta_vocabs: None }
}

fn compile_in(c: &Compiler, schemas: &mut Schemas, roots: &mut Vec<Root>, loc: &str) -> Result<SchemaIndex, CompileError> {
    let (idx, mut queue) = c.start(schemas, loc, roots)?;
    let mut compiled = Vec::new();
    loop {
        match c.compile_next(schemas, &mut queue, &mut compiled, roots, &Plain)? {
            CompileStep::Done => break,
            CompileStep::Compiled => {}
            CompileStep::NeedRoot(u) => panic!("no document at {u}"),
        }
    }
    schemas.insert(compiled);
    Ok(idx)
}

fn compile_with(c: &Compiler, text: &str) -> (Schemas, SchemaIndex) {
    let url = "http://tmp/schema.json";
    let mut roots = vec![root_of(url, text, Draft::V2020_12)];
    let mut schemas = Schemas::new();
    let idx = compile_in(c, &mut schemas, &mut roots, url).unwrap();
    (schemas, idx)
}

fn compile(text: &str) -> (Schemas, SchemaIndex) {
    compile_with(&Compiler::new(), text)
}

fn check(schema: &str, instance: &str) -> Result<(), ValidationError> {
    let (schemas, idx) = compile(schema);
    schemas.validate(&parse(instance), idx, &TestHooks { palindrome: None })
}

fn leaves(e: &ValidationError, out: &mut Vec<String>) {
    if e.causes.is_empty() {
        out.push(e.kind.message());
    }
    for c in &e.causes {
        leaves(c, out);
    }
}

fn first_leaf(schema: &str, instance: &str) -> String {
    let e = check(schema, instance).unwrap_err();
    let mut out = Vec::new();
    leaves(&e, &mut out);
    out[0].clone()
}

#[test]
fn example_from_strings() {
    let (schemas, idx) = compile(r#"{"type": "object"}"#);
    let instance = parse(r#"{"foo": "bar"}"#);
    let valid = schemas.validate(&instance, idx, &TestHooks { palindrome: None }).is_ok();
    assert!(valid);
}

#[test]
fn example_custom_format() {
    let mut c = Compiler::new();
    c.enable_format_assertions();
    let id = c.register_format("palindrome");
    let (schemas, idx) = compile_with(&c, r#"{"type": "string", "format": "palindrome"}"#);
    let hooks = TestHooks { palindrome: id };
    assert!(schemas.validate(&parse(r#""step on no pets""#), idx, &hooks).is_ok());
    assert!(schemas.validate(&parse(r#""step on pets""#), idx, &hooks).is_err());
}

#[test]
fn test_compile_anchor() {
    let text = r#"{
        "$schema": "https://json-schema.org/draft/2020-12/schema",
        "$defs": {
            "x": {
                "$anchor": "a1",
                "type": "number"
            }
        }
    }"#;
    let c = Compiler::new();
    let mut roots = vec![root_of("http://tmp/schema.json", text, Draft::V2020_12)];
    let mut schemas = Schemas::new();
    let sch_index1 = compile_in(&c, &mut schemas, &mut roots, "http://tmp/schema.json#a1").unwrap();
    let sch_index2 = compile_in(&c, &mut schemas, &mut roots, "http://tmp/schema.json#/$defs/x").unwrap();
    assert_eq!(sch_index1, sch_index2);
}

#[test]
fn test_compile_nonstd() {
    let text = r##"{
        "components": {
            "schemas": {
                "foo" : {
                    "$schema": "https://json-schema.org/draft/2020-12/schema",
                    "$defs": {
                        "x": {
                            "$anchor": "a",
                            "type": "number"
                        },
                        "y": {
                            "$id": "http://temp.com/y",
                            "type": "string"
                        }
                    },
                    "oneOf": [
                        { "$ref": "#a" },
                        { "$ref": "http://temp.com/y" }
                    ]
                }
            }
        }
    }"##;
    let c = Compiler::new();
    let mut roots = vec![root_of("http://tmp/schema.json", text, Draft::V2020_12)];
    let mut schemas = Schemas::new();
    compile_in(&c, &mut schemas, &mut roots, "http://tmp/schema.json#/components/schemas/foo").unwrap();
}

#[test]
fn type_and_required() {
    assert_eq!(first_leaf(r#"{"type": "object"}"#, r#""x""#), "want object, but got string");
    assert_eq!(first_leaf(r#"{"type": ["null", "integer"]}"#, "1.5"), "want null, integer, but got number");
    assert!(check(r#"{"type": "integer"}"#, "1.0").is_ok());
    assert_eq!(first_leaf(r#"{"required": ["a", "b"]}"#, r#"{"a": 1}"#), "missing properties 'b'");
    assert!(check(r#"{"required": ["a"]}"#, "[]").is_ok());
}

#[test]
fn false_and_true_schemas() {
    assert!(check("true", "1").is_ok());
    assert!(check("{}", "1").is_ok());
    let e = check("false", "1").unwrap_err();
    assert!(matches!(e.kind, ErrorKind::Schema { .. }));
    assert_eq!(e.causes.len(), 1);
    assert!(matches!(e.causes[0].kind, ErrorKind::FalseSchema));
    assert_eq!(e.kind.message(), "validation failed with http://tmp/schema.json#");
}

#[test]
fn numbers() {
    assert_eq!(first_leaf(r#"{"minimum": 5}"#, "3"), "must be >=5, but got 3");
    assert_eq!(first_leaf(r#"{"maximum": 5}"#, "7"), "must be <=5, but got 7");
    assert_eq!(first_leaf(r#"{"exclusiveMinimum": 5}"#, "5"), "must be > 5 but got 5");
    assert_eq!(first_leaf(r#"{"exclusiveMaximum": 5}"#, "5"), "must be < 5 but got 5");
    assert_eq!(first_leaf(r#"{"multipleOf": 2}"#, "7"), "7 is not multipleOf 2");
    assert!(check(r#"{"multipleOf": 0.5}"#, "2.5").is_ok());
    assert!(check(r#"{"minimum": 5}"#, r#""a""#).is_ok());
}

#[test]
fn strings() {
    assert_eq!(first_leaf(r#"{"minLength": 3}"#, r#""ab""#), "length must be >=3, but got 2");
    assert_eq!(first_leaf(r#"{"maxLength": 1}"#, r#""éé""#), "length must be <=1, but got 2");
    assert_eq!(first_leaf(r#"{"pattern": "^a"}"#, r#""ba""#), "'ba' does not match pattern '^a'");
    assert!(check(r#"{"pattern": "^a"}"#, r#""ab""#).is_ok());
}

#[test]
fn arrays() {
    assert_eq!(first_leaf(r#"{"minItems": 2}"#, "[1]"), "minimum 2 items required, but got 1 items");
    assert_eq!(first_leaf(r#"{"maxItems": 0}"#, "[1]"), "maximum 0 items required, but got 1 items");
    assert_eq!(first_leaf(r#"{"uniqueItems": true}"#, "[1, 2, 1.0]"), "items at 0 and 2 are equal");
    assert!(check(r#"{"uniqueItems": true}"#, "[1, 2]").is_ok());
    let e = check(r#"{"contains": {"type": "string"}}"#, "[1]").unwrap_err();
    assert!(matches!(e.causes[0].kind, ErrorKind::Contains));
    assert_eq!(e.causes[0].kind.message(), "no items match contains schema");
    assert!(check(r#"{"prefixItems": [{"type": "integer"}], "items": false}"#, "[1]").is_ok());
    assert!(check(r#"{"prefixItems": [{"type": "integer"}], "items": false}"#, "[1, 2]").is_err());
    let e = check(r#"{"contains": {"type": "integer"}, "minContains": 2}"#, r#"[1, "a"]"#).unwrap_err();
    assert_eq!(e.causes[0].kind.message(), "minimum 2 items required to match contains schema, but found 1 items at 0");
}

#[test]
fn objects() {
    assert_eq!(
        first_leaf(r#"{"properties": {"a": true}, "additionalProperties": false}"#, r#"{"a": 1, "b": 2}"#),
        "additionalProperties 'b' not allowed"
    );
    assert_eq!(first_leaf(r#"{"minProperties": 2}"#, r#"{"a": 1}"#), "minimum 2 properties required, but got 1 properties");
    assert_eq!(
        first_leaf(r#"{"dependentRequired": {"a": ["b"]}}"#, r#"{"a": 1}"#),
        "properties 'b' required, if 'a' property exists"
    );
    assert!(check(r#"{"patternProperties": {"^x": {"type": "string"}}}"#, r#"{"x1": "s", "y": 1}"#).is_ok());
    assert!(check(r#"{"patternProperties": {"^x": {"type": "string"}}}"#, r#"{"x1": 1}"#).is_err());
    assert!(check(r#"{"propertyNames": {"maxLength": 1}}"#, r#"{"ab": 1}"#).is_err());
}

#[test]
fn enum_and_const() {
    assert_eq!(first_leaf(r#"{"const": 1}"#, "2"), "value must be 1");
    assert!(check(r#"{"const": 1}"#, "1.0").is_ok());
    assert_eq!(first_leaf(r#"{"enum": [1, "a"]}"#, "2"), r#"value must be one of Number(1) or String("a")"#);
    assert!(check(r#"{"enum": [{"a": [1]}]}"#, r#"{"a": [1.0]}"#).is_ok());
}

#[test]
fn combinators() {
    assert!(check(r#"{"allOf": [{"type": "integer"}, {"minimum": 1}]}"#, "2").is_ok());
    assert!(check(r#"{"allOf": [{"type": "integer"}, {"minimum": 1}]}"#, "0").is_err());
    assert_eq!(first_leaf(r#"{"anyOf": [{"type": "string"}, {"type": "null"}]}"#, "1"), "want string, but got number");
    assert!(check(r#"{"anyOf": [{"type": "string"}, {"type": "null"}]}"#, "null").is_ok());
    let e = check(r#"{"oneOf": [{"type": "integer"}, {"minimum": 0}]}"#, "1").unwrap_err();
    assert!(matches!(e.causes[0].kind, ErrorKind::OneOf(Some((0, 1)))));
    assert!(check(r#"{"not": {"type": "string"}}"#, "1").is_ok());
    assert_eq!(first_leaf(r#"{"not": {"type": "string"}}"#, r#""s""#), "not failed");
    assert!(check(r#"{"if": {"type": "integer"}, "then": {"minimum": 5}, "else": {"type": "string"}}"#, "7").is_ok());
    assert!(check(r#"{"if": {"type": "integer"}, "then": {"minimum": 5}, "else": {"type": "string"}}"#, "3").is_err());
    assert!(check(r#"{"if": {"type": "integer"}, "then": {"minimum": 5}, "else": {"type": "string"}}"#, "true").is_err());
}

#[test]
fn references() {
    let schema = r##"{"$defs": {"pos": {"type": "integer", "minimum": 1}}, "properties": {"a": {"$ref": "#/$defs/pos"}}}"##;
    assert!(check(schema, r#"{"a": 3}"#).is_ok());
    let e = check(schema, r#"{"a": 0}"#).unwrap_err();
    let mut out = Vec::new();
    leaves(&e, &mut out);
    assert_eq!(out, vec!["must be >=1, but got 0".to_string()]);
    let recursive = r##"{"type": "array", "items": {"$ref": "#"}}"##;
    assert!(check(recursive, "[[[]], []]").is_ok());
    assert!(check(recursive, "[[1]]").is_err());
}

#[test]
fn unevaluated() {
    let schema = r#"{"properties": {"a": true}, "unevaluatedProperties": false}"#;
    assert!(check(schema, r#"{"a": 1}"#).is_ok());
    assert!(check(schema, r#"{"a": 1, "b": 2}"#).is_err());
    let schema = r#"{"allOf": [{"properties": {"a": true}}], "unevaluatedProperties": false}"#;
    assert!(check(schema, r#"{"a": 1}"#).is_ok());
    let items = r#"{"prefixItems": [true], "unevaluatedItems": false}"#;
    assert!(check(items, "[1]").is_ok());
    assert!(check(items, "[1, 2]").is_err());
}

#[test]
fn builtin_formats_need_assertions() {
    assert!(check(r#"{"format": "date"}"#, r#""2020-13-01""#).is_ok());
    let mut c = Compiler::new();
    c.enable_format_assertions();
    let (schemas, idx) = compile_with(&c, r#"{"format": "date"}"#);
    let hooks = TestHooks { palindrome: None };
    assert!(schemas.validate(&parse(r#""2020-12-31""#), idx, &hooks).is_ok());
    assert!(schemas.validate(&parse(r#""2020-13-01""#), idx, &hooks).is_err());
    assert!(schemas.validate(&parse("5"), idx, &hooks).is_ok());
}

#[test]
fn error_locations_and_outputs() {
    let (schemas, idx) = compile(r#"{"properties": {"a": {"items": {"type": "string"}}}}"#);
    let e = schemas.validate(&parse(r#"{"a": ["x", 1]}"#), idx, &TestHooks { palindrome: None }).unwrap_err();
    let mut leaf = &e;
    while !leaf.causes.is_empty() {
        leaf = &leaf.causes[0];
    }
    assert_eq!(leaf.instance_location.to_string(), "/a/1");
    assert_eq!(leaf.kind.keyword_path().unwrap().to_string(), "type");
    assert_eq!(leaf.absolute_keyword_location().to_string(), "http://tmp/schema.json#/properties/a/items/type");
    assert!(!e.flag_output().valid);
    let basic = e.basic_output();
    assert!(!basic.valid);
    let listing = e.to_string();
    assert!(listing.starts_with("jsonschema validation failed with http://tmp/schema.json#"));
    assert!(listing.contains("want string, but got number"));
    let detailed = e.detailed_output();
    assert!(!detailed.valid);
}

#[test]
fn compile_errors_have_messages() {
    let e = CompileError::DuplicateId { url: "u".into(), id: "i".into(), ptr1: "/a".into(), ptr2: "/b".into() };
    assert_eq!(e.message(false), r#"duplicate $id i in u at "/a" and "/b""#);
    let e = CompileError::ParseUrlError { url: "u".into(), src: "bad".into() };
    assert_eq!(e.message(false), "error parsing u");
    assert_eq!(e.message(true), "error parsing url u: bad");
    let e = CompileError::InvalidRegex { url: "u".into(), regex: "(".into(), src: "unclosed".into() };
    assert_eq!(e.message(true), "invalid regex '(' at u: unclosed");
}

#[test]
fn anchor_not_found_is_an_error() {
    let c = Compiler::new();
    let mut roots = vec![root_of("http://tmp/s.json", r##"{"$ref": "#nope"}"##, Draft::V2020_12)];
    let mut schemas = Schemas::new();
    assert!(compile_in(&c, &mut schemas, &mut roots, "http://tmp/s.json").is_err());
}

#[test]
fn split_of_location() {
    assert_eq!(split("http://tmp/schema.json#/a").1, "/a");
}

#[test]
fn compiling_again_reuses_the_index() {
    let c = Compiler::new();
    let url = "http://tmp/schema.json";
    let mut roots = vec![root_of(url, r#"{"type": "integer"}"#, Draft::V2020_12)];
    let mut schemas = Schemas::new();
    let first = compile_in(&c, &mut schemas, &mut roots, url).unwrap();
    let (again, queue) = c.start(&schemas, url, &roots).unwrap();
    assert_eq!(first, again);
    assert!(queue.is_empty());
    let (other, queue) = c.start(&schemas, "http://tmp/schema.json#/x", &roots).unwrap();
    assert_eq!(other.0, schemas.list.len());
    assert_eq!(queue, vec!["http://tmp/schema.json#/x".to_string()]);
}

#[test]
fn equality_is_symmetric_on_examples() {
    let pairs = [
        (r#"{"a": [1, {"b": 2.0}], "c": null}"#, r#"{"c": null, "a": [1.0, {"b": 2}]}"#),
        ("[1, 2]", "[1.0, 2.0]"),
        (r#""x""#, r#""x""#),
    ];
    for (a, b) in pairs {
        let (a, b) = (parse(a), parse(b));
        assert!(boon::json::equals(&a, &b));
        assert!(boon::json::equals(&b, &a));
    }
}

#[test]
fn flat_schema_accepts_exactly_what_its_keywords_admit() {
    let schema = r#"{"type": "object", "required": ["a"], "maxProperties": 2, "additionalProperties": false}"#;
    assert!(check(schema, r#"{"a": 1}"#).is_err());
    let schema = r#"{"type": "object", "required": ["a"], "maxProperties": 2}"#;
    assert!(check(schema, r#"{"a": 1}"#).is_ok());
    assert!(check(schema, r#"{"a": 1, "b": 2, "c": 3}"#).is_err());
    assert!(check(schema, r#"{"b": 2}"#).is_err());
    assert!(check(r#"{"type": "string", "minLength": 1, "maxLength": 3}"#, r#""abc""#).is_ok());
    assert!(check(r#"{"type": "string", "minLength": 1, "maxLength": 3}"#, r#""""#).is_err());
}

#[test]
fn reference_cycle_is_reported() {
    let schema = r##"{"$defs": {"a": {"$ref": "#/$defs/b"}, "b": {"$ref": "#/$defs/a"}}, "$ref": "#/$defs/a"}"##;
    let e = check(schema, "1").unwrap_err();
    assert!(has_cycle(&e));
}

fn has_cycle(e: &ValidationError) -> bool {
    matches!(e.kind, ErrorKind::RefCycle { .. }) || e.causes.iter().any(has_cycle)
}

fn check_draft(draft: Draft, schema: &str, instance: &str) -> Result<(), ValidationError> {
    let url = "http://tmp/schema.json";
    let mut roots = vec![root_of(url, schema, draft)];
    let mut schemas = Schemas::new();
    let idx = compile_in(&Compiler::new(), &mut schemas, &mut roots, url).unwrap();
    schemas.validate(&parse(instance), idx, &TestHooks { palindrome: None })
}

#[test]
fn draft4_exclusive_bounds_are_flags() {
    let schema = r#"{"maximum": 5, "exclusiveMaximum": true, "minimum": 1, "exclusiveMinimum": false}"#;
    assert!(check_draft(Draft::V4, schema, "4.5").is_ok());
    assert!(check_draft(Draft::V4, schema, "5").is_err());
    assert!(check_draft(Draft::V4, schema, "1").is_ok());
    assert!(check_draft(Draft::V4, schema, "0.5").is_err());
    let later = r#"{"exclusiveMaximum": 5, "exclusiveMinimum": 1}"#;
    assert!(check_draft(Draft::V7, later, "3").is_ok());
    assert!(check_draft(Draft::V7, later, "5").is_err());
    assert!(check_draft(Draft::V7, later, "1").is_err());
}

#[test]
fn type_lists_and_enum_types() {
    let schema = r#"{"type": ["string", "null"], "enum": ["a", null, 1]}"#;
    assert!(check(schema, r#""a""#).is_ok());
    assert!(check(schema, "null").is_ok());
    assert!(check(schema, "1").is_err());
    assert!(check(schema, r#""b""#).is_err());
}

#[test]
fn listing_of_errors() {
    let (schemas, idx) = compile(r#"{"properties": {"a": {"items": {"type": "string"}}}}"#);
    let e = schemas.validate(&parse(r#"{"a": ["x", 1]}"#), idx, &TestHooks { palindrome: None }).unwrap_err();
    assert_eq!(
        e.to_string(),
        "jsonschema validation failed with http://tmp/schema.json#\n- at '/a/1': want string, but got number"
    );
    assert_eq!(
        e.to_string_alternate(),
        "jsonschema validation failed with http://tmp/schema.json#\n- at '/a/1' [S#/properties/a/items/type]: want string, but got number"
    );
}

#[test]
fn output_units_carry_keyword_locations() {
    let (schemas, idx) = compile(r##"{"$defs": {"pos": {"minimum": 1}}, "properties": {"a": {"$ref": "#/$defs/pos"}}}"##);
    let e = schemas.validate(&parse(r#"{"a": 0}"#), idx, &TestHooks { palindrome: None }).unwrap_err();
    let basic = e.basic_output();
    match &basic.error {
        boon::output::OutputError::Branch(units) => {
            assert_eq!(units.len(), 1);
            assert_eq!(units[0].keyword_location, "/properties/a/$ref/minimum");
            let abs = units[0].absolute_keyword_location.as_ref().unwrap();
            assert_eq!(abs.to_string(), "http://tmp/schema.json#/$defs/pos/minimum");
            assert_eq!(units[0].instance_location.to_string(), "/a");
        }
        _ => panic!("want units"),
    }
    let detailed = e.detailed_output();
    match &detailed.error {
        boon::output::OutputError::Branch(units) => {
            assert_eq!(units.len(), 1);
            assert_eq!(units[0].keyword_location, "/properties/a/$ref/minimum");
        }
        _ => panic!("want units"),
    }
}

#[test]
fn not_and_one_of_reject() {
    assert!(check(r#"{"not": {}}"#, "1").is_err());
    assert!(check(r#"{"not": true}"#, r#""s""#).is_err());
    assert!(check(r#"{"oneOf": [{}, {"type": "string"}]}"#, r#""a""#).is_err());
    assert!(check(r#"{"oneOf": [{}, {"type": "string"}]}"#, "1").is_ok());
    let e = check(r#"{"oneOf": [{"type": "string"}, {"type": "number"}]}"#, "true").unwrap_err();
    assert!(matches!(e.causes[0].kind, ErrorKind::OneOf(None)));
    assert_eq!(e.causes[0].causes.len(), 2);
    let e = check(r#"{"oneOf": [true, {"type": "number"}, true]}"#, "1").unwrap_err();
    assert!(matches!(e.causes[0].kind, ErrorKind::OneOf(Some((0, 1)))));
}

#[test]
fn documents_checked_against_a_metaschema() {
    let (metas, meta) = compile(r#"{"type": "object", "required": ["type"]}"#);
    let hooks = TestHooks { palindrome: None };
    let ok = boon::validator::validate_against_metaschema(&metas, "http://tmp/s.json", &parse(r#"{"type": "string"}"#), meta, &hooks);
    assert!(ok.is_ok());
    let bad = boon::validator::validate_against_metaschema(&metas, "http://tmp/s.json", &parse(r#"{"minimum": 1}"#), meta, &hooks);
    match bad {
        Err(CompileError::ValidationError { url, src }) => {
            assert_eq!(url, "http://tmp/s.json#");
            assert!(matches!(src.kind, ErrorKind::Schema { .. }));
            assert_eq!(src.causes.len(), 1);
        }
        _ => panic!("want a validation error"),
    }
}

#[test]
fn additional_properties_keyword_path() {
    let k = ErrorKind::AdditionalProperties { got: vec!["b".to_string()] };
    assert_eq!(k.keyword_path().map(|p| p.keyword), Some("additionalProperties".to_string()));
    let e = check(r#"{"additionalProperties": false}"#, r#"{"b": 1}"#).unwrap_err();
    let mut leaf = &e;
    while !leaf.causes.is_empty() {
        leaf = &leaf.causes[0];
    }
    assert_eq!(leaf.absolute_keyword_location().to_string(), "http://tmp/schema.json#/additionalProperties");
}

#[test]
fn registered_check_numbers_shift() {
    let mut s = Schema::new("http://tmp/s.json#".to_string());
    s.format = Some(Format { name: "palindrome".to_string(), check: FormatCheck::Registered(2) });
    s.content_encoding = Some(Decoder { name: "hex".to_string(), check: DecoderCheck::Registered(0) });
    s.content_media_type = Some(MediaType { name: "text/x".to_string(), json_compatible: false, id: 1 });
    let t = shift_checks(s, 5, 3, 1).unwrap();
    assert!(matches!(t.format.as_ref().unwrap().check, FormatCheck::Registered(7)));
    assert_eq!(t.format.as_ref().unwrap().name, "palindrome");
    assert!(matches!(t.content_encoding.as_ref().unwrap().check, DecoderCheck::Registered(3)));
    assert_eq!(t.content_media_type.as_ref().unwrap().id, 2);
    assert_eq!(t.loc, "http://tmp/s.json#");

    let mut b = Schema::new("http://tmp/b.json#".to_string());
    b.content_encoding = Some(Decoder { name: "base64".to_string(), check: DecoderCheck::Base64 });
    let u = shift_checks(b, 5, 3, 1).unwrap();
    assert!(matches!(u.content_encoding.as_ref().unwrap().check, DecoderCheck::Base64));
    assert!(u.format.is_none());

    let mut o = Schema::new("http://tmp/o.json#".to_string());
    o.format = Some(Format { name: "big".to_string(), check: FormatCheck::Registered(usize::MAX) });
    assert!(shift_checks(o, 1, 0, 0).is_none());
}

#[test]
fn registered_decoder_failure_rejects() {
    let mut c = Compiler::new();
    c.enable_content_assertions();
    let _ = c.register_content_encoding("hex");
    let (schemas, idx) = compile_with(&c, r#"{"contentEncoding": "hex"}"#);
    let hooks = TestHooks { palindrome: None };
    assert!(schemas.validate(&parse(r#""abc""#), idx, &hooks).is_err());
    assert!(schemas.validate(&parse("1"), idx, &hooks).is_ok());
}

#[test]
fn indent_post_restores_depth() {
    let mut ind = boon::output::Indent { n: 2 };
    let mut out = String::new();
    ind.pre(&mut out);
    assert_eq!(out, "\n  - ");
    assert_eq!(ind.n, 3);
    ind.post();
    assert_eq!(ind.n, 2);
}

#[test]
fn properties_with_plain_subschemas_accept() {
    assert!(check(r#"{"properties": {"a": {"type": "string"}, "b": true}}"#, r#"{"a": "x", "b": 1, "c": 2}"#).is_ok());
    assert!(check(r#"{"properties": {"a": {"type": "string"}}}"#, r#"{"a": 1}"#).is_err());
}

#[test]
fn member_and_item_subschemas_accept() {
    let s = r#"{"prefixItems": [{"type": "string"}], "items": {"type": "number"}}"#;
    assert!(check(s, r#"["a", 1, 2]"#).is_ok());
    assert!(check(s, r#"["a", "b"]"#).is_err());
    let p = r#"{"patternProperties": {"^x": {"type": "string"}}, "additionalProperties": {"type": "number"}}"#;
    assert!(check(p, r#"{"xa": "s", "b": 1}"#).is_ok());
    assert!(check(p, r#"{"b": "s"}"#).is_err());
    let n = r#"{"propertyNames": {"maxLength": 2}}"#;
    assert!(check(n, r#"{"ab": 1}"#).is_ok());
    assert!(check(n, r#"{"abc": 1}"#).is_err());
    let f = r#"{"properties": {"d": {"format": "date"}}}"#;
    assert!(check(f, r#"{"d": "x"}"#).is_ok());
}

#[test]
fn applicators_with_plain_branches_accept() {
    let s = r#"{"allOf": [{"type": "integer"}, {"minimum": 1}], "anyOf": [{"type": "string"}, {"minimum": 0}],
        "oneOf": [{"maximum": 5}, {"minimum": 10}], "not": {"type": "string"},
        "if": {"minimum": 2}, "then": {"maximum": 4}, "else": {"const": 1}}"#;
    assert!(check(s, "3").is_ok());
    assert!(check(s, "1").is_ok());
    assert!(check(s, "7").is_err());
}

#[test]
fn reference_to_plain_schema_accepts() {
    let s = r##"{"$defs": {"a": {"type": "string"}}, "$ref": "#/$defs/a", "maxLength": 3}"##;
    assert!(check(s, r#""ab""#).is_ok());
    assert!(check(s, r#""abcd""#).is_err());
    assert!(check(s, "1").is_err());
}
