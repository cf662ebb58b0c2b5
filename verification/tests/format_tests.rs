use boon::compiler::{CompileStep, Compiler, PatternTranslator};
use boon::draft::Draft;
use boon::formats::{
    check_date, check_date_time, check_duration, check_email, check_hostname, check_idn_hostname, check_iri,
    check_iri_reference, check_json_pointer, check_period, check_relative_json_pointer, check_time, check_uri,
    check_uri_reference, check_uri_template, check_uuid, validate_uuid, EmailCheck, BuiltinFormat,
};
use boon::json::{push_json_text, JsonNumber, JsonValue};
use boon::outside::Pattern;
use boon::root::Root;
use boon::schema::{SchemaIndex, Schemas};
use boon::util::JsonPointer;
use boon::validator::Hooks;

fn number(n: &serde_json::Number) -> JsonNumber {
    let f = n.as_f64().unwrap_or(0.0);
    let g = if f == 0.0 { 0.0 } else { f };
    let bits = g.to_bits();
    let order_key = if bits >> 63 == 1 { !bits } else { bits | (1u64 << 63) };
    JsonNumber {
        text: n.to_string(),
        as_u64: n.as_u64(),
        as_i64: n.as_i64(),
        order_key,
        float_is_integer: f.fract() == 0.0,
        float_as_usize: if f.is_sign_positive() && f.fract() == 0.0 { Some(f as usize) } else { None },
    }
}

fn value(v: &serde_json::Value) -> JsonValue {
    match v {
        serde_json::Value::Null => JsonValue::Null,
        serde_json::Value::Bool(b) => JsonValue::Bool(*b),
        serde_json::Value::Number(n) => JsonValue::Number(number(n)),
        serde_json::Value::String(s) => JsonValue::String(s.clone()),
        serde_json::Value::Array(a) => JsonValue::Array(a.iter().map(value).collect()),
        serde_json::Value::Object(o) => {
            JsonValue::Object(o.iter().map(|(k, v)| (k.clone(), value(v))).collect())
        }
    }
}

fn parse(text: &str) -> JsonValue {
    let v: serde_json::Value = serde_json::from_str(text).unwrap();
    value(&v)
}

struct Plain;

impl PatternTranslator for Plain {
    fn translate(&self, pattern: &str) -> Result<String, String> {
        Ok(pattern.to_string())
    }
}

struct NoHooks;

impl Hooks for NoHooks {
    fn decodes(&self, id: usize, s: String) -> bool {
        self.decode(id, &s).is_ok()
    }

    fn format_ok(&self, id: usize, v: JsonValue) -> bool {
        self.check_format(id, &v).is_ok()
    }

    fn check_format(&self, _id: usize, _v: &JsonValue) -> Result<(), String> {
        Ok(())
    }
    fn is_multiple_of(&self, _num: &JsonNumber, _by: &JsonNumber) -> bool {
        true
    }
    fn decode(&self, _id: usize, _s: &String) -> Result<Vec<u8>, String> {
        Err("no decoder".to_string())
    }
    fn check_media_type(&self, _id: usize, bytes: &Vec<u8>, _deserialize: bool) -> Result<Option<JsonValue>, String> {
        match serde_json::from_slice::<serde_json::Value>(bytes) {
            Ok(v) => Ok(Some(value(&v))),
            Err(e) => Err(e.to_string()),
        }
    }
}

fn compile_with(c: &Compiler, text: &str) -> (Schemas, SchemaIndex) {
    let url = "http://tmp/schema.json";
    let doc = parse(text);
    let mut resources = Vec::new();
    Draft::V2020_12.collect_resources(&doc, url, JsonPointer(String::new()), url, &mut resources).unwrap();
    let mut roots = vec![Root { draft: Draft::V2020_12, url: url.to_string(), doc, resources, meta_vocabs: None }];
    let mut schemas = Schemas::new();
    let (idx, mut queue) = c.start(&schemas, url, &roots).unwrap();
    let mut compiled = Vec::new();
    loop {
        match c.compile_next(&schemas, &mut queue, &mut compiled, &mut roots, &Plain).unwrap() {
            CompileStep::Done => break,
            CompileStep::Compiled => {}
            CompileStep::NeedRoot(u) => panic!("no document at {u}"),
        }
    }
    schemas.insert(compiled);
    (schemas, idx)
}

#[test]
fn dates_and_times() {
    assert!(check_date("2020-02-29").is_ok());
    assert!(check_date("2019-02-29").is_err());
    assert!(check_date("2020-1-01").is_err());
    assert!(check_time("23:59:60Z").is_ok());
    assert!(check_time("12:00:00+05:30").is_ok());
    assert!(check_time("24:00:00Z").is_err());
    assert!(check_date_time("2020-12-31T23:59:59.5Z").is_ok());
    assert!(check_date_time("2020-12-31 23:59:59Z").is_err());
    assert!(check_duration("P1Y2M3DT4H5M6S").is_ok());
    assert!(check_duration("P1W").is_ok());
    assert!(check_duration("PT").is_err());
    assert!(check_period("2020-01-01T00:00:00Z/P1D").is_ok());
    assert!(check_period("P1D").is_err());
}

#[test]
fn hostnames_and_emails() {
    assert!(check_hostname("example.com").is_ok());
    assert!(check_hostname("-bad.com").is_err());
    assert!(check_idn_hostname("bücher.de").is_ok());
    assert!(check_idn_hostname("xn--bcher-kva.de").is_ok());
    assert!(check_idn_hostname("a..b").is_err());
    assert!(matches!(check_email("joe@example.com"), EmailCheck::Valid));
    assert!(matches!(check_email("joe.@example.com"), EmailCheck::Invalid(_)));
    assert!(matches!(check_email("joe"), EmailCheck::Invalid(_)));
    match check_email("joe@[IPv6:::1]") {
        EmailCheck::IpLiteral { v6, addr } => {
            assert!(v6);
            assert_eq!(addr, "::1");
        }
        _ => panic!("want an IP literal"),
    }
}

#[test]
fn pointers_uris_and_uuids() {
    assert!(check_json_pointer("/a/b~0").is_ok());
    assert!(check_json_pointer("a").is_err());
    assert!(check_json_pointer("/a~2").is_err());
    assert!(check_relative_json_pointer("0/a").is_ok());
    assert!(check_relative_json_pointer("1#").is_ok());
    assert!(check_relative_json_pointer("01").is_err());
    assert!(check_uri("http://example.com/a?b#c").is_ok());
    assert!(check_uri("/relative").is_err());
    assert!(check_uri_reference("/relative").is_ok());
    assert!(check_uri_reference("http://[bad").is_err());
    assert!(check_iri("http://ex.com/ü").is_ok());
    assert!(check_iri("ü").is_err());
    assert!(check_iri_reference("ü").is_ok());
    assert!(check_uri_template("http://ex.com/{id}").is_ok());
    assert!(check_uri_template("http://ex.com/{id").is_err());
    assert!(check_uuid("2eb8aa08-aa98-11ea-b4aa-73b441d16380").is_ok());
    assert!(check_uuid("2eb8aa08-aa98-11ea-b4aa-73b441d1638").is_err());
    assert!(check_uuid("2eb8aa08aa9811eab4aa73b441d16380").is_err());
}

#[test]
fn builtin_formats_by_name() {
    assert_eq!(BuiltinFormat::from_name("date"), Some(BuiltinFormat::Date));
    assert_eq!(BuiltinFormat::from_name("uuid"), Some(BuiltinFormat::Uuid));
    let f = BuiltinFormat::from_name("ipv4");
    assert!(f.is_none());
    assert!(BuiltinFormat::Date.check(&parse("5")).is_ok());
    assert!(BuiltinFormat::Date.check(&parse(r#""x""#)).is_err());
}

#[test]
fn patterns() {
    let p = Pattern::new("^a+b$").unwrap();
    assert!(p.is_match("aab"));
    assert!(!p.is_match("ba"));
    assert_eq!(p.as_str(), "^a+b$");
    assert!(Pattern::new("(").is_err());
}

#[test]
fn json_text() {
    let v = parse(r#"{"a": "q\"x", "b": [1, true, null]}"#);
    let mut out = String::new();
    push_json_text(&mut out, &v);
    assert_eq!(out, r#"{"a":"q\"x","b":[1,true,null]}"#);
}

#[test]
fn base64_content() {
    let mut c = Compiler::new();
    c.enable_content_assertions();
    let (schemas, idx) = compile_with(&c, r#"{"contentEncoding": "base64", "contentMediaType": "application/json"}"#);
    // "eyJhIjoxfQ==" is {"a":1}
    assert!(schemas.validate(&parse(r#""eyJhIjoxfQ==""#), idx, &NoHooks).is_ok());
    assert!(schemas.validate(&parse(r#""not base64!""#), idx, &NoHooks).is_err());
    // "bm90IGpzb24=" is "not json"
    assert!(schemas.validate(&parse(r#""bm90IGpzb24=""#), idx, &NoHooks).is_err());
}

#[test]
fn date_fields_are_digits_only() {
    assert!(check_date("2020-+1-01").is_err());
    assert!(check_date("+020-01-01").is_err());
    assert!(check_date("2020-01-+1").is_err());
    assert!(check_date("2020-01-01").is_ok());
    assert!(check_time("+1:00:00Z").is_err());
    assert!(check_time("10:00:00+0:00").is_err());
    assert!(check_time("10:00:00Z").is_ok());
}

#[test]
fn middle_dot_between_ls() {
    assert!(check_idn_hostname("l\u{00B7}al").is_err());
    assert!(check_idn_hostname("l\u{00B7}l").is_ok());
    assert!(check_idn_hostname("a\u{00B7}l").is_err());
}

#[test]
fn uuid_with_extra_group_fails() {
    let v = JsonValue::String("2eb8aa08-aa98-11ea-b4aa-73b441d16380-00".to_string());
    assert!(validate_uuid(&v).is_err());
    let w = JsonValue::String("2eb8aa08-aa98-11ea-b4aa-73b441d16380".to_string());
    assert!(validate_uuid(&w).is_ok());
    assert!(validate_uuid(&JsonValue::Null).is_ok());
}

#[test]
fn json_text_escapes_strings() {
    let mut out = String::new();
    push_json_text(&mut out, &JsonValue::String("a\"b\\c\n\u{1}\u{1f}/é".to_string()));
    assert_eq!(out, "\"a\\\"b\\\\c\\n\\u0001\\u001f/é\"");
}
