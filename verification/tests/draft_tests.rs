use std::collections::HashMap;

use boon::draft::{latest, Draft};
use boon::json::{JsonNumber, JsonValue};
use boon::root::{reqd_vocabs, Resource, Root};
use boon::util::JsonPointer;

fn number(n: &serde_json::Number) -> JsonNumber {
    let f = n.as_f64().unwrap_or(0.0);
    let g = if f == 0.0 { 0.0 } else { f };
    let bits = g.to_bits();
    let order_key = if bits >> 63 == 1 { !bits } else { bits | (1u64 << 63) };
    JsonNumber {
        text: n.to_string(),
        as_u64: n.as_u64(),
        as_i64: n.as_i64(),
        order_key,
        float_is_integer: f.fract() == 0.0,
        float_as_usize: if f.is_sign_positive() && f.fract() == 0.0 { Some(f as usize) } else { None },
    }
}

fn value(v: &serde_json::Value) -> JsonValue {
    match v {
        serde_json::Value::Null => JsonValue::Null,
        serde_json::Value::Bool(b) => JsonValue::Bool(*b),
        serde_json::Value::Number(n) => JsonValue::Number(number(n)),
        serde_json::Value::String(s) => JsonValue::String(s.clone()),
        serde_json::Value::Array(a) => JsonValue::Array(a.iter().map(value).collect()),
        serde_json::Value::Object(o) => {
            JsonValue::Object(o.iter().map(|(k, v)| (k.clone(), value(v))).collect())
        }
    }
}

fn parse(text: &str) -> JsonValue {
    let v: serde_json::Value = serde_json::from_str(text).unwrap();
    value(&v)
}

fn collect(d: Draft, text: &str, url: &str) -> Vec<Resource> {
    let json = parse(text);
    let mut got = Vec::new();
    d.collect_resources(&json, url, JsonPointer(String::new()), url, &mut got).unwrap();
    got
}

fn anchors_of(rs: &[Resource], ptr: &str) -> HashMap<String, String> {
    let r = rs.iter().find(|r| r.ptr.as_str() == ptr).unwrap();
    r.anchors.iter().map(|(a, p)| (a.clone(), p.as_str().to_string())).collect()
}

#[test]
fn test_from_url() {
    let tests = [
        ("http://json-schema.org/draft/2020-12/schema", Some(2020)),
        ("https://json-schema.org/draft/2020-12/schema", Some(2020)),
        ("https://json-schema.org/schema", Some(latest().version())),
        ("https://json-schema.org/draft-04/schema", Some(4)),
    ];
    for (url, version) in tests {
        let got = Draft::from_url(url).map(|d| d.version());
        assert_eq!(got, version, "for {url}");
    }
}

#[test]
fn from_url_fragments_and_unknown() {
    assert_eq!(Draft::from_url("http://json-schema.org/draft-07/schema#"), Some(Draft::V7));
    assert_eq!(Draft::from_url("http://json-schema.org/draft-07/schema#/a"), Some(Draft::V7));
    assert_eq!(Draft::from_metaschema_url("http://json-schema.org/draft-07/schema#/a"), None);
    assert_eq!(Draft::from_metaschema_url("http://json-schema.org/draft-07/schema#"), Some(Draft::V7));
    assert_eq!(Draft::from_url("http://json-schema.org/draft-05/schema"), None);
    assert_eq!(Draft::from_url("https://json-schema.org/draft/2019-09/schema"), Some(Draft::V2019_09));
    assert_eq!(Draft::from_url("http://json-schema.org/draft-06/schema"), Some(Draft::V6));
}

#[test]
fn test_collect_ids() {
    let url = "http://a.com/schema.json";
    let json = r#"{
        "id": "http://a.com/schemas/schema.json",
        "definitions": {
            "s1": { "id": "http://a.com/definitions/s1" },
            "s2": {
                "id": "../s2",
                "items": [
                    { "id": "http://c.com/item" },
                    { "id": "http://d.com/item" }
                ]
            },
            "s3": {
                "definitions": {
                    "s1": {
                        "id": "s3",
                        "items": {
                            "id": "http://b.com/item"
                        }
                    }
                }
            },
            "s4": { "id": "http://e.com/def#abcd" }
        }
    }"#;
    let want = {
        let mut m = HashMap::new();
        m.insert("", "http://a.com/schemas/schema.json");
        m.insert("/definitions/s1", "http://a.com/definitions/s1");
        m.insert("/definitions/s2", "http://a.com/s2");
        m.insert("/definitions/s3/definitions/s1", "http://a.com/schemas/s3");
        m.insert("/definitions/s3/definitions/s1/items", "http://b.com/item");
        m.insert("/definitions/s2/items/0", "http://c.com/item");
        m.insert("/definitions/s2/items/1", "http://d.com/item");
        m.insert("/definitions/s4", "http://e.com/def");
        m
    };
    let got = collect(Draft::V4, json, url);
    let got = got
        .iter()
        .map(|r| (r.ptr.as_str(), r.id.as_str()))
        .collect::<HashMap<&str, &str>>();
    assert_eq!(got, want);
}

#[test]
fn test_collect_anchors() {
    let url = "http://a.com/schema.json";
    let json = r#"{
        "$defs": {
            "s2": {
                "$id": "http://b.com",
                "$anchor": "b1",
                "items": [
                    { "$anchor": "b2" },
                    {
                        "$id": "http//c.com",
                        "items": [
                            {"$anchor": "c1"},
                            {"$dynamicAnchor": "c2"}
                        ]
                    },
                    { "$dynamicAnchor": "b3" }
                ]
            }
        }
    }"#;
    let resources = collect(Draft::V2020_12, json, url);
    assert!(anchors_of(&resources, "").is_empty());
    assert_eq!(anchors_of(&resources, "/$defs/s2"), {
        let mut want = HashMap::new();
        want.insert("b1".to_string(), "/$defs/s2".to_string());
        want.insert("b2".to_string(), "/$defs/s2/items/0".to_string());
        want.insert("b3".to_string(), "/$defs/s2/items/2".to_string());
        want
    });
    assert_eq!(anchors_of(&resources, "/$defs/s2/items/1"), {
        let mut want = HashMap::new();
        want.insert("c1".to_string(), "/$defs/s2/items/1/items/0".to_string());
        want.insert("c2".to_string(), "/$defs/s2/items/1/items/1".to_string());
        want
    });
}

#[test]
fn test_is_subschema() {
    let tests = vec![("/allOf/0", true)];
    for test in tests {
        let got = Draft::V2020_12.is_subschema(test.0);
        assert_eq!(got, test.1, "{}", test.0);
    }
}

#[test]
fn is_subschema_positions() {
    let d = Draft::V2020_12;
    assert!(d.is_subschema(""));
    assert!(d.is_subschema("/properties/a"));
    assert!(d.is_subschema("/properties/a/items"));
    assert!(d.is_subschema("/prefixItems/1/not"));
    assert!(!d.is_subschema("/properties"));
    assert!(!d.is_subschema("/allOf"));
    assert!(!d.is_subschema("/allOf/x"));
    assert!(!d.is_subschema("/foo"));
    assert!(!Draft::V4.is_subschema("/$defs/a"));
    assert!(Draft::V4.is_subschema("/definitions/a"));
    assert!(!Draft::V6.is_subschema("/if"));
    assert!(Draft::V7.is_subschema("/if"));
}

#[test]
fn duplicate_ids_are_refused() {
    let json = parse(r#"{"$defs": {"a": {"$id": "x.json"}, "b": {"$id": "x.json"}}}"#);
    let mut got = Vec::new();
    let url = "http://a.com/s.json";
    let r = Draft::V2020_12.collect_resources(&json, url, JsonPointer(String::new()), url, &mut got);
    assert!(r.is_err());
}

#[test]
fn lookup_follows_pointer() {
    let json = parse(r#"{"a": [10, {"b~/": true}]}"#);
    let p = JsonPointer("/a/1/b~0~1".to_string());
    match p.lookup(&json, "http://x.com/s.json") {
        Ok(JsonValue::Bool(true)) => {}
        other => panic!("{other:?}"),
    }
    assert!(JsonPointer("/a/2".to_string()).lookup(&json, "u").is_err());
    assert!(JsonPointer("/a/01".to_string()).lookup(&json, "u").is_ok());
    assert!(JsonPointer("/a/x".to_string()).lookup(&json, "u").is_err());
    assert!(JsonPointer("/a/1/b~2".to_string()).lookup(&json, "u").is_err());
}

#[test]
fn resolve_anchor_in_root() {
    let url = "http://a.com/schema.json";
    let text = r#"{"$defs": {"x": {"$anchor": "a1", "type": "number"}}}"#;
    let resources = collect(Draft::V2020_12, text, url);
    let root = Root { draft: Draft::V2020_12, url: url.to_string(), doc: parse(text), resources, meta_vocabs: None };
    assert_eq!(root.resolve("http://a.com/schema.json#a1").unwrap(), "http://a.com/schema.json#/$defs/x");
    assert_eq!(root.resolve("http://a.com/schema.json#/a").unwrap(), "http://a.com/schema.json#/a");
    assert!(root.resolve("http://a.com/schema.json#nope").is_err());
    assert!(root.has_vocab("core"));
    assert!(root.has_vocab("unevaluated"));
    assert!(!root.has_vocab("format"));
}

#[test]
fn vocabularies_of_metaschema() {
    let doc = parse(r#"{"$vocabulary": {
        "https://json-schema.org/draft/2020-12/vocab/core": true,
        "https://json-schema.org/draft/2020-12/vocab/applicator": true,
        "https://json-schema.org/draft/2020-12/vocab/content": false
    }}"#);
    let got = reqd_vocabs(Draft::V2020_12, "http://m.com/meta", &doc).unwrap().unwrap();
    assert_eq!(got, vec!["applicator".to_string(), "core".to_string()]);
    assert!(reqd_vocabs(Draft::V7, "http://m.com/meta", &doc).unwrap().is_none());
    let bad = parse(r#"{"$vocabulary": {"https://x.com/vocab": true}}"#);
    match reqd_vocabs(Draft::V2020_12, "http://m.com/meta", &bad) {
        Err(e) => assert_eq!(e.message(false), "unsupported vocabulary https://x.com/vocab in http://m.com/meta"),
        Ok(_) => panic!("want error"),
    }
}
